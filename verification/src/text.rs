//! Text: equality, order, decimal numerals and joining.
//!
//! Names are compared by their UTF-8 bytes, which is the order the identity
//! digests and every sorted listing in this crate are stated in.
use vstd::prelude::*;
use vstd::string::*;
use vstd::utf8::*;

verus! {

/// The decimal digit `d`, for `d < 10`.
pub open spec fn digit(d: int) -> char {
    if d == 0 {
        '0'
    } else if d == 1 {
        '1'
    } else if d == 2 {
        '2'
    } else if d == 3 {
        '3'
    } else if d == 4 {
        '4'
    } else if d == 5 {
        '5'
    } else if d == 6 {
        '6'
    } else if d == 7 {
        '7'
    } else if d == 8 {
        '8'
    } else {
        '9'
    }
}

/// `n` in decimal, without leading zeros.
pub open spec fn decimal(n: nat) -> Seq<char>
    decreases n,
{
    if n < 10 {
        seq![digit(n as int)]
    } else {
        decimal(n / 10).push(digit((n % 10) as int))
    }
}

/// `n` in decimal, with a leading `-` when it is negative.
pub open spec fn signed_decimal(n: int) -> Seq<char> {
    if n < 0 {
        seq!['-'] + decimal((-n) as nat)
    } else {
        decimal(n as nat)
    }
}

fn digit_text(d: u128) -> (r: &'static str)
    requires
        d < 10,
    ensures
        r@ == seq![digit(d as int)],
{
    proof {
        reveal_strlit("0");
        reveal_strlit("1");
        reveal_strlit("2");
        reveal_strlit("3");
        reveal_strlit("4");
        reveal_strlit("5");
        reveal_strlit("6");
        reveal_strlit("7");
        reveal_strlit("8");
        reveal_strlit("9");
    }
    let r: &'static str = if d == 0 {
        "0"
    } else if d == 1 {
        "1"
    } else if d == 2 {
        "2"
    } else if d == 3 {
        "3"
    } else if d == 4 {
        "4"
    } else if d == 5 {
        "5"
    } else if d == 6 {
        "6"
    } else if d == 7 {
        "7"
    } else if d == 8 {
        "8"
    } else {
        "9"
    };
    assert(r@ =~= seq![digit(d as int)]);
    r
}

/// Append `n` in decimal, for sums that may pass 64 bits.
pub fn push_wide_decimal(s: &mut String, n: u128)
    ensures
        final(s)@ == old(s)@ + decimal(n as nat),
    decreases n,
{
    if n < 10 {
        s.append(digit_text(n));
    } else {
        push_wide_decimal(s, n / 10);
        s.append(digit_text(n % 10));
        assert(s@ =~= old(s)@ + decimal(n as nat));
    }
}

/// Append `n` in decimal.
pub fn push_decimal(s: &mut String, n: u64)
    ensures
        final(s)@ == old(s)@ + decimal(n as nat),
{
    push_wide_decimal(s, n as u128);
}

/// `n` in decimal.
pub fn decimal_text(n: u64) -> (r: String)
    ensures
        r@ == decimal(n as nat),
{
    let mut s: String = String::new();
    push_decimal(&mut s, n);
    assert(s@ =~= decimal(n as nat));
    s
}

/// Append `n` in decimal, signed.
pub fn push_signed(s: &mut String, n: i64)
    ensures
        final(s)@ == old(s)@ + signed_decimal(n as int),
{
    if n < 0 {
        proof {
            reveal_strlit("-");
        }
        s.append("-");
        assert("-"@ =~= seq!['-']);
        let m: u64 = if n == i64::MIN {
            0x8000_0000_0000_0000u64
        } else {
            (-n) as u64
        };
        push_decimal(s, m);
        assert(s@ =~= old(s)@ + signed_decimal(n as int));
    } else {
        push_decimal(s, n as u64);
    }
}

/// A numeral holds digits only, and at least one.
pub proof fn lemma_decimal_is_digits(n: nat)
    ensures
        decimal(n).len() > 0,
        forall|i: int| 0 <= i < decimal(n).len() ==> '0' <= #[trigger] decimal(n)[i] <= '9',
    decreases n,
{
    if n >= 10 {
        lemma_decimal_is_digits(n / 10);
    }
}

/// Different numbers have different numerals.
pub proof fn lemma_decimal_identifies(a: nat, b: nat)
    requires
        a != b,
    ensures
        decimal(a) != decimal(b),
    decreases a,
{
    let x = decimal(a);
    let y = decimal(b);
    lemma_decimal_is_digits(a);
    lemma_decimal_is_digits(b);
    if x == y {
        assert(x.last() == digit((a % 10) as int));
        assert(y.last() == digit((b % 10) as int));
        assert(a % 10 == b % 10);
        if a >= 10 && b >= 10 {
            assert(a / 10 != b / 10);
            lemma_decimal_identifies(a / 10, b / 10);
            assert(x.drop_last() =~= decimal(a / 10));
            assert(y.drop_last() =~= decimal(b / 10));
        } else if a >= 10 {
            lemma_decimal_is_digits(a / 10);
            assert(x.len() >= 2 && y.len() == 1);
        } else if b >= 10 {
            lemma_decimal_is_digits(b / 10);
            assert(y.len() >= 2 && x.len() == 1);
        }
    }
}

/// The UTF-8 bytes of a text.
pub open spec fn bytes_of(s: Seq<char>) -> Seq<u8> {
    encode_utf8(s)
}

/// Two texts with the same bytes are the same text.
pub proof fn lemma_bytes_identify_text(a: Seq<char>, b: Seq<char>)
    ensures
        bytes_of(a) == bytes_of(b) ==> a == b,
{
    broadcast use encode_utf8_decode_utf8;

    if bytes_of(a) == bytes_of(b) {
        assert(decode_utf8(encode_utf8(a)) == a);
        assert(decode_utf8(encode_utf8(b)) == b);
    }
}

/// Whether two texts are the same.
pub fn same(a: &str, b: &str) -> (r: bool)
    ensures
        r == (a@ == b@),
{
    let x = a.as_bytes();
    let y = b.as_bytes();
    proof {
        lemma_bytes_identify_text(a@, b@);
    }
    if x.len() != y.len() {
        return false;
    }
    let mut i: usize = 0;
    while i < x.len()
        invariant
            x@ == bytes_of(a@),
            y@ == bytes_of(b@),
            x@.len() == y@.len(),
            i <= x@.len(),
            forall|j: int| 0 <= j < i ==> x@[j] == y@[j],
        decreases x@.len() - i,
    {
        if x[i] != y[i] {
            return false;
        }
        i = i + 1;
    }
    assert(x@ =~= y@);
    true
}

/// The characters of a text.
pub fn chars_of(s: &str) -> (r: Vec<char>)
    ensures
        r@ == s@,
{
    let mut v: Vec<char> = Vec::new();
    for c in it: s.chars()
        invariant
            it.seq() == s@,
            v@ == it.seq().take(it.index() as int),
    {
        v.push(c);
        assert(v@ =~= it.seq().take(it.index() as int + 1));
    }
    assert(v@ =~= s@);
    v
}

/// `a` and `b` agree before `k`, and at `k` either `a` ends or its byte is
/// the smaller one.
pub open spec fn parts_at(a: Seq<u8>, b: Seq<u8>, k: int) -> bool {
    &&& 0 <= k <= a.len()
    &&& k < b.len()
    &&& forall|i: int| 0 <= i < k ==> a[i] == b[i]
    &&& k == a.len() || a[k] < b[k]
}

/// Lexicographic order on bytes.
pub open spec fn bytes_before(a: Seq<u8>, b: Seq<u8>) -> bool {
    exists|k: int| parts_at(a, b, k)
}

/// Lexicographic order on texts, by their bytes.
pub open spec fn text_before(a: Seq<char>, b: Seq<char>) -> bool {
    bytes_before(bytes_of(a), bytes_of(b))
}

proof fn lemma_bytes_before_strict(a: Seq<u8>, b: Seq<u8>)
    ensures
        !(bytes_before(a, b) && bytes_before(b, a)),
        !bytes_before(a, a),
{
    if bytes_before(a, b) && bytes_before(b, a) {
        let j = choose|k: int| parts_at(a, b, k);
        let k = choose|k: int| parts_at(b, a, k);
        if j < k {
            assert(b[j] == a[j]);
        } else if k < j {
            assert(a[k] == b[k]);
        }
    }
    if bytes_before(a, a) {
        let j = choose|k: int| parts_at(a, a, k);
        assert(false);
    }
}

proof fn lemma_bytes_before_transitive(a: Seq<u8>, b: Seq<u8>, c: Seq<u8>)
    requires
        bytes_before(a, b),
        bytes_before(b, c),
    ensures
        bytes_before(a, c),
{
    let j = choose|k: int| parts_at(a, b, k);
    let k = choose|k: int| parts_at(b, c, k);
    let m = if j <= k {
        j
    } else {
        k
    };
    assert(parts_at(a, c, m));
}

proof fn lemma_bytes_before_total_from(a: Seq<u8>, b: Seq<u8>, k: int)
    requires
        0 <= k <= a.len(),
        k <= b.len(),
        forall|i: int| 0 <= i < k ==> a[i] == b[i],
    ensures
        a == b || bytes_before(a, b) || bytes_before(b, a),
    decreases a.len() - k,
{
    if k == a.len() && k == b.len() {
        assert(a =~= b);
    } else if k == a.len() {
        assert(parts_at(a, b, k));
    } else if k == b.len() {
        assert(parts_at(b, a, k));
    } else if a[k] < b[k] {
        assert(parts_at(a, b, k));
    } else if b[k] < a[k] {
        assert(parts_at(b, a, k));
    } else {
        lemma_bytes_before_total_from(a, b, k + 1);
    }
}

/// The order on texts is strict: nothing precedes itself, and no two texts
/// precede each other.
pub proof fn lemma_text_before_strict(a: Seq<char>, b: Seq<char>)
    ensures
        !(text_before(a, b) && text_before(b, a)),
        !text_before(a, a),
{
    lemma_bytes_before_strict(bytes_of(a), bytes_of(b));
}

/// The order on texts is transitive.
pub proof fn lemma_text_before_transitive(a: Seq<char>, b: Seq<char>, c: Seq<char>)
    requires
        text_before(a, b),
        text_before(b, c),
    ensures
        text_before(a, c),
{
    lemma_bytes_before_transitive(bytes_of(a), bytes_of(b), bytes_of(c));
}

/// Of two different texts one precedes the other.
pub proof fn lemma_text_before_total(a: Seq<char>, b: Seq<char>)
    ensures
        a == b || text_before(a, b) || text_before(b, a),
{
    lemma_bytes_before_total_from(bytes_of(a), bytes_of(b), 0);
    lemma_bytes_identify_text(a, b);
}

/// Whether `a` precedes `b`.
pub fn before(a: &str, b: &str) -> (r: bool)
    ensures
        r == text_before(a@, b@),
{
    let x = a.as_bytes();
    let y = b.as_bytes();
    let mut i: usize = 0;
    while i < x.len() && i < y.len()
        invariant
            x@ == bytes_of(a@),
            y@ == bytes_of(b@),
            i <= x@.len(),
            i <= y@.len(),
            forall|j: int| 0 <= j < i ==> x@[j] == y@[j],
        decreases x@.len() - i,
    {
        if x[i] < y[i] {
            assert(parts_at(x@, y@, i as int));
            return true;
        }
        if y[i] < x[i] {
            assert(parts_at(y@, x@, i as int));
            proof {
                lemma_text_before_strict(a@, b@);
            }
            return false;
        }
        i = i + 1;
    }
    if i < y.len() {
        assert(parts_at(x@, y@, i as int));
        true
    } else {
        proof {
            if text_before(a@, b@) {
                let k = choose|k: int| parts_at(x@, y@, k);
                assert(false);
            }
        }
        false
    }
}

/// The number some decimal digits write.
pub open spec fn number_of(s: Seq<char>) -> int
    decreases s.len(),
{
    if s.len() == 0 {
        0
    } else {
        10 * number_of(s.drop_last()) + (s.last() as int - '0' as int)
    }
}

/// **A numeral reads back as its number**, without a leading zero.
pub proof fn law_a_numeral_reads_back(n: nat)
    ensures
        number_of(decimal(n)) == n,
        n > 0 ==> decimal(n)[0] != '0',
        n < 10 ==> decimal(n).len() == 1,
        n >= 10 ==> decimal(n).len() > 1,
        forall|i: int| 0 <= i < decimal(n).len() ==> '0' <= #[trigger] decimal(n)[i] <= '9',
    decreases n,
{
    lemma_decimal_is_digits(n);
    let s = decimal(n);
    if n < 10 {
        assert(s.drop_last() =~= Seq::<char>::empty());
        assert(number_of(s.drop_last()) == 0);
    } else {
        law_a_numeral_reads_back(n / 10);
        assert(s.drop_last() =~= decimal(n / 10));
        assert(s[0] == decimal(n / 10)[0]);
        assert(s.last() as int - '0' as int == n % 10);
    }
}

/// **A negative number is written with its sign before its size.**
pub proof fn law_a_sign_is_written(n: int)
    ensures
        n >= 0 ==> number_of(signed_decimal(n)) == n && signed_decimal(n)[0] != '-',
        n < 0 ==> signed_decimal(n)[0] == '-' && number_of(signed_decimal(n).skip(1)) == -n,
{
    if n >= 0 {
        law_a_numeral_reads_back(n as nat);
    } else {
        law_a_numeral_reads_back((-n) as nat);
        assert(signed_decimal(n).skip(1) =~= decimal((-n) as nat));
    }
}

/// **Texts compare by the first byte that differs**, and a text comes before
/// what goes on behind it.
pub proof fn law_how_texts_compare(a: Seq<char>, b: Seq<char>, k: int)
    requires
        0 <= k < bytes_of(b).len(),
        k <= bytes_of(a).len(),
        forall|i: int| 0 <= i < k ==> bytes_of(a)[i] == bytes_of(b)[i],
    ensures
        k == bytes_of(a).len() ==> text_before(a, b) && !text_before(b, a),
        k < bytes_of(a).len() && bytes_of(a)[k] < bytes_of(b)[k] ==> text_before(a, b)
            && !text_before(b, a),
        k < bytes_of(a).len() && bytes_of(b)[k] < bytes_of(a)[k] ==> text_before(b, a)
            && !text_before(a, b),
{
    let x = bytes_of(a);
    let y = bytes_of(b);
    lemma_text_before_strict(a, b);
    if k == x.len() || x[k] < y[k] {
        assert(parts_at(x, y, k));
    } else if y[k] < x[k] {
        assert(parts_at(y, x, k));
    }
}

} // verus!
