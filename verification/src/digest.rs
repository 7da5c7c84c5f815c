//! Content digests.
use sha2::Digest;
use vstd::prelude::*;
use vstd::string::*;

verus! {

/// The SHA-256 digest of a message.
pub uninterp spec fn sha256_of(message: Seq<u8>) -> Seq<u8>;

/// `sha2::Sha256::digest`: the 32 digest bytes of `message`, which depend on
/// the message's bytes alone.
#[verifier::external_body]
fn sha256(message: &[u8]) -> (r: Vec<u8>)
    ensures
        r@ == sha256_of(message@),
        r@.len() == 32,
{
    sha2::Sha256::digest(message).to_vec()
}

/// The lower-case hexadecimal digit `d`, for `d < 16`.
pub open spec fn hex_digit(d: int) -> char {
    if d < 10 {
        crate::text::digit(d)
    } else if d == 10 {
        'a'
    } else if d == 11 {
        'b'
    } else if d == 12 {
        'c'
    } else if d == 13 {
        'd'
    } else if d == 14 {
        'e'
    } else {
        'f'
    }
}

/// Bytes in lower-case hexadecimal, two digits each, high digit first.
pub open spec fn hex(bytes: Seq<u8>) -> Seq<char>
    decreases bytes.len(),
{
    if bytes.len() == 0 {
        Seq::empty()
    } else {
        hex(bytes.drop_last()).push(hex_digit(bytes.last() as int / 16)).push(
            hex_digit(bytes.last() as int % 16),
        )
    }
}

/// The hexadecimal SHA-256 of a text's UTF-8 bytes.
pub open spec fn digest_of(content: Seq<char>) -> Seq<char> {
    hex(sha256_of(crate::text::bytes_of(content)))
}

/// Two texts have one digest only where they are one text.
pub open spec fn told_apart(a: Seq<char>, b: Seq<char>) -> bool {
    digest_of(a) == digest_of(b) ==> a == b
}

proof fn lemma_hex_len(bytes: Seq<u8>)
    ensures
        hex(bytes).len() == 2 * bytes.len(),
    decreases bytes.len(),
{
    if bytes.len() > 0 {
        lemma_hex_len(bytes.drop_last());
    }
}

fn hex_text(d: u8) -> (r: &'static str)
    requires
        d < 16,
    ensures
        r@ == seq![hex_digit(d as int)],
{
    proof {
        reveal_strlit("0");
        reveal_strlit("1");
        reveal_strlit("2");
        reveal_strlit("3");
        reveal_strlit("4");
        reveal_strlit("5");
        reveal_strlit("6");
        reveal_strlit("7");
        reveal_strlit("8");
        reveal_strlit("9");
        reveal_strlit("a");
        reveal_strlit("b");
        reveal_strlit("c");
        reveal_strlit("d");
        reveal_strlit("e");
        reveal_strlit("f");
    }
    let r: &'static str = match d {
        0 => "0",
        1 => "1",
        2 => "2",
        3 => "3",
        4 => "4",
        5 => "5",
        6 => "6",
        7 => "7",
        8 => "8",
        9 => "9",
        10 => "a",
        11 => "b",
        12 => "c",
        13 => "d",
        14 => "e",
        _ => "f",
    };
    assert(r@ =~= seq![hex_digit(d as int)]);
    r
}

/// The hexadecimal SHA-256 of `bytes`.
pub fn hash_bytes(bytes: &[u8]) -> (r: String)
    ensures
        r@ == hex(sha256_of(bytes@)),
        r@.len() == 64,
{
    let d: Vec<u8> = sha256(bytes);
    let mut s: String = String::new();
    let mut i: usize = 0;
    assert(d@.take(0) =~= Seq::<u8>::empty());
    while i < d.len()
        invariant
            i <= d@.len(),
            s@ == hex(d@.take(i as int)),
        decreases d@.len() - i,
    {
        let ghost prefix = d@.take(i as int);
        let ghost next = d@.take(i as int + 1);
        assert(next.drop_last() =~= prefix);
        s.append(hex_text(d[i] / 16));
        s.append(hex_text(d[i] % 16));
        assert(s@ =~= hex(next));
        i = i + 1;
    }
    proof {
        assert(d@.take(d@.len() as int) =~= d@);
        lemma_hex_len(d@);
    }
    s
}

/// The hexadecimal SHA-256 of a text.
pub fn digest_text(content: &str) -> (r: String)
    ensures
        r@ == digest_of(content@),
        r@.len() == 64,
{
    hash_bytes(content.as_bytes())
}

/// **A byte is two hexadecimal digits**, the high one first, in lower case.
pub proof fn law_a_byte_is_two_digits(bytes: Seq<u8>, i: int)
    requires
        0 <= i < bytes.len(),
    ensures
        hex(bytes).len() == 2 * bytes.len(),
        ({
            let high = hex(bytes)[2 * i] as int;
            let low = hex(bytes)[2 * i + 1] as int;
            let d = if '0' as int <= high <= '9' as int {
                high - '0' as int
            } else {
                10 + high - 'a' as int
            };
            let e = if '0' as int <= low <= '9' as int {
                low - '0' as int
            } else {
                10 + low - 'a' as int
            };
            &&& '0' as int <= high <= '9' as int || 'a' as int <= high <= 'f' as int
            &&& '0' as int <= low <= '9' as int || 'a' as int <= low <= 'f' as int
            &&& bytes[i] == 16 * d + e
        }),
    decreases bytes.len(),
{
    lemma_hex_len(bytes);
    let init = bytes.drop_last();
    lemma_hex_len(init);
    if i < init.len() {
        law_a_byte_is_two_digits(init, i);
        assert(hex(bytes)[2 * i] == hex(init)[2 * i]);
        assert(hex(bytes)[2 * i + 1] == hex(init)[2 * i + 1]);
        assert(init[i] == bytes[i]);
    } else {
        assert(bytes.last() == bytes[i]);
        assert(hex(bytes)[2 * i] == hex_digit(bytes[i] as int / 16));
        assert(hex(bytes)[2 * i + 1] == hex_digit(bytes[i] as int % 16));
    }
}

/// **A digest is of the text's bytes and nothing else.**
pub proof fn law_a_digest_is_of_the_text(content: Seq<char>)
    ensures
        digest_of(content) == hex(sha256_of(crate::text::bytes_of(content))),
{
}

} // verus!
