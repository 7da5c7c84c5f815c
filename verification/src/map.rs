//! Precision maps: which tensors are compiled, and to what.
//!
//! A map names the roles it compiles and the encoding it compiles them to.
//! Its exceptions, in declaration order, override that for a role, a
//! projection or a range of layers; the first that governs a tensor decides
//! it.
use crate::experiment::named;
use crate::policy::Role;
use crate::text::{chars_of, decimal, digit, lemma_decimal_is_digits, same};
use vstd::prelude::*;
use vstd::string::*;

verus! {

/// A region of a role that is decided apart from the rest of it.
#[derive(Debug, Clone, PartialEq, Eq)]
pub struct Exception {
    /// Only tensors of this role, when stated.
    pub role: Option<Role>,
    /// Only this projection, when stated.
    pub projection: Option<String>,
    /// Only these layers, both ends included, when stated.
    pub layers: Option<(u32, u32)>,
    /// What the region is compiled to; `None` holds it at source precision.
    pub encoding: Option<String>,
}

/// Which roles are compiled, to what, and with which exceptions.
#[derive(Debug, Clone, PartialEq, Eq)]
pub struct PrecisionMap {
    pub name: String,
    pub encoding: String,
    pub roles: Vec<String>,
    pub exceptions: Vec<Exception>,
}

/// What a map decides for one tensor.
#[derive(Debug, Clone, Copy, PartialEq, Eq)]
pub enum Precision<'a> {
    Source,
    Compiled(&'a str),
}

impl<'a> Precision<'a> {
    /// The encoding, or `None` for source precision.
    pub open spec fn encoding(self) -> Option<Seq<char>> {
        match self {
            Precision::Source => None,
            Precision::Compiled(e) => Some(e@),
        }
    }
}

/// The part of a name before its first dot.
pub open spec fn before_first_dot(name: Seq<char>) -> Seq<char>
    decreases name.len(),
{
    if name.len() == 0 || name[0] == '.' {
        Seq::empty()
    } else {
        seq![name[0]] + before_first_dot(name.skip(1))
    }
}

/// The part of a name after its last dot.
pub open spec fn after_last_dot(name: Seq<char>) -> Seq<char>
    decreases name.len(),
{
    if name.len() == 0 || name.last() == '.' {
        Seq::empty()
    } else {
        after_last_dot(name.drop_last()).push(name.last())
    }
}

/// The value of one decimal digit.
pub open spec fn digit_value(c: char) -> Option<nat> {
    if '0' <= c <= '9' {
        Some((c as int - '0' as int) as nat)
    } else {
        None
    }
}

/// The value of a decimal numeral, `None` where a character is no digit.
pub open spec fn numeral(s: Seq<char>) -> Option<nat>
    decreases s.len(),
{
    if s.len() == 0 {
        Some(0)
    } else {
        match (numeral(s.drop_last()), digit_value(s.last())) {
            (Some(n), Some(d)) => Some(10 * n + d),
            _ => None,
        }
    }
}

/// The layer a tensor name begins with.
pub open spec fn layer_of(tensor: Seq<char>) -> Option<nat> {
    let depth = before_first_dot(tensor);
    if depth.len() == 0 {
        None
    } else {
        numeral(depth)
    }
}

/// The projection a tensor name ends with, before `.weight`.
pub open spec fn projection_of(tensor: Seq<char>) -> Option<Seq<char>> {
    let suffix = ".weight"@;
    if tensor.len() >= suffix.len() && tensor.skip(tensor.len() - suffix.len()) == suffix {
        Some(after_last_dot(tensor.take(tensor.len() - suffix.len())))
    } else {
        None
    }
}

/// Whether a tensor is of a projection and in a range of layers, each where
/// it is stated.
pub open spec fn in_region(
    projection: Option<Seq<char>>,
    layers: Option<(u32, u32)>,
    tensor: Seq<char>,
) -> bool {
    &&& projection matches Some(p) ==> projection_of(tensor) == Some(p)
    &&& layers matches Some(range) ==> (layer_of(tensor) matches Some(l) && range.0 <= l
        <= range.1)
}

impl Exception {
    /// Whether a tensor is in the region, whatever its role.
    pub open spec fn covers(&self, tensor: Seq<char>) -> bool {
        in_region(named(self.projection), self.layers, tensor)
    }

    /// Whether the exception decides a tensor of this role.
    pub open spec fn governs(&self, role: Role, tensor: Seq<char>) -> bool {
        &&& self.role matches Some(r) ==> r == role
        &&& self.covers(tensor)
    }

    /// What the region is compiled to.
    pub open spec fn decision(&self) -> Option<Seq<char>> {
        match self.encoding {
            Some(e) => Some(e@),
            None => None,
        }
    }
}

/// What the first exception that governs `tensor` decides, or the default.
pub open spec fn excepted(
    exceptions: Seq<Exception>,
    role: Role,
    tensor: Seq<char>,
    default: Seq<char>,
) -> Option<Seq<char>>
    decreases exceptions.len(),
{
    if exceptions.len() == 0 {
        Some(default)
    } else if exceptions[0].governs(role, tensor) {
        exceptions[0].decision()
    } else {
        excepted(exceptions.skip(1), role, tensor, default)
    }
}

impl PrecisionMap {
    /// Whether the map compiles this role at all.
    pub open spec fn compiles(&self, role: Role) -> bool {
        exists|i: int| 0 <= i < self.roles@.len() && (#[trigger] self.roles@[i])@ == role.title()
    }

    /// The encoding the map decides, or `None` for source precision.
    pub open spec fn decides(&self, role: Role, tensor: Seq<char>) -> Option<Seq<char>> {
        if self.compiles(role) {
            excepted(self.exceptions@, role, tensor, self.encoding@)
        } else {
            None
        }
    }
}

fn leading_layer(name: &Vec<char>) -> (r: Option<u32>)
    ensures
        r == (match layer_of(name@) {
            Some(n) => if n <= u32::MAX {
                Some(n as u32)
            } else {
                None
            },
            None => None,
        }),
{
    let mut i: usize = 0;
    let mut value: Option<u32> = Some(0);
    let mut digits: bool = true;
    let ghost depth = before_first_dot(name@);
    proof {
        lemma_before_first_dot(name@);
        assert(depth.take(0) =~= Seq::<char>::empty());
    }
    while i < name.len() && name[i] != '.'
        invariant
            depth == before_first_dot(name@),
            depth.len() <= name@.len(),
            forall|j: int| 0 <= j < depth.len() ==> depth[j] == name@[j] && name@[j] != '.',
            depth.len() < name@.len() ==> name@[depth.len() as int] == '.',
            i <= depth.len(),
            digits <==> numeral(depth.take(i as int)) is Some,
            digits ==> value == (if numeral(depth.take(i as int))->0 <= u32::MAX {
                Some(numeral(depth.take(i as int))->0 as u32)
            } else {
                None
            }),
        decreases name@.len() - i,
    {
        let c: char = name[i];
        assert(i < depth.len());
        let ghost next = depth.take(i as int + 1);
        assert(next.drop_last() =~= depth.take(i as int));
        assert(next.last() == c);
        if '0' <= c && c <= '9' {
            let d: u32 = c as u32 - '0' as u32;
            value = match value {
                Some(v) => match v.checked_mul(10) {
                    Some(w) => w.checked_add(d),
                    None => None,
                },
                None => None,
            };
        } else {
            digits = false;
        }
        i = i + 1;
    }
    assert(depth.take(depth.len() as int) =~= depth);
    assert(i == depth.len());
    if i == 0 || !digits {
        None
    } else {
        value
    }
}

proof fn lemma_before_first_dot(name: Seq<char>)
    ensures
        ({
            let d = before_first_dot(name);
            &&& d.len() <= name.len()
            &&& forall|j: int| 0 <= j < d.len() ==> d[j] == name[j] && name[j] != '.'
            &&& d.len() < name.len() ==> name[d.len() as int] == '.'
        }),
    decreases name.len(),
{
    if name.len() == 0 || name[0] == '.' {
    } else {
        let rest = name.skip(1);
        lemma_before_first_dot(rest);
        let d = before_first_dot(name);
        assert forall|j: int| 0 <= j < d.len() implies d[j] == name[j] && name[j] != '.' by {
            if j > 0 {
                assert(before_first_dot(rest)[j - 1] == rest[j - 1]);
            }
        }
    }
}

proof fn lemma_after_last_dot(name: Seq<char>, k: int)
    requires
        0 <= k <= name.len(),
        k > 0 ==> name[k - 1] == '.',
        forall|j: int| k <= j < name.len() ==> name[j] != '.',
    ensures
        after_last_dot(name) == name.skip(k),
    decreases name.len(),
{
    if name.len() == k {
        assert(after_last_dot(name) =~= name.skip(k));
    } else {
        lemma_after_last_dot(name.drop_last(), k);
        assert(after_last_dot(name) =~= name.skip(k));
    }
}

fn ends_with_projection(name: &Vec<char>, projection: &Vec<char>) -> (r: bool)
    ensures
        r == (projection_of(name@) == Some(projection@)),
{
    let suffix: Vec<char> = chars_of(".weight");
    let n: usize = name.len();
    let s: usize = suffix.len();
    if n < s {
        return false;
    }
    let stem: usize = n - s;
    let mut i: usize = 0;
    while i < s
        invariant
            n == name@.len(),
            s == suffix@.len(),
            suffix@ == ".weight"@,
            n >= s,
            stem == n - s,
            i <= s,
            forall|j: int| 0 <= j < i ==> name@[stem + j] == suffix@[j],
        decreases s - i,
    {
        if name[stem + i] != suffix[i] {
            assert(name@.skip(stem as int)[i as int] != suffix@[i as int]);
            return false;
        }
        i = i + 1;
    }
    assert(name@.skip(stem as int) =~= suffix@);
    let ghost body = name@.take(stem as int);
    let mut k: usize = stem;
    while k > 0 && name[k - 1] != '.'
        invariant
            stem <= name@.len(),
            body == name@.take(stem as int),
            k <= stem,
            forall|j: int| k <= j < stem ==> name@[j] != '.',
        decreases k,
    {
        k = k - 1;
    }
    proof {
        lemma_after_last_dot(body, k as int);
    }
    assert(projection_of(name@) == Some(body.skip(k as int)));
    if projection.len() != stem - k {
        assert(body.skip(k as int).len() != projection@.len());
        return false;
    }
    let mut m: usize = 0;
    while m < projection.len()
        invariant
            k <= stem,
            stem <= name@.len(),
            body == name@.take(stem as int),
            projection@.len() == stem - k,
            m <= projection@.len(),
            projection_of(name@) == Some(body.skip(k as int)),
            forall|j: int| 0 <= j < m ==> name@[k + j] == projection@[j],
        decreases projection@.len() - m,
    {
        if name[k + m] != projection[m] {
            assert(body.skip(k as int)[m as int] != projection@[m as int]);
            return false;
        }
        m = m + 1;
    }
    assert(body.skip(k as int) =~= projection@);
    true
}

impl Exception {
    /// Whether the exception decides a tensor of this role.
    pub fn applies(&self, role: Role, tensor: &str) -> (r: bool)
        ensures
            r == self.governs(role, tensor@),
    {
        let of_role: bool = match self.role {
            Some(r) => r == role,
            None => true,
        };
        of_role && self.matches(tensor)
    }

    /// Whether a tensor is in the region, whatever its role.
    pub fn matches(&self, tensor: &str) -> (r: bool)
        ensures
            r == self.covers(tensor@),
    {
        let name: Vec<char> = chars_of(tensor);
        if let Some(p) = &self.projection {
            if !ends_with_projection(&name, &chars_of(p.as_str())) {
                return false;
            }
        }
        if let Some(range) = self.layers {
            match leading_layer(&name) {
                Some(l) => range.0 <= l && l <= range.1,
                None => false,
            }
        } else {
            true
        }
    }
}

impl PrecisionMap {
    /// Whether the map compiles this role at all.
    pub fn names_role(&self, role: Role) -> (r: bool)
        ensures
            r == self.compiles(role),
    {
        let mut i: usize = 0;
        while i < self.roles.len()
            invariant
                i <= self.roles@.len(),
                forall|j: int| 0 <= j < i ==> (#[trigger] self.roles@[j])@ != role.title(),
            decreases self.roles@.len() - i,
        {
            if same(self.roles[i].as_str(), role.name()) {
                assert(self.roles@[i as int]@ == role.title());
                return true;
            }
            i = i + 1;
        }
        false
    }

    /// What the map decides for a tensor of this role.
    pub fn resolve(&self, role: Role, tensor: &str) -> (r: Precision<'_>)
        ensures
            r.encoding() == self.decides(role, tensor@),
    {
        if !self.names_role(role) {
            return Precision::Source;
        }
        let mut i: usize = 0;
        assert(self.exceptions@.skip(0) =~= self.exceptions@);
        while i < self.exceptions.len()
            invariant
                i <= self.exceptions@.len(),
                self.compiles(role),
                excepted(self.exceptions@, role, tensor@, self.encoding@) == excepted(
                    self.exceptions@.skip(i as int),
                    role,
                    tensor@,
                    self.encoding@,
                ),
            decreases self.exceptions@.len() - i,
        {
            let ghost rest = self.exceptions@.skip(i as int);
            assert(rest[0] == self.exceptions@[i as int]);
            assert(rest.skip(1) =~= self.exceptions@.skip(i as int + 1));
            if self.exceptions[i].applies(role, tensor) {
                return match &self.exceptions[i].encoding {
                    Some(e) => Precision::Compiled(e.as_str()),
                    None => Precision::Source,
                };
            }
            i = i + 1;
        }
        Precision::Compiled(self.encoding.as_str())
    }
}

/// **The first exception that governs a tensor decides it**, whatever comes
/// behind it; and where none governs it the default does. A tensor whose role
/// the map does not name stays at source precision.
pub proof fn law_the_first_exception_decides(map: &PrecisionMap, role: Role, tensor: Seq<char>, k: int)
    requires
        0 <= k <= map.exceptions@.len(),
        forall|j: int| 0 <= j < k ==> !(#[trigger] map.exceptions@[j]).governs(role, tensor),
        k < map.exceptions@.len() ==> map.exceptions@[k].governs(role, tensor),
    ensures
        map.decides(role, tensor) == (if !exists|i: int|
            0 <= i < map.roles@.len() && (#[trigger] map.roles@[i])@ == role.title() {
            None
        } else if k == map.exceptions@.len() {
            Some(map.encoding@)
        } else {
            match map.exceptions@[k].encoding {
                Some(e) => Some(e@),
                None => None,
            }
        }),
{
    lemma_first_governs(map.exceptions@, role, tensor, map.encoding@, k);
}

/// The first exception that governs decides, or the default.
pub proof fn lemma_first_governs(
    exceptions: Seq<Exception>,
    role: Role,
    tensor: Seq<char>,
    default: Seq<char>,
    k: int,
)
    requires
        0 <= k <= exceptions.len(),
        forall|j: int| 0 <= j < k ==> !(#[trigger] exceptions[j]).governs(role, tensor),
        k < exceptions.len() ==> exceptions[k].governs(role, tensor),
    ensures
        excepted(exceptions, role, tensor, default) == (if k == exceptions.len() {
            Some(default)
        } else {
            exceptions[k].decision()
        }),
    decreases k,
{
    if k > 0 {
        assert(!exceptions[0].governs(role, tensor));
        let rest = exceptions.skip(1);
        assert forall|j: int| 0 <= j < k - 1 implies !(#[trigger] rest[j]).governs(role, tensor) by {
            assert(rest[j] == exceptions[j + 1]);
        }
        lemma_first_governs(rest, role, tensor, default, k - 1);
    }
}

/// **What an exception governs**: tensors of its role, of its projection and
/// of its layers, each where it states one, both end layers included.
pub proof fn law_what_an_exception_governs(e: &Exception, role: Role, tensor: Seq<char>)
    ensures
        e.governs(role, tensor) <==> {
            &&& e.role is None || e.role == Some(role)
            &&& e.projection is None || projection_of(tensor) == Some(e.projection->0@)
            &&& e.layers matches Some((first, last)) ==> (layer_of(tensor) matches Some(l) && first
                <= l && l <= last)
        },
{
}

/// **A projection is the last part of a name before `.weight`**: a part
/// without a dot, with nothing or a dot before it.
pub proof fn law_a_projection_is_the_last_part(stem: Seq<char>, part: Seq<char>)
    requires
        !part.contains('.'),
        stem.len() == 0 || stem.last() == '.',
    ensures
        projection_of(stem + part + ".weight"@) == Some(part),
{
    let body = stem + part;
    let name = body + ".weight"@;
    assert(name.skip(name.len() - ".weight"@.len()) =~= ".weight"@);
    assert(name.take(name.len() - ".weight"@.len()) =~= body);
    assert forall|j: int| stem.len() <= j < body.len() implies body[j] != '.' by {
        assert(part.contains(part[j - stem.len()]));
    }
    lemma_after_last_dot(body, stem.len() as int);
    assert(body.skip(stem.len() as int) =~= part);
}

/// A name that does not end in `.weight` has no projection.
pub proof fn law_only_weights_have_a_projection(name: Seq<char>)
    requires
        projection_of(name) is Some,
    ensures
        exists|stem: Seq<char>| name == #[trigger] (stem + ".weight"@),
        !projection_of(name)->0.contains('.'),
{
    let stem = name.take(name.len() - ".weight"@.len());
    assert(name =~= stem + ".weight"@);
    lemma_after_last_dot_is_free(stem);
}

proof fn lemma_after_last_dot_is_free(name: Seq<char>)
    ensures
        !after_last_dot(name).contains('.'),
    decreases name.len(),
{
    if name.len() > 0 && name.last() != '.' {
        lemma_after_last_dot_is_free(name.drop_last());
        let rest = after_last_dot(name.drop_last());
        let all = after_last_dot(name);
        if all.contains('.') {
            let i = all.index_of('.');
            if i < rest.len() {
                assert(rest[i] == '.');
                assert(rest.contains('.'));
            }
        }
    }
}

proof fn lemma_numeral_reads_decimal(n: nat)
    ensures
        numeral(decimal(n)) == Some(n),
    decreases n,
{
    let s = decimal(n);
    let d = n % 10;
    assert(digit_value(digit(d as int)) == Some(d));
    if n >= 10 {
        lemma_numeral_reads_decimal(n / 10);
        assert(s.drop_last() =~= decimal(n / 10));
    } else {
        assert(s.drop_last() =~= Seq::<char>::empty());
        assert(numeral(s.drop_last()) == Some(0nat));
    }
}

/// **A layer is the number a name begins with**, before its first dot.
pub proof fn law_a_layer_is_the_leading_number(n: nat, rest: Seq<char>)
    ensures
        layer_of(decimal(n) + "."@ + rest) == Some(n),
{
    reveal_strlit(".");
    lemma_decimal_is_digits(n);
    lemma_numeral_reads_decimal(n);
    let digits = decimal(n);
    let name = digits + "."@ + rest;
    assert(name[digits.len() as int] == '.');
    lemma_before_first_dot(name);
    let d = before_first_dot(name);
    if d.len() < digits.len() {
        assert(name[d.len() as int] == digits[d.len() as int]);
    } else if d.len() > digits.len() {
        assert(d[digits.len() as int] == name[digits.len() as int]);
    }
    assert(d =~= digits);
}

/// A name whose first part holds anything but digits is in no layer.
pub proof fn law_a_layer_is_written_in_digits(name: Seq<char>, i: int)
    requires
        0 <= i < name.len(),
        name[i] < '0' || name[i] > '9',
        forall|j: int| 0 <= j <= i ==> name[j] != '.',
    ensures
        layer_of(name) is None,
{
    lemma_before_first_dot(name);
    let d = before_first_dot(name);
    if d.len() <= i {
        assert(name[d.len() as int] == '.');
    }
    lemma_numeral_is_digits(d, i);
}

proof fn lemma_numeral_is_digits(s: Seq<char>, i: int)
    requires
        0 <= i < s.len(),
        s[i] < '0' || s[i] > '9',
    ensures
        numeral(s) is None,
    decreases s.len(),
{
    if i < s.len() - 1 {
        lemma_numeral_is_digits(s.drop_last(), i);
    }
}

} // verus!
