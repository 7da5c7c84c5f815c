//! Measured real numbers, and text that carries them.
//!
//! A [`Reading`] is an IEEE 754 double held as its bits, so that what is
//! stored and identified is exactly the number that was measured.
//! Comparison, `==` included, follows IEEE 754: a NaN compares with nothing,
//! and the two zeros are equal. Contracts speak of the bits.
//!
//! A [`Phrase`] is text in which readings are left as readings, each with
//! the form it is to be shown in.
use crate::text::same;
use vstd::prelude::*;
use vstd::string::*;

verus! {

/// A double, by its bits.
#[derive(Debug, Clone, Copy)]
pub struct Reading {
    pub bits: u64,
}

/// Readings are equal where the numbers are: a NaN equals nothing, and the
/// two zeros are equal.
impl PartialEq for Reading {
    fn eq(&self, other: &Self) -> (r: bool) {
        self.same_value(*other)
    }
}

impl vstd::std_specs::cmp::PartialEqSpecImpl for Reading {
    open spec fn obeys_eq_spec() -> bool {
        true
    }

    open spec fn eq_spec(&self, other: &Self) -> bool {
        self.equals(*other)
    }
}

/// The sign bit of a double.
pub const SIGN: u64 = 0x8000_0000_0000_0000;

/// The bits of positive infinity.
pub const INFINITE: u64 = 0x7ff0_0000_0000_0000;

impl Reading {
    /// The bits below the sign.
    pub open spec fn magnitude(self) -> int {
        if self.bits >= SIGN {
            self.bits - SIGN
        } else {
            self.bits as int
        }
    }

    /// Not a number.
    pub open spec fn is_nan(self) -> bool {
        self.magnitude() > INFINITE
    }

    /// The place of a number among the doubles; both zeros stand at 0.
    pub open spec fn ordinal(self) -> int {
        if self.bits >= SIGN {
            -self.magnitude()
        } else {
            self.magnitude()
        }
    }

    /// Neither infinite nor NaN.
    pub open spec fn finite(self) -> bool {
        self.magnitude() < INFINITE
    }

    /// One of the two zeros.
    pub open spec fn nought(self) -> bool {
        self.magnitude() == 0
    }

    /// The number of opposite sign.
    pub open spec fn opposite(self) -> Reading {
        Reading {
            bits: (if self.bits >= SIGN {
                self.bits - SIGN
            } else {
                self.bits + SIGN
            }) as u64,
        }
    }

    /// `self > other`.
    pub open spec fn above(self, other: Reading) -> bool {
        !self.is_nan() && !other.is_nan() && self.ordinal() > other.ordinal()
    }

    /// `self <= other`.
    pub open spec fn within(self, other: Reading) -> bool {
        !self.is_nan() && !other.is_nan() && self.ordinal() <= other.ordinal()
    }

    /// `self == other`.
    pub open spec fn equals(self, other: Reading) -> bool {
        !self.is_nan() && !other.is_nan() && self.ordinal() == other.ordinal()
    }

    /// The place in the total order of all doubles: negative NaNs first, then
    /// the numbers with -0 before +0, then positive NaNs.
    pub open spec fn place(self) -> int {
        if self.bits >= SIGN {
            -self.magnitude() - 1
        } else {
            self.magnitude()
        }
    }

    /// The reading with these bits.
    pub fn from_bits(bits: u64) -> (r: Reading)
        ensures
            r.bits == bits,
    {
        Reading { bits }
    }

    fn low(self) -> (r: u64)
        ensures
            r == self.magnitude(),
    {
        if self.bits >= SIGN {
            self.bits - SIGN
        } else {
            self.bits
        }
    }

    /// Not a number.
    pub fn nan(self) -> (r: bool)
        ensures
            r == self.is_nan(),
    {
        self.low() > INFINITE
    }

    /// Neither infinite nor NaN.
    pub fn is_finite(self) -> (r: bool)
        ensures
            r == self.finite(),
    {
        self.low() < INFINITE
    }

    /// Whether this is one of the two zeros.
    pub fn is_nought(self) -> (r: bool)
        ensures
            r == self.nought(),
    {
        self.low() == 0
    }

    /// The number of opposite sign.
    pub fn negated(self) -> (r: Reading)
        ensures
            r == self.opposite(),
    {
        if self.bits >= SIGN {
            Reading { bits: self.bits - SIGN }
        } else {
            Reading { bits: self.bits + SIGN }
        }
    }

    /// `self > other`.
    pub fn exceeds(self, other: Reading) -> (r: bool)
        ensures
            r == self.above(other),
    {
        if self.nan() || other.nan() {
            return false;
        }
        if self.bits >= SIGN {
            other.bits >= SIGN && self.low() < other.low()
        } else {
            if other.bits >= SIGN {
                self.bits > 0 || other.low() > 0
            } else {
                self.bits > other.bits
            }
        }
    }

    /// `self <= other`.
    pub fn at_most(self, other: Reading) -> (r: bool)
        ensures
            r == self.within(other),
    {
        !self.nan() && !other.nan() && !self.exceeds(other)
    }

    /// `self == other`.
    pub fn same_value(self, other: Reading) -> (r: bool)
        ensures
            r == self.equals(other),
    {
        self.at_most(other) && other.at_most(self)
    }

    /// Whether `self` comes before `other` in the total order.
    pub fn sorts_before(self, other: Reading) -> (r: bool)
        ensures
            r == (self.place() < other.place()),
    {
        if self.bits >= SIGN {
            if other.bits >= SIGN {
                self.low() > other.low()
            } else {
                true
            }
        } else {
            other.bits < SIGN && self.bits < other.bits
        }
    }
}

/// **The total order tells all readings apart.**
pub proof fn law_place_identifies_a_reading(a: Reading, b: Reading)
    requires
        a.place() == b.place(),
    ensures
        a == b,
{
}

/// A run of text, or a number to be shown in a stated form.
#[derive(Debug, Clone)]
pub enum Piece {
    Words(String),
    /// Scientific notation with three decimals.
    Scientific(Reading),
    /// Fixed notation with four decimals.
    Fixed(Reading),
    /// A count, in scientific notation with three decimals.
    CountScientific(u64),
    /// A quotient, in fixed notation with two decimals.
    Times(u128, u64),
    /// A quotient in percent, in fixed notation with one decimal.
    Percent(i128, u64),
    /// A text in double quotes, with what does not print escaped as Rust's
    /// debug form escapes it.
    Quoted(String),
    /// As many digits as tell the number apart, as Rust's debug form writes a
    /// double.
    Plain(Reading),
}

/// What a piece shows.
pub enum Shown {
    Words(Seq<char>),
    Scientific(Reading),
    Fixed(Reading),
    CountScientific(u64),
    Times(u128, u64),
    Percent(i128, u64),
    Quoted(Seq<char>),
    Plain(Reading),
}

/// Readings of the same bits.
fn identical(a: Reading, b: Reading) -> (r: bool)
    ensures
        r == (a == b),
{
    a.bits == b.bits
}

/// Pieces are equal where they show the same. What is shown of a number is
/// its digits, so a NaN shows as itself and the two zeros show apart.
impl PartialEq for Piece {
    fn eq(&self, other: &Self) -> (r: bool) {
        match (self, other) {
            (Piece::Words(a), Piece::Words(b)) => same(a.as_str(), b.as_str()),
            (Piece::Scientific(a), Piece::Scientific(b)) => identical(*a, *b),
            (Piece::Fixed(a), Piece::Fixed(b)) => identical(*a, *b),
            (Piece::CountScientific(a), Piece::CountScientific(b)) => *a == *b,
            (Piece::Times(a, c), Piece::Times(b, d)) => *a == *b && *c == *d,
            (Piece::Percent(a, c), Piece::Percent(b, d)) => *a == *b && *c == *d,
            (Piece::Quoted(a), Piece::Quoted(b)) => same(a.as_str(), b.as_str()),
            (Piece::Plain(a), Piece::Plain(b)) => identical(*a, *b),
            _ => false,
        }
    }
}

impl vstd::std_specs::cmp::PartialEqSpecImpl for Piece {
    open spec fn obeys_eq_spec() -> bool {
        true
    }

    open spec fn eq_spec(&self, other: &Self) -> bool {
        self.shown() == other.shown()
    }
}

impl Eq for Piece {
}

impl Piece {
    /// What the piece shows.
    pub open spec fn shown(&self) -> Shown {
        match *self {
            Piece::Words(s) => Shown::Words(s@),
            Piece::Scientific(x) => Shown::Scientific(x),
            Piece::Fixed(x) => Shown::Fixed(x),
            Piece::CountScientific(n) => Shown::CountScientific(n),
            Piece::Times(n, d) => Shown::Times(n, d),
            Piece::Percent(n, d) => Shown::Percent(n, d),
            Piece::Quoted(s) => Shown::Quoted(s@),
            Piece::Plain(x) => Shown::Plain(x),
        }
    }

    fn copy(&self) -> (r: Piece)
        ensures
            r.shown() == self.shown(),
    {
        match self {
            Piece::Words(s) => Piece::Words(s.clone()),
            Piece::Scientific(x) => Piece::Scientific(*x),
            Piece::Fixed(x) => Piece::Fixed(*x),
            Piece::CountScientific(n) => Piece::CountScientific(*n),
            Piece::Times(n, d) => Piece::Times(*n, *d),
            Piece::Percent(n, d) => Piece::Percent(*n, *d),
            Piece::Quoted(s) => Piece::Quoted(s.clone()),
            Piece::Plain(x) => Piece::Plain(*x),
        }
    }
}

/// Text in which readings stand as readings.
#[derive(Debug, Clone, PartialEq, Eq)]
pub struct Phrase {
    pub pieces: Vec<Piece>,
}

impl View for Phrase {
    type V = Seq<Shown>;

    open spec fn view(&self) -> Seq<Shown> {
        self.pieces@.map_values(|p: Piece| p.shown())
    }
}

/// A phrase of words alone.
pub open spec fn worded(s: Seq<char>) -> Seq<Shown> {
    seq![Shown::Words(s)]
}

impl Phrase {
    /// The empty phrase.
    pub fn new() -> (r: Phrase)
        ensures
            r@ == Seq::<Shown>::empty(),
    {
        let r = Phrase { pieces: Vec::new() };
        assert(r@ =~= Seq::<Shown>::empty());
        r
    }

    /// A phrase of words alone.
    pub fn words(s: String) -> (r: Phrase)
        ensures
            r@ == worded(s@),
    {
        let mut r = Phrase::new();
        r.push(Piece::Words(s));
        assert(r@ =~= worded(s@));
        r
    }

    /// Add a piece.
    pub fn push(&mut self, p: Piece)
        ensures
            final(self)@ == old(self)@.push(p.shown()),
    {
        let ghost before = self@;
        let ghost s = p.shown();
        self.pieces.push(p);
        assert(self@ =~= before.push(s));
    }

    /// Add words.
    pub fn say(&mut self, s: &str)
        ensures
            final(self)@ == old(self)@.push(Shown::Words(s@)),
    {
        self.push(Piece::Words(s.to_owned()));
    }

    /// Add another phrase.
    pub fn append(&mut self, other: &Phrase)
        ensures
            final(self)@ == old(self)@ + other@,
    {
        let ghost start = self@;
        let mut i: usize = 0;
        assert(start + other@.take(0) =~= start);
        while i < other.pieces.len()
            invariant
                i <= other.pieces@.len(),
                other@.len() == other.pieces@.len(),
                self@ == start + other@.take(i as int),
            decreases other.pieces@.len() - i,
        {
            let p: Piece = other.pieces[i].copy();
            self.push(p);
            assert(other@[i as int] == other.pieces@[i as int].shown());
            assert(other@.take(i as int + 1) =~= other@.take(i as int).push(other@[i as int]));
            assert(self@ =~= start + other@.take(i as int + 1));
            i = i + 1;
        }
        assert(other@.take(other@.len() as int) =~= other@);
    }

    /// A copy.
    pub fn copy(&self) -> (r: Phrase)
        ensures
            r@ == self@,
    {
        let mut r = Phrase::new();
        r.append(self);
        assert(r@ =~= self@);
        r
    }
}

/// **A NaN is what lies above infinity, whatever its sign.** The bits below
/// the sign tell zeros, numbers, infinities and NaNs apart.
pub proof fn law_the_kinds_of_reading(x: Reading)
    ensures
        x.is_nan() <==> 0x7ff0_0000_0000_0000 < x.bits < 0x8000_0000_0000_0000 || x.bits
            > 0xfff0_0000_0000_0000,
        x.finite() <==> x.bits < 0x7ff0_0000_0000_0000 || 0x8000_0000_0000_0000 <= x.bits
            < 0xfff0_0000_0000_0000,
        x.nought() <==> x.bits == 0 || x.bits == 0x8000_0000_0000_0000,
        x.finite() ==> !x.is_nan(),
        x.nought() ==> x.finite(),
{
}

/// **Numbers compare as their bits do**, the other way round below zero; a
/// NaN compares with nothing, and neither zero is above the other.
pub proof fn law_readings_compare_as_numbers(a: Reading, b: Reading)
    requires
        !a.is_nan(),
        !b.is_nan(),
    ensures
        a.bits < 0x8000_0000_0000_0000 && b.bits < 0x8000_0000_0000_0000 ==> (a.above(b)
            <==> a.bits > b.bits),
        a.bits >= 0x8000_0000_0000_0000 && b.bits >= 0x8000_0000_0000_0000 ==> (a.above(b)
            <==> a.bits < b.bits),
        a.bits < 0x8000_0000_0000_0000 && b.bits >= 0x8000_0000_0000_0000 ==> (a.above(b)
            <==> !(a.bits == 0 && b.bits == 0x8000_0000_0000_0000)),
        a.bits >= 0x8000_0000_0000_0000 && b.bits < 0x8000_0000_0000_0000 ==> !a.above(b),
        a.within(b) <==> !a.above(b),
        a.equals(b) <==> !a.above(b) && !b.above(a),
{
}

/// **A NaN is neither above, below nor equal to anything**, itself included.
pub proof fn law_a_nan_compares_with_nothing(nan: Reading, other: Reading)
    requires
        nan.is_nan(),
    ensures
        !nan.above(other) && !other.above(nan),
        !nan.within(other) && !other.within(nan),
        !nan.equals(other) && !other.equals(nan),
{
}

/// **Negation turns the order round and undoes itself.**
pub proof fn law_negation_turns_the_order_round(a: Reading, b: Reading)
    ensures
        a.opposite().opposite() == a,
        a.opposite() != a,
        a.above(b) <==> b.opposite().above(a.opposite()),
        a.within(b) <==> b.opposite().within(a.opposite()),
        a.is_nan() <==> a.opposite().is_nan(),
        a.finite() <==> a.opposite().finite(),
        a.nought() <==> a.opposite().nought(),
{
}

/// **The total order is the order of the numbers**, with each negative
/// reading before each positive one, and -0 before +0.
pub proof fn law_the_total_order(a: Reading, b: Reading)
    ensures
        a.above(b) ==> b.place() < a.place(),
        a.bits >= 0x8000_0000_0000_0000 && b.bits < 0x8000_0000_0000_0000 ==> a.place()
            < b.place(),
        a.bits < 0x8000_0000_0000_0000 && b.bits < 0x8000_0000_0000_0000 ==> (a.place()
            < b.place() <==> a.bits < b.bits),
        a.bits >= 0x8000_0000_0000_0000 && b.bits >= 0x8000_0000_0000_0000 ==> (a.place()
            < b.place() <==> a.bits > b.bits),
{
}

} // verus!
