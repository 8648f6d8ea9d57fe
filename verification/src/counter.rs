//! Transaction counters: 64-bit counters that wrap around and are compared on a circle.
use vstd::prelude::*;
use crate::data::traits::DataWrite;
use crate::data::traits::Datum;

verus! {

/// The number of values a counter can take.
pub open spec fn counter_modulus() -> int {
    0x1_0000_0000_0000_0000
}

/// The distance from `a` forward to `b` on the counter circle: `(b - a) mod 2^64`.
pub open spec fn circle_distance(a: u64, b: u64) -> int {
    (b - a) % counter_modulus()
}

/// `a` is less than `b`: `b` is ahead of `a` on the counter circle by at least one and by
/// less than `u64::MAX / 2 - 1`.
pub open spec fn circle_lt_spec(a: u64, b: u64) -> bool {
    0 < circle_distance(a, b) < 0x7FFF_FFFF_FFFF_FFFE
}

/// `a` is less than or equal to `b`: `b` is ahead of `a` on the counter circle by less than
/// `u64::MAX / 2 - 1`.
pub open spec fn circle_lt_eq_spec(a: u64, b: u64) -> bool {
    circle_distance(a, b) < 0x7FFF_FFFF_FFFF_FFFE
}

/// The big-endian bytes of `x`.
pub open spec fn be_bytes(x: u64) -> Seq<u8> {
    seq![
        (x / 0x100_0000_0000_0000) as u8,
        ((x / 0x1_0000_0000_0000) % 0x100) as u8,
        ((x / 0x100_0000_0000) % 0x100) as u8,
        ((x / 0x1_0000_0000) % 0x100) as u8,
        ((x / 0x100_0000) % 0x100) as u8,
        ((x / 0x1_0000) % 0x100) as u8,
        ((x / 0x100) % 0x100) as u8,
        (x % 0x100) as u8,
    ]
}


/// The number that a sequence of bytes stands for, read in big-endian: the first byte is the
/// most significant.
pub open spec fn be_value(s: Seq<u8>) -> int
    decreases s.len(),
{
    if s.len() == 0 {
        0
    } else {
        be_value(s.drop_last()) * 256 + s.last()
    }
}

/// The eight big-endian bytes of a counter read back, most significant first, give its value;
/// so distinct values have distinct bytes.
pub proof fn law_be_bytes_read_back(x: u64)
    ensures
        be_bytes(x).len() == 8,
        be_value(be_bytes(x)) == x,
        forall|y: u64| #[trigger] be_bytes(y) == be_bytes(x) ==> y == x,
{
    lemma_be_value_of_bytes(x);
    assert forall|y: u64| #[trigger] be_bytes(y) == be_bytes(x) implies y == x by {
        lemma_be_value_of_bytes(y);
    }
}

proof fn lemma_be_value_of_bytes(x: u64)
    ensures
        be_bytes(x).len() == 8,
        be_value(be_bytes(x)) == x,
{
    let b = be_bytes(x);
    let q1: u64 = x / 0x100;
    let q2: u64 = x / 0x1_0000;
    let q3: u64 = x / 0x100_0000;
    let q4: u64 = x / 0x1_0000_0000;
    let q5: u64 = x / 0x100_0000_0000;
    let q6: u64 = x / 0x1_0000_0000_0000;
    let q7: u64 = x / 0x100_0000_0000_0000;
    assert(x == q1 * 0x100 + x % 0x100) by (bit_vector)
        requires q1 == x / 0x100;
    assert(q1 == q2 * 0x100 + q1 % 0x100 && q1 % 0x100 == (x / 0x100) % 0x100) by (bit_vector)
        requires q1 == x / 0x100, q2 == x / 0x1_0000;
    assert(q2 == q3 * 0x100 + q2 % 0x100) by (bit_vector)
        requires q2 == x / 0x1_0000, q3 == x / 0x100_0000;
    assert(q3 == q4 * 0x100 + q3 % 0x100) by (bit_vector)
        requires q3 == x / 0x100_0000, q4 == x / 0x1_0000_0000;
    assert(q4 == q5 * 0x100 + q4 % 0x100) by (bit_vector)
        requires q4 == x / 0x1_0000_0000, q5 == x / 0x100_0000_0000;
    assert(q5 == q6 * 0x100 + q5 % 0x100) by (bit_vector)
        requires q5 == x / 0x100_0000_0000, q6 == x / 0x1_0000_0000_0000;
    assert(q6 == q7 * 0x100 + q6 % 0x100) by (bit_vector)
        requires q6 == x / 0x1_0000_0000_0000, q7 == x / 0x100_0000_0000_0000;
    assert(q7 < 0x100) by (bit_vector)
        requires q7 == x / 0x100_0000_0000_0000;
    assert(b[0] == q7);
    assert(b[1] == q6 % 0x100);
    assert(b[2] == q5 % 0x100);
    assert(b[3] == q4 % 0x100);
    assert(b[4] == q3 % 0x100);
    assert(b[5] == q2 % 0x100);
    assert(b[6] == q1 % 0x100);
    assert(b[7] == x % 0x100);
    reveal_with_fuel(be_value, 9);
    assert(b.drop_last().drop_last().drop_last().drop_last().drop_last().drop_last().drop_last().drop_last()
        =~= Seq::<u8>::empty());
    assert(be_value(b.take(1)) == q7) by {
        assert(b.take(1).drop_last() =~= Seq::<u8>::empty());
    }
    assert(be_value(b.take(2)) == q6) by {
        assert(b.take(2).drop_last() =~= b.take(1));
    }
    assert(be_value(b.take(3)) == q5) by {
        assert(b.take(3).drop_last() =~= b.take(2));
    }
    assert(be_value(b.take(4)) == q4) by {
        assert(b.take(4).drop_last() =~= b.take(3));
    }
    assert(be_value(b.take(5)) == q3) by {
        assert(b.take(5).drop_last() =~= b.take(4));
    }
    assert(be_value(b.take(6)) == q2) by {
        assert(b.take(6).drop_last() =~= b.take(5));
    }
    assert(be_value(b.take(7)) == q1) by {
        assert(b.take(7).drop_last() =~= b.take(6));
    }
    assert(be_value(b) == x) by {
        assert(b.drop_last() =~= b.take(7));
    }
}

/// A 64-bit counter. Counters wrap around and are read/written in big-endian format.
#[derive(PartialEq, Eq, Structural, Clone, Copy, Hash, Debug)]
pub struct Counter {
    data: u64,
}

impl View for Counter {
    type V = u64;

    closed spec fn view(&self) -> u64 {
        self.data
    }
}

/// The character of the decimal digit `d`.
pub open spec fn digit_char(d: int) -> char {
    if d == 0 {
        '0'
    } else if d == 1 {
        '1'
    } else if d == 2 {
        '2'
    } else if d == 3 {
        '3'
    } else if d == 4 {
        '4'
    } else if d == 5 {
        '5'
    } else if d == 6 {
        '6'
    } else if d == 7 {
        '7'
    } else if d == 8 {
        '8'
    } else {
        '9'
    }
}

/// The decimal rendering of `n`, without leading zeros.
pub open spec fn decimal(n: nat) -> Seq<char>
    decreases n,
{
    if n < 10 {
        seq![digit_char(n as int)]
    } else {
        decimal(n / 10).push(digit_char((n % 10) as int))
    }
}


/// The value of a decimal digit character, or `None` for another character.
pub open spec fn digit_value(c: char) -> Option<int> {
    if c == '0' {
        Some(0)
    } else if c == '1' {
        Some(1)
    } else if c == '2' {
        Some(2)
    } else if c == '3' {
        Some(3)
    } else if c == '4' {
        Some(4)
    } else if c == '5' {
        Some(5)
    } else if c == '6' {
        Some(6)
    } else if c == '7' {
        Some(7)
    } else if c == '8' {
        Some(8)
    } else if c == '9' {
        Some(9)
    } else {
        None
    }
}

/// The number a string of decimal digits stands for, most significant digit first.
pub open spec fn numeral_value(s: Seq<char>) -> int
    decreases s.len(),
{
    if s.len() == 0 {
        0
    } else {
        numeral_value(s.drop_last()) * 10 + digit_value(s.last())->0
    }
}

/// `s` is a decimal numeral in its usual form: one or more digits, and no leading zero
/// unless it is `0` itself.
pub open spec fn is_numeral(s: Seq<char>) -> bool {
    &&& s.len() > 0
    &&& forall|i: int| 0 <= i < s.len() ==> (#[trigger] digit_value(s[i])) is Some
    &&& s[0] == '0' ==> s.len() == 1
}

proof fn lemma_digit_value_of_char(d: int)
    requires
        0 <= d < 10,
    ensures
        digit_value(digit_char(d)) == Some(d),
{
}

/// The decimal rendering of `n` is a numeral in its usual form that reads back as `n`.
pub proof fn law_decimal_reads_back(n: nat)
    ensures
        is_numeral(decimal(n)),
        numeral_value(decimal(n)) == n,
    decreases n,
{
    if n < 10 {
        lemma_digit_value_of_char(n as int);
        assert(decimal(n) =~= seq![digit_char(n as int)]);
        assert(decimal(n).drop_last() =~= Seq::<char>::empty());
        assert(numeral_value(decimal(n)) == numeral_value(decimal(n).drop_last()) * 10 + digit_value(decimal(n).last())->0);
    } else {
        law_decimal_reads_back(n / 10);
        lemma_digit_value_of_char((n % 10) as int);
        let d = decimal(n / 10);
        assert(decimal(n) == d.push(digit_char((n % 10) as int)));
        assert(decimal(n).drop_last() =~= d);
        assert(decimal(n)[0] == d[0]);
        assert forall|i: int| 0 <= i < decimal(n).len() implies (#[trigger] digit_value(decimal(n)[i])) is Some by {
            if i < d.len() {
                assert(decimal(n)[i] == d[i]);
            }
        }
        if d[0] == '0' {
            assert(d.len() == 1);
            assert(d.drop_last() =~= Seq::<char>::empty());
            assert(numeral_value(d) == numeral_value(d.drop_last()) * 10 + digit_value(d.last())->0);
            assert(false);
        }
        assert(numeral_value(decimal(n)) == numeral_value(d) * 10 + digit_value(digit_char((n % 10) as int))->0);
        assert(n == (n / 10) * 10 + n % 10);
    }
}

/// The decimal digit `d` as a string.
fn digit_str(d: u64) -> (r: &'static str)
    requires
        d < 10,
    ensures
        r@ == seq![digit_char(d as int)],
{
    proof {
        reveal_strlit("0");
        reveal_strlit("1");
        reveal_strlit("2");
        reveal_strlit("3");
        reveal_strlit("4");
        reveal_strlit("5");
        reveal_strlit("6");
        reveal_strlit("7");
        reveal_strlit("8");
        reveal_strlit("9");
    }
    match d {
        0 => "0",
        1 => "1",
        2 => "2",
        3 => "3",
        4 => "4",
        5 => "5",
        6 => "6",
        7 => "7",
        8 => "8",
        _ => "9",
    }
}

/// The decimal rendering of `n`.
fn decimal_string(n: u64) -> (r: String)
    ensures
        r@ == decimal(n as nat),
    decreases n,
{
    if n < 10 {
        let mut s = String::new();
        s.append(digit_str(n));
        proof {
            assert(s@ =~= decimal(n as nat));
        }
        s
    } else {
        let mut s = decimal_string(n / 10);
        s.append(digit_str(n % 10));
        s
    }
}

impl Counter {
    /// Creates a new Counter wrapping the given unsigned int.
    pub fn new(x: u64) -> (r: Counter)
        ensures
            r@ == x,
    {
        Counter { data: x }
    }

    /// The counter's value in decimal, as `Display` shows it.
    pub fn to_string(self) -> (r: String)
        ensures
            r@ == decimal(self@ as nat),
            is_numeral(r@),
            numeral_value(r@) == self@,
    {
        proof {
            law_decimal_reads_back(self@ as nat);
        }
        decimal_string(self.data)
    }

    /// The unsigned int this counter holds.
    pub fn value(self) -> (r: u64)
        ensures
            r == self@,
    {
        self.data
    }

    /// Increments this counter by one, wrapping around to 0 if needed.
    pub fn inc(self) -> (r: Counter)
        ensures
            r@ == (self@ + 1) % counter_modulus(),
    {
        Counter { data: self.data.wrapping_add(1) }
    }

    /// Returns this counter as an array of bytes, in big-endian.
    pub fn to_bytes(self) -> (r: [u8; 8])
        ensures
            r@ == be_bytes(self@),
            be_value(r@) == self@,
    {
        let x = self.data;
        let r = [
            (x >> 56u64) as u8,
            (x >> 48u64) as u8,
            (x >> 40u64) as u8,
            (x >> 32u64) as u8,
            (x >> 24u64) as u8,
            (x >> 16u64) as u8,
            (x >> 8u64) as u8,
            x as u8,
        ];
        proof {
            assert((x >> 56u64) as u8 == (x / 0x100_0000_0000_0000) as u8) by (bit_vector);
            assert((x >> 48u64) as u8 == ((x / 0x1_0000_0000_0000) % 0x100) as u8) by (bit_vector);
            assert((x >> 40u64) as u8 == ((x / 0x100_0000_0000) % 0x100) as u8) by (bit_vector);
            assert((x >> 32u64) as u8 == ((x / 0x1_0000_0000) % 0x100) as u8) by (bit_vector);
            assert((x >> 24u64) as u8 == ((x / 0x100_0000) % 0x100) as u8) by (bit_vector);
            assert((x >> 16u64) as u8 == ((x / 0x1_0000) % 0x100) as u8) by (bit_vector);
            assert((x >> 8u64) as u8 == ((x / 0x100) % 0x100) as u8) by (bit_vector);
            assert(x as u8 == (x % 0x100) as u8) by (bit_vector);
            assert(r@ =~= be_bytes(x));
            lemma_be_value_of_bytes(x);
        }
        r
    }

    /// Returns this counter as an array of bytes, in big-endian.
    pub fn bytes(self) -> (r: [u8; 8])
        ensures
            r@ == be_bytes(self@),
    {
        self.to_bytes()
    }

    /// Returns true if this counter is less than the given counter: the given counter is ahead
    /// of this one on the circle, by at least one and by less than `u64::MAX / 2 - 1`, using
    /// wrapping arithmetic. Informally, this counter must be "behind" the other by less than
    /// maximum distance.
    pub fn circle_lt(self, other: Counter) -> (r: bool)
        ensures
            r == circle_lt_spec(self@, other@),
    {
        let d = other.data.wrapping_sub(self.data);
        d != 0 && d < u64::MAX / 2 - 1
    }

    /// Returns true if this counter is less than or equal to the given counter: the given
    /// counter is ahead of this one on the circle by less than `u64::MAX / 2 - 1`, using
    /// wrapping arithmetic.
    pub fn circle_lt_eq(self, other: Counter) -> (r: bool)
        ensures
            r == circle_lt_eq_spec(self@, other@),
    {
        other.data.wrapping_sub(self.data) < u64::MAX / 2 - 1
    }
}

impl Datum for Counter {
    open spec fn datum_view(&self) -> Seq<u8> {
        be_bytes(self@)
    }

    fn len(&self) -> (r: usize) {
        8
    }

    fn write_bytes<W: DataWrite>(&self, w: W) -> (r: W::Result) {
        let bytes = self.to_bytes();
        w.write(bytes.as_slice())
    }
}

/// Two counters holding the same value are the same counter.
pub proof fn law_counter_view_injective(a: Counter, b: Counter)
    requires
        a@ == b@,
    ensures
        a == b,
{
}

/// No counter is less than itself, and every counter is less than or equal to itself.
pub proof fn law_circle_reflexivity(a: u64)
    ensures
        !circle_lt_spec(a, a),
        circle_lt_eq_spec(a, a),
{
}

/// Less-than-or-equal is less-than or equality.
pub proof fn law_circle_lt_eq_is_lt_or_eq(a: u64, b: u64)
    ensures
        circle_lt_eq_spec(a, b) == (circle_lt_spec(a, b) || a == b),
{
}

/// Less-than on the circle is asymmetric.
pub proof fn law_circle_lt_asymmetric(a: u64, b: u64)
    ensures
        !(circle_lt_spec(a, b) && circle_lt_spec(b, a)),
{
}

/// A counter is less than its increment.
pub proof fn law_circle_lt_inc(a: u64)
    ensures
        circle_lt_spec(a, ((a + 1) % counter_modulus()) as u64),
{
}

/// Within a quarter of the circle starting at any counter `w`, the circle order is the
/// order of the distances from `w`.
pub proof fn lemma_circle_window(w: u64, a: u64, b: u64)
    requires
        circle_distance(w, a) < 0x4000_0000_0000_0000,
        circle_distance(w, b) < 0x4000_0000_0000_0000,
    ensures
        circle_lt_spec(a, b) == (circle_distance(w, a) < circle_distance(w, b)),
        circle_lt_eq_spec(a, b) == (circle_distance(w, a) <= circle_distance(w, b)),
{
    let da = circle_distance(w, a);
    let db = circle_distance(w, b);
    assert(a - w == da || a - w == da - counter_modulus());
    assert(b - w == db || b - w == db - counter_modulus());
}

/// Away from the wrap-around point the circle order is the order of the integers.
pub proof fn lemma_circle_order_without_wrap(a: u64, b: u64)
    requires
        a < 0x4000_0000_0000_0000,
        b < 0x4000_0000_0000_0000,
    ensures
        circle_lt_spec(a, b) == (a < b),
        circle_lt_eq_spec(a, b) == (a <= b),
{
}

} // verus!
