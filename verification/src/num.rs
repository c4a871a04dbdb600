//! Plain second counts, timestamps, and the decimal formatting helpers.
use vstd::arithmetic::power::pow;
use vstd::prelude::*;

verus! {

/// A whole number of seconds.
#[derive(Clone, Copy, PartialEq, Eq, Structural, Debug, Hash)]
pub struct SecondsU64 {
    seconds: u64,
}

impl View for SecondsU64 {
    type V = u64;

    closed spec fn view(&self) -> u64 {
        self.seconds
    }
}

impl SecondsU64 {
    pub fn new(seconds: u64) -> (r: Self)
        ensures
            r@ == seconds,
    {
        SecondsU64 { seconds }
    }

    pub fn get(self) -> (r: u64)
        ensures
            r == self@,
    {
        self.seconds
    }
}

/// A positive whole number of seconds, used for segment widths and poll
/// intervals, where zero would make bucketing meaningless.
#[derive(Clone, Copy, PartialEq, Eq, Structural, Debug, Hash)]
pub struct SecondsNonZeroU64 {
    seconds: u64,
}

impl View for SecondsNonZeroU64 {
    type V = u64;

    closed spec fn view(&self) -> u64 {
        self.seconds
    }
}

impl SecondsNonZeroU64 {
    /// The count is never zero.
    #[verifier::type_invariant]
    pub open spec fn positive(self) -> bool {
        self@ >= 1
    }

    pub fn new(seconds: u64) -> (r: Self)
        requires
            seconds >= 1,
        ensures
            r@ == seconds,
    {
        SecondsNonZeroU64 { seconds }
    }

    pub fn get(self) -> (r: u64)
        ensures
            r == self@,
            r >= 1,
    {
        proof {
            use_type_invariant(&self);
        }
        self.seconds
    }

}

/// A point in time: whole seconds since the epoch plus a fractional part in
/// nanoseconds.
#[derive(Clone, Copy, PartialEq, Eq, Structural, Debug)]
pub struct Timestamp {
    pub secs: u64,
    pub nanos: u32,
}

impl Timestamp {
    /// A timestamp is well formed when the fractional part is less than one
    /// second.
    pub open spec fn wf(&self) -> bool {
        self.nanos < 1_000_000_000
    }

    pub fn new(secs: u64, nanos: u32) -> (r: Self)
        requires
            nanos < 1_000_000_000,
        ensures
            r.secs == secs && r.nanos == nanos && r.wf(),
    {
        Timestamp { secs, nanos }
    }
}

/// Arithmetic over IEEE-754 binary64 bit patterns, supplied by the embedder
/// (the library itself never computes with floating point). Nothing is
/// assumed about the results beyond their being sixty-four bits.
pub trait FloatArith {
    /// The bit pattern of the sum of the two numbers the operands encode.
    fn add(&self, a: u64, b: u64) -> u64;

    /// The bit pattern of the difference of the two numbers the operands
    /// encode.
    fn sub(&self, a: u64, b: u64) -> u64;

    /// The bit pattern of the quotient of the two numbers the operands
    /// encode.
    fn div(&self, a: u64, b: u64) -> u64;

    /// The bit pattern of the number nearest the given signed integer.
    fn of_i64(&self, v: i64) -> u64;

    /// The bit pattern of the number nearest the given unsigned integer.
    fn of_u64(&self, v: u64) -> u64;
}

/// Whether a binary64 bit pattern encodes a finite number: its exponent bits
/// are not all ones (which would mean an infinity or a not-a-number).
pub open spec fn f64_bits_finite(b: u64) -> bool {
    (b & 0x7fff_ffff_ffff_ffff) < 0x7ff0_0000_0000_0000
}

pub fn is_finite_bits(b: u64) -> (r: bool)
    ensures
        r == f64_bits_finite(b),
{
    (b & 0x7fff_ffff_ffff_ffff) < 0x7ff0_0000_0000_0000
}

/// The key that orders binary64 bit patterns by the IEEE-754 total order:
/// negative patterns (sign bit set) are reflected below the non-negative
/// ones.
pub open spec fn f64_total_order_key(b: u64) -> u64 {
    if b >= 0x8000_0000_0000_0000 {
        (0xffff_ffff_ffff_ffff - b) as u64
    } else {
        (b + 0x8000_0000_0000_0000) as u64
    }
}

pub fn total_order_key(b: u64) -> (r: u64)
    ensures
        r == f64_total_order_key(b),
{
    if b >= 0x8000_0000_0000_0000 {
        0xffff_ffff_ffff_ffff - b
    } else {
        b + 0x8000_0000_0000_0000
    }
}


/// The characters of `n` written in decimal, most significant digit first.
pub open spec fn dec_digits(n: nat) -> Seq<char>
    decreases n,
{
    if n < 10 {
        seq![digit_char(n as int)]
    } else {
        dec_digits(n / 10) + seq![digit_char((n % 10) as int)]
    }
}

/// The decimal digit `d` as a character.
pub open spec fn digit_char(d: int) -> char {
    (48 + d) as char
}

/// Commas inserted into a digit string, one before every complete group of
/// three digits counted from the right; `off` digits are assumed to already
/// stand to the right of the string.
pub open spec fn group_digits(s: Seq<char>, off: nat) -> Seq<char>
    decreases s.len(),
{
    if s.len() == 0 {
        Seq::empty()
    } else {
        group_digits(s.drop_last(), off + 1) + seq![s.last()] + (if off > 0 && off % 3 == 0 {
            seq![',']
        } else {
            Seq::<char>::empty()
        })
    }
}

/// `n` in decimal with a comma between every group of three digits.
pub open spec fn spec_fmt_u64(n: nat) -> Seq<char> {
    group_digits(dec_digits(n), 0)
}

/// `n` in decimal with digit grouping, and a leading minus sign when
/// negative.
pub open spec fn spec_fmt_i64(n: int) -> Seq<char> {
    if n < 0 {
        seq!['-'] + spec_fmt_u64((-n) as nat)
    } else {
        spec_fmt_u64(n as nat)
    }
}

/// The digits of the yet-unprocessed value `m`, least significant first,
/// with the separators that fall before each digit; `i` digits were already
/// emitted.
spec fn rev_digits(m: nat, i: nat) -> Seq<char>
    decreases m,
{
    if m == 0 {
        Seq::empty()
    } else {
        (if i > 0 && i % 3 == 0 {
            seq![',']
        } else {
            Seq::<char>::empty()
        }) + seq![digit_char((m % 10) as int)] + rev_digits(m / 10, i + 1)
    }
}

proof fn lemma_rev_digits_reversed(m: nat, i: nat)
    requires
        m > 0,
    ensures
        rev_digits(m, i).reverse() == group_digits(dec_digits(m), i),
    decreases m,
{
    let sep: Seq<char> = if i > 0 && i % 3 == 0 {
        seq![',']
    } else {
        Seq::<char>::empty()
    };
    let d = seq![digit_char((m % 10) as int)];
    if m < 10 {
        assert(rev_digits(m, i) =~= sep + d);
        assert((sep + d).reverse() =~= d + sep);
        assert(dec_digits(m) =~= d);
        assert(d.drop_last() =~= Seq::<char>::empty());
        assert(group_digits(Seq::<char>::empty(), i + 1) =~= Seq::<char>::empty());
        assert(group_digits(d, i) =~= group_digits(d.drop_last(), i + 1) + seq![d.last()] + sep);
        assert(group_digits(dec_digits(m), i) =~= d + sep);
    } else {
        lemma_rev_digits_reversed(m / 10, i + 1);
        assert(rev_digits(m, i) =~= sep + d + rev_digits(m / 10, i + 1));
        assert((sep + d + rev_digits(m / 10, i + 1)).reverse() =~= rev_digits(
            m / 10,
            i + 1,
        ).reverse() + d + sep);
        assert(dec_digits(m).drop_last() =~= dec_digits(m / 10));
        assert(dec_digits(m).last() == digit_char((m % 10) as int));
        assert(group_digits(dec_digits(m), i) =~= group_digits(dec_digits(m / 10), i + 1) + d
            + sep);
    }
}

proof fn lemma_pow10_bound()
    ensures
        pow(10, 20) > 0xffff_ffff_ffff_ffff,
{
    reveal_with_fuel(pow, 21);
}

/// Relies on `String::from_iter` over characters: the collected string holds
/// exactly the characters of the vector, in order.
#[verifier::external_body]
pub(crate) fn chars_to_string(v: &Vec<char>) -> (r: String)
    ensures
        r@ == v@,
{
    v.iter().collect()
}

/// `n` in decimal with a comma between every group of three digits.
pub fn fmt_u64(n: u64) -> (r: String)
    ensures
        r@ == spec_fmt_u64(n as nat),
{
    if n == 0 {
        let r = String::from_str("0");
        proof {
            reveal_strlit("0");
            let zero = seq![digit_char(0)];
            assert(dec_digits(0) =~= zero);
            assert(zero.drop_last() =~= Seq::<char>::empty());
            assert(group_digits(Seq::<char>::empty(), 1) =~= Seq::<char>::empty());
            assert(group_digits(zero, 0) =~= zero);
            assert(digit_char(0) == '0');
            assert(r@ =~= spec_fmt_u64(0));
        }
        return r;
    }
    proof {
        lemma_pow10_bound();
        vstd::arithmetic::power::lemma_pow0(10);
    }
    let mut rev: Vec<char> = Vec::new();
    let mut m: u64 = n;
    let mut i: usize = 0;
    while m > 0
        invariant
            rev@ + rev_digits(m as nat, i as nat) == rev_digits(n as nat, 0),
            i <= 20,
            (m as nat) * pow(10, i as nat) < pow(10, 20),
        decreases m,
    {
        proof {
            vstd::arithmetic::power::lemma_pow_positive(10, i as nat);
            if i >= 20 {
                assert((m as nat) * pow(10, i as nat) >= pow(10, i as nat)) by (nonlinear_arith)
                    requires
                        m >= 1,
                        pow(10, i as nat) > 0,
                ;
                vstd::arithmetic::power::lemma_pow_increases(10, 20, i as nat);
                assert(false);
            }
            vstd::arithmetic::power::lemma_pow_positive(10, i as nat);
        }
        if i > 0 && i % 3 == 0 {
            rev.push(',');
        }
        let d: u64 = m % 10;
        rev.push((48 + d as u8) as char);
        proof {
            assert(digit_char(d as int) == (48 + d as u8) as char);
            assert(pow(10, (i + 1) as nat) == 10 * pow(10, i as nat)) by {
                vstd::arithmetic::power::lemma_pow_adds(10, 1, i as nat);
                vstd::arithmetic::power::lemma_pow1(10);
            }
            assert(((m as nat) / 10) * pow(10, (i + 1) as nat) <= (m as nat) * pow(10, i as nat))
                by (nonlinear_arith)
                requires
                    pow(10, (i + 1) as nat) == 10 * pow(10, i as nat),
                    pow(10, i as nat) > 0,
            ;
        }
        m = m / 10;
        i = i + 1;
    }
    let mut out: Vec<char> = Vec::new();
    let mut j: usize = rev.len();
    while j > 0
        invariant
            j <= rev@.len(),
            out@ == rev@.subrange(j as int, rev@.len() as int).reverse(),
        decreases j,
    {
        j = j - 1;
        out.push(rev[j]);
        proof {
            assert(out@ =~= rev@.subrange(j as int, rev@.len() as int).reverse());
        }
    }
    proof {
        assert(rev@ =~= rev@.subrange(0, rev@.len() as int));
        lemma_rev_digits_reversed(n as nat, 0);
    }
    chars_to_string(&out)
}

/// `n` in decimal with digit grouping and a leading minus sign when
/// negative.
pub fn fmt_i64(n: i64) -> (r: String)
    ensures
        r@ == spec_fmt_i64(n as int),
{
    if n >= 0 {
        fmt_u64(n as u64)
    } else {
        let m: u64 = if n == i64::MIN {
            0x8000_0000_0000_0000
        } else {
            (-n) as u64
        };
        let digits = fmt_u64(m);
        let r = String::from_str("-").concat(digits.as_str());
        proof {
            reveal_strlit("-");
            assert(r@ =~= spec_fmt_i64(n as int));
        }
        r
    }
}

} // verus!
