//! Decimal numbers as the save writes them, held exactly.

use crate::lexer::{digit_end, find_digit_end, is_digit, is_number, MINUS};
use vstd::prelude::*;

verus! {

/// The most fraction digits that a [`Decimal`] holds.
pub const MAX_SCALE: u8 = 18;

/// A decimal number: `mantissa` divided by ten to the power `scale`.
#[derive(Clone, Copy, Debug, PartialEq, Eq, Structural)]
pub struct Decimal {
    pub mantissa: i64,
    pub scale: u8,
}

/// Ten to the power `n`.
pub open spec fn pow10(n: nat) -> nat
    decreases n,
{
    if n == 0 {
        1
    } else {
        10 * pow10((n - 1) as nat)
    }
}

/// Powers of ten grow.
pub proof fn lemma_pow10_grows(a: nat, b: nat)
    requires
        a <= b,
    ensures
        1 <= pow10(a) <= pow10(b),
    decreases b,
{
    if a < b {
        lemma_pow10_grows(a, (b - 1) as nat);
    } else if a > 0 {
        lemma_pow10_grows((a - 1) as nat, (a - 1) as nat);
    }
}

/// Ten to the power nineteen and twenty, written out.
pub proof fn lemma_pow10_values()
    ensures
        pow10(18) == 1_000_000_000_000_000_000,
        pow10(19) == 10_000_000_000_000_000_000,
        pow10(20) == 100_000_000_000_000_000_000,
{
    reveal_with_fuel(pow10, 21);
}

/// Computes ten to the power `n`.
pub fn power_of_ten(n: u8) -> (r: u64)
    requires
        n <= 19,
    ensures
        r == pow10(n as nat),
        1 <= r <= 10_000_000_000_000_000_000,
{
    let mut r: u64 = 1;
    let mut k: u8 = 0;
    proof {
        lemma_pow10_values();
    }
    while k < n
        invariant
            k <= n <= 19,
            r == pow10(k as nat),
            pow10(19) == 10_000_000_000_000_000_000,
        decreases n - k,
    {
        proof {
            lemma_pow10_grows((k + 1) as nat, 19);
        }
        r = r * 10;
        k += 1;
    }
    proof {
        lemma_pow10_grows(n as nat, 19);
    }
    r
}

impl Decimal {
    /// The value one half, which stands for "no data" in a country's
    /// stability and war support.
    pub open spec fn half_spec() -> Decimal {
        Decimal { mantissa: 5, scale: 1 }
    }

    /// Whether the number has a scale that this type supports.
    pub open spec fn wf(self) -> bool {
        self.scale <= MAX_SCALE
    }

    /// Whether the number equals one half.
    pub open spec fn is_half_spec(self) -> bool {
        2 * self.mantissa == pow10(self.scale as nat)
    }

    /// Whether the number lies between zero and one, both included.
    pub open spec fn is_fraction_spec(self) -> bool {
        0 <= self.mantissa <= pow10(self.scale as nat)
    }

    /// Whether two numbers have the same value.
    pub open spec fn same_value(self, other: Decimal) -> bool {
        self.mantissa * pow10(other.scale as nat) == other.mantissa * pow10(self.scale as nat)
    }

    /// One half.
    pub fn half() -> (r: Decimal)
        ensures
            r == Decimal::half_spec(),
            r.wf(),
            r.is_half_spec(),
    {
        proof {
            reveal_with_fuel(pow10, 2);
        }
        Decimal { mantissa: 5, scale: 1 }
    }

    /// Whether the number equals one half.
    pub fn is_half(&self) -> (r: bool)
        ensures
            r == self.is_half_spec(),
    {
        if self.scale > 19 {
            proof {
                lemma_pow10_values();
                lemma_pow10_grows(20, self.scale as nat);
            }
            return false;
        }
        let p: u64 = power_of_ten(self.scale);
        (self.mantissa as i128) * 2 == p as i128
    }

    /// Whether the number lies between zero and one, both included.
    pub fn is_fraction(&self) -> (r: bool)
        ensures
            r == self.is_fraction_spec(),
    {
        if self.scale > 19 {
            proof {
                lemma_pow10_values();
                lemma_pow10_grows(20, self.scale as nat);
            }
            return 0 <= self.mantissa;
        }
        let p: u64 = power_of_ten(self.scale);
        0 <= self.mantissa && self.mantissa as i128 <= p as i128
    }
}

/// The value of the digits among the bytes from `lo` up to, not including,
/// `hi`, read as one decimal numeral. Bytes that are no digits are passed
/// over.
pub open spec fn digits_value(s: Seq<u8>, lo: int, hi: int) -> nat
    decreases hi - lo,
{
    if lo >= hi {
        0
    } else if is_digit(s[hi - 1]) {
        10 * digits_value(s, lo, hi - 1) + (s[hi - 1] - 0x30) as nat
    } else {
        digits_value(s, lo, hi - 1)
    }
}

/// Reading more bytes never makes the value smaller.
pub proof fn lemma_digits_value_grows(s: Seq<u8>, lo: int, mid: int, hi: int)
    requires
        lo <= mid <= hi,
    ensures
        digits_value(s, lo, mid) <= digits_value(s, lo, hi),
    decreases hi - mid,
{
    if mid < hi {
        lemma_digits_value_grows(s, lo, mid, hi - 1);
    }
}

/// Whether the number's text starts with a minus sign.
pub open spec fn is_negative(w: Seq<u8>) -> bool {
    w.len() > 0 && w[0] == MINUS
}

/// The number of digits behind the decimal point of a number's text.
pub open spec fn fraction_digits(w: Seq<u8>) -> int {
    let start: int = if is_negative(w) {
        1
    } else {
        0
    };
    let whole = digit_end(w, start);
    if whole == w.len() {
        0
    } else {
        w.len() - whole - 1
    }
}

/// The number that a text stands for, where it is a number that a
/// [`Decimal`] can hold: at most eighteen fraction digits, and all its digits
/// together no more than `i64::MAX`.
pub open spec fn decimal_of(w: Seq<u8>) -> Option<Decimal> {
    let digits = digits_value(w, 0, w.len() as int);
    if is_number(w) && fraction_digits(w) <= MAX_SCALE && digits <= i64::MAX {
        Some(
            Decimal {
                mantissa: if is_negative(w) {
                    (-digits) as i64
                } else {
                    digits as i64
                },
                scale: fraction_digits(w) as u8,
            },
        )
    } else {
        None
    }
}

/// Reads the digits among the bytes from `lo` up to, not including, `hi` as
/// one numeral, or `None` where the value is more than `i64::MAX`.
pub fn read_digits(w: &[u8], lo: usize, hi: usize) -> (r: Option<i64>)
    requires
        lo <= hi <= w.len(),
    ensures
        r is Some <==> digits_value(w@, lo as int, hi as int) <= i64::MAX,
        r matches Some(v) ==> v == digits_value(w@, lo as int, hi as int),
{
    let mut acc: i64 = 0;
    let mut i: usize = lo;
    while i < hi
        invariant
            lo <= i <= hi <= w.len(),
            0 <= acc,
            acc == digits_value(w@, lo as int, i as int),
        decreases hi - i,
    {
        let b: u8 = w[i];
        if 0x30 <= b && b <= 0x39 {
            let next: i128 = (acc as i128) * 10 + ((b - 0x30) as i128);
            if next > i64::MAX as i128 {
                proof {
                    lemma_digits_value_grows(w@, lo as int, i + 1, hi as int);
                }
                return None;
            }
            acc = next as i64;
        }
        i += 1;
    }
    Some(acc)
}

/// Reads a number's text as a [`Decimal`].
pub fn parse_decimal(w: &[u8]) -> (r: Option<Decimal>)
    ensures
        r == decimal_of(w@),
        r matches Some(d) ==> d.wf(),
{
    if !crate::lexer::word_is_number(w) {
        return None;
    }
    let n: usize = w.len();
    let negative: bool = n > 0 && w[0] == MINUS;
    let start: usize = if negative {
        1
    } else {
        0
    };
    let whole: usize = find_digit_end(w, start);
    let scale: usize = if whole == n {
        0
    } else {
        n - whole - 1
    };
    if scale > MAX_SCALE as usize {
        return None;
    }
    match read_digits(w, 0, n) {
        None => None,
        Some(digits) => Some(
            Decimal {
                mantissa: if negative {
                    -digits
                } else {
                    digits
                },
                scale: scale as u8,
            },
        ),
    }
}

} // verus!
