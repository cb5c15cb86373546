//! Numeric literals: fixed-width signed integers and the conversion of a
//! digit run, in a given radix, to a value of a requested bit width.

use vstd::prelude::*;

verus! {

/// A numeric token value: a signed integer tagged with its bit width.
#[derive(Clone, Copy, PartialEq, Eq, Structural, Debug)]
pub enum Num {
    I8(i8),
    I16(i16),
    I32(i32),
    I64(i64),
}

/// Bit width of a numeric value: 8, 16, 32 or 64.
pub open spec fn num_width(n: Num) -> u32 {
    match n {
        Num::I8(_) => 8,
        Num::I16(_) => 16,
        Num::I32(_) => 32,
        Num::I64(_) => 64,
    }
}

/// Mathematical value of a numeric token.
pub open spec fn num_value(n: Num) -> int {
    match n {
        Num::I8(i) => i as int,
        Num::I16(i) => i as int,
        Num::I32(i) => i as int,
        Num::I64(i) => i as int,
    }
}

/// Largest value representable in a signed width of 8, 16, 32 or 64 bits.
pub open spec fn width_max(width: u32) -> int {
    if width == 8 {
        0x7f
    } else if width == 16 {
        0x7fff
    } else if width == 32 {
        0x7fff_ffff
    } else {
        0x7fff_ffff_ffff_ffff
    }
}

/// Value of a digit character in radices up to 16; `-1` for a non-digit.
pub open spec fn digit_val(c: char) -> int {
    let u = c as u32;
    if 48 <= u && u <= 57 {
        u - 48
    } else if 97 <= u && u <= 102 {
        u - 87
    } else if 65 <= u && u <= 70 {
        u - 55
    } else {
        -1
    }
}

/// Whether `c` is a digit of the given radix.
pub open spec fn is_digit(c: char, radix: u32) -> bool {
    0 <= digit_val(c) < radix
}

/// Value of a digit run read in the given radix.
pub open spec fn digits_val(s: Seq<char>, radix: u32) -> int
    decreases s.len(),
{
    if s.len() == 0 {
        0
    } else {
        digits_val(s.drop_last(), radix) * radix + digit_val(s.last())
    }
}

/// The character of decimal digit `d`.
pub open spec fn digit_char(d: int) -> char {
    if d == 0 {
        '0'
    } else if d == 1 {
        '1'
    } else if d == 2 {
        '2'
    } else if d == 3 {
        '3'
    } else if d == 4 {
        '4'
    } else if d == 5 {
        '5'
    } else if d == 6 {
        '6'
    } else if d == 7 {
        '7'
    } else if d == 8 {
        '8'
    } else {
        '9'
    }
}

/// Decimal digit characters of `n`, most significant first.
pub open spec fn dec_digits(n: nat) -> Seq<char>
    decreases n,
{
    if n < 10 {
        seq![digit_char(n as int)]
    } else {
        dec_digits(n / 10) + seq![digit_char((n % 10) as int)]
    }
}

/// Canonical rendering of a numeric token: decimal digits of the value,
/// then `:` and the bit width.
pub open spec fn render_num(n: Num) -> Seq<char> {
    let v = num_value(n);
    (if v >= 0 {
        dec_digits(v as nat)
    } else {
        seq!['-'] + dec_digits((-v) as nat)
    }) + seq![':'] + dec_digits(num_width(n) as nat)
}

impl Num {
    /// Bit width of this value.
    pub fn width(self) -> (r: u32)
        ensures
            r == num_width(self),
    {
        match self {
            Num::I8(_) => 8,
            Num::I16(_) => 16,
            Num::I32(_) => 32,
            Num::I64(_) => 64,
        }
    }

    /// This value, widened to 64 bits.
    pub fn value(self) -> (r: i64)
        ensures
            r as int == num_value(self),
    {
        match self {
            Num::I8(i) => i as i64,
            Num::I16(i) => i as i64,
            Num::I32(i) => i as i64,
            Num::I64(i) => i,
        }
    }
}

/// The numeric token of the given width holding a non-negative value that
/// fits in that width.
pub open spec fn num_of(width: u32, v: int) -> Num {
    if width == 8 {
        Num::I8(v as i8)
    } else if width == 16 {
        Num::I16(v as i16)
    } else if width == 32 {
        Num::I32(v as i32)
    } else {
        Num::I64(v as i64)
    }
}

/// Digit value of `c` in `radix`, exactly when `c` is a digit of that radix.
pub fn digit_of(c: char, radix: u32) -> (r: Option<u32>)
    requires
        radix == 2 || radix == 8 || radix == 10 || radix == 16,
    ensures
        r is Some <==> is_digit(c, radix),
        r is Some ==> r->0 == digit_val(c),
{
    let u = c as u32;
    let v: u32 = if 48 <= u && u <= 57 {
        u - 48
    } else if 97 <= u && u <= 102 {
        u - 87
    } else if 65 <= u && u <= 70 {
        u - 55
    } else {
        16
    };
    if v < radix {
        Some(v)
    } else {
        None
    }
}

/// A digit run whose prefix already exceeds the width's maximum exceeds it
/// as a whole.
proof fn lemma_digits_val_grows(s: Seq<char>, radix: u32, i: int)
    requires
        2 <= radix <= 16,
        0 <= i <= s.len(),
        forall|j: int| 0 <= j < s.len() ==> is_digit(s[j], radix),
    ensures
        digits_val(s.subrange(0, i), radix) <= digits_val(s, radix),
        digits_val(s, radix) >= 0,
    decreases s.len() - i,
{
    if i == s.len() {
        assert(s.subrange(0, i) =~= s);
        lemma_digits_val_nonneg(s, radix);
    } else {
        lemma_digits_val_grows(s, radix, i + 1);
        let a = s.subrange(0, i);
        let b = s.subrange(0, i + 1);
        assert(b.drop_last() =~= a);
        assert(b.last() == s[i]);
        lemma_digits_val_nonneg(a, radix);
        assert(digits_val(a, radix) * radix >= digits_val(a, radix)) by (nonlinear_arith)
            requires
                digits_val(a, radix) >= 0,
                radix >= 2,
        ;
    }
}

/// The value of a digit run is never negative.
pub proof fn lemma_digits_val_nonneg(s: Seq<char>, radix: u32)
    requires
        2 <= radix <= 16,
        forall|j: int| 0 <= j < s.len() ==> is_digit(s[j], radix),
    ensures
        digits_val(s, radix) >= 0,
    decreases s.len(),
{
    if s.len() > 0 {
        lemma_digits_val_nonneg(s.drop_last(), radix);
        let a = s.drop_last();
        assert(digits_val(a, radix) * radix >= 0) by (nonlinear_arith)
            requires
                digits_val(a, radix) >= 0,
                radix >= 2,
        ;
    }
}

/// Converts a digit run, read in `radix`, to a numeric token of the given
/// signed bit width: `Some` exactly when the value fits that width.
pub fn readint(digits: &Vec<char>, radix: u32, width: u32) -> (r: Option<Num>)
    requires
        radix == 2 || radix == 8 || radix == 10 || radix == 16,
        width == 8 || width == 16 || width == 32 || width == 64,
        forall|j: int| 0 <= j < digits@.len() ==> is_digit(digits@[j], radix),
    ensures
        r is Some <==> digits_val(digits@, radix) <= width_max(width),
        r is Some ==> num_width(r->0) == width && num_value(r->0) == digits_val(digits@, radix),
        r is Some ==> r->0 == num_of(width, digits_val(digits@, radix)),
{
    let wmax: u64 = if width == 8 {
        0x7f
    } else if width == 16 {
        0x7fff
    } else if width == 32 {
        0x7fff_ffff
    } else {
        0x7fff_ffff_ffff_ffff
    };
    let mut acc: u64 = 0;
    let mut i: usize = 0;
    proof {
        assert(digits@.subrange(0, 0) =~= Seq::<char>::empty());
    }
    while i < digits.len()
        invariant
            0 <= i <= digits@.len(),
            radix == 2 || radix == 8 || radix == 10 || radix == 16,
            width == 8 || width == 16 || width == 32 || width == 64,
            wmax == width_max(width),
            forall|j: int| 0 <= j < digits@.len() ==> is_digit(digits@[j], radix),
            acc as int == digits_val(digits@.subrange(0, i as int), radix),
            acc <= wmax,
        decreases digits@.len() - i,
    {
        let c = digits[i];
        let d = match digit_of(c, radix) {
            Some(d) => d,
            None => {
                proof {
                    assert(false);
                }
                0
            },
        };
        proof {
            let a = digits@.subrange(0, i as int);
            let b = digits@.subrange(0, i + 1);
            assert(b.drop_last() =~= a);
            assert(b.last() == digits@[i as int]);
        }
        if acc > (wmax - d as u64) / (radix as u64) {
            proof {
                let b = digits@.subrange(0, i + 1);
                let q = (wmax - d) as u64 / radix as u64;
                assert(acc as int * radix >= (q + 1) * radix) by (nonlinear_arith)
                    requires
                        acc as int >= q + 1,
                        radix >= 2,
                ;
                assert((q + 1) * radix > wmax - d) by (nonlinear_arith)
                    requires
                        q == (wmax - d) as int / radix as int,
                        radix >= 2,
                        wmax >= d,
                ;
                assert(digits_val(b, radix) > wmax);
                lemma_digits_val_grows(digits@, radix, i + 1);
            }
            return None;
        }
        proof {
            let q = (wmax - d) as u64 / radix as u64;
            assert(acc as int * radix <= q * radix) by (nonlinear_arith)
                requires
                    acc as int <= q,
                    radix >= 2,
            ;
            assert(q * radix <= wmax - d) by (nonlinear_arith)
                requires
                    q == (wmax - d) as int / radix as int,
                    radix >= 2,
                    wmax >= d,
            ;
        }
        acc = acc * (radix as u64) + d as u64;
        i = i + 1;
    }
    proof {
        assert(digits@.subrange(0, digits@.len() as int) =~= digits@);
    }
    if width == 8 {
        Some(Num::I8(acc as i8))
    } else if width == 16 {
        Some(Num::I16(acc as i16))
    } else if width == 32 {
        Some(Num::I32(acc as i32))
    } else {
        Some(Num::I64(acc as i64))
    }
}

} // verus!
