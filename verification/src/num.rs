//! Exact decimal numbers as they are written in source: a mantissa and a count
//! of fractional digits. Refinement bounds, confidence thresholds and numeric
//! literals in type positions are compared and printed exactly.

use vstd::prelude::*;
use crate::text::{dec_value, digit_char, nat_to_dec, push_char, push_u64};

verus! {

/// Largest mantissa a literal may have (eighteen significant digits).
pub const MAX_MANTISSA: u64 = 999_999_999_999_999_999;

/// Largest number of fractional digits.
pub const MAX_SCALE: u32 = 18;

/// The value `mantissa / 10^scale`.
#[derive(Clone, Copy, Debug)]
pub struct Num {
    mantissa: u64,
    scale: u32,
}

pub open spec fn pow10(n: nat) -> nat
    decreases n,
{
    if n == 0 {
        1
    } else {
        10 * pow10((n - 1) as nat)
    }
}

pub proof fn lemma_pow10_pos(n: nat)
    ensures
        pow10(n) >= 1,
    decreases n,
{
    if n > 0 {
        lemma_pow10_pos((n - 1) as nat);
    }
}

pub proof fn lemma_pow10_mono(a: nat, b: nat)
    requires
        a <= b,
    ensures
        pow10(a) <= pow10(b),
    decreases b,
{
    if a < b {
        lemma_pow10_mono(a, (b - 1) as nat);
        lemma_pow10_pos((b - 1) as nat);
    }
}

impl Num {
    #[verifier::type_invariant]
    pub closed spec fn wf(self) -> bool {
        self.mantissa <= MAX_MANTISSA && self.scale <= MAX_SCALE
    }

    pub closed spec fn spec_mantissa(self) -> nat {
        self.mantissa as nat
    }

    pub closed spec fn spec_scale(self) -> nat {
        self.scale as nat
    }

    /// `mantissa / 10^scale`.
    pub fn from_parts(mantissa: u64, scale: u32) -> (r: Num)
        requires
            mantissa <= MAX_MANTISSA,
            scale <= MAX_SCALE,
        ensures
            r.spec_mantissa() == mantissa,
            r.spec_scale() == scale,
    {
        Num { mantissa, scale }
    }

    /// The number `n` with no fractional digits.
    pub fn from_int(n: u64) -> (r: Num)
        requires
            n <= MAX_MANTISSA,
        ensures
            r.spec_mantissa() == n,
            r.spec_scale() == 0,
    {
        Num { mantissa: n, scale: 0 }
    }

    pub fn zero() -> (r: Num)
        ensures
            r.spec_mantissa() == 0,
            r.spec_scale() == 0,
    {
        Num { mantissa: 0, scale: 0 }
    }

    pub fn mantissa(&self) -> (r: u64)
        ensures
            r == self.spec_mantissa(),
            r <= MAX_MANTISSA,
    {
        proof {
            use_type_invariant(self);
        }
        self.mantissa
    }

    pub fn scale(&self) -> (r: u32)
        ensures
            r == self.spec_scale(),
            r <= MAX_SCALE,
    {
        proof {
            use_type_invariant(self);
        }
        self.scale
    }

    /// `self <= other`, compared exactly.
    pub closed spec fn spec_le(self, other: Num) -> bool {
        self.mantissa * pow10(other.scale as nat) <= other.mantissa * pow10(self.scale as nat)
    }

    /// Every number is at most itself.
    pub proof fn lemma_le_refl(self)
        ensures
            self.spec_le(self),
    {
    }

    /// `<=` on numbers is transitive.
    pub proof fn lemma_le_trans(self, b: Num, c: Num)
        requires
            self.spec_le(b),
            b.spec_le(c),
        ensures
            self.spec_le(c),
    {
        let pa = pow10(self.scale as nat) as int;
        let pb = pow10(b.scale as nat) as int;
        let pc = pow10(c.scale as nat) as int;
        lemma_pow10_pos(self.scale as nat);
        lemma_pow10_pos(b.scale as nat);
        lemma_pow10_pos(c.scale as nat);
        let am = self.mantissa as int;
        let bm = b.mantissa as int;
        let cm = c.mantissa as int;
        assert(am * pc <= cm * pa) by (nonlinear_arith)
            requires
                am * pb <= bm * pa,
                bm * pc <= cm * pb,
                pa >= 1,
                pb >= 1,
                pc >= 1,
                am >= 0,
                bm >= 0,
                cm >= 0,
        {
            assert(am * pb * pc <= bm * pa * pc);
            assert(bm * pc * pa <= cm * pb * pa);
            assert(am * pc * pb <= cm * pa * pb);
        }
    }

    /// Any two numbers are ordered one way or the other.
    pub proof fn lemma_le_total(self, b: Num)
        ensures
            self.spec_le(b) || b.spec_le(self),
    {
    }

    /// Whole numbers compare as their integer values: the number with
    /// mantissa `m` and no fraction is at most the one with `n` exactly when
    /// `m <= n`.
    pub proof fn lemma_le_whole(self, b: Num)
        requires
            self.spec_scale() == 0,
            b.spec_scale() == 0,
        ensures
            self.spec_le(b) <==> self.spec_mantissa() <= b.spec_mantissa(),
    {
        assert(pow10(0) == 1);
    }

    /// The integer part (the value rounded toward zero).
    pub closed spec fn spec_floor(self) -> nat {
        self.mantissa as nat / pow10(self.scale as nat)
    }

    /// A whole number's integer part is the number itself.
    pub proof fn lemma_floor_whole(self)
        requires
            self.spec_scale() == 0,
        ensures
            self.spec_floor() == self.spec_mantissa(),
    {
        assert(pow10(0) == 1) by {
            reveal_with_fuel(pow10, 1);
        }
    }

    pub fn le(&self, other: &Num) -> (r: bool)
        ensures
            r == self.spec_le(*other),
    {
        proof {
            use_type_invariant(self);
            use_type_invariant(other);
        }
        let a = widen(self.mantissa, other.scale);
        let b = widen(other.mantissa, self.scale);
        a <= b
    }

    pub fn floor(&self) -> (r: u64)
        ensures
            r == self.spec_floor(),
            r <= MAX_MANTISSA,
    {
        proof {
            use_type_invariant(self);
        }
        let p = pow10_u64(self.scale);
        proof {
            assert(self.mantissa as nat / p as nat <= self.mantissa as nat) by (nonlinear_arith)
                requires
                    p >= 1,
            ;
        }
        self.mantissa / p
    }

    /// Is the value a whole number?
    pub closed spec fn spec_is_whole(self) -> bool {
        self.mantissa as nat % pow10(self.scale as nat) == 0
    }

    /// The shortest decimal rendering: a whole number prints without a
    /// fractional part; otherwise trailing zeros are dropped.
    pub closed spec fn spec_text(self) -> Seq<char> {
        let t = trim(self.mantissa as nat, self.scale as nat);
        if t.1 == 0 {
            nat_to_dec(t.0)
        } else {
            nat_to_dec(t.0 / pow10(t.1)) + seq!['.'] + padded_dec(t.0 % pow10(t.1), t.1)
        }
    }

    /// A whole number is written as the decimal digits of its value.
    pub proof fn lemma_whole_text(self)
        requires
            self.spec_scale() == 0,
        ensures
            self.spec_text() == nat_to_dec(self.spec_mantissa()),
            dec_value(self.spec_text()) == self.spec_mantissa(),
    {
        crate::text::lemma_decimal_spells_the_number(self.spec_mantissa());
    }

    pub fn text(&self) -> (r: String)
        ensures
            r@ == self.spec_text(),
    {
        proof {
            use_type_invariant(self);
        }
        let mut m = self.mantissa;
        let mut s = self.scale;
        while s > 0 && m % 10 == 0
            invariant
                s <= self.scale,
                m <= self.mantissa,
                trim(m as nat, s as nat) == trim(self.mantissa as nat, self.scale as nat),
            decreases s,
        {
            m = m / 10;
            s = s - 1;
        }
        let mut out = String::new();
        if s == 0 {
            push_u64(&mut out, m);
        } else {
            let p = pow10_u64(s);
            push_u64(&mut out, m / p);
            push_char(&mut out, '.');
            push_padded(&mut out, m % p, s);
        }
        proof {
            lemma_pow10_pos(s as nat);
        }
        assert(out@ =~= self.spec_text());
        out
    }
}

/// Drops trailing fractional zeros: `(mantissa, scale)` of the same value.
pub open spec fn trim(m: nat, s: nat) -> (nat, nat)
    decreases s,
{
    if s > 0 && m % 10 == 0 {
        trim(m / 10, (s - 1) as nat)
    } else {
        (m, s)
    }
}

/// The `width`-digit, zero-padded rendering of `r`.
pub open spec fn padded_dec(r: nat, width: nat) -> Seq<char>
    decreases width,
{
    if width == 0 {
        Seq::empty()
    } else {
        padded_dec(r / 10, (width - 1) as nat).push(digit_char((r % 10) as int))
    }
}

fn push_padded(out: &mut String, r: u64, width: u32)
    ensures
        final(out)@ == old(out)@ + padded_dec(r as nat, width as nat),
    decreases width,
{
    if width > 0 {
        push_padded(out, r / 10, width - 1);
        let d: u8 = (r % 10) as u8;
        push_char(out, (d + 48u8) as char);
        assert(final(out)@ =~= old(out)@ + padded_dec(r as nat, width as nat));
    }
}

proof fn lemma_pow10_18()
    ensures
        pow10(18) == 1_000_000_000_000_000_000nat,
{
    reveal_with_fuel(pow10, 19);
}

/// `10^n` for `n <= 18`.
pub fn pow10_u64(n: u32) -> (r: u64)
    requires
        n <= MAX_SCALE,
    ensures
        r == pow10(n as nat),
        r >= 1,
{
    let mut r: u64 = 1;
    let mut i: u32 = 0;
    while i < n
        invariant
            i <= n,
            n <= MAX_SCALE,
            r == pow10(i as nat),
            r <= 1_000_000_000_000_000_000u64,
        decreases n - i,
    {
        proof {
            lemma_pow10_mono((i + 1) as nat, 18);
            lemma_pow10_18();
        }
        r = r * 10;
        i = i + 1;
    }
    proof {
        lemma_pow10_pos(n as nat);
    }
    r
}

/// `m * 10^s` without overflow, for a literal mantissa and scale.
fn widen(m: u64, s: u32) -> (r: u128)
    requires
        m <= MAX_MANTISSA,
        s <= MAX_SCALE,
    ensures
        r == m * pow10(s as nat),
{
    let p = pow10_u64(s);
    proof {
        lemma_pow10_mono(s as nat, 18);
        lemma_pow10_18();
        assert((m as nat) * (p as nat) <= 999_999_999_999_999_999nat * 1_000_000_000_000_000_000nat)
            by (nonlinear_arith)
            requires
                m <= 999_999_999_999_999_999nat,
                p <= 1_000_000_000_000_000_000nat,
        ;
    }
    (m as u128) * (p as u128)
}

} // verus!
