//! Spans of time and instants measured from the Unix epoch, in nanoseconds.
use vstd::prelude::*;
use vstd::arithmetic::power2::{
    lemma2_to64, lemma2_to64_rest, lemma_pow2_adds, lemma_pow2_pos, lemma_pow2_strictly_increases,
    lemma_pow2_unfold, pow2,
};
use crate::text::{decimal, decimal_padded, push_char, push_decimal_padded_wide, push_decimal_wide, push_str};

verus! {

pub const NANOS_PER_SEC: u128 = 1_000_000_000;

pub const NANOS_PER_MILLI: u128 = 1_000_000;

/// The largest span a `Duration` holds: `u64::MAX` seconds and 999_999_999 nanoseconds.
pub const MAX_NANOS: u128 = 18_446_744_073_709_551_615_999_999_999;

/// A span of time with nanosecond precision.
#[derive(Clone, Copy, Debug, PartialEq, Eq, PartialOrd, Ord, Hash, Structural)]
pub struct Duration {
    nanos: u128,
}

impl View for Duration {
    type V = nat;

    /// Total nanoseconds.
    closed spec fn view(&self) -> nat {
        self.nanos as nat
    }
}

pub open spec fn secs_nanos(s: nat) -> nat {
    s * (NANOS_PER_SEC as nat)
}

pub open spec fn millis_nanos(ms: nat) -> nat {
    ms * (NANOS_PER_MILLI as nat)
}

impl Duration {
    #[verifier::type_invariant]
    spec fn inv(self) -> bool {
        self.nanos <= MAX_NANOS
    }

    pub fn from_secs(secs: u64) -> (d: Duration)
        ensures
            d@ == secs_nanos(secs as nat),
    {
        assert(secs * NANOS_PER_SEC <= MAX_NANOS) by (nonlinear_arith)
            requires
                secs <= u64::MAX,
        ;
        Duration { nanos: secs as u128 * NANOS_PER_SEC }
    }

    pub fn from_millis(millis: u64) -> (d: Duration)
        ensures
            d@ == millis_nanos(millis as nat),
    {
        assert(millis * NANOS_PER_MILLI <= MAX_NANOS) by (nonlinear_arith)
            requires
                millis <= u64::MAX,
        ;
        Duration { nanos: millis as u128 * NANOS_PER_MILLI }
    }

    pub fn from_nanos(nanos: u64) -> (d: Duration)
        ensures
            d@ == nanos as nat,
    {
        Duration { nanos: nanos as u128 }
    }

    pub fn zero() -> (d: Duration)
        ensures
            d@ == 0,
    {
        Duration { nanos: 0 }
    }

    pub fn is_zero(&self) -> (r: bool)
        ensures
            r == (self@ == 0),
    {
        self.nanos == 0
    }

    /// Whole seconds.
    pub fn as_secs(&self) -> (r: u64)
        ensures
            r == self@ / (NANOS_PER_SEC as nat),
    {
        proof {
            use_type_invariant(self);
        }
        (self.nanos / NANOS_PER_SEC) as u64
    }

    /// Whole milliseconds.
    pub fn as_millis(&self) -> (r: u128)
        ensures
            r == self@ / (NANOS_PER_MILLI as nat),
            r <= 18_446_744_073_709_551_615_999,
    {
        proof {
            use_type_invariant(self);
        }
        self.nanos / NANOS_PER_MILLI
    }

    pub fn as_nanos(&self) -> (r: u128)
        ensures
            r == self@,
    {
        self.nanos
    }

    /// Milliseconds past the last whole second.
    pub fn subsec_millis(&self) -> (r: u32)
        ensures
            r == (self@ % (NANOS_PER_SEC as nat)) / (NANOS_PER_MILLI as nat),
            r < 1000,
    {
        ((self.nanos % NANOS_PER_SEC) / NANOS_PER_MILLI) as u32
    }

    /// Nanoseconds past the last whole second.
    pub fn subsec_nanos(&self) -> (r: u32)
        ensures
            r == self@ % (NANOS_PER_SEC as nat),
    {
        (self.nanos % NANOS_PER_SEC) as u32
    }

    pub fn saturating_add(&self, other: Duration) -> (d: Duration)
        ensures
            d@ == (if self@ + other@ > MAX_NANOS {
                MAX_NANOS as nat
            } else {
                self@ + other@
            }),
    {
        proof {
            use_type_invariant(self);
            use_type_invariant(&other);
        }
        let total = self.nanos + other.nanos;
        if total > MAX_NANOS {
            Duration { nanos: MAX_NANOS }
        } else {
            Duration { nanos: total }
        }
    }

    pub fn saturating_sub(&self, other: Duration) -> (d: Duration)
        ensures
            d@ == (if self@ >= other@ {
                (self@ - other@) as nat
            } else {
                0
            }),
    {
        proof {
            use_type_invariant(self);
        }
        if self.nanos >= other.nanos {
            Duration { nanos: self.nanos - other.nanos }
        } else {
            Duration { nanos: 0 }
        }
    }

    pub fn checked_add(&self, other: Duration) -> (d: Option<Duration>)
        ensures
            d is Some <==> self@ + other@ <= MAX_NANOS,
            d matches Some(x) ==> x@ == self@ + other@,
    {
        proof {
            use_type_invariant(self);
            use_type_invariant(&other);
        }
        let total = self.nanos + other.nanos;
        if total > MAX_NANOS {
            None
        } else {
            Some(Duration { nanos: total })
        }
    }

    /// `self * m`, capped at the longest span.
    pub fn saturating_mul(&self, m: u32) -> (d: Duration)
        ensures
            d@ == (if self@ * (m as nat) > MAX_NANOS {
                MAX_NANOS as nat
            } else {
                self@ * (m as nat)
            }),
    {
        proof {
            use_type_invariant(self);
        }
        let n = self.nanos;
        assert(n * (m as u128) <= MAX_NANOS * (u32::MAX as u128)) by (nonlinear_arith)
            requires
                n <= MAX_NANOS,
                m <= u32::MAX,
        ;
        let total = n * (m as u128);
        if total > MAX_NANOS {
            Duration { nanos: MAX_NANOS }
        } else {
            Duration { nanos: total }
        }
    }

    /// `self < other`.
    pub fn shorter_than(&self, other: &Duration) -> (r: bool)
        ensures
            r == (self@ < other@),
    {
        self.nanos < other.nanos
    }
}

/// An instant, as the span since the Unix epoch.
#[derive(Clone, Copy, Debug, PartialEq, Eq, PartialOrd, Ord, Hash, Structural)]
pub struct SystemTime {
    since_epoch: Duration,
}

impl View for SystemTime {
    type V = nat;

    /// Nanoseconds since the epoch.
    closed spec fn view(&self) -> nat {
        self.since_epoch@
    }
}

impl SystemTime {
    pub fn unix_epoch() -> (t: SystemTime)
        ensures
            t@ == 0,
    {
        SystemTime { since_epoch: Duration::zero() }
    }

    /// The instant `since_epoch` after the epoch.
    pub fn from_unix(since_epoch: Duration) -> (t: SystemTime)
        ensures
            t@ == since_epoch@,
    {
        SystemTime { since_epoch }
    }

    /// The instant `secs` seconds after the epoch.
    pub fn from_unix_secs(secs: u64) -> (t: SystemTime)
        ensures
            t@ == secs_nanos(secs as nat),
    {
        SystemTime { since_epoch: Duration::from_secs(secs) }
    }

    pub fn since_epoch(&self) -> (d: Duration)
        ensures
            d@ == self@,
    {
        self.since_epoch
    }

    /// `self + d`, or `None` past the representable range.
    pub fn checked_add(&self, d: Duration) -> (r: Option<SystemTime>)
        ensures
            r is Some <==> self@ + d@ <= MAX_NANOS,
            r matches Some(t) ==> t@ == self@ + d@,
    {
        match self.since_epoch.checked_add(d) {
            Some(x) => Some(SystemTime { since_epoch: x }),
            None => None,
        }
    }

    /// `self - d`, or `None` before the epoch.
    pub fn checked_sub(&self, d: Duration) -> (r: Option<SystemTime>)
        ensures
            r is Some <==> self@ >= d@,
            r matches Some(t) ==> t@ == self@ - d@,
    {
        if self.since_epoch.shorter_than(&d) {
            None
        } else {
            Some(SystemTime { since_epoch: self.since_epoch.saturating_sub(d) })
        }
    }

    /// The span from `earlier` to `self`, or `None` when `earlier` is later.
    pub fn duration_since(&self, earlier: &SystemTime) -> (r: Option<Duration>)
        ensures
            r is Some <==> self@ >= earlier@,
            r matches Some(d) ==> d@ == self@ - earlier@,
    {
        if self.since_epoch.shorter_than(&earlier.since_epoch) {
            None
        } else {
            Some(self.since_epoch.saturating_sub(earlier.since_epoch))
        }
    }

    /// `self < other`.
    pub fn before(&self, other: &SystemTime) -> (r: bool)
        ensures
            r == (self@ < other@),
    {
        self.since_epoch.shorter_than(&other.since_epoch)
    }
}


/// `num / den` rounded to the nearest integer, a tie going to the even one, given as its
/// quotient `q` and remainder `r`.
pub open spec fn round_qr(q: nat, r: nat, den: nat) -> nat {
    if 2 * r < den {
        q
    } else if 2 * r > den {
        q + 1
    } else if q % 2 == 0 {
        q
    } else {
        q + 1
    }
}

/// `num / den` rounded to the nearest integer, a tie going to the even one.
pub open spec fn round_half_even(num: nat, den: nat) -> nat {
    round_qr(num / den, num % den, den)
}

/// The number of binary digits of `x` (none for zero).
pub open spec fn bit_len(x: nat) -> nat
    decreases x,
{
    if x == 0 {
        0
    } else {
        1 + bit_len(x / 2)
    }
}

/// `2^52 * 10^9`: a fraction `n / 10^9` scaled by `2^k` reaches 53 binary digits once
/// `n * 2^k` is at least this.
pub const FRACTION_FLOOR: u128 = 4_503_599_627_370_496_000_000_000;

/// The scale `2^k` at which the fraction `n / 10^9` has 53 binary digits before the point:
/// the least `k` from `k` on with `n * 2^k >= 2^52 * 10^9`.
pub open spec fn fraction_scale(n: nat, k: nat) -> nat
    decreases 90 - k,
{
    if k >= 90 || n * pow2(k) >= FRACTION_FLOOR {
        k
    } else {
        fraction_scale(n, k + 1)
    }
}

/// Whole milliseconds of the span as `Duration::as_secs_f64` gives it and `{:.3}` prints
/// it. `as_secs_f64` adds the whole seconds (rounded to a 53-bit `f64`) and the fraction
/// `nanos / 10^9` (rounded to a 53-bit `f64`), rounding the sum to 53 bits; each rounding
/// goes to the nearest `f64`, a tie to the even one. `{:.3}` then rounds that `f64`'s exact
/// value to the nearest thousandth, a tie to the even one.
pub open spec fn f64_millis(nanos: nat) -> nat {
    let secs = nanos / 1_000_000_000;
    let n = nanos % 1_000_000_000;
    let b = bit_len(secs);
    if b > 53 {
        round_half_even(secs, pow2((b - 53) as nat)) * pow2((b - 53) as nat) * 1000
    } else if n == 0 {
        secs * 1000
    } else {
        let kq = fraction_scale(n, 0);
        let mq = round_half_even(n * pow2(kq), 1_000_000_000);
        if secs == 0 {
            round_half_even(mq * 1000, pow2(kq))
        } else {
            let d = pow2((kq + b - 53) as nat);
            round_half_even(
                round_half_even(secs * pow2((53 - b) as nat) * d + mq, d) * 1000,
                pow2((53 - b) as nat),
            )
        }
    }
}

/// `{:.3}` of `Duration::as_secs_f64`: the seconds with three decimals.
pub open spec fn secs_fixed3(nanos: nat) -> Seq<char> {
    let ms = f64_millis(nanos);
    decimal(ms / 1000) + seq!['.'] + decimal_padded(ms % 1000, 3)
}

proof fn lemma_bit_len_bounds(x: nat)
    requires
        x > 0,
    ensures
        bit_len(x) >= 1,
        pow2((bit_len(x) - 1) as nat) <= x < pow2(bit_len(x)),
    decreases x,
{
    reveal(pow2);
    if x / 2 == 0 {
        assert(x == 1);
        assert(bit_len(0) == 0);
        lemma2_to64();
    } else {
        lemma_bit_len_bounds(x / 2);
        let b = bit_len(x / 2);
        lemma_pow2_unfold(b + 1);
        if b >= 1 {
            lemma_pow2_unfold(b);
        }
        assert(bit_len(x) == b + 1);
    }
}

fn round_qr_exec(q: u128, r: u128, den: u128) -> (x: u128)
    requires
        r < den,
        q < u128::MAX,
    ensures
        x == round_qr(q as nat, r as nat, den as nat),
        x <= q + 1,
{
    if r < den - r {
        q
    } else if r > den - r {
        q + 1
    } else if q % 2 == 0 {
        q
    } else {
        q + 1
    }
}

fn round_half_even_exec(num: u128, den: u128) -> (x: u128)
    requires
        den > 0,
    ensures
        x == round_half_even(num as nat, den as nat),
        x <= num / den + 1,
{
    let q = num / den;
    let r = num % den;
    proof {
        if den == 1 {
            assert(q == num);
        } else {
            assert(q < u128::MAX) by (nonlinear_arith)
                requires
                    den >= 2,
                    q == num / den,
                    num <= u128::MAX,
            ;
        }
    }
    if den == 1 {
        return num;
    }
    round_qr_exec(q, r, den)
}

fn bit_len_exec(x: u64) -> (b: u32)
    ensures
        b == bit_len(x as nat),
        b <= 64,
{
    proof {
        if x > 0 {
            lemma_bit_len_bounds(x as nat);
            lemma2_to64();
            if bit_len(x as nat) > 64 {
                lemma_pow2_strictly_increases(64, (bit_len(x as nat) - 1) as nat);
            }
        }
    }
    let mut y = x;
    let mut b: u32 = 0;
    while y > 0
        invariant
            b + bit_len(y as nat) == bit_len(x as nat),
            bit_len(x as nat) <= 64,
        decreases y,
    {
        y = y / 2;
        b = b + 1;
    }
    b
}

fn pow2_exec(k: u32) -> (p: u128)
    requires
        k <= 100,
    ensures
        p == pow2(k as nat),
{
    proof {
        lemma2_to64();
        lemma2_to64_rest();
        lemma_pow2_adds(64, 36);
    }
    let mut p: u128 = 1;
    let mut i: u32 = 0;
    while i < k
        invariant
            i <= k <= 100,
            p == pow2(i as nat),
            pow2(100) == 0x10000000000000000 * 0x1000000000,
        decreases k - i,
    {
        proof {
            lemma_pow2_unfold((i + 1) as nat);
            if i + 1 < 100 {
                lemma_pow2_strictly_increases((i + 1) as nat, 100);
            }
        }
        p = p * 2;
        i = i + 1;
    }
    p
}

/// The scale of a fraction `n / 10^9` with `0 < n < 10^9`: between 53 and 82.
fn fraction_scale_exec(n: u128) -> (k: u32)
    requires
        1 <= n < 1_000_000_000,
    ensures
        k == fraction_scale(n as nat, 0),
        53 <= k <= 82,
        n * pow2(k as nat) >= FRACTION_FLOOR,
        n * pow2(k as nat) < 2 * FRACTION_FLOOR,
{
    proof {
        lemma2_to64();
        lemma2_to64_rest();
        lemma_pow2_adds(64, 18);
    }
    assert(pow2(82) == 0x10000000000000000 * 0x40000);
    let mut k: u32 = 0;
    let mut p: u128 = 1;
    let mut np: u128 = n;
    assert(pow2(0) == 1);
    while k < 90 && np < FRACTION_FLOOR
        invariant
            1 <= n < 1_000_000_000,
            k <= 82,
            p == pow2(k as nat),
            np == n * p,
            p <= np,
            np < 2 * FRACTION_FLOOR,
            pow2(82) == 0x10000000000000000 * 0x40000,
            pow2(52) == 0x10000000000000,
            fraction_scale(n as nat, k as nat) == fraction_scale(n as nat, 0),
        decreases 90 - k,
    {
        proof {
            if k >= 82 {
                if k > 82 {
                    lemma_pow2_strictly_increases(82, k as nat);
                }
                assert(false);
            }
            lemma_pow2_unfold((k + 1) as nat);
            assert(n * (p * 2) == (n * p) * 2) by (nonlinear_arith);
        }
        k = k + 1;
        p = p * 2;
        np = np * 2;
    }
    proof {
        if k <= 52 {
            if k < 52 {
                lemma_pow2_strictly_increases(k as nat, 52);
            }
            assert(n * p < FRACTION_FLOOR) by (nonlinear_arith)
                requires
                    n < 1_000_000_000,
                    p <= 0x10000000000000,
                    FRACTION_FLOOR == 0x10000000000000 * 1_000_000_000,
            ;
        }
    }
    k
}

/// Whole milliseconds of the span `nanos` as `{:.3}` of `as_secs_f64` prints them.
fn f64_millis_exec(nanos: u128) -> (ms: u128)
    requires
        nanos <= MAX_NANOS,
    ensures
        ms == f64_millis(nanos as nat),
{
    let secs = nanos / 1_000_000_000;
    let n = nanos % 1_000_000_000;
    assert(secs <= u64::MAX);
    let b = bit_len_exec(secs as u64);
    proof {
        lemma2_to64();
        lemma2_to64_rest();
        if secs > 0 {
            lemma_bit_len_bounds(secs as nat);
        }
    }
    if b > 53 {
        let pe = pow2_exec(b - 53);
        let m = round_half_even_exec(secs, pe);
        proof {
            lemma_pow2_pos((b - 53) as nat);
            assert(m * pe <= secs + pe) by (nonlinear_arith)
                requires
                    m <= secs / pe + 1,
                    pe > 0,
            ;
            if b - 53 < 11 {
                lemma_pow2_strictly_increases((b - 53) as nat, 11);
            }
        }
        return m * pe * 1000;
    }
    if n == 0 {
        return secs * 1000;
    }
    let kq = fraction_scale_exec(n);
    let pk = pow2_exec(kq);
    let scaled = n * pk;
    let mq = round_half_even_exec(scaled, 1_000_000_000);
    proof {
        assert(scaled / 1_000_000_000 < 0x20000000000000) by (nonlinear_arith)
            requires
                scaled < 2 * FRACTION_FLOOR,
                FRACTION_FLOOR == 0x10000000000000 * 1_000_000_000,
        ;
    }
    if secs == 0 {
        proof {
            lemma_pow2_pos(kq as nat);
        }
        return round_half_even_exec(mq * 1000, pk);
    }
    let shift = 53 - b;
    let ps = pow2_exec(shift);
    let pd = pow2_exec(kq + b - 53);
    proof {
        lemma_pow2_pos((kq + b - 53) as nat);
        lemma_pow2_adds(shift as nat, (b - 1) as nat);
        assert(shift + (b - 1) == 52);
        assert(secs * ps < 0x20000000000000) by (nonlinear_arith)
            requires
                secs < pow2(b as nat),
                pow2(b as nat) == 2 * pow2((b - 1) as nat),
                ps * pow2((b - 1) as nat) == 0x10000000000000,
                ps > 0,
        ;
    }
    let sp = secs * ps;
    let q = mq / pd;
    let r = mq % pd;
    proof {
        assert(q <= mq) by (nonlinear_arith)
            requires
                q == mq / pd,
                pd > 0,
        ;
        vstd::arithmetic::div_mod::lemma_fundamental_div_mod(mq as int, pd as int);
        assert((sp + q) * pd + r == sp * pd + (q * pd + r)) by (nonlinear_arith);
        vstd::arithmetic::div_mod::lemma_fundamental_div_mod_converse(
            (sp * pd + mq) as int,
            pd as int,
            (sp + q) as int,
            r as int,
        );
    }
    let m = round_qr_exec(sp + q, r, pd);
    proof {
        assert(m == round_half_even((sp * pd + mq) as nat, pd as nat));
        lemma_pow2_pos(shift as nat);
    }
    round_half_even_exec(m * 1000, ps)
}

/// The text `Duration::new(secs, subsec_nanos).as_secs_f64().to_string()` gives: the
/// shortest decimal that reads back as that `f64`.
pub uninterp spec fn secs_f64_text(secs: nat, subsec_nanos: nat) -> Seq<char>;

/// A span of `nanos` nanoseconds in seconds, as `as_secs_f64().to_string()` writes it.
pub open spec fn secs_plain(nanos: nat) -> Seq<char> {
    secs_f64_text(nanos / (NANOS_PER_SEC as nat), nanos % (NANOS_PER_SEC as nat))
}

/// `std::time::Duration::new(secs, subsec_nanos).as_secs_f64().to_string()`. The `Display`
/// of a finite, non-negative `f64` starts with an ASCII digit (it is never written with a sign
/// or in exponent form); which digits follow is not stated here.
#[verifier::external_body]
fn secs_plain_text(secs: u64, subsec_nanos: u32) -> (s: String)
    requires
        subsec_nanos < 1_000_000_000,
    ensures
        s@ == secs_f64_text(secs as nat, subsec_nanos as nat),
        s@.len() > 0 && '0' <= s@[0] <= '9',
{
    std::time::Duration::new(secs, subsec_nanos).as_secs_f64().to_string()
}

impl Duration {
    /// Appends the span in seconds with three decimals.
    pub fn push_secs_fixed3(&self, s: &mut String)
        ensures
            final(s)@ == old(s)@ + secs_fixed3(self@),
    {
        proof {
            use_type_invariant(self);
        }
        let ms = f64_millis_exec(self.nanos);
        push_decimal_wide(s, ms / 1000);
        push_char(s, '.');
        push_decimal_padded_wide(s, ms % 1000, 3);
        assert(s@ =~= old(s)@ + secs_fixed3(self@));
    }

    /// Appends the span in seconds as `as_secs_f64().to_string()` writes it.
    pub fn push_secs_plain(&self, s: &mut String)
        ensures
            final(s)@ == old(s)@ + secs_plain(self@),
            secs_plain(self@).len() > 0 && '0' <= secs_plain(self@)[0] <= '9',
    {
        proof {
            use_type_invariant(self);
        }
        let secs = self.nanos / NANOS_PER_SEC;
        let frac = self.nanos % NANOS_PER_SEC;
        assert(secs <= u64::MAX);
        let t = secs_plain_text(secs as u64, frac as u32);
        push_str(s, t.as_str());
    }
}

} // verus!
