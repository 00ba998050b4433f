//! Decimal numbers: their digits, and which of them a double-precision float can hold.

use vstd::arithmetic::power;
use vstd::prelude::*;

verus! {

/// The number that a sequence of decimal digits stands for, most significant digit first.
pub open spec fn nat_of(digits: Seq<u8>) -> nat
    decreases digits.len(),
{
    if digits.len() == 0 {
        0
    } else {
        nat_of(digits.drop_last()) * 10 + digits.last() as nat
    }
}

/// True for a sequence of decimal digits.
pub open spec fn all_digits(digits: Seq<u8>) -> bool {
    forall|i: int| 0 <= i < digits.len() ==> #[trigger] digits[i] <= 9
}

/// Ten to the power of `n`.
pub open spec fn pow10(n: nat) -> int {
    power::pow(10, n)
}

/// The least magnitude that rounds to infinity in double precision: halfway between the largest
/// finite value and the next power of two.
pub open spec fn overflow_limit() -> int {
    power::pow(2, 970) * (power::pow(2, 54) - 1)
}

/// True where `mantissa` times ten to the power of `scale` stays finite in double precision.
pub open spec fn in_range(mantissa: nat, scale: int) -> bool {
    if scale >= 0 {
        mantissa * pow10(scale as nat) < overflow_limit()
    } else {
        mantissa < overflow_limit() * pow10((-scale) as nat)
    }
}

/// The whole part of `mantissa` times ten to the power of `scale`.
pub open spec fn whole_of(mantissa: nat, scale: int) -> int {
    if scale >= 0 {
        mantissa * pow10(scale as nat)
    } else {
        mantissa as int / pow10((-scale) as nat)
    }
}

/// A power of ten is positive, and ten times the one before it.
pub proof fn lemma_pow10(n: nat)
    ensures
        pow10(n) > 0,
        pow10(0) == 1,
        pow10((n + 1) as nat) == 10 * pow10(n),
{
    power::lemma_pow_positive(10, n);
    power::lemma_pow0(10);
    reveal(power::pow);
    assert(power::pow(10, (n + 1) as nat) == 10 * power::pow(10, n));
}

/// Digits one after another.
pub proof fn lemma_nat_of_append(a: Seq<u8>, b: Seq<u8>)
    ensures
        nat_of(a + b) == nat_of(a) * pow10(b.len()) + nat_of(b),
    decreases b.len(),
{
    lemma_pow10(0);
    if b.len() == 0 {
        assert(a + b =~= a);
    } else {
        assert((a + b).drop_last() =~= a + b.drop_last());
        lemma_nat_of_append(a, b.drop_last());
        lemma_pow10((b.len() - 1) as nat);
        let x = nat_of(a) as int;
        let p = pow10((b.len() - 1) as nat);
        assert((x * p) * 10 == x * (10 * p)) by (nonlinear_arith);
    }
}

/// A number has no more digits than it is written with, and no fewer where the first is not zero.
pub proof fn lemma_nat_of_bounds(d: Seq<u8>)
    requires
        all_digits(d),
    ensures
        nat_of(d) < pow10(d.len()),
        d.len() > 0 && d[0] > 0 ==> nat_of(d) >= pow10((d.len() - 1) as nat),
    decreases d.len(),
{
    lemma_pow10(0);
    if d.len() > 0 {
        assert(all_digits(d.drop_last()));
        lemma_nat_of_bounds(d.drop_last());
        lemma_pow10((d.len() - 1) as nat);
        if d.len() > 1 {
            assert(d.drop_last()[0] == d[0]);
            lemma_pow10((d.len() - 2) as nat);
        } else {
            assert(nat_of(d.drop_last()) == 0);
        }
    }
}

/// A number whose first differing digit is smaller is smaller.
pub proof fn lemma_nat_of_less(a: Seq<u8>, b: Seq<u8>, k: int)
    requires
        all_digits(a),
        all_digits(b),
        a.len() == b.len(),
        0 <= k < a.len(),
        a.take(k) == b.take(k),
        a[k] < b[k],
    ensures
        nat_of(a) < nat_of(b),
{
    let n = a.len();
    let ra = a.skip(k + 1);
    let rb = b.skip(k + 1);
    assert(a =~= a.take(k).push(a[k]) + ra);
    assert(b =~= b.take(k).push(b[k]) + rb);
    lemma_nat_of_append(a.take(k).push(a[k]), ra);
    lemma_nat_of_append(b.take(k).push(b[k]), rb);
    assert(a.take(k).push(a[k]).drop_last() =~= a.take(k));
    assert(b.take(k).push(b[k]).drop_last() =~= b.take(k));
    assert(all_digits(ra));
    lemma_nat_of_bounds(ra);
    let p = pow10(ra.len());
    let x = nat_of(a.take(k).push(a[k])) as int;
    let y = nat_of(b.take(k).push(b[k])) as int;
    assert(x + 1 <= y);
    assert(x * p + p <= y * p) by (nonlinear_arith)
        requires
            x + 1 <= y,
            p > 0,
    ;
}

/// Dividing by a power of ten drops digits from the end.
pub proof fn lemma_nat_of_take(d: Seq<u8>, k: int)
    requires
        all_digits(d),
        0 <= k <= d.len(),
    ensures
        nat_of(d.take(k)) == nat_of(d) as int / pow10((d.len() - k) as nat),
{
    let head = d.take(k);
    let tail = d.skip(k);
    assert(d =~= head + tail);
    lemma_nat_of_append(head, tail);
    assert(all_digits(tail));
    lemma_nat_of_bounds(tail);
    lemma_pow10(tail.len());
    let p = pow10(tail.len());
    let h = nat_of(head) as int;
    let t = nat_of(tail) as int;
    assert((h * p + t) / p == h) by (nonlinear_arith)
        requires
            p > 0,
            0 <= t < p,
    ;
}

/// Leading zeros add nothing.
pub proof fn lemma_nat_of_leading_zeros(d: Seq<u8>, k: int)
    requires
        0 <= k <= d.len(),
        forall|i: int| 0 <= i < k ==> #[trigger] d[i] == 0,
    ensures
        nat_of(d) == nat_of(d.skip(k)),
{
    let head = d.take(k);
    lemma_zeros(head);
    assert(d =~= head + d.skip(k));
    lemma_nat_of_append(head, d.skip(k));
}

proof fn lemma_zeros(d: Seq<u8>)
    requires
        forall|i: int| 0 <= i < d.len() ==> #[trigger] d[i] == 0,
    ensures
        nat_of(d) == 0,
    decreases d.len(),
{
    if d.len() > 0 {
        lemma_zeros(d.drop_last());
    }
}

proof fn lemma_pow_base(a: int, b: int, n: nat)
    requires
        0 <= a <= b,
    ensures
        0 <= power::pow(a, n) <= power::pow(b, n),
    decreases n,
{
    reveal(power::pow);
    if n > 0 {
        let m = (n - 1) as nat;
        lemma_pow_base(a, b, m);
        let (x, y) = (power::pow(a, m), power::pow(b, m));
        assert(0 <= a * x <= b * y) by (nonlinear_arith)
            requires
                0 <= a <= b,
                0 <= x <= y,
        ;
    }
}

proof fn lemma_literal_powers()
    ensures
        power::pow(10, 3) == 1000,
        power::pow(2, 10) == 1024,
        power::pow(2, 54) == 18014398509481984,
        power::pow(2, 93) == 9903520314283042199192993792,
        power::pow(10, 28) == 10000000000000000000000000000,
{
    assert(power::pow(10, 3) == 1000 && power::pow(2, 10) == 1024 && power::pow(10, 7) == 10000000
        && power::pow(2, 9) == 512 && power::pow(2, 3) == 8) by {
        reveal_with_fuel(power::pow, 11);
    }
    lemma_literal_product(2, 9, 9, 512, 512, 262144);
    lemma_literal_product(2, 18, 9, 262144, 512, 134217728);
    lemma_literal_product(2, 27, 27, 134217728, 134217728, 18014398509481984);
    lemma_literal_product(2, 9, 3, 512, 8, 4096);
    lemma_literal_product(2, 27, 12, 134217728, 4096, 549755813888);
    lemma_literal_product(
        2,
        54,
        39,
        18014398509481984,
        549755813888,
        9903520314283042199192993792,
    );
    lemma_literal_product(10, 7, 7, 10000000, 10000000, 100000000000000);
    lemma_literal_product(
        10,
        14,
        14,
        100000000000000,
        100000000000000,
        10000000000000000000000000000,
    );
}

proof fn lemma_literal_product(base: int, m: nat, n: nat, x: int, y: int, z: int)
    requires
        power::pow(base, m) == x,
        power::pow(base, n) == y,
        x * y == z,
    ensures
        power::pow(base, m + n) == z,
{
    power::lemma_pow_adds(base, m, n);
}

/// The overflow limit lies between `10^291` and `10^309`.
proof fn lemma_limit_bounds()
    ensures
        pow10(291) <= overflow_limit() < pow10(309),
{
    let p970 = power::pow(2, 970);
    let p54 = power::pow(2, 54);
    power::lemma_pow_positive(2, 970);
    lemma_literal_powers();
    // 10^291 == 1000^97 <= 1024^97 == 2^970
    power::lemma_pow_multiplies(10, 3, 97);
    power::lemma_pow_multiplies(2, 10, 97);
    lemma_pow_base(1000, 1024, 97);
    assert(overflow_limit() >= p970) by (nonlinear_arith)
        requires
            overflow_limit() == p970 * (p54 - 1),
            p54 == 18014398509481984,
            p970 > 0,
    ;
    // 2^1023 == (2^93)^11 <= (10^28)^11 == 10^308
    power::lemma_pow_multiplies(10, 28, 11);
    power::lemma_pow_multiplies(2, 93, 11);
    lemma_pow_base(9903520314283042199192993792, 10000000000000000000000000000, 11);
    lemma_pow10(308);
    power::lemma_pow_adds(2, 970, 54);
    power::lemma_pow_adds(2, 1023, 1);
    power::lemma_pow1(2);
    power::lemma_pow_positive(2, 1023);
    assert(overflow_limit() < p970 * p54) by (nonlinear_arith)
        requires
            overflow_limit() == p970 * (p54 - 1),
            p970 > 0,
    ;
}

/// A number of few enough digits before the point is in range.
proof fn lemma_small_in_range(d: Seq<u8>, scale: int)
    requires
        all_digits(d),
        d.len() + scale <= 291,
    ensures
        in_range(nat_of(d), scale),
{
    let m = nat_of(d) as int;
    let limit = overflow_limit();
    lemma_limit_bounds();
    lemma_nat_of_bounds(d);
    lemma_pow10(291);
    if scale >= 0 {
        let s = scale as nat;
        lemma_pow10(s);
        power::lemma_pow_adds(10, d.len(), s);
        power::lemma_pow_increases(10, d.len() + s, 291);
        assert(m * pow10(s) < pow10(d.len()) * pow10(s)) by (nonlinear_arith)
            requires
                m < pow10(d.len()),
                pow10(s) > 0,
        ;
    } else {
        let k = (-scale) as nat;
        lemma_pow10(k);
        if d.len() <= k {
            power::lemma_pow_increases(10, d.len(), k);
            assert(pow10(k) <= limit * pow10(k)) by (nonlinear_arith)
                requires
                    limit >= 1,
                    pow10(k) > 0,
            ;
        } else {
            let r = (d.len() - k) as nat;
            power::lemma_pow_adds(10, r, k);
            power::lemma_pow_increases(10, r, 291);
            assert(pow10(r) * pow10(k) <= limit * pow10(k)) by (nonlinear_arith)
                requires
                    pow10(r) <= limit,
                    pow10(k) > 0,
            ;
        }
    }
}

/// A number of too many digits before the point is out of range.
proof fn lemma_large_out_of_range(d: Seq<u8>, scale: int)
    requires
        all_digits(d),
        d.len() > 0,
        d[0] > 0,
        d.len() + scale >= 310,
    ensures
        !in_range(nat_of(d), scale),
{
    let m = nat_of(d) as int;
    let limit = overflow_limit();
    let n = (d.len() - 1) as nat;
    lemma_limit_bounds();
    lemma_nat_of_bounds(d);
    lemma_pow10(n);
    if scale >= 0 {
        let s = scale as nat;
        lemma_pow10(s);
        power::lemma_pow_adds(10, n, s);
        power::lemma_pow_increases(10, 309, n + s);
        assert(m * pow10(s) >= pow10(n) * pow10(s)) by (nonlinear_arith)
            requires
                m >= pow10(n),
                pow10(s) > 0,
        ;
    } else {
        let k = (-scale) as nat;
        let r = (n - k) as nat;
        lemma_pow10(k);
        power::lemma_pow_adds(10, r, k);
        power::lemma_pow_increases(10, 309, r);
        assert(pow10(r) * pow10(k) >= limit * pow10(k)) by (nonlinear_arith)
            requires
                pow10(r) >= limit,
                pow10(k) > 0,
        ;
    }
}

/// Scaling beyond the clamp does not change whether a number is in range.
pub proof fn lemma_range_beyond(d: Seq<u8>, scale: int, clamped: int)
    requires
        all_digits(d),
        scale == clamped || (d.len() + scale <= 291 && d.len() + clamped <= 291) || (scale >= 310
            && clamped >= 310),
    ensures
        in_range(nat_of(d), scale) == in_range(nat_of(d), clamped),
{
    if scale != clamped {
        if d.len() + scale <= 291 {
            lemma_small_in_range(d, scale);
            lemma_small_in_range(d, clamped);
        } else {
            let k = leading_zeros(d);
            lemma_leading_zeros(d);
            lemma_nat_of_leading_zeros(d, k);
            let t = d.skip(k);
            if t.len() > 0 {
                assert(all_digits(t));
                assert(t[0] == d[k]);
                lemma_large_out_of_range(t, scale);
                lemma_large_out_of_range(t, clamped);
            } else {
                lemma_limit_bounds();
                lemma_pow10(291);
                assert(0 * pow10(scale as nat) == 0);
                assert(0 * pow10(clamped as nat) == 0);
            }
        }
    }
}

/// How many zeros stand in front.
pub open spec fn leading_zeros(d: Seq<u8>) -> int
    decreases d.len(),
{
    if d.len() > 0 && d[0] == 0 {
        1 + leading_zeros(d.skip(1))
    } else {
        0
    }
}

proof fn lemma_leading_zeros(d: Seq<u8>)
    ensures
        0 <= leading_zeros(d) <= d.len(),
        forall|i: int| 0 <= i < leading_zeros(d) ==> #[trigger] d[i] == 0,
        leading_zeros(d) < d.len() ==> d[leading_zeros(d)] != 0,
    decreases d.len(),
{
    if d.len() > 0 && d[0] == 0 {
        let t = d.skip(1);
        lemma_leading_zeros(t);
        let k = leading_zeros(t);
        assert forall|i: int| 0 <= i < k + 1 implies #[trigger] d[i] == 0 by {
            if i > 0 {
                assert(t[i - 1] == d[i]);
            }
        }
        if k < t.len() {
            assert(t[k] == d[k + 1]);
        }
    }
}

/// A number is in range where its whole part is below the limit.
proof fn lemma_range_of_whole(m: nat, scale: int)
    ensures
        in_range(m, scale) == (whole_of(m, scale) < overflow_limit()),
{
    if scale < 0 {
        let p = pow10((-scale) as nat);
        let limit = overflow_limit();
        lemma_pow10((-scale) as nat);
        let x = m as int;
        assert((x < limit * p) == (x / p < limit)) by (nonlinear_arith)
            requires
                p > 0,
        ;
    }
}

/// The digits of the whole part of a number, all of them.
fn whole_digits(digits: &[u8], scale: i128) -> (w: Vec<u8>)
    requires
        all_digits(digits@),
        0 <= digits@.len() + scale <= 400,
        scale >= -0x1_0000_0000_0000_0000,
    ensures
        all_digits(w@),
        w@.len() == digits@.len() + scale,
        nat_of(w@) == whole_of(nat_of(digits@), scale as int),
        digits@.len() > 0 && w@.len() > 0 ==> w@[0] == digits@[0],
{
    let n: usize = digits.len();
    let mut w: Vec<u8> = Vec::new();
    if scale >= 0 {
        let mut i: usize = 0;
        while i < n
            invariant
                n == digits@.len(),
                i <= n,
                w@ == digits@.take(i as int),
            decreases n - i,
        {
            w.push(digits[i]);
            i += 1;
            assert(w@ =~= digits@.take(i as int));
        }
        assert(w@ =~= digits@);
        let mut j: i128 = 0;
        let ghost zeros: Seq<u8> = Seq::empty();
        while j < scale
            invariant
                0 <= j <= scale,
                zeros == Seq::new(j as nat, |q: int| 0u8),
                w@ == digits@ + zeros,
            decreases scale - j,
        {
            w.push(0);
            j += 1;
            proof {
                zeros = Seq::new(j as nat, |q: int| 0u8);
                assert(w@ =~= digits@ + zeros);
            }
        }
        proof {
            lemma_zeros(zeros);
            lemma_nat_of_append(digits@, zeros);
        }
    } else {
        let keep: usize = (n as i128 + scale) as usize;
        let mut i: usize = 0;
        while i < keep
            invariant
                n == digits@.len(),
                i <= keep <= n,
                w@ == digits@.take(i as int),
            decreases keep - i,
        {
            w.push(digits[i]);
            i += 1;
            assert(w@ =~= digits@.take(i as int));
        }
        proof {
            lemma_nat_of_take(digits@, keep as int);
        }
    }
    w
}

/// Doubles a number written out in digits.
fn double(d: &mut Vec<u8>)
    requires
        all_digits(old(d)@),
        0 < old(d)@.len() < 2000,
        old(d)@[0] > 0,
    ensures
        all_digits(final(d)@),
        final(d)@[0] > 0,
        old(d)@.len() <= final(d)@.len() <= old(d)@.len() + 1,
        nat_of(final(d)@) == 2 * nat_of(old(d)@),
{
    let ghost before = d@;
    let n: usize = d.len();
    let mut i: usize = n;
    let mut carry: u8 = 0;
    proof {
        lemma_pow10(0);
    }
    while i > 0
        invariant
            n == before.len(),
            d@.len() == n,
            0 < n < 2000,
            i <= n,
            carry <= 1,
            all_digits(before),
            before[0] > 0,
            all_digits(d@),
            forall|j: int| 0 <= j < i ==> #[trigger] d@[j] == before[j],
            nat_of(d@.skip(i as int)) + carry * pow10((n - i) as nat) == 2 * nat_of(
                before.skip(i as int),
            ),
            i == 0 && carry == 0 ==> d@[0] > 0,
        decreases i,
    {
        i -= 1;
        let x: u8 = d[i];
        let t: u8 = 2 * x + carry;
        let ghost tail = d@.skip(i + 1);
        let ghost old_tail = before.skip(i + 1);
        let ghost carried = carry as int;
        assert(x == before[i as int]);
        d.set(i, t % 10);
        carry = t / 10;
        proof {
            let p = pow10((n - i - 1) as nat);
            lemma_pow10((n - i - 1) as nat);
            assert(d@.skip(i as int) =~= seq![(t % 10) as u8] + tail);
            assert(before.skip(i as int) =~= seq![x] + old_tail);
            lemma_nat_of_append(seq![(t % 10) as u8], tail);
            lemma_nat_of_append(seq![x], old_tail);
            lemma_single((t % 10) as u8);
            lemma_single(x);
            let (r, c) = ((t % 10) as int, carry as int);
            assert(2 * x + carried == 10 * c + r);
            let xi = x as int;
            assert(r * p + c * (10 * p) == 2 * (xi * p) + carried * p) by (nonlinear_arith)
                requires
                    2 * xi + carried == 10 * c + r,
            ;
        }
    }
    assert(d@.skip(0) =~= d@);
    assert(before.skip(0) =~= before);
    if carry > 0 {
        let ghost low = d@;
        d.insert(0, 1);
        proof {
            assert(d@ =~= seq![1u8] + low);
            lemma_nat_of_append(seq![1u8], low);
            lemma_single(1);
        }
    }
}

proof fn lemma_single(x: u8)
    ensures
        nat_of(seq![x]) == x,
{
    reveal_with_fuel(nat_of, 2);
    assert(seq![x].drop_last() =~= Seq::<u8>::empty());
}

/// The overflow limit written out in digits.
fn limit_digits() -> (d: Vec<u8>)
    ensures
        all_digits(d@),
        d@.len() > 0,
        d@[0] > 0,
        nat_of(d@) == overflow_limit(),
{
    let mut d: Vec<u8> = vec![1, 8, 0, 1, 4, 3, 9, 8, 5, 0, 9, 4, 8, 1, 9, 8, 3];
    let ghost base = power::pow(2, 54) - 1;
    proof {
        lemma_literal_powers();
        power::lemma_pow0(2);
        assert(nat_of(d@) == 18014398509481983) by {
            lemma_literal();
        }
        assert(1 * base == base);
    }
    let mut k: u32 = 0;
    while k < 970
        invariant
            k <= 970,
            all_digits(d@),
            0 < d@.len() <= 17 + k,
            d@[0] > 0,
            nat_of(d@) == power::pow(2, k as nat) * base,
        decreases 970 - k,
    {
        double(&mut d);
        k += 1;
        proof {
            reveal(power::pow);
            let p = power::pow(2, (k - 1) as nat);
            assert(power::pow(2, k as nat) == 2 * p);
            assert((2 * p) * base == 2 * (p * base)) by (nonlinear_arith);
        }
    }
    d
}

proof fn lemma_literal()
    ensures
        nat_of(seq![1u8, 8, 0, 1, 4, 3, 9, 8, 5, 0, 9, 4, 8, 1, 9, 8, 3]) == 18014398509481983,
{
    let d = seq![1u8, 8, 0, 1, 4, 3, 9, 8, 5, 0, 9, 4, 8, 1, 9, 8, 3];
    reveal_with_fuel(nat_of, 18);
    assert(nat_of(d) == 18014398509481983);
}

/// True where the first of two numbers, neither with a leading zero, is smaller.
fn less(a: &[u8], b: &[u8]) -> (r: bool)
    requires
        all_digits(a@),
        all_digits(b@),
        a@.len() > 0,
        a@[0] > 0,
        b@.len() > 0,
        b@[0] > 0,
    ensures
        r == (nat_of(a@) < nat_of(b@)),
{
    proof {
        lemma_nat_of_bounds(a@);
        lemma_nat_of_bounds(b@);
    }
    if a.len() != b.len() {
        proof {
            if a@.len() < b@.len() {
                power::lemma_pow_increases(10, a@.len(), (b@.len() - 1) as nat);
            } else {
                power::lemma_pow_increases(10, b@.len(), (a@.len() - 1) as nat);
            }
        }
        return a.len() < b.len();
    }
    less_aligned(a, b)
}

/// True where the first of two numbers of as many digits is smaller.
fn less_aligned(a: &[u8], b: &[u8]) -> (r: bool)
    requires
        all_digits(a@),
        all_digits(b@),
        a@.len() == b@.len(),
    ensures
        r == (nat_of(a@) < nat_of(b@)),
{
    let n: usize = a.len();
    let mut i: usize = 0;
    while i < n
        invariant
            all_digits(a@),
            all_digits(b@),
            n == a@.len() == b@.len(),
            i <= n,
            a@.take(i as int) == b@.take(i as int),
        decreases n - i,
    {
        if a[i] != b[i] {
            proof {
                if a@[i as int] < b@[i as int] {
                    lemma_nat_of_less(a@, b@, i as int);
                } else {
                    lemma_nat_of_less(b@, a@, i as int);
                }
            }
            return a[i] < b[i];
        }
        i += 1;
        assert(a@.take(i as int) =~= a@.take(i - 1).push(a@[i - 1]));
        assert(b@.take(i as int) =~= b@.take(i - 1).push(b@[i - 1]));
    }
    assert(a@ =~= a@.take(n as int));
    assert(b@ =~= b@.take(n as int));
    false
}

/// The index of the first digit that is not zero, or the length where there is none.
fn first_significant(digits: &[u8]) -> (k: usize)
    ensures
        k <= digits@.len(),
        forall|i: int| 0 <= i < k ==> #[trigger] digits@[i] == 0,
        k < digits@.len() ==> digits@[k as int] > 0,
{
    let n: usize = digits.len();
    let mut k: usize = 0;
    while k < n && digits[k] == 0
        invariant
            n == digits@.len(),
            k <= n,
            forall|i: int| 0 <= i < k ==> #[trigger] digits@[i] == 0,
        decreases n - k,
    {
        k += 1;
    }
    k
}

/// Whether the number that `digits` and a decimal `scale` stand for is finite in double precision.
pub fn is_finite(digits: &[u8], scale: i128) -> (r: bool)
    requires
        all_digits(digits@),
        -0x100_0000_0000_0000_0000_0000_0000 <= scale <= 0x100_0000_0000_0000_0000_0000_0000,
    ensures
        r == in_range(nat_of(digits@), scale as int),
{
    let k = first_significant(digits);
    let significant = vstd::slice::slice_subrange(digits, k, digits.len());
    proof {
        assert(significant@ =~= digits@.skip(k as int));
        lemma_nat_of_leading_zeros(digits@, k as int);
        assert(all_digits(significant@));
    }
    let order: i128 = significant.len() as i128 + scale;
    if significant.len() == 0 {
        proof {
            lemma_limit_bounds();
            lemma_pow10(291);
            if scale >= 0 {
                assert(0 * pow10(scale as nat) == 0);
            } else {
                let p = pow10((-scale) as nat);
                lemma_pow10((-scale) as nat);
                assert(overflow_limit() * p > 0) by (nonlinear_arith)
                    requires
                        overflow_limit() > 0,
                        p > 0,
                ;
            }
        }
        return true;
    }
    if order <= 291 {
        proof {
            lemma_small_in_range(significant@, scale as int);
        }
        return true;
    }
    if order >= 310 {
        proof {
            lemma_large_out_of_range(significant@, scale as int);
        }
        return false;
    }
    let w = whole_digits(significant, scale);
    let limit = limit_digits();
    proof {
        lemma_range_of_whole(nat_of(significant@), scale as int);
    }
    less(w.as_slice(), limit.as_slice())
}

/// A decimal number, exactly as it is written.
pub struct Number {
    negative: bool,
    digits: Vec<u8>,
    scale: i128,
}

/// The contents of a [`Number`].
pub struct NumberView {
    /// True where a minus sign stands in front.
    pub negative: bool,
    /// The digits, without the point.
    pub digits: Seq<u8>,
    /// The power of ten that the digits are scaled by.
    pub scale: int,
}

impl View for Number {
    type V = NumberView;

    closed spec fn view(&self) -> NumberView {
        NumberView { negative: self.negative, digits: self.digits@, scale: self.scale as int }
    }
}

/// The largest scale, up or down, that a number is kept with.
pub const MAX_SCALE: i128 = 0x20_0000_0000_0000_0000_0000_0000;

impl NumberView {
    /// True for digits that are digits and a scale within bounds.
    pub open spec fn wf(self) -> bool {
        all_digits(self.digits) && -MAX_SCALE <= self.scale <= MAX_SCALE
    }

    /// The number in units of ten to the power of `unit`, which is at most its scale.
    pub open spec fn in_units(self, unit: int) -> int {
        let magnitude = nat_of(self.digits) * pow10((self.scale - unit) as nat);
        if self.negative {
            -magnitude
        } else {
            magnitude
        }
    }

    /// True where this number is less than `other`.
    pub open spec fn less_than(self, other: NumberView) -> bool {
        let unit = if self.scale <= other.scale {
            self.scale
        } else {
            other.scale
        };
        self.in_units(unit) < other.in_units(unit)
    }

    /// The whole part of the magnitude.
    pub open spec fn whole(self) -> int {
        whole_of(nat_of(self.digits), self.scale)
    }

    /// True for a number other than zero with a minus sign.
    pub open spec fn below_zero(self) -> bool {
        self.negative && nat_of(self.digits) > 0
    }
}

/// Digits with zeros behind them, `n` in all.
fn padded(digits: &[u8], n: usize) -> (p: Vec<u8>)
    requires
        all_digits(digits@),
        digits@.len() <= n,
    ensures
        all_digits(p@),
        p@.len() == n,
        nat_of(p@) == nat_of(digits@) * pow10((n - digits@.len()) as nat),
{
    let len: usize = digits.len();
    let mut p: Vec<u8> = Vec::new();
    let mut i: usize = 0;
    while i < n
        invariant
            len == digits@.len() <= n,
            i <= n,
            p@.len() == i,
            forall|j: int|
                0 <= j < i ==> #[trigger] p@[j] == (if j < len {
                    digits@[j]
                } else {
                    0
                }),
        decreases n - i,
    {
        if i < len {
            p.push(digits[i]);
        } else {
            p.push(0);
        }
        i += 1;
    }
    proof {
        let zeros = p@.skip(len as int);
        assert(p@ =~= digits@ + zeros);
        lemma_zeros(zeros);
        lemma_nat_of_append(digits@, zeros);
    }
    p
}

/// A magnitude of fewer digits before the point is the smaller one.
proof fn lemma_order(a: NumberView, b: NumberView, unit: int)
    requires
        all_digits(a.digits),
        all_digits(b.digits),
        b.digits.len() > 0,
        b.digits[0] > 0,
        unit <= a.scale,
        unit <= b.scale,
        a.digits.len() + a.scale < b.digits.len() + b.scale,
    ensures
        nat_of(a.digits) * pow10((a.scale - unit) as nat) < nat_of(b.digits) * pow10(
            (b.scale - unit) as nat,
        ),
{
    lemma_nat_of_bounds(a.digits);
    lemma_nat_of_bounds(b.digits);
    let (m, n) = (nat_of(a.digits) as int, nat_of(b.digits) as int);
    let (p, q) = ((a.scale - unit) as nat, (b.scale - unit) as nat);
    let last = (b.digits.len() - 1) as nat;
    lemma_pow10(p);
    lemma_pow10(q);
    power::lemma_pow_adds(10, a.digits.len(), p);
    power::lemma_pow_adds(10, last, q);
    power::lemma_pow_increases(10, a.digits.len() + p, last + q);
    assert(m * pow10(p) < pow10(a.digits.len()) * pow10(p)) by (nonlinear_arith)
        requires
            m < pow10(a.digits.len()),
            pow10(p) > 0,
    ;
    assert(pow10(last) * pow10(q) <= n * pow10(q)) by (nonlinear_arith)
        requires
            pow10(last) <= n,
            pow10(q) > 0,
    ;
}

/// True where the first of two magnitudes, neither with a leading zero, is smaller.
fn magnitude_less(a: &[u8], a_scale: i128, b: &[u8], b_scale: i128) -> (r: bool)
    requires
        all_digits(a@),
        all_digits(b@),
        a@.len() > 0,
        a@[0] > 0,
        b@.len() > 0,
        b@[0] > 0,
        -MAX_SCALE <= a_scale <= MAX_SCALE,
        -MAX_SCALE <= b_scale <= MAX_SCALE,
    ensures
        r == (NumberView { negative: false, digits: a@, scale: a_scale as int }).less_than(
            NumberView { negative: false, digits: b@, scale: b_scale as int },
        ),
{
    let ghost va = NumberView { negative: false, digits: a@, scale: a_scale as int };
    let ghost vb = NumberView { negative: false, digits: b@, scale: b_scale as int };
    let ghost unit = if a_scale <= b_scale {
        a_scale as int
    } else {
        b_scale as int
    };
    let a_order: i128 = a.len() as i128 + a_scale;
    let b_order: i128 = b.len() as i128 + b_scale;
    if a_order != b_order {
        proof {
            if a_order < b_order {
                lemma_order(va, vb, unit);
            } else {
                lemma_order(vb, va, unit);
            }
        }
        return a_order < b_order;
    }
    let n: usize = if a.len() >= b.len() {
        a.len()
    } else {
        b.len()
    };
    let pa = padded(a, n);
    let pb = padded(b, n);
    assert(n - a@.len() == a_scale - unit);
    assert(n - b@.len() == b_scale - unit);
    less_aligned(pa.as_slice(), pb.as_slice())
}

/// The digits from the first that is not zero on.
fn significant(digits: &[u8]) -> (d: &[u8])
    requires
        all_digits(digits@),
    ensures
        all_digits(d@),
        d@.len() > 0 ==> d@[0] > 0,
        nat_of(d@) == nat_of(digits@),
        d@.len() == 0 <==> nat_of(digits@) == 0,
        d@.len() <= digits@.len(),
{
    let k = first_significant(digits);
    let d = vstd::slice::slice_subrange(digits, k, digits.len());
    proof {
        assert(d@ =~= digits@.skip(k as int));
        lemma_nat_of_leading_zeros(digits@, k as int);
        lemma_nat_of_bounds(d@);
        if d@.len() > 0 {
            lemma_pow10((d@.len() - 1) as nat);
        }
    }
    d
}

impl Number {
    #[verifier::type_invariant]
    spec fn inv(self) -> bool {
        self@.wf()
    }

    /// The number that is written with these digits, where they are digits and the scale is within
    /// bounds.
    pub fn new(negative: bool, digits: Vec<u8>, scale: i128) -> (n: Option<Number>)
        ensures
            match n {
                Some(n) => n@ == (NumberView { negative, digits: digits@, scale: scale as int })
                    && n@.wf(),
                None => !(NumberView { negative, digits: digits@, scale: scale as int }).wf(),
            },
    {
        if scale < -MAX_SCALE || scale > MAX_SCALE {
            return None;
        }
        let mut i: usize = 0;
        while i < digits.len()
            invariant
                i <= digits@.len(),
                forall|k: int| 0 <= k < i ==> #[trigger] digits@[k] <= 9,
            decreases digits@.len() - i,
        {
            if digits[i] > 9 {
                assert(digits@[i as int] > 9);
                return None;
            }
            i += 1;
        }
        Some(Number::from_parts(negative, digits, scale))
    }

    /// The number that is written with these digits.
    pub(crate) fn from_parts(negative: bool, digits: Vec<u8>, scale: i128) -> (n: Number)
        requires
            all_digits(digits@),
            -MAX_SCALE <= scale <= MAX_SCALE,
        ensures
            n@ == (NumberView { negative, digits: digits@, scale: scale as int }),
            n@.wf(),
    {
        Number { negative, digits, scale }
    }

    /// Whether a minus sign stands in front.
    pub fn is_negative(&self) -> (r: bool)
        ensures
            r == self@.negative,
    {
        self.negative
    }

    /// The digits, without the point.
    pub fn digits(&self) -> (d: &[u8])
        ensures
            d@ == self@.digits,
            all_digits(d@),
    {
        proof {
            use_type_invariant(self);
        }
        self.digits.as_slice()
    }

    /// The power of ten that the digits are scaled by.
    pub fn scale(&self) -> (s: i128)
        ensures
            s == self@.scale,
            -MAX_SCALE <= s <= MAX_SCALE,
    {
        proof {
            use_type_invariant(self);
        }
        self.scale
    }

    /// Whether this number is less than `other`.
    pub fn less_than(&self, other: &Number) -> (r: bool)
        ensures
            r == self@.less_than(other@),
    {
        proof {
            use_type_invariant(self);
            use_type_invariant(other);
        }
        let a = significant(self.digits.as_slice());
        let b = significant(other.digits.as_slice());
        let ghost unit = if self.scale <= other.scale {
            self.scale as int
        } else {
            other.scale as int
        };
        let ghost (m, n) = (nat_of(a@) as int, nat_of(b@) as int);
        let ghost (p, q) = (pow10((self.scale - unit) as nat), pow10((other.scale - unit) as nat));
        proof {
            lemma_pow10((self.scale - unit) as nat);
            lemma_pow10((other.scale - unit) as nat);
            assert((m == 0 ==> m * p == 0) && (m > 0 ==> m * p > 0)) by (nonlinear_arith)
                requires
                    p > 0,
            ;
            assert((n == 0 ==> n * q == 0) && (n > 0 ==> n * q > 0)) by (nonlinear_arith)
                requires
                    q > 0,
            ;
        }
        if a.len() == 0 {
            return b.len() > 0 && !other.negative;
        }
        if b.len() == 0 {
            return self.negative;
        }
        if self.negative != other.negative {
            return self.negative;
        }
        if self.negative {
            magnitude_less(b, other.scale, a, self.scale)
        } else {
            magnitude_less(a, self.scale, b, other.scale)
        }
    }

    /// Whether this number lies below zero.
    pub fn below_zero(&self) -> (r: bool)
        ensures
            r == self@.below_zero(),
    {
        proof {
            use_type_invariant(self);
        }
        self.negative && significant(self.digits.as_slice()).len() > 0
    }

    /// The whole part of this number's magnitude, where it is at most `most`.
    pub fn whole_at_most(&self, most: u64) -> (w: Option<u64>)
        ensures
            w == (if self@.whole() <= most {
                Some(self@.whole() as u64)
            } else {
                None
            }),
            self@.whole() >= 0,
    {
        proof {
            use_type_invariant(self);
            lemma_whole_nonnegative(nat_of(self.digits@), self.scale as int);
        }
        let d = significant(self.digits.as_slice());
        let ghost m = nat_of(d@);
        if d.len() == 0 {
            proof {
                let p = pow10(vstd::math::abs(self.scale as int) as nat);
                lemma_pow10(vstd::math::abs(self.scale as int) as nat);
                assert(0 * p == 0);
                assert(0int / p == 0) by (nonlinear_arith)
                    requires
                        p > 0,
                ;
            }
            return Some(0);
        }
        let order: i128 = d.len() as i128 + self.scale;
        proof {
            lemma_whole_order(d@, self.scale as int);
        }
        if order <= 0 {
            return Some(0);
        }
        if order > 20 {
            proof {
                power::lemma_pow_increases(10, 20, (order - 1) as nat);
                lemma_pow10_20();
            }
            return None;
        }
        let w = whole_digits(d, self.scale);
        let n: usize = w.len();
        let mut acc: u128 = 0;
        let mut i: usize = 0;
        assert(w@.take(0) =~= Seq::<u8>::empty());
        proof {
            lemma_pow10_20();
            lemma_pow10(0);
        }
        while i < n
            invariant
                all_digits(w@),
                n == w@.len() <= 20,
                i <= n,
                pow10(20) == 100000000000000000000,
                acc == nat_of(w@.take(i as int)),
                acc < pow10(i as nat) <= pow10(20),
            decreases n - i,
        {
            proof {
                assert(w@.take(i + 1).drop_last() =~= w@.take(i as int));
                lemma_pow10(i as nat);
                power::lemma_pow_increases(10, (i + 1) as nat, 20);
            }
            acc = acc * 10 + w[i] as u128;
            i += 1;
        }
        assert(w@.take(n as int) =~= w@);
        if acc <= most as u128 {
            Some(acc as u64)
        } else {
            None
        }
    }
}

proof fn lemma_whole_nonnegative(m: nat, scale: int)
    ensures
        whole_of(m, scale) >= 0,
{
    let p = pow10(vstd::math::abs(scale) as nat);
    lemma_pow10(vstd::math::abs(scale) as nat);
    let x = m as int;
    assert(x * p >= 0 && x / p >= 0) by (nonlinear_arith)
        requires
            x >= 0,
            p > 0,
    ;
}

proof fn lemma_pow10_20()
    ensures
        pow10(20) == 100000000000000000000,
{
    lemma_literal_powers();
    assert(power::pow(10, 5) == 100000) by {
        reveal_with_fuel(power::pow, 6);
    }
    lemma_literal_product(10, 5, 5, 100000, 100000, 10000000000);
    lemma_literal_product(10, 10, 10, 10000000000, 10000000000, 100000000000000000000);
}

/// How large the whole part of a number of so many digits is.
proof fn lemma_whole_order(d: Seq<u8>, scale: int)
    requires
        all_digits(d),
        d.len() > 0,
        d[0] > 0,
    ensures
        d.len() + scale <= 0 ==> whole_of(nat_of(d), scale) == 0,
        d.len() + scale > 0 ==> whole_of(nat_of(d), scale) >= pow10((d.len() + scale - 1) as nat),
{
    lemma_nat_of_bounds(d);
    let m = nat_of(d) as int;
    let last = (d.len() - 1) as nat;
    if scale >= 0 {
        let p = scale as nat;
        lemma_pow10(p);
        power::lemma_pow_adds(10, last, p);
        assert(m * pow10(p) >= pow10(last) * pow10(p)) by (nonlinear_arith)
            requires
                m >= pow10(last),
                pow10(p) > 0,
        ;
    } else {
        let k = (-scale) as nat;
        let p = pow10(k);
        lemma_pow10(k);
        if d.len() <= k {
            power::lemma_pow_increases(10, d.len(), k);
            assert(m / p == 0) by (nonlinear_arith)
                requires
                    0 <= m < p,
            ;
        } else {
            let r = (last - k) as nat;
            power::lemma_pow_adds(10, r, k);
            let x = pow10(r);
            assert(m / p >= x) by (nonlinear_arith)
                requires
                    m >= x * p,
                    p > 0,
            ;
        }
    }
}

proof fn lemma_units(a: NumberView, fine: int, unit: int)
    requires
        fine <= unit <= a.scale,
    ensures
        a.in_units(fine) == a.in_units(unit) * pow10((unit - fine) as nat),
        pow10((unit - fine) as nat) > 0,
{
    let (p, q) = ((a.scale - unit) as nat, (unit - fine) as nat);
    power::lemma_pow_adds(10, p, q);
    lemma_pow10(q);
    assert((a.scale - fine) as nat == p + q);
    let m = nat_of(a.digits) as int;
    let (x, y) = (pow10(p), pow10(q));
    assert(m * (x * y) == (m * x) * y) by (nonlinear_arith);
    assert((-(m * x)) * y == -((m * x) * y)) by (nonlinear_arith);
}

/// Numbers are compared by value: whatever unit both are counted in, the lesser counts fewer.
pub proof fn law_order_is_that_of_the_values(a: NumberView, b: NumberView, unit: int)
    requires
        unit <= a.scale,
        unit <= b.scale,
    ensures
        a.less_than(b) <==> a.in_units(unit) < b.in_units(unit),
{
    let common = if a.scale <= b.scale {
        a.scale
    } else {
        b.scale
    };
    lemma_units(a, unit, common);
    lemma_units(b, unit, common);
    let (x, y, p) = (a.in_units(common), b.in_units(common), pow10((common - unit) as nat));
    assert(x < y <==> x * p < y * p) by (nonlinear_arith)
        requires
            p > 0,
    ;
}

/// The order of numbers is an order: no number is less than itself, of two not both are less, and
/// what is less than a lesser number is less.
pub proof fn law_numbers_are_ordered(a: NumberView, b: NumberView, c: NumberView)
    ensures
        !a.less_than(a),
        !(a.less_than(b) && b.less_than(a)),
        a.less_than(b) && b.less_than(c) ==> a.less_than(c),
        !a.less_than(b) && !b.less_than(c) ==> !a.less_than(c),
{
    let ab = if a.scale <= b.scale {
        a.scale
    } else {
        b.scale
    };
    let unit = if ab <= c.scale {
        ab
    } else {
        c.scale
    };
    law_order_is_that_of_the_values(a, a, unit);
    law_order_is_that_of_the_values(a, b, unit);
    law_order_is_that_of_the_values(b, a, unit);
    law_order_is_that_of_the_values(b, c, unit);
    law_order_is_that_of_the_values(a, c, unit);
}

/// One more digit makes the number ten times as large and adds the digit. A minus sign turns it around.
pub proof fn law_digits_count_by_tens(n: NumberView, d: u8)
    ensures
        nat_of(Seq::<u8>::empty()) == 0,
        nat_of(n.digits.push(d)) == 10 * nat_of(n.digits) + d,
        n.in_units(n.scale) == (if n.negative {
            -(nat_of(n.digits) as int)
        } else {
            nat_of(n.digits) as int
        }),
        n.in_units(n.scale - 1) == 10 * n.in_units(n.scale),
{
    assert(n.digits.push(d).drop_last() =~= n.digits);
    lemma_pow10(0);
    let m = nat_of(n.digits) as int;
    assert(m * pow10(0) == m) by (nonlinear_arith)
        requires
            pow10(0) == 1,
    ;
    assert((n.scale - n.scale) as nat == 0);
    lemma_units(n, n.scale - 1, n.scale);
    assert(pow10(1) == 10) by {
        assert((0 + 1) as nat == 1);
    }
    assert((n.scale - (n.scale - 1)) as nat == 1);
}

/// The whole part is the largest whole number that is not above the magnitude.
pub proof fn law_whole_parts_are_rounded_down(n: NumberView)
    requires
        n.scale < 0,
    ensures
        n.whole() * pow10((-n.scale) as nat) <= nat_of(n.digits),
        nat_of(n.digits) < (n.whole() + 1) * pow10((-n.scale) as nat),
{
    let (m, p) = (nat_of(n.digits) as int, pow10((-n.scale) as nat));
    lemma_pow10((-n.scale) as nat);
    assert((m / p) * p <= m < (m / p + 1) * p) by (nonlinear_arith)
        requires
            p > 0,
    ;
}

/// A number without places behind the point is its own whole part.
pub proof fn law_whole_numbers_are_whole(n: NumberView)
    requires
        n.scale >= 0,
        !n.negative,
    ensures
        n.whole() == n.in_units(0),
{
}

/// A number is below zero exactly where it is less than nothing.
pub proof fn law_below_zero_is_less_than_zero(n: NumberView)
    ensures
        n.below_zero() <==> n.less_than(
            NumberView { negative: false, digits: Seq::empty(), scale: n.scale },
        ),
{
    let zero = NumberView { negative: false, digits: Seq::<u8>::empty(), scale: n.scale };
    lemma_pow10(0);
    let m = nat_of(n.digits) as int;
    assert(m * pow10(0) == m && 0 * pow10(0) == 0) by (nonlinear_arith)
        requires
            pow10(0) == 1,
    ;
    assert((n.scale - n.scale) as nat == 0);
}

/// Numbers are kept finite: the least magnitude that is too large lies halfway between the largest double
/// and two to the power of 1024.
pub proof fn law_too_large_is_halfway_past_the_largest()
    ensures
        overflow_limit() == power::pow(2, 1024) - power::pow(2, 970),
{
    power::lemma_pow_adds(2, 970, 54);
    let (a, b) = (power::pow(2, 970), power::pow(2, 54));
    assert(a * (b - 1) == a * b - a) by (nonlinear_arith);
}

/// Whether a number is too large does not depend on where its point is written: ten times the digits, one
/// place further down, is the same number. Fewer digits are no larger.
pub proof fn law_range_does_not_depend_on_the_point(mantissa: nat, less: nat, scale: int)
    requires
        less <= mantissa,
    ensures
        in_range(mantissa, scale) <==> in_range(10 * mantissa, scale - 1),
        in_range(mantissa, scale) ==> in_range(less, scale),
        in_range(mantissa, 0) <==> mantissa < overflow_limit(),
{
    let (m, l) = (mantissa as int, overflow_limit());
    lemma_pow10(0);
    assert(m * pow10(0) == m) by (nonlinear_arith)
        requires
            pow10(0) == 1,
    ;
    if scale > 0 {
        let p = pow10((scale - 1) as nat);
        lemma_pow10((scale - 1) as nat);
        assert((scale - 1 + 1) as nat == scale as nat);
        assert(pow10(scale as nat) == 10 * p);
        assert(m * (10 * p) == (10 * m) * p) by (nonlinear_arith);
        assert(less * (10 * p) <= m * (10 * p)) by (nonlinear_arith)
            requires
                less <= m,
                p > 0,
        ;
    } else {
        let p = pow10((-scale) as nat);
        lemma_pow10((-scale) as nat);
        assert((-scale + 1) as nat == (-(scale - 1)) as nat);
        assert(pow10((-(scale - 1)) as nat) == 10 * p);
        assert(m < l * p <==> 10 * m < l * (10 * p)) by (nonlinear_arith);
        if scale == 0 {
            assert(l * p == l) by (nonlinear_arith)
                requires
                    p == 1,
            ;
            assert(less * pow10(0) == less) by (nonlinear_arith)
                requires
                    pow10(0) == 1,
            ;
        }
    }
}

/// Powers of ten start at one and grow tenfold.
pub proof fn law_powers_grow_tenfold(n: nat)
    ensures
        pow10(0) == 1,
        pow10((n + 1) as nat) == 10 * pow10(n),
{
    lemma_pow10(n);
}

} // verus!
