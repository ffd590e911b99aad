//! The linear congruential generator of the NAS Parallel Benchmarks,
//! `x_{k+1} = a * x_k mod 2^46`, on integer seeds.
//!
//! The benchmark keeps seeds in double precision and splits every product
//! into 23-bit halves so that no intermediate value exceeds 2^47; the same
//! split is carried out here on `u64`.
use vstd::arithmetic::div_mod::*;
use vstd::arithmetic::mul::*;
use vstd::arithmetic::power::*;
use vstd::arithmetic::power2::*;
use vstd::prelude::*;

verus! {

/// 2^23, the radix of the half-words.
pub const TWO_23: u64 = 8388608;

/// 2^46, the modulus of the generator.
pub const TWO_46: u64 = 70368744177664;

/// The modulus of the generator as a mathematical integer.
pub open spec fn modulus() -> int {
    70368744177664
}

/// One step of the generator with multiplier `a`: `a * x mod 2^46`.
pub open spec fn lcg_next(x: int, a: int) -> int {
    (a * x) % modulus()
}

/// The seed after `k` steps of the generator with multiplier `a`, from `x`.
pub open spec fn lcg_seed(x: int, a: int, k: nat) -> int
    decreases k,
{
    if k == 0 {
        x
    } else {
        lcg_next(lcg_seed(x, a, (k - 1) as nat), a)
    }
}

/// The seed after `k` steps is `a^k * x mod 2^46`.
pub proof fn lemma_seed_closed_form(x: int, a: int, k: nat)
    requires
        0 <= x < modulus(),
    ensures
        lcg_seed(x, a, k) == (pow(a, k) * x) % modulus(),
    decreases k,
{
    reveal(pow);
    if k == 0 {
        lemma_small_mod(x as nat, modulus() as nat);
    } else {
        lemma_seed_closed_form(x, a, (k - 1) as nat);
        let prev = pow(a, (k - 1) as nat) * x;
        lemma_mul_mod_noop_right(a, prev, modulus());
        lemma_mul_is_associative(a, pow(a, (k - 1) as nat), x);
    }
}

/// Every seed of the generator lies in `0..2^46`, once a step was taken.
pub proof fn lemma_seed_bound(x: int, a: int, k: nat)
    requires
        0 <= x < modulus(),
    ensures
        0 <= lcg_seed(x, a, k) < modulus(),
    decreases k,
{
    if k > 0 {
        lemma_mod_bound(a * lcg_seed(x, a, (k - 1) as nat), modulus());
    }
}

/// Taking `j` steps and then `k` more is taking `j + k` steps.
pub proof fn lemma_seed_compose(x: int, a: int, j: nat, k: nat)
    ensures
        lcg_seed(lcg_seed(x, a, j), a, k) == lcg_seed(x, a, j + k),
    decreases k,
{
    if k > 0 {
        lemma_seed_compose(x, a, j, (k - 1) as nat);
        assert((j + k - 1) as nat == (j + (k - 1) as nat));
    }
}

/// Jumping ahead: one step with the multiplier `a^k mod 2^46`, which is the
/// seed after `k - 1` steps from `a`, takes a seed `k` steps further.
pub proof fn lemma_seed_jump(x: int, a: int, j: nat, k: nat)
    requires
        0 <= x < modulus(),
        0 <= a < modulus(),
        k >= 1,
    ensures
        lcg_next(lcg_seed(x, a, j), lcg_seed(a, a, (k - 1) as nat)) == lcg_seed(x, a, j + k),
{
    let m = modulus();
    lemma_seed_closed_form(x, a, j);
    lemma_seed_closed_form(a, a, (k - 1) as nat);
    lemma_seed_closed_form(x, a, j + k);
    let pk = pow(a, (k - 1) as nat) * a;
    let pj = pow(a, j) * x;
    assert(pk == pow(a, k)) by {
        lemma_pow_adds(a, (k - 1) as nat, 1);
        lemma_pow1(a);
    }
    lemma_mul_mod_noop_general(pk, pj, m);
    assert(pk * pj == pow(a, j + k) * x) by {
        lemma_pow_adds(a, k, j);
        lemma_mul_is_associative(pow(a, k), pow(a, j), x);
        assert(k + j == j + k);
    }
}

/// `a * x mod 2^46` through the 23-bit split `a = 2^23 a1 + a2`,
/// `x = 2^23 x1 + x2`: `z = (a1 x2 + a2 x1) mod 2^23`, then
/// `(2^23 z + a2 x2) mod 2^46`.
pub fn mul_mod46(a: u64, x: u64) -> (r: u64)
    requires
        a < TWO_46,
        x < TWO_46,
    ensures
        r == lcg_next(x as int, a as int),
        r < TWO_46,
{
    let a1 = a / TWO_23;
    let a2 = a % TWO_23;
    let x1 = x / TWO_23;
    let x2 = x % TWO_23;
    assert(a1 < TWO_23 && x1 < TWO_23) by (nonlinear_arith)
        requires
            a1 == a / 8388608u64,
            x1 == x / 8388608u64,
            a < 70368744177664u64,
            x < 70368744177664u64,
    ;
    assert(a1 * x2 < 70368744177664 && a2 * x1 < 70368744177664 && a2 * x2 < 70368744177664)
        by (nonlinear_arith)
        requires
            a1 < 8388608u64,
            x1 < 8388608u64,
            a2 < 8388608u64,
            x2 < 8388608u64,
    ;
    let t = a1 * x2 + a2 * x1;
    let z = t % TWO_23;
    let t3 = TWO_23 * z + a2 * x2;
    let r = t3 % TWO_46;
    proof {
        let q = t / TWO_23;
        lemma_fundamental_div_mod(a as int, TWO_23 as int);
        lemma_fundamental_div_mod(x as int, TWO_23 as int);
        lemma_fundamental_div_mod(t as int, TWO_23 as int);
        assert(a as int * x as int == 70368744177664 * (a1 * x1 + q) + t3) by (nonlinear_arith)
            requires
                a as int == 8388608 * a1 + a2,
                x as int == 8388608 * x1 + x2,
                t as int == a1 * x2 + a2 * x1,
                t as int == 8388608 * q + z,
                t3 as int == 8388608 * z + a2 * x2,
        ;
        lemma_mod_multiples_vanish(a1 * x1 + q, t3 as int, modulus());
        assert(a as int * x as int == x as int * a as int) by {
            lemma_mul_is_commutative(a as int, x as int);
        }
    }
    r
}

/// One step of the generator on the seed `x`: `x` becomes `a * x mod 2^46`,
/// and the new seed is returned. The benchmark's uniform deviate in `(0, 1)`
/// is the returned seed times `2^-46`.
pub fn randlc(x: &mut u64, a: u64) -> (r: u64)
    requires
        *old(x) < TWO_46,
        a < TWO_46,
    ensures
        *final(x) == lcg_next(*old(x) as int, a as int),
        r == *final(x),
        r < TWO_46,
{
    let next = mul_mod46(a, *x);
    *x = next;
    next
}

/// One round of square-and-multiply keeps `t2^k * t1 mod 2^46`: halving the
/// exponent after squaring `t2`, and multiplying `t1` by `t2` when `k` is odd.
proof fn lemma_halving_step(t1: int, t2: int, k: nat)
    requires
        0 <= t1 < modulus(),
        0 <= t2 < modulus(),
    ensures
        (pow(lcg_next(t2, t2), k / 2) * (if k % 2 == 1 {
            lcg_next(t1, t2)
        } else {
            t1
        })) % modulus() == (pow(t2, k) * t1) % modulus(),
{
    let m = modulus();
    let h = k / 2;
    let sq = lcg_next(t2, t2);
    lemma_pow_mod_noop(t2 * t2, h, m);
    lemma_square_is_pow2(t2);
    lemma_pow_multiplies(t2, 2, h);
    assert(pow(sq, h) % m == pow(t2, 2 * h) % m);
    if k % 2 == 1 {
        let y = t2 * t1;
        lemma_mul_mod_noop_right(pow(sq, h), y, m);
        lemma_mul_mod_noop_left(pow(sq, h), y, m);
        lemma_mul_mod_noop_left(pow(t2, 2 * h), y, m);
        lemma_pow_adds(t2, 2 * h, 1);
        lemma_pow1(t2);
        assert(2 * h + 1 == k);
        lemma_mul_is_associative(pow(t2, 2 * h), t2, t1);
        lemma_mul_is_commutative(t2, t1);
        lemma_mul_is_commutative(t1, t2);
    } else {
        lemma_mul_mod_noop_left(pow(sq, h), t1, m);
        lemma_mul_mod_noop_left(pow(t2, 2 * h), t1, m);
        assert(2 * h == k);
    }
}

/// The seed `kk` steps after `s` for the multiplier `an`, found by binary
/// exponentiation of `an` in at most 100 halvings of `kk`.
pub fn find_starting_seed(s: u64, an: u64, kk: u64) -> (t1: u64)
    requires
        s < TWO_46,
        an < TWO_46,
    ensures
        t1 == lcg_seed(s as int, an as int, kk as nat),
        t1 < TWO_46,
{
    let mut t1 = s;
    let mut t2 = an;
    let mut k = kk;
    let mut it: u32 = 1;
    proof {
        lemma_pow1(t2 as int);
        lemma_pow_adds(an as int, 0, kk as nat);
        lemma_pow0(an as int);
        lemma2_to64_rest();
    }
    while it <= 100
        invariant
            1 <= it <= 65,
            (k as int) < pow2((65 - it) as nat),
            t1 < TWO_46,
            t2 < TWO_46,
            s < TWO_46,
            an < TWO_46,
            (pow(t2 as int, k as nat) * t1) % modulus() == (pow(an as int, kk as nat) * s) % modulus(),
        decreases 100 - it,
    {
        let ik = k / 2;
        proof {
            lemma_halving_step(t1 as int, t2 as int, k as nat);
        }
        if 2 * ik != k {
            t1 = mul_mod46(t2, t1);
        }
        if ik == 0 {
            proof {
                if k == 1 {
                    lemma_pow1(t2 as int);
                } else {
                    lemma_pow0(t2 as int);
                }
                lemma_small_mod(t1 as nat, modulus() as nat);
                lemma_seed_closed_form(s as int, an as int, kk as nat);
            }
            return t1;
        }
        t2 = mul_mod46(t2, t2);
        proof {
            if it == 65 {
                lemma2_to64();
                assert(false);
            }
            lemma_pow2_unfold((65 - it) as nat);
            assert((65 - it - 1) as nat == (65 - (it + 1)) as nat);
        }
        k = ik;
        it = it + 1;
    }
    t1
}

/// Fills `y[0..n]` with the next `n` seeds of the generator after `x`:
/// `y[k]` is the seed `k + 1` steps after `x`. Seeds are produced in batches
/// of 64, each batch taken from the previous one by one multiplication with
/// `a^64 mod 2^46`. Nothing is written when `n <= 0`.
pub fn vranlc(n: i32, x: u64, a: u64, y: &mut [u64])
    requires
        x < TWO_46,
        a < TWO_46,
        n <= old(y)@.len(),
    ensures
        final(y)@.len() == old(y)@.len(),
        forall|k: int| 0 <= k < n ==> final(y)@[k] == lcg_seed(x as int, a as int, (k + 1) as nat),
        forall|k: int| 0 <= k < old(y)@.len() && k >= n ==> final(y)@[k] == old(y)@[k],
{
    if n <= 0 {
        return ;
    }
    let n1: i32 = if n < 64 {
        n
    } else {
        64
    };
    let mut xv: Vec<u64> = Vec::new();
    let mut t1: u64 = x;
    let mut i: i32 = 0;
    while i < n1
        invariant
            0 <= i <= n1 <= 64,
            xv@.len() == i,
            x < TWO_46,
            a < TWO_46,
            t1 < TWO_46,
            t1 == lcg_seed(x as int, a as int, i as nat),
            forall|k: int| 0 <= k < i ==> xv@[k] == lcg_seed(x as int, a as int, (k + 1) as nat),
        decreases n1 - i,
    {
        let seed = randlc(&mut t1, a);
        xv.push(seed);
        i = i + 1;
    }
    let mut an: u64 = 0;
    if n > 64 {
        let mut t: u64 = a;
        let mut c: i32 = 0;
        while c < 63
            invariant
                0 <= c <= 63,
                a < TWO_46,
                t < TWO_46,
                t == lcg_seed(a as int, a as int, c as nat),
            decreases 63 - c,
        {
            randlc(&mut t, a);
            c = c + 1;
        }
        an = t;
    }
    let mut j: i32 = 0;
    loop
        invariant
            0 <= j < n,
            n1 == (if n < 64 { n } else { 64 }),
            n <= 64 ==> j == 0,
            n > 64 ==> an == lcg_seed(a as int, a as int, 63),
            an < TWO_46,
            x < TWO_46,
            a < TWO_46,
            xv@.len() == n1,
            forall|k: int| 0 <= k < n1 ==> xv@[k] == lcg_seed(x as int, a as int, (j + k + 1) as nat),
            y@.len() == old(y)@.len(),
            n <= y@.len(),
            forall|k: int| 0 <= k < j ==> y@[k] == lcg_seed(x as int, a as int, (k + 1) as nat),
            forall|k: int| j <= k < y@.len() ==> y@[k] == old(y)@[k],
        decreases n - j,
    {
        let m1: i32 = if n - j < 64 {
            n - j
        } else {
            64
        };
        let mut i: i32 = 0;
        while i < m1
            invariant
                0 <= i <= m1 <= n1,
                0 <= j,
                j + m1 <= n,
                n <= y@.len(),
                y@.len() == old(y)@.len(),
                xv@.len() == n1,
                forall|k: int| 0 <= k < n1 ==> xv@[k] == lcg_seed(x as int, a as int, (j + k + 1) as nat),
                forall|k: int| 0 <= k < j ==> y@[k] == lcg_seed(x as int, a as int, (k + 1) as nat),
                forall|k: int| j <= k < j + i ==> y@[k] == lcg_seed(x as int, a as int, (k + 1) as nat),
                forall|k: int| j + i <= k < y@.len() ==> y@[k] == old(y)@[k],
            decreases m1 - i,
        {
            y[(j + i) as usize] = xv[i as usize];
            i = i + 1;
        }
        if j + m1 == n {
            return ;
        }
        let mut i: usize = 0;
        while i < 64
            invariant
                0 <= i <= 64,
                n > 64,
                n1 == 64,
                0 <= j,
                xv@.len() == 64,
                an == lcg_seed(a as int, a as int, 63),
                an < TWO_46,
                x < TWO_46,
                a < TWO_46,
                forall|k: int| 0 <= k < i ==> xv@[k] == lcg_seed(x as int, a as int, (j + 64 + k + 1) as nat),
                forall|k: int| i <= k < 64 ==> xv@[k] == lcg_seed(x as int, a as int, (j + k + 1) as nat),
            decreases 64 - i,
        {
            proof {
                lemma_seed_bound(x as int, a as int, (j + i + 1) as nat);
                lemma_seed_jump(x as int, a as int, (j + i + 1) as nat, 64);
                assert((j + i + 1) as nat + 64 == (j + 64 + i + 1) as nat);
            }
            let v = mul_mod46(an, xv[i]);
            xv[i] = v;
            i = i + 1;
        }
        j = j + 64;
    }
}

} // verus!
