//! Greatest common divisors, least common multiples and modular arithmetic.
use vstd::prelude::*;
use vstd::arithmetic::div_mod::*;
use vstd::arithmetic::mul::*;
use vstd::arithmetic::power::*;

verus! {

/// The greatest common divisor by Euclid's recurrence; `gcd_spec(a, 0) == a`.
pub open spec fn gcd_spec(a: nat, b: nat) -> nat
    decreases b,
{
    if b == 0 {
        a
    } else {
        gcd_spec(b, a % b)
    }
}

/// The least common multiple, taken as zero when both arguments are zero.
pub open spec fn lcm_spec(a: nat, b: nat) -> nat {
    if a == 0 && b == 0 {
        0
    } else {
        (a / gcd_spec(a, b)) * b
    }
}

/// The gcd never exceeds the larger argument.
pub proof fn lemma_gcd_le_max(a: nat, b: nat)
    ensures
        gcd_spec(a, b) <= if a >= b { a } else { b },
    decreases b,
{
    if b > 0 {
        lemma_gcd_le_max(b, a % b);
    }
}

/// The gcd is positive unless both arguments are zero.
pub proof fn lemma_gcd_pos(a: nat, b: nat)
    requires
        a > 0 || b > 0,
    ensures
        gcd_spec(a, b) > 0,
    decreases b,
{
    if b > 0 {
        lemma_gcd_pos(b, a % b);
    }
}

proof fn lemma_gcd_divides(a: nat, b: nat)
    requires
        a > 0 || b > 0,
    ensures
        gcd_spec(a, b) > 0,
        a % gcd_spec(a, b) == 0,
        b % gcd_spec(a, b) == 0,
    decreases b,
{
    lemma_gcd_pos(a, b);
    if b == 0 {
        lemma_mod_self_0(a as int);
        lemma_small_mod(0, a);
    } else {
        lemma_gcd_divides(b, a % b);
        let g = gcd_spec(a, b) as int;
        lemma_fundamental_div_mod(a as int, b as int);
        lemma_fundamental_div_mod(b as int, g);
        lemma_fundamental_div_mod((a % b) as int, g);
        let k1 = (b as int) / g;
        let k2 = ((a % b) as int) / g;
        assert(a as int == (k1 * ((a as int) / (b as int)) + k2) * g) by (nonlinear_arith)
            requires
                a as int == (b as int) * ((a as int) / (b as int)) + (a % b) as int,
                b as int == g * k1,
                (a % b) as int == g * k2,
        ;
        lemma_mod_multiples_basic(k1 * ((a as int) / (b as int)) + k2, g);
    }
}

proof fn lemma_gcd_greatest(a: nat, b: nat, d: nat)
    requires
        d > 0,
        a % d == 0,
        b % d == 0,
    ensures
        gcd_spec(a, b) % d == 0,
    decreases b,
{
    if b > 0 {
        lemma_fundamental_div_mod(a as int, b as int);
        lemma_fundamental_div_mod(a as int, d as int);
        lemma_fundamental_div_mod(b as int, d as int);
        let ka = (a as int) / (d as int);
        let kb = (b as int) / (d as int);
        let q = (a as int) / (b as int);
        assert((a % b) as int == (ka - kb * q) * d) by (nonlinear_arith)
            requires
                a as int == (b as int) * q + (a % b) as int,
                a as int == (d as int) * ka,
                b as int == (d as int) * kb,
        ;
        lemma_mod_multiples_basic(ka - kb * q, d as int);
        lemma_gcd_greatest(b, a % b, d);
    }
}

/// `gcd_spec(a, b)` is the greatest common divisor of `a` and `b` when they
/// are not both zero: it divides both, and every common divisor divides it.
pub proof fn lemma_gcd_is_greatest_common_divisor(a: nat, b: nat, d: nat)
    requires
        a > 0 || b > 0,
    ensures
        gcd_spec(a, b) > 0,
        a % gcd_spec(a, b) == 0,
        b % gcd_spec(a, b) == 0,
        d > 0 && a % d == 0 && b % d == 0 ==> gcd_spec(a, b) % d == 0,
{
    lemma_gcd_divides(a, b);
    if d > 0 && a % d == 0 && b % d == 0 {
        lemma_gcd_greatest(a, b, d);
    }
}

fn gcd_u128(a: u128, b: u128) -> (r: u128)
    ensures
        r == gcd_spec(a as nat, b as nat),
{
    let mut x: u128 = a;
    let mut y: u128 = b;
    while y != 0
        invariant
            gcd_spec(x as nat, y as nat) == gcd_spec(a as nat, b as nat),
        decreases y,
    {
        let t: u128 = x % y;
        x = y;
        y = t;
    }
    x
}

fn lcm_u128(a: u128, b: u128) -> (r: u128)
    requires
        lcm_spec(a as nat, b as nat) <= u128::MAX,
    ensures
        r == lcm_spec(a as nat, b as nat),
{
    if a == 0 && b == 0 {
        0
    } else {
        let g = gcd_u128(a, b);
        proof {
            lemma_gcd_pos(a as nat, b as nat);
        }
        a / g * b
    }
}

/// Unsigned integer types on which `gcd` and `lcm` are defined.
pub trait GcdOps: Sized {
    /// The value as a natural number.
    spec fn as_nat(self) -> nat;

    /// The largest value of the type.
    spec fn max_nat() -> nat;

    fn gcd_of(a: Self, b: Self) -> (r: Self)
        ensures
            r.as_nat() == gcd_spec(a.as_nat(), b.as_nat()),
    ;

    fn lcm_of(a: Self, b: Self) -> (r: Self)
        requires
            lcm_spec(a.as_nat(), b.as_nat()) <= Self::max_nat(),
        ensures
            r.as_nat() == lcm_spec(a.as_nat(), b.as_nat()),
    ;
}

impl GcdOps for u8 {
    open spec fn as_nat(self) -> nat {
        self as nat
    }

    open spec fn max_nat() -> nat {
        u8::MAX as nat
    }

    fn gcd_of(a: u8, b: u8) -> (r: u8) {
        proof {
            lemma_gcd_le_max(a as nat, b as nat);
        }
        gcd_u128(a as u128, b as u128) as u8
    }

    fn lcm_of(a: u8, b: u8) -> (r: u8) {
        lcm_u128(a as u128, b as u128) as u8
    }
}

impl GcdOps for u16 {
    open spec fn as_nat(self) -> nat {
        self as nat
    }

    open spec fn max_nat() -> nat {
        u16::MAX as nat
    }

    fn gcd_of(a: u16, b: u16) -> (r: u16) {
        proof {
            lemma_gcd_le_max(a as nat, b as nat);
        }
        gcd_u128(a as u128, b as u128) as u16
    }

    fn lcm_of(a: u16, b: u16) -> (r: u16) {
        lcm_u128(a as u128, b as u128) as u16
    }
}

impl GcdOps for u32 {
    open spec fn as_nat(self) -> nat {
        self as nat
    }

    open spec fn max_nat() -> nat {
        u32::MAX as nat
    }

    fn gcd_of(a: u32, b: u32) -> (r: u32) {
        proof {
            lemma_gcd_le_max(a as nat, b as nat);
        }
        gcd_u128(a as u128, b as u128) as u32
    }

    fn lcm_of(a: u32, b: u32) -> (r: u32) {
        lcm_u128(a as u128, b as u128) as u32
    }
}

impl GcdOps for u64 {
    open spec fn as_nat(self) -> nat {
        self as nat
    }

    open spec fn max_nat() -> nat {
        u64::MAX as nat
    }

    fn gcd_of(a: u64, b: u64) -> (r: u64) {
        proof {
            lemma_gcd_le_max(a as nat, b as nat);
        }
        gcd_u128(a as u128, b as u128) as u64
    }

    fn lcm_of(a: u64, b: u64) -> (r: u64) {
        lcm_u128(a as u128, b as u128) as u64
    }
}

impl GcdOps for u128 {
    open spec fn as_nat(self) -> nat {
        self as nat
    }

    open spec fn max_nat() -> nat {
        u128::MAX as nat
    }

    fn gcd_of(a: u128, b: u128) -> (r: u128) {
        proof {
            lemma_gcd_le_max(a as nat, b as nat);
        }
        gcd_u128(a as u128, b as u128) as u128
    }

    fn lcm_of(a: u128, b: u128) -> (r: u128) {
        lcm_u128(a as u128, b as u128) as u128
    }
}

impl GcdOps for usize {
    open spec fn as_nat(self) -> nat {
        self as nat
    }

    open spec fn max_nat() -> nat {
        usize::MAX as nat
    }

    fn gcd_of(a: usize, b: usize) -> (r: usize) {
        proof {
            lemma_gcd_le_max(a as nat, b as nat);
        }
        gcd_u128(a as u128, b as u128) as usize
    }

    fn lcm_of(a: usize, b: usize) -> (r: usize) {
        lcm_u128(a as u128, b as u128) as usize
    }
}

/// Returns the greatest common divisor of `a` and `b` if neither is zero,
/// otherwise `a + b`.
pub fn gcd<T: GcdOps>(a: T, b: T) -> (r: T)
    ensures
        r.as_nat() == gcd_spec(a.as_nat(), b.as_nat()),
        a.as_nat() == 0 ==> r.as_nat() == b.as_nat(),
        b.as_nat() == 0 ==> r.as_nat() == a.as_nat(),
{
    proof {
        reveal_with_fuel(gcd_spec, 2);
    }
    T::gcd_of(a, b)
}

/// Returns the least common multiple of `a` and `b` if neither is zero,
/// otherwise zero. The result must fit in `T`.
pub fn lcm<T: GcdOps>(a: T, b: T) -> (r: T)
    requires
        lcm_spec(a.as_nat(), b.as_nat()) <= T::max_nat(),
    ensures
        r.as_nat() == lcm_spec(a.as_nat(), b.as_nat()),
{
    T::lcm_of(a, b)
}


fn addmod_u128(a: u128, b: u128, m: u128) -> (r: u128)
    requires
        a < m,
        b < m,
    ensures
        r == (a + b) % (m as int),
{
    if a >= m - b {
        proof {
            lemma_fundamental_div_mod_converse_mod(a + b, m as int, 1, a + b - m);
        }
        a - (m - b)
    } else {
        proof {
            lemma_small_mod((a + b) as nat, m as nat);
        }
        a + b
    }
}

fn submod_u128(a: u128, b: u128, m: u128) -> (r: u128)
    requires
        a < m,
        b < m,
    ensures
        r == (a - b) % (m as int),
{
    if a >= b {
        proof {
            lemma_small_mod((a - b) as nat, m as nat);
        }
        a - b
    } else {
        proof {
            lemma_fundamental_div_mod_converse_mod(a - b, m as int, -1, a - b + m);
        }
        a + (m - b)
    }
}

proof fn lemma_mulmod_step(acc: int, xx: int, yy: int, m: int)
    requires
        m > 0,
        yy >= 0,
    ensures
        ((acc + xx * (yy % 2)) % m + ((xx + xx) % m) * (yy / 2)) % m == (acc + xx * yy) % m,
{
    let u = acc + xx * (yy % 2);
    let v = (xx + xx) * (yy / 2);
    assert(xx * yy == xx * (yy % 2) + (xx + xx) * (yy / 2)) by (nonlinear_arith)
        requires
            yy == 2 * (yy / 2) + yy % 2,
    ;
    lemma_mul_mod_noop_left(xx + xx, yy / 2, m);
    lemma_add_mod_noop(u, v, m);
    lemma_add_mod_noop(u % m, ((xx + xx) % m) * (yy / 2), m);
    lemma_mod_twice(u, m);
    lemma_mod_twice(v, m);
}

/// `(x * y) % m` without a double-width product.
fn mulmod_u128(x: u128, y: u128, m: u128) -> (r: u128)
    requires
        x < m,
        m > 0,
    ensures
        r == (x * y) % (m as int),
{
    let mut acc: u128 = 0;
    let mut xx: u128 = x;
    let mut yy: u128 = y;
    proof {
        lemma_small_mod(0, m as nat);
    }
    while yy > 0
        invariant
            m > 0,
            acc < m,
            xx < m,
            (acc + xx * yy) % (m as int) == (x * y) % (m as int),
        decreases yy,
    {
        proof {
            lemma_mulmod_step(acc as int, xx as int, yy as int, m as int);
        }
        if yy % 2 == 1 {
            assert((xx as int) * ((yy as int) % 2) == xx) by (nonlinear_arith)
                requires
                    (yy as int) % 2 == 1,
            ;
            acc = addmod_u128(acc, xx, m);
        } else {
            assert((xx as int) * ((yy as int) % 2) == 0) by (nonlinear_arith)
                requires
                    (yy as int) % 2 == 0,
            ;
            proof {
                lemma_small_mod(acc as nat, m as nat);
            }
        }
        xx = addmod_u128(xx, xx, m);
        yy = yy / 2;
    }
    proof {
        lemma_small_mod(acc as nat, m as nat);
    }
    acc
}

proof fn lemma_powmod_step(out: int, bp: int, ee: nat, m: int)
    requires
        m > 0,
    ensures
        ((out * pow(bp, ee % 2)) % m * pow((bp * bp) % m, ee / 2)) % m == (out * pow(bp, ee)) % m,
{
    let k = ee / 2;
    let o = out * pow(bp, ee % 2);
    lemma_pow_adds(bp, ee % 2, 2 * k);
    assert(ee == ee % 2 + 2 * k);
    lemma_pow_multiplies(bp, 2, k);
    lemma_square_is_pow2(bp);
    lemma_pow_mod_noop(bp * bp, k, m);
    lemma_mul_mod_noop_left(o, pow((bp * bp) % m, k), m);
    lemma_mul_mod_noop_right(o, pow((bp * bp) % m, k), m);
    lemma_mul_mod_noop_right(o, pow(bp * bp, k), m);
    assert(o * pow(bp * bp, k) == out * pow(bp, ee)) by (nonlinear_arith)
        requires
            o == out * pow(bp, ee % 2),
            pow(bp, ee) == pow(bp, ee % 2) * pow(bp, 2 * k),
            pow(bp * bp, k) == pow(bp, 2 * k),
    ;
}

/// `pow(b, e) % m` by repeated squaring.
fn powmod_u128(b: u128, e: u128, m: u128) -> (r: u128)
    requires
        b < m,
    ensures
        r == pow(b as int, e as nat) % (m as int),
{
    let mut out: u128 = 1 % m;
    let mut bp: u128 = b;
    let mut ee: u128 = e;
    proof {
        reveal(pow);
        lemma_mul_mod_noop_left(1, pow(b as int, e as nat), m as int);
    }
    while ee > 0
        invariant
            m > 0,
            out < m,
            bp < m,
            (out * pow(bp as int, ee as nat)) % (m as int) == pow(b as int, e as nat) % (m as int),
        decreases ee,
    {
        proof {
            lemma_powmod_step(out as int, bp as int, ee as nat, m as int);
            reveal_with_fuel(pow, 2);
        }
        if ee % 2 == 1 {
            out = mulmod_u128(out, bp, m);
        } else {
            proof {
                lemma_small_mod(out as nat, m as nat);
            }
        }
        bp = mulmod_u128(bp, bp, m);
        ee = ee / 2;
    }
    proof {
        reveal(pow);
        lemma_small_mod(out as nat, m as nat);
    }
    out
}


proof fn lemma_inverse_step(cb: int, ca: int, q: int, x: int, a: int, b: int, m: int)
    requires
        m > 0,
        (cb * x) % m == b % m,
        (ca * x) % m == a % m,
    ensures
        (((cb - q * ca) % m) * x) % m == (b - q * a) % m,
{
    lemma_mul_mod_noop_left(cb - q * ca, x, m);
    assert((cb - q * ca) * x == cb * x - q * (ca * x)) by (nonlinear_arith);
    lemma_sub_mod_noop(cb * x, q * (ca * x), m);
    lemma_mul_mod_noop_right(q, ca * x, m);
    lemma_mul_mod_noop_right(q, a, m);
    lemma_sub_mod_noop(b, q * a, m);
}

/// The inverse of `x` modulo `m`, when `x` and `m` are coprime.
fn invmod_u128(x: u128, m: u128) -> (r: Option<u128>)
    requires
        x < m,
    ensures
        r is Some <==> gcd_spec(m as nat, x as nat) == 1,
        r matches Some(v) ==> v < m && (x * v) % (m as int) == 1int % (m as int),
{
    // Euclid on (b, a) = (m, x), keeping for each of them a coefficient
    // c with c * x congruent to it modulo m.
    let mut b: u128 = m;
    let mut a: u128 = x;
    let mut cb: u128 = 0;
    let mut ca: u128 = 1 % m;
    proof {
        lemma_small_mod(x as nat, m as nat);
        lemma_small_mod(0, m as nat);
        assert(0 * (x as int) == 0);
        lemma_mod_self_0(m as int);
        lemma_mul_mod_noop_left(1, x as int, m as int);
    }
    while a != 0
        invariant
            m > 0,
            cb < m,
            ca < m,
            (cb * x) % (m as int) == (b as int) % (m as int),
            (ca * x) % (m as int) == (a as int) % (m as int),
            gcd_spec(b as nat, a as nat) == gcd_spec(m as nat, x as nat),
        decreases a,
    {
        let q: u128 = b / a;
        let rem: u128 = b % a;
        let t: u128 = mulmod_u128(q % m, ca, m);
        let nc: u128 = submod_u128(cb, t, m);
        proof {
            lemma_fundamental_div_mod(b as int, a as int);
            assert(rem == b - q * a);
            lemma_mul_mod_noop_left(q as int, ca as int, m as int);
            lemma_sub_mod_noop_right(cb as int, q * ca, m as int);
            lemma_inverse_step(cb as int, ca as int, q as int, x as int, a as int, b as int, m as int);
        }
        b = a;
        a = rem;
        cb = ca;
        ca = nc;
    }
    if b == 1 {
        proof {
            lemma_mul_is_commutative(cb as int, x as int);
        }
        Some(cb)
    } else {
        None
    }
}


/// `x` and `m` share no factor but one.
pub open spec fn coprime_mod(x: int, m: int) -> bool {
    gcd_spec(m as nat, (x % m) as nat) == 1
}

/// `v` is the inverse of `x` modulo `m`, taken in `[0, m)`.
pub open spec fn is_inverse(x: int, v: int, m: int) -> bool {
    0 <= v < m && (x * v) % m == 1int % m
}

/// Power of a residue: `pow(b, e)` or, when `neg`, the inverse of it.
fn modpow_residue(b: u128, neg: bool, k: u128, m: u128) -> (r: Option<u128>)
    requires
        b < m,
    ensures
        !neg ==> r == Some((pow(b as int, k as nat) % (m as int)) as u128),
        neg ==> (r is Some <==> gcd_spec(m as nat, b as nat) == 1),
        neg ==> (r matches Some(v) ==> is_inverse(pow(b as int, k as nat), v as int, m as int)),
{
    if !neg {
        return Some(powmod_u128(b, k, m));
    }
    match invmod_u128(b, m) {
        None => None,
        Some(inv) => {
            let v = powmod_u128(inv, k, m);
            proof {
                let pb = pow(b as int, k as nat);
                let pi = pow(inv as int, k as nat);
                lemma_mul_mod_noop_right(pb, pi, m as int);
                lemma_pow_distributes(b as int, inv as int, k as nat);
                lemma_pow_mod_noop(b * inv, k as nat, m as int);
                lemma_pow_mod_noop(1, k as nat, m as int);
                lemma1_pow(k as nat);
                lemma_mod_bound(pi, m as int);
            }
            Some(v)
        },
    }
}

/// The least non-negative residue of a signed value.
fn residue_i128(x: i128, m: u128) -> (r: u128)
    requires
        m > 0,
    ensures
        r as int == (x as int) % (m as int),
{
    if x >= 0 {
        (x as u128) % m
    } else {
        let mag: u128 = ((-(x + 1)) as u128) + 1;
        let rm: u128 = mag % m;
        proof {
            let q = (mag as int) / (m as int);
            lemma_fundamental_div_mod(mag as int, m as int);
            assert(x as int == -(mag as int));
            if rm == 0 {
                assert(x as int == (-q) * (m as int) + 0) by (nonlinear_arith)
                    requires
                        x as int == -(mag as int),
                        mag as int == (m as int) * q + rm,
                        rm == 0,
                ;
                lemma_fundamental_div_mod_converse_mod(x as int, m as int, -q, 0);
            } else {
                assert(x as int == (-q - 1) * (m as int) + (m - rm)) by (nonlinear_arith)
                    requires
                        x as int == -(mag as int),
                        mag as int == (m as int) * q + rm,
                ;
                lemma_fundamental_div_mod_converse_mod(x as int, m as int, -q - 1, (m - rm) as int);
            }
        }
        if rm == 0 {
            0
        } else {
            m - rm
        }
    }
}

/// Integer types on which `modmul`, `modinv` and `modpow` are defined.
pub trait ModOps: Sized {
    /// The value as an integer.
    spec fn as_int(self) -> int;

    fn modmul_of(x: Self, y: Self, modulo: Self) -> (r: Self)
        requires
            modulo.as_int() > 0,
        ensures
            r.as_int() == (x.as_int() * y.as_int()) % modulo.as_int(),
    ;

    fn modinv_of(x: Self, modulo: Self) -> (r: Option<Self>)
        requires
            modulo.as_int() > 0,
        ensures
            r is Some <==> coprime_mod(x.as_int(), modulo.as_int()),
            r matches Some(v) ==> is_inverse(x.as_int(), v.as_int(), modulo.as_int()),
    ;

    fn modpow_of(base: Self, exponent: Self, modulo: Self) -> (r: Option<Self>)
        requires
            modulo.as_int() > 0,
        ensures
            exponent.as_int() >= 0 ==> (r matches Some(v) && v.as_int() == pow(
                base.as_int() % modulo.as_int(),
                exponent.as_int() as nat,
            ) % modulo.as_int()),
            exponent.as_int() < 0 ==> (r is Some <==> coprime_mod(base.as_int(), modulo.as_int())),
            exponent.as_int() < 0 ==> (r matches Some(v) ==> is_inverse(
                pow(base.as_int() % modulo.as_int(), (-exponent.as_int()) as nat),
                v.as_int(),
                modulo.as_int(),
            )),
    ;
}

impl ModOps for u8 {
    open spec fn as_int(self) -> int {
        self as int
    }

    fn modmul_of(x: u8, y: u8, modulo: u8) -> (r: u8) {
        let m = modulo as u128;
        let xr = (x as u128) % m;
        proof {
            lemma_mul_mod_noop_left(x as int, y as int, m as int);
        }
        mulmod_u128(xr, y as u128, m) as u8
    }

    fn modinv_of(x: u8, modulo: u8) -> (r: Option<u8>) {
        let m = modulo as u128;
        let xr = (x as u128) % m;
        match invmod_u128(xr, m) {
            None => None,
            Some(v) => {
                proof {
                    lemma_mul_mod_noop_left(x as int, v as int, m as int);
                }
                Some(v as u8)
            },
        }
    }

    fn modpow_of(base: u8, exponent: u8, modulo: u8) -> (r: Option<u8>) {
        let m = modulo as u128;
        let b = (base as u128) % m;
        match modpow_residue(b, false, exponent as u128, m) {
            None => None,
            Some(v) => Some(v as u8),
        }
    }
}

impl ModOps for u16 {
    open spec fn as_int(self) -> int {
        self as int
    }

    fn modmul_of(x: u16, y: u16, modulo: u16) -> (r: u16) {
        let m = modulo as u128;
        let xr = (x as u128) % m;
        proof {
            lemma_mul_mod_noop_left(x as int, y as int, m as int);
        }
        mulmod_u128(xr, y as u128, m) as u16
    }

    fn modinv_of(x: u16, modulo: u16) -> (r: Option<u16>) {
        let m = modulo as u128;
        let xr = (x as u128) % m;
        match invmod_u128(xr, m) {
            None => None,
            Some(v) => {
                proof {
                    lemma_mul_mod_noop_left(x as int, v as int, m as int);
                }
                Some(v as u16)
            },
        }
    }

    fn modpow_of(base: u16, exponent: u16, modulo: u16) -> (r: Option<u16>) {
        let m = modulo as u128;
        let b = (base as u128) % m;
        match modpow_residue(b, false, exponent as u128, m) {
            None => None,
            Some(v) => Some(v as u16),
        }
    }
}

impl ModOps for u32 {
    open spec fn as_int(self) -> int {
        self as int
    }

    fn modmul_of(x: u32, y: u32, modulo: u32) -> (r: u32) {
        let m = modulo as u128;
        let xr = (x as u128) % m;
        proof {
            lemma_mul_mod_noop_left(x as int, y as int, m as int);
        }
        mulmod_u128(xr, y as u128, m) as u32
    }

    fn modinv_of(x: u32, modulo: u32) -> (r: Option<u32>) {
        let m = modulo as u128;
        let xr = (x as u128) % m;
        match invmod_u128(xr, m) {
            None => None,
            Some(v) => {
                proof {
                    lemma_mul_mod_noop_left(x as int, v as int, m as int);
                }
                Some(v as u32)
            },
        }
    }

    fn modpow_of(base: u32, exponent: u32, modulo: u32) -> (r: Option<u32>) {
        let m = modulo as u128;
        let b = (base as u128) % m;
        match modpow_residue(b, false, exponent as u128, m) {
            None => None,
            Some(v) => Some(v as u32),
        }
    }
}

impl ModOps for u64 {
    open spec fn as_int(self) -> int {
        self as int
    }

    fn modmul_of(x: u64, y: u64, modulo: u64) -> (r: u64) {
        let m = modulo as u128;
        let xr = (x as u128) % m;
        proof {
            lemma_mul_mod_noop_left(x as int, y as int, m as int);
        }
        mulmod_u128(xr, y as u128, m) as u64
    }

    fn modinv_of(x: u64, modulo: u64) -> (r: Option<u64>) {
        let m = modulo as u128;
        let xr = (x as u128) % m;
        match invmod_u128(xr, m) {
            None => None,
            Some(v) => {
                proof {
                    lemma_mul_mod_noop_left(x as int, v as int, m as int);
                }
                Some(v as u64)
            },
        }
    }

    fn modpow_of(base: u64, exponent: u64, modulo: u64) -> (r: Option<u64>) {
        let m = modulo as u128;
        let b = (base as u128) % m;
        match modpow_residue(b, false, exponent as u128, m) {
            None => None,
            Some(v) => Some(v as u64),
        }
    }
}

impl ModOps for usize {
    open spec fn as_int(self) -> int {
        self as int
    }

    fn modmul_of(x: usize, y: usize, modulo: usize) -> (r: usize) {
        let m = modulo as u128;
        let xr = (x as u128) % m;
        proof {
            lemma_mul_mod_noop_left(x as int, y as int, m as int);
        }
        mulmod_u128(xr, y as u128, m) as usize
    }

    fn modinv_of(x: usize, modulo: usize) -> (r: Option<usize>) {
        let m = modulo as u128;
        let xr = (x as u128) % m;
        match invmod_u128(xr, m) {
            None => None,
            Some(v) => {
                proof {
                    lemma_mul_mod_noop_left(x as int, v as int, m as int);
                }
                Some(v as usize)
            },
        }
    }

    fn modpow_of(base: usize, exponent: usize, modulo: usize) -> (r: Option<usize>) {
        let m = modulo as u128;
        let b = (base as u128) % m;
        match modpow_residue(b, false, exponent as u128, m) {
            None => None,
            Some(v) => Some(v as usize),
        }
    }
}

impl ModOps for u128 {
    open spec fn as_int(self) -> int {
        self as int
    }

    fn modmul_of(x: u128, y: u128, modulo: u128) -> (r: u128) {
        let m = modulo as u128;
        let xr = (x as u128) % m;
        proof {
            lemma_mul_mod_noop_left(x as int, y as int, m as int);
        }
        mulmod_u128(xr, y as u128, m) as u128
    }

    fn modinv_of(x: u128, modulo: u128) -> (r: Option<u128>) {
        let m = modulo as u128;
        let xr = (x as u128) % m;
        match invmod_u128(xr, m) {
            None => None,
            Some(v) => {
                proof {
                    lemma_mul_mod_noop_left(x as int, v as int, m as int);
                }
                Some(v as u128)
            },
        }
    }

    fn modpow_of(base: u128, exponent: u128, modulo: u128) -> (r: Option<u128>) {
        let m = modulo as u128;
        let b = (base as u128) % m;
        match modpow_residue(b, false, exponent as u128, m) {
            None => None,
            Some(v) => Some(v as u128),
        }
    }
}

impl ModOps for i8 {
    open spec fn as_int(self) -> int {
        self as int
    }

    fn modmul_of(x: i8, y: i8, modulo: i8) -> (r: i8) {
        let m = modulo as u128;
        let xr = residue_i128(x as i128, m);
        let yr = residue_i128(y as i128, m);
        proof {
            lemma_mul_mod_noop(x as int, y as int, m as int);
        }
        mulmod_u128(xr, yr, m) as i8
    }

    fn modinv_of(x: i8, modulo: i8) -> (r: Option<i8>) {
        let m = modulo as u128;
        let xr = residue_i128(x as i128, m);
        match invmod_u128(xr, m) {
            None => None,
            Some(v) => {
                proof {
                    lemma_mul_mod_noop_left(x as int, v as int, m as int);
                }
                Some(v as i8)
            },
        }
    }

    fn modpow_of(base: i8, exponent: i8, modulo: i8) -> (r: Option<i8>) {
        let m = modulo as u128;
        let b = residue_i128(base as i128, m);
        let e = exponent as i128;
        let neg = e < 0;
        let k: u128 = if neg {
            ((-(e + 1)) as u128) + 1
        } else {
            e as u128
        };
        match modpow_residue(b, neg, k, m) {
            None => None,
            Some(v) => Some(v as i8),
        }
    }
}

impl ModOps for i16 {
    open spec fn as_int(self) -> int {
        self as int
    }

    fn modmul_of(x: i16, y: i16, modulo: i16) -> (r: i16) {
        let m = modulo as u128;
        let xr = residue_i128(x as i128, m);
        let yr = residue_i128(y as i128, m);
        proof {
            lemma_mul_mod_noop(x as int, y as int, m as int);
        }
        mulmod_u128(xr, yr, m) as i16
    }

    fn modinv_of(x: i16, modulo: i16) -> (r: Option<i16>) {
        let m = modulo as u128;
        let xr = residue_i128(x as i128, m);
        match invmod_u128(xr, m) {
            None => None,
            Some(v) => {
                proof {
                    lemma_mul_mod_noop_left(x as int, v as int, m as int);
                }
                Some(v as i16)
            },
        }
    }

    fn modpow_of(base: i16, exponent: i16, modulo: i16) -> (r: Option<i16>) {
        let m = modulo as u128;
        let b = residue_i128(base as i128, m);
        let e = exponent as i128;
        let neg = e < 0;
        let k: u128 = if neg {
            ((-(e + 1)) as u128) + 1
        } else {
            e as u128
        };
        match modpow_residue(b, neg, k, m) {
            None => None,
            Some(v) => Some(v as i16),
        }
    }
}

impl ModOps for i32 {
    open spec fn as_int(self) -> int {
        self as int
    }

    fn modmul_of(x: i32, y: i32, modulo: i32) -> (r: i32) {
        let m = modulo as u128;
        let xr = residue_i128(x as i128, m);
        let yr = residue_i128(y as i128, m);
        proof {
            lemma_mul_mod_noop(x as int, y as int, m as int);
        }
        mulmod_u128(xr, yr, m) as i32
    }

    fn modinv_of(x: i32, modulo: i32) -> (r: Option<i32>) {
        let m = modulo as u128;
        let xr = residue_i128(x as i128, m);
        match invmod_u128(xr, m) {
            None => None,
            Some(v) => {
                proof {
                    lemma_mul_mod_noop_left(x as int, v as int, m as int);
                }
                Some(v as i32)
            },
        }
    }

    fn modpow_of(base: i32, exponent: i32, modulo: i32) -> (r: Option<i32>) {
        let m = modulo as u128;
        let b = residue_i128(base as i128, m);
        let e = exponent as i128;
        let neg = e < 0;
        let k: u128 = if neg {
            ((-(e + 1)) as u128) + 1
        } else {
            e as u128
        };
        match modpow_residue(b, neg, k, m) {
            None => None,
            Some(v) => Some(v as i32),
        }
    }
}

impl ModOps for i64 {
    open spec fn as_int(self) -> int {
        self as int
    }

    fn modmul_of(x: i64, y: i64, modulo: i64) -> (r: i64) {
        let m = modulo as u128;
        let xr = residue_i128(x as i128, m);
        let yr = residue_i128(y as i128, m);
        proof {
            lemma_mul_mod_noop(x as int, y as int, m as int);
        }
        mulmod_u128(xr, yr, m) as i64
    }

    fn modinv_of(x: i64, modulo: i64) -> (r: Option<i64>) {
        let m = modulo as u128;
        let xr = residue_i128(x as i128, m);
        match invmod_u128(xr, m) {
            None => None,
            Some(v) => {
                proof {
                    lemma_mul_mod_noop_left(x as int, v as int, m as int);
                }
                Some(v as i64)
            },
        }
    }

    fn modpow_of(base: i64, exponent: i64, modulo: i64) -> (r: Option<i64>) {
        let m = modulo as u128;
        let b = residue_i128(base as i128, m);
        let e = exponent as i128;
        let neg = e < 0;
        let k: u128 = if neg {
            ((-(e + 1)) as u128) + 1
        } else {
            e as u128
        };
        match modpow_residue(b, neg, k, m) {
            None => None,
            Some(v) => Some(v as i64),
        }
    }
}

impl ModOps for isize {
    open spec fn as_int(self) -> int {
        self as int
    }

    fn modmul_of(x: isize, y: isize, modulo: isize) -> (r: isize) {
        let m = modulo as u128;
        let xr = residue_i128(x as i128, m);
        let yr = residue_i128(y as i128, m);
        proof {
            lemma_mul_mod_noop(x as int, y as int, m as int);
        }
        mulmod_u128(xr, yr, m) as isize
    }

    fn modinv_of(x: isize, modulo: isize) -> (r: Option<isize>) {
        let m = modulo as u128;
        let xr = residue_i128(x as i128, m);
        match invmod_u128(xr, m) {
            None => None,
            Some(v) => {
                proof {
                    lemma_mul_mod_noop_left(x as int, v as int, m as int);
                }
                Some(v as isize)
            },
        }
    }

    fn modpow_of(base: isize, exponent: isize, modulo: isize) -> (r: Option<isize>) {
        let m = modulo as u128;
        let b = residue_i128(base as i128, m);
        let e = exponent as i128;
        let neg = e < 0;
        let k: u128 = if neg {
            ((-(e + 1)) as u128) + 1
        } else {
            e as u128
        };
        match modpow_residue(b, neg, k, m) {
            None => None,
            Some(v) => Some(v as isize),
        }
    }
}

impl ModOps for i128 {
    open spec fn as_int(self) -> int {
        self as int
    }

    fn modmul_of(x: i128, y: i128, modulo: i128) -> (r: i128) {
        let m = modulo as u128;
        let xr = residue_i128(x as i128, m);
        let yr = residue_i128(y as i128, m);
        proof {
            lemma_mul_mod_noop(x as int, y as int, m as int);
        }
        mulmod_u128(xr, yr, m) as i128
    }

    fn modinv_of(x: i128, modulo: i128) -> (r: Option<i128>) {
        let m = modulo as u128;
        let xr = residue_i128(x as i128, m);
        match invmod_u128(xr, m) {
            None => None,
            Some(v) => {
                proof {
                    lemma_mul_mod_noop_left(x as int, v as int, m as int);
                }
                Some(v as i128)
            },
        }
    }

    fn modpow_of(base: i128, exponent: i128, modulo: i128) -> (r: Option<i128>) {
        let m = modulo as u128;
        let b = residue_i128(base as i128, m);
        let e = exponent as i128;
        let neg = e < 0;
        let k: u128 = if neg {
            ((-(e + 1)) as u128) + 1
        } else {
            e as u128
        };
        match modpow_residue(b, neg, k, m) {
            None => None,
            Some(v) => Some(v as i128),
        }
    }
}

/// Computes `(x * y) mod modulo`, in `[0, modulo)`.
pub fn modmul<T: ModOps>(x: T, y: T, modulo: T) -> (r: T)
    requires
        modulo.as_int() > 0,
    ensures
        r.as_int() == (x.as_int() * y.as_int()) % modulo.as_int(),
{
    T::modmul_of(x, y, modulo)
}

/// Computes the inverse of `x` modulo `modulo`, in `[0, modulo)`, if it exists;
/// returns `None` exactly when `x` and `modulo` are not coprime.
pub fn modinv<T: ModOps>(x: T, modulo: T) -> (r: Option<T>)
    requires
        modulo.as_int() > 0,
    ensures
        r is Some <==> coprime_mod(x.as_int(), modulo.as_int()),
        r matches Some(v) ==> is_inverse(x.as_int(), v.as_int(), modulo.as_int()),
{
    T::modinv_of(x, modulo)
}

/// Computes `base ** exponent mod modulo` in `O(lg exponent)` steps. A negative
/// exponent raises the inverse of `base`; returns `None` exactly when that
/// inverse does not exist.
pub fn modpow<T: ModOps>(base: T, exponent: T, modulo: T) -> (r: Option<T>)
    requires
        modulo.as_int() > 0,
    ensures
        exponent.as_int() >= 0 ==> (r matches Some(v) && v.as_int() == pow(
            base.as_int() % modulo.as_int(),
            exponent.as_int() as nat,
        ) % modulo.as_int()),
        exponent.as_int() < 0 ==> (r is Some <==> coprime_mod(base.as_int(), modulo.as_int())),
        exponent.as_int() < 0 ==> (r matches Some(v) ==> is_inverse(
            pow(base.as_int() % modulo.as_int(), (-exponent.as_int()) as nat),
            v.as_int(),
            modulo.as_int(),
        )),
{
    T::modpow_of(base, exponent, modulo)
}


pub open spec fn abs_int(x: int) -> int {
    if x < 0 {
        -x
    } else {
        x
    }
}

pub open spec fn max1(x: int) -> int {
    if x < 1 {
        1
    } else {
        x
    }
}

proof fn lemma_egcd_step(sp: int, sc: int, rp: int, rc: int, q: int, bb: int)
    requires
        rc >= 1,
        rp >= 0,
        q == rp / rc,
        sp * sc <= 0,
        abs_int(sp) * rc + abs_int(sc) * rp == bb,
    ensures
        abs_int(sc) * (rp - q * rc) + abs_int(sp - q * sc) * rc == bb,
        sc * (sp - q * sc) <= 0,
        abs_int(sp - q * sc) <= bb,
        abs_int(q * sc) <= bb,
        rp - q * rc >= 0,
{
    lemma_fundamental_div_mod(rp, rc);
    lemma_mod_pos_bound(rp, rc);
    assert(q >= 0) by {
        lemma_div_pos_is_pos(rp, rc);
    }
    let asp = abs_int(sp);
    let asc = abs_int(sc);
    assert(abs_int(sp - q * sc) == asp + q * asc) by (nonlinear_arith)
        requires
            sp * sc <= 0,
            q >= 0,
            asp == abs_int(sp),
            asc == abs_int(sc),
    ;
    assert(abs_int(q * sc) == q * asc) by (nonlinear_arith)
        requires
            q >= 0,
            asc == abs_int(sc),
    ;
    assert(q * rc <= rp) by (nonlinear_arith)
        requires
            rp == rc * q + rp % rc,
            rp % rc >= 0,
    ;
    assert(asc * (rp - q * rc) + (asp + q * asc) * rc == asp * rc + asc * rp) by (nonlinear_arith);
    assert(sc * (sp - q * sc) <= 0) by (nonlinear_arith)
        requires
            sp * sc <= 0,
            q >= 0,
    ;
    assert((asp + q * asc) * rc <= bb) by (nonlinear_arith)
        requires
            asc * (rp - q * rc) + (asp + q * asc) * rc == bb,
            asc >= 0,
            rp - q * rc >= 0,
    ;
    assert(asp + q * asc <= bb) by (nonlinear_arith)
        requires
            (asp + q * asc) * rc <= bb,
            rc >= 1,
            asp >= 0,
            q * asc >= 0,
    ;
    assert(asc >= 0 && q * asc >= 0) by (nonlinear_arith)
        requires
            q >= 0,
            asc == abs_int(sc),
    ;
}

/// Extended Euclid on non-negative values.
fn egcd_nonneg(a: i128, b: i128) -> (r: (i128, i128, i128))
    requires
        a >= 0,
        b >= 0,
    ensures
        r.0 as int == gcd_spec(a as nat, b as nat),
        a * r.1 + b * r.2 == r.0,
        abs_int(r.1 as int) <= max1(b as int),
        abs_int(r.2 as int) <= max1(a as int),
{
    let mut rp: i128 = a;
    let mut rc: i128 = b;
    let mut sp: i128 = 1;
    let mut sc: i128 = 0;
    let mut tp: i128 = 0;
    let mut tc: i128 = 1;
    while rc != 0
        invariant
            a >= 0,
            b >= 0,
            rp >= 0,
            rc >= 0,
            rp == sp * a + tp * b,
            rc == sc * a + tc * b,
            sp * sc <= 0,
            tp * tc <= 0,
            abs_int(sp as int) * rc + abs_int(sc as int) * rp == b,
            abs_int(tp as int) * rc + abs_int(tc as int) * rp == a,
            abs_int(sp as int) <= max1(b as int),
            abs_int(sc as int) <= max1(b as int),
            abs_int(tp as int) <= max1(a as int),
            abs_int(tc as int) <= max1(a as int),
            gcd_spec(rp as nat, rc as nat) == gcd_spec(a as nat, b as nat),
        decreases rc,
    {
        let q: i128 = rp / rc;
        proof {
            lemma_egcd_step(sp as int, sc as int, rp as int, rc as int, q as int, b as int);
            lemma_egcd_step(tp as int, tc as int, rp as int, rc as int, q as int, a as int);
            lemma_fundamental_div_mod(rp as int, rc as int);
            assert(rp - q * rc == (sp - q * sc) * a + (tp - q * tc) * b) by (nonlinear_arith)
                requires
                    rp == sp * a + tp * b,
                    rc == sc * a + tc * b,
            ;
        }
        let rn: i128 = rp - q * rc;
        let sn: i128 = sp - q * sc;
        let tn: i128 = tp - q * tc;
        proof {
            assert(rn == rp % rc);
        }
        rp = rc;
        rc = rn;
        sp = sc;
        sc = sn;
        tp = tc;
        tc = tn;
    }
    proof {
        assert(a * sp + b * tp == rp) by (nonlinear_arith)
            requires
                rp == sp * a + tp * b,
        ;
    }
    (rp, sp, tp)
}

/// Signed integer types on which `egcd` is defined.
pub trait EgcdOps: Sized {
    /// The value as an integer.
    spec fn as_int(self) -> int;

    /// The smallest value of the type.
    spec fn min_int() -> int;

    fn egcd_of(a: Self, b: Self) -> (r: (Self, Self, Self))
        requires
            a.as_int() > Self::min_int(),
            b.as_int() > Self::min_int(),
        ensures
            r.0.as_int() == gcd_spec(abs_int(a.as_int()) as nat, abs_int(b.as_int()) as nat),
            a.as_int() * r.1.as_int() + b.as_int() * r.2.as_int() == r.0.as_int(),
    ;
}

impl EgcdOps for i8 {
    open spec fn as_int(self) -> int {
        self as int
    }

    open spec fn min_int() -> int {
        i8::MIN as int
    }

    fn egcd_of(a: i8, b: i8) -> (r: (i8, i8, i8)) {
        let aa: i128 = if a < 0 {
            -(a as i128)
        } else {
            a as i128
        };
        let bb: i128 = if b < 0 {
            -(b as i128)
        } else {
            b as i128
        };
        let (g, s, t) = egcd_nonneg(aa, bb);
        proof {
            lemma_gcd_le_max(aa as nat, bb as nat);
        }
        let x: i128 = if a < 0 {
            -s
        } else {
            s
        };
        let y: i128 = if b < 0 {
            -t
        } else {
            t
        };
        proof {
            assert(a * x == aa * s) by (nonlinear_arith)
                requires
                    a < 0 ==> aa == -a && x == -s,
                    a >= 0 ==> aa == a && x == s,
            ;
            assert(b * y == bb * t) by (nonlinear_arith)
                requires
                    b < 0 ==> bb == -b && y == -t,
                    b >= 0 ==> bb == b && y == t,
            ;
        }
        (g as i8, x as i8, y as i8)
    }
}

impl EgcdOps for i16 {
    open spec fn as_int(self) -> int {
        self as int
    }

    open spec fn min_int() -> int {
        i16::MIN as int
    }

    fn egcd_of(a: i16, b: i16) -> (r: (i16, i16, i16)) {
        let aa: i128 = if a < 0 {
            -(a as i128)
        } else {
            a as i128
        };
        let bb: i128 = if b < 0 {
            -(b as i128)
        } else {
            b as i128
        };
        let (g, s, t) = egcd_nonneg(aa, bb);
        proof {
            lemma_gcd_le_max(aa as nat, bb as nat);
        }
        let x: i128 = if a < 0 {
            -s
        } else {
            s
        };
        let y: i128 = if b < 0 {
            -t
        } else {
            t
        };
        proof {
            assert(a * x == aa * s) by (nonlinear_arith)
                requires
                    a < 0 ==> aa == -a && x == -s,
                    a >= 0 ==> aa == a && x == s,
            ;
            assert(b * y == bb * t) by (nonlinear_arith)
                requires
                    b < 0 ==> bb == -b && y == -t,
                    b >= 0 ==> bb == b && y == t,
            ;
        }
        (g as i16, x as i16, y as i16)
    }
}

impl EgcdOps for i32 {
    open spec fn as_int(self) -> int {
        self as int
    }

    open spec fn min_int() -> int {
        i32::MIN as int
    }

    fn egcd_of(a: i32, b: i32) -> (r: (i32, i32, i32)) {
        let aa: i128 = if a < 0 {
            -(a as i128)
        } else {
            a as i128
        };
        let bb: i128 = if b < 0 {
            -(b as i128)
        } else {
            b as i128
        };
        let (g, s, t) = egcd_nonneg(aa, bb);
        proof {
            lemma_gcd_le_max(aa as nat, bb as nat);
        }
        let x: i128 = if a < 0 {
            -s
        } else {
            s
        };
        let y: i128 = if b < 0 {
            -t
        } else {
            t
        };
        proof {
            assert(a * x == aa * s) by (nonlinear_arith)
                requires
                    a < 0 ==> aa == -a && x == -s,
                    a >= 0 ==> aa == a && x == s,
            ;
            assert(b * y == bb * t) by (nonlinear_arith)
                requires
                    b < 0 ==> bb == -b && y == -t,
                    b >= 0 ==> bb == b && y == t,
            ;
        }
        (g as i32, x as i32, y as i32)
    }
}

impl EgcdOps for i64 {
    open spec fn as_int(self) -> int {
        self as int
    }

    open spec fn min_int() -> int {
        i64::MIN as int
    }

    fn egcd_of(a: i64, b: i64) -> (r: (i64, i64, i64)) {
        let aa: i128 = if a < 0 {
            -(a as i128)
        } else {
            a as i128
        };
        let bb: i128 = if b < 0 {
            -(b as i128)
        } else {
            b as i128
        };
        let (g, s, t) = egcd_nonneg(aa, bb);
        proof {
            lemma_gcd_le_max(aa as nat, bb as nat);
        }
        let x: i128 = if a < 0 {
            -s
        } else {
            s
        };
        let y: i128 = if b < 0 {
            -t
        } else {
            t
        };
        proof {
            assert(a * x == aa * s) by (nonlinear_arith)
                requires
                    a < 0 ==> aa == -a && x == -s,
                    a >= 0 ==> aa == a && x == s,
            ;
            assert(b * y == bb * t) by (nonlinear_arith)
                requires
                    b < 0 ==> bb == -b && y == -t,
                    b >= 0 ==> bb == b && y == t,
            ;
        }
        (g as i64, x as i64, y as i64)
    }
}

impl EgcdOps for isize {
    open spec fn as_int(self) -> int {
        self as int
    }

    open spec fn min_int() -> int {
        isize::MIN as int
    }

    fn egcd_of(a: isize, b: isize) -> (r: (isize, isize, isize)) {
        let aa: i128 = if a < 0 {
            -(a as i128)
        } else {
            a as i128
        };
        let bb: i128 = if b < 0 {
            -(b as i128)
        } else {
            b as i128
        };
        let (g, s, t) = egcd_nonneg(aa, bb);
        proof {
            lemma_gcd_le_max(aa as nat, bb as nat);
        }
        let x: i128 = if a < 0 {
            -s
        } else {
            s
        };
        let y: i128 = if b < 0 {
            -t
        } else {
            t
        };
        proof {
            assert(a * x == aa * s) by (nonlinear_arith)
                requires
                    a < 0 ==> aa == -a && x == -s,
                    a >= 0 ==> aa == a && x == s,
            ;
            assert(b * y == bb * t) by (nonlinear_arith)
                requires
                    b < 0 ==> bb == -b && y == -t,
                    b >= 0 ==> bb == b && y == t,
            ;
        }
        (g as isize, x as isize, y as isize)
    }
}

impl EgcdOps for i128 {
    open spec fn as_int(self) -> int {
        self as int
    }

    open spec fn min_int() -> int {
        i128::MIN as int
    }

    fn egcd_of(a: i128, b: i128) -> (r: (i128, i128, i128)) {
        let aa: i128 = if a < 0 {
            -(a as i128)
        } else {
            a as i128
        };
        let bb: i128 = if b < 0 {
            -(b as i128)
        } else {
            b as i128
        };
        let (g, s, t) = egcd_nonneg(aa, bb);
        proof {
            lemma_gcd_le_max(aa as nat, bb as nat);
        }
        let x: i128 = if a < 0 {
            -s
        } else {
            s
        };
        let y: i128 = if b < 0 {
            -t
        } else {
            t
        };
        proof {
            assert(a * x == aa * s) by (nonlinear_arith)
                requires
                    a < 0 ==> aa == -a && x == -s,
                    a >= 0 ==> aa == a && x == s,
            ;
            assert(b * y == bb * t) by (nonlinear_arith)
                requires
                    b < 0 ==> bb == -b && y == -t,
                    b >= 0 ==> bb == b && y == t,
            ;
        }
        (g as i128, x as i128, y as i128)
    }
}

/// Returns `(g, x, y)`, where `g` is the gcd of `|a|` and `|b|`, and
/// `a * x + b * y == g`.
pub fn egcd<T: EgcdOps>(a: T, b: T) -> (r: (T, T, T))
    requires
        a.as_int() > T::min_int(),
        b.as_int() > T::min_int(),
    ensures
        r.0.as_int() == gcd_spec(abs_int(a.as_int()) as nat, abs_int(b.as_int()) as nat),
        a.as_int() * r.1.as_int() + b.as_int() * r.2.as_int() == r.0.as_int(),
{
    T::egcd_of(a, b)
}

} // verus!
