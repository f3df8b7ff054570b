use vstd::arithmetic::div_mod::{
    lemma_fundamental_div_mod, lemma_mod_mod, lemma_mod_multiples_basic, lemma_mul_mod_noop_left,
    lemma_mul_mod_noop_right,
};
use vstd::prelude::*;

verus! {

/// Size of the alphabet that every cipher works over.
pub const ALPHABET_LEN: u32 = 26;

/// Greatest common divisor, by Euclid's recurrence (`gcd(x, 0) == x`).
pub open spec fn gcd_nat(x: nat, y: nat) -> nat
    decreases y,
{
    if y == 0 {
        x
    } else {
        gcd_nat(y, x % y)
    }
}

pub open spec fn abs(a: int) -> nat {
    if a < 0 {
        (-a) as nat
    } else {
        a as nat
    }
}

/// `a` and `b` share no factor but 1.
pub open spec fn coprime(a: int, b: int) -> bool {
    gcd_nat(abs(a), abs(b)) == 1
}

/// `a` shares no factor with the alphabet size, so `x -> a * x + b` can be inverted.
pub open spec fn coprime26(a: int) -> bool {
    coprime(a, 26)
}

/// `i` is the multiplicative inverse of `a` modulo 26.
pub open spec fn is_inverse(a: int, i: int) -> bool {
    0 <= i < 26 && (a * i) % 26 == 1
}

/// The multiplicative inverse of `a` modulo 26 (meaningful where `coprime26(a)`).
pub open spec fn inverse26(a: int) -> int {
    choose|i: int| is_inverse(a, i)
}

/// Relies on gcd::binary_u32: it returns the greatest common divisor of its
/// arguments, with `gcd(0, v) == v` and `gcd(u, 0) == u`.
#[verifier::external_body]
fn binary_gcd(u: u32, v: u32) -> (r: u32)
    ensures
        r as nat == gcd_nat(u as nat, v as nat),
{
    gcd::binary_u32(u, v)
}

/// Every common divisor of `x` and `y` divides their gcd.
pub proof fn lemma_gcd_keeps_divisor(x: nat, y: nat, d: nat)
    requires
        d > 0,
        x % d == 0,
        y % d == 0,
    ensures
        gcd_nat(x, y) % d == 0,
    decreases y,
{
    if y > 0 {
        lemma_fundamental_div_mod(x as int, y as int);
        lemma_fundamental_div_mod(x as int, d as int);
        lemma_fundamental_div_mod(y as int, d as int);
        let q = x as int / y as int;
        let p = x as int / d as int;
        let s = y as int / d as int;
        assert(x as int % y as int == (p - s * q) * d) by (nonlinear_arith)
            requires
                x as int == d * p,
                y as int == d * s,
                x as int == y * q + x as int % y as int,
        ;
        lemma_mod_multiples_basic(p - s * q, d as int);
        lemma_gcd_keeps_divisor(y, x % y, d);
    }
}

/// A divisor of `a` that divides 26 divides `gcd(|a|, 26)`.
proof fn lemma_shared_factor(a: int, d: nat)
    requires
        d > 0,
        26nat % d == 0,
        a % d as int == 0,
    ensures
        gcd_nat(abs(a), 26) % d == 0,
{
    lemma_fundamental_div_mod(a, d as int);
    let k = a / d as int;
    if a < 0 {
        assert(-a == (-k) * d) by (nonlinear_arith)
            requires
                a == d * k,
        ;
        lemma_mod_multiples_basic(-k, d as int);
    }
    lemma_gcd_keeps_divisor(abs(a), 26, d);
}

/// The multipliers of the named ciphers, 1 and -1, are coprime with 26, and
/// each is its own inverse up to sign: the inverse of 1 is 1, that of -1 is 25.
pub proof fn lemma_unit_keys()
    ensures
        coprime26(1),
        coprime26(-1),
        inverse26(1) == 1,
        inverse26(-1) == 25,
{
    reveal_with_fuel(gcd_nat, 3);
    lemma_coprime_has_inverse(1);
    lemma_coprime_has_inverse(-1);
    assert(is_inverse(1, 1));
    assert(is_inverse(-1, 25));
    lemma_inverse_unique(1, 1, inverse26(1));
    lemma_inverse_unique(-1, 25, inverse26(-1));
}

/// Multiplying by `a` or by its residue modulo 26 agrees modulo 26.
proof fn lemma_inverse_by_residue(a: int, i: int)
    ensures
        is_inverse(a, i) == is_inverse(a % 26, i),
{
    lemma_mul_mod_noop_left(a, i, 26);
}

/// An `a` coprime with 26 has an inverse modulo 26.
pub proof fn lemma_coprime_has_inverse(a: int)
    requires
        coprime26(a),
    ensures
        exists|i: int| is_inverse(a, i),
        is_inverse(a, inverse26(a)),
{
    if a % 2 == 0 {
        lemma_shared_factor(a, 2);
    }
    if a % 13 == 0 {
        lemma_shared_factor(a, 13);
    }
    lemma_mod_mod(a, 2, 13);
    lemma_mod_mod(a, 13, 2);
    let r = a % 26;
    assert(r % 2 == 1 && r % 13 != 0);
    let i: int = if r == 1 {
        1
    } else if r == 3 {
        9
    } else if r == 5 {
        21
    } else if r == 7 {
        15
    } else if r == 9 {
        3
    } else if r == 11 {
        19
    } else if r == 15 {
        7
    } else if r == 17 {
        23
    } else if r == 19 {
        11
    } else if r == 21 {
        5
    } else if r == 23 {
        17
    } else {
        25
    };
    assert(is_inverse(r, i));
    lemma_inverse_by_residue(a, i);
}

/// An inverse modulo 26 is unique.
pub proof fn lemma_inverse_unique(a: int, i: int, j: int)
    requires
        is_inverse(a, i),
        is_inverse(a, j),
    ensures
        i == j,
{
    lemma_mul_mod_noop_right(i, a * j, 26);
    lemma_mul_mod_noop_right(j, a * i, 26);
    assert(i * (a * j) == j * (a * i)) by (nonlinear_arith);
}

/// The magnitude of `a`, which fits a `u32` even for `i32::MIN`.
fn magnitude(a: i32) -> (r: u32)
    ensures
        r as nat == abs(a as int),
{
    if a < 0 {
        (0i64 - a as i64) as u32
    } else {
        a as u32
    }
}

/// Whether `a` and `b` are coprime, signs ignored.
pub fn are_coprime(a: i32, b: i32) -> (r: bool)
    ensures
        r == coprime(a as int, b as int),
{
    binary_gcd(magnitude(a), magnitude(b)) == 1
}

/// The residue of `a` modulo 26, in `0..26` whatever the sign of `a`.
pub fn residue26(a: i32) -> (r: u32)
    ensures
        r as int == a as int % 26,
        r < 26,
{
    match a.checked_rem_euclid(26) {
        Some(r) => r as u32,
        None => 0,
    }
}

/// The inverse of `a` modulo 26, found by trying each residue; `None` when
/// `a` has none (it is not coprime with 26).
pub fn modular_inverse(a: i32) -> (r: Option<u32>)
    ensures
        r is Some <==> exists|i: int| is_inverse(a as int, i),
        coprime26(a as int) ==> r is Some,
        r matches Some(i) ==> is_inverse(a as int, i as int) && i as int == inverse26(a as int),
{
    let ar = residue26(a);
    let mut i: u32 = 0;
    while i < ALPHABET_LEN
        invariant
            i <= 26,
            ar as int == a as int % 26,
            ar < 26,
            forall|j: int| 0 <= j < i ==> !is_inverse(a as int, j),
        decreases 26 - i,
    {
        assert(ar * i < 26 * 26) by (nonlinear_arith)
            requires
                ar < 26,
                i < 26,
        ;
        if (ar * i) % ALPHABET_LEN == 1 {
            proof {
                lemma_inverse_by_residue(a as int, i as int);
                lemma_inverse_unique(a as int, i as int, inverse26(a as int));
            }
            return Some(i);
        }
        proof {
            lemma_inverse_by_residue(a as int, i as int);
        }
        i = i + 1;
    }
    proof {
        if coprime26(a as int) {
            lemma_coprime_has_inverse(a as int);
        }
    }
    None
}

} // verus!
