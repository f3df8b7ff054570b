use crate::alphabet::{
    code_letter, get_char_numeric_equivalent, get_numeric_char_equivalent, is_symbol,
    letter_code, SPACE_CODE,
};
use crate::modular::{
    are_coprime, coprime26, inverse26, lemma_coprime_has_inverse, lemma_unit_keys, modular_inverse, residue26,
    ALPHABET_LEN,
};
use crate::text::{decimal, push_char, push_decimal};
use vstd::arithmetic::div_mod::{
    lemma_add_mod_noop, lemma_add_mod_noop_right, lemma_mod_add_multiples_vanish,
    lemma_mul_mod_noop_left, lemma_mul_mod_noop_right, lemma_sub_mod_noop_right,
};
use vstd::prelude::*;
use vstd::string::StringExecFns;

verus! {

/// Whether a cipher maps plaintext to ciphertext or back.
#[derive(Clone, Copy, Debug, PartialEq, Eq, Structural)]
pub enum Direction {
    Encode,
    Decode,
}

/// Where the affine map `x -> a * x + b` (or its inverse) sends the letter code `x`.
pub open spec fn shift_code(x: int, a: int, b: int, direction: Direction) -> int {
    match direction {
        Direction::Encode => (a * x + b) % 26,
        Direction::Decode => (inverse26(a) * (x - b)) % 26,
    }
}

/// One character through the cipher: a space stays, a letter comes out lower case.
pub open spec fn affine_char(c: char, a: int, b: int, direction: Direction) -> char {
    if c == ' ' {
        ' '
    } else {
        code_letter(shift_code(letter_code(c), a, b, direction))
    }
}

/// A whole text through the cipher, character by character.
pub open spec fn affine_text(s: Seq<char>, a: int, b: int, direction: Direction) -> Seq<char> {
    s.map_values(|c: char| affine_char(c, a, b, direction))
}

/// Every character of `s` is a letter or a space.
pub open spec fn all_symbols(s: Seq<char>) -> bool {
    forall|i: int| 0 <= i < s.len() ==> is_symbol(s[i])
}

/// Position of the first character of `s` that the ciphers refuse.
pub open spec fn first_invalid(s: Seq<char>) -> int {
    choose|k: int|
        0 <= k < s.len() && !is_symbol(s[k]) && forall|j: int| 0 <= j < k ==> is_symbol(s[j])
}

pub open spec fn not_coprime_message(a: int) -> Seq<char> {
    "Value for a("@ + decimal(a) + ") is not coprime with 26"@
}

pub open spec fn invalid_char_message(c: char) -> Seq<char> {
    "Character '"@ + seq![c] + "' is not a letter or a space"@
}

/// What an affine cipher call yields: the key is checked first, then the text.
pub open spec fn affine_outcome(s: Seq<char>, a: int, b: int, direction: Direction) -> Result<
    Seq<char>,
    Seq<char>,
> {
    if !coprime26(a) {
        Err(not_coprime_message(a))
    } else if !all_symbols(s) {
        Err(invalid_char_message(s[first_invalid(s)]))
    } else {
        Ok(affine_text(s, a, b, direction))
    }
}

/// The strings of a cipher result, seen as character sequences.
pub open spec fn outcome_view(r: Result<String, String>) -> Result<Seq<char>, Seq<char>> {
    match r {
        Ok(t) => Ok(t@),
        Err(e) => Err(e@),
    }
}

/// The first refused character of `s` is at `k`.
proof fn lemma_first_invalid_at(s: Seq<char>, k: int)
    requires
        0 <= k < s.len(),
        !is_symbol(s[k]),
        forall|j: int| 0 <= j < k ==> is_symbol(s[j]),
    ensures
        !all_symbols(s),
        first_invalid(s) == k,
{
    let f = first_invalid(s);
    assert(0 <= f < s.len() && !is_symbol(s[f]) && forall|j: int| 0 <= j < f ==> is_symbol(s[j]));
    if f < k {
        assert(is_symbol(s[f]));
    } else if f > k {
        assert(is_symbol(s[k]));
    }
}

/// Applies the affine map, or its inverse, to one letter code.
fn shift_letter(x: u32, a: i32, b: i32, inverse: u32, direction: Direction) -> (y: u32)
    requires
        x < 26,
        direction == Direction::Decode ==> inverse as int == inverse26(a as int) && inverse < 26,
    ensures
        y < 26,
        y as int == shift_code(x as int, a as int, b as int, direction),
{
    let ar = residue26(a);
    let br = residue26(b);
    match direction {
        Direction::Encode => {
            proof {
                let (ai, bi, xi) = (a as int, b as int, x as int);
                lemma_mul_mod_noop_left(ai, xi, 26);
                lemma_add_mod_noop_right(ar * xi, bi, 26);
                lemma_add_mod_noop(ar * xi, bi, 26);
                lemma_add_mod_noop(ai * xi, bi, 26);
            }
            assert(ar * x < 26 * 26) by (nonlinear_arith)
                requires
                    ar < 26,
                    x < 26,
            ;
            (ar * x + br) % ALPHABET_LEN
        },
        Direction::Decode => {
            let t = x + ALPHABET_LEN - br;
            proof {
                let (bi, xi, ii) = (b as int, x as int, inverse as int);
                lemma_mod_add_multiples_vanish(xi - br, 26);
                lemma_sub_mod_noop_right(xi, bi, 26);
                lemma_mul_mod_noop_right(ii, t as int, 26);
                lemma_mul_mod_noop_right(ii, xi - bi, 26);
            }
            assert(inverse * t < 26 * 52) by (nonlinear_arith)
                requires
                    inverse < 26,
                    t < 52,
            ;
            (inverse * t) % ALPHABET_LEN
        },
    }
}

/// The message that refuses a multiplier `a` not coprime with 26.
fn not_coprime_error(a: i32) -> (e: String)
    ensures
        e@ == not_coprime_message(a as int),
{
    let mut e = String::from_str("Value for a(");
    push_decimal(&mut e, a);
    e.append(") is not coprime with 26");
    e
}

/// The message that refuses a character outside the alphabet.
fn invalid_char_error(c: char) -> (e: String)
    ensures
        e@ == invalid_char_message(c),
{
    let mut e = String::from_str("Character '");
    push_char(&mut e, c);
    e.append("' is not a letter or a space");
    e
}

/// Runs the affine cipher `x -> a * x + b` over `plaintext`, or its inverse
/// when decoding. Letters come out lower case and spaces stay where they are.
/// Fails, before looking at the text, when `a` is not coprime with 26, and
/// otherwise on the first character that is neither a letter nor a space.
pub fn affine_cipher(plaintext: String, a: i32, b: i32, direction: Direction) -> (r: Result<
    String,
    String,
>)
    ensures
        outcome_view(r) == affine_outcome(plaintext@, a as int, b as int, direction),
{
    if !are_coprime(a, 26) {
        return Err(not_coprime_error(a));
    }
    proof {
        lemma_coprime_has_inverse(a as int);
    }
    let inverse = match modular_inverse(a) {
        Some(i) => i,
        None => 0,
    };
    let ghost s = plaintext@;
    let mut out = String::new();
    for c in it: plaintext.chars()
        invariant
            it.seq() == s,
            s == plaintext@,
            coprime26(a as int),
            inverse as int == inverse26(a as int),
            inverse < 26,
            out@ == affine_text(s.take(it.index() as int), a as int, b as int, direction),
            all_symbols(s.take(it.index() as int)),
    {
        let ghost k = it.index() as int;
        match get_char_numeric_equivalent(&c) {
            None => {
                proof {
                    assert(s[k] == c);
                    assert forall|j: int| 0 <= j < k implies is_symbol(#[trigger] s[j]) by {
                        assert(s.take(k)[j] == s[j]);
                    }
                    lemma_first_invalid_at(s, k);
                }
                return Err(invalid_char_error(c));
            },
            Some(x) => {
                if x == SPACE_CODE {
                    push_char(&mut out, c);
                } else {
                    let y = shift_letter(x as u32, a, b, inverse, direction);
                    push_char(&mut out, get_numeric_char_equivalent(y as i32));
                }
            },
        }
        assert(s.take(k + 1) =~= s.take(k).push(c));
    }
    assert(s.take(s.len() as int) =~= s);
    Ok(out)
}

/// The Caesar cipher: every letter moves `offset` places along the alphabet
/// (back when decoding); any offset, negative or past 26, is taken modulo 26.
pub fn caeser_cipher(plaintext: String, offset: i32, direction: Direction) -> (r: Result<
    String,
    String,
>)
    ensures
        outcome_view(r) == affine_outcome(plaintext@, 1, offset as int, direction),
        r is Ok <==> all_symbols(plaintext@),
{
    proof {
        lemma_unit_keys();
    }
    affine_cipher(plaintext, 1, offset, direction)
}

/// The Atbash cipher: the alphabet read backwards, `a <-> z`, `b <-> y`, ...
pub fn atbash_cipher(plaintext: String, direction: Direction) -> (r: Result<String, String>)
    ensures
        outcome_view(r) == affine_outcome(plaintext@, -1, -1, direction),
        r is Ok <==> all_symbols(plaintext@),
{
    proof {
        lemma_unit_keys();
    }
    affine_cipher(plaintext, -1, -1, direction)
}

/// ROT13: the Caesar cipher with offset 13, half the alphabet.
pub fn rot_13_cipher(plaintext: String, direction: Direction) -> (r: Result<String, String>)
    ensures
        outcome_view(r) == affine_outcome(plaintext@, 1, 13, direction),
        r is Ok <==> all_symbols(plaintext@),
{
    proof {
        lemma_unit_keys();
    }
    affine_cipher(plaintext, 1, 13, direction)
}

} // verus!
