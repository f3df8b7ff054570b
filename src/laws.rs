use crate::alphabet::{is_lower, is_symbol, is_upper, letter_code};
use crate::modular::{coprime26, gcd_nat, inverse26, lemma_coprime_has_inverse, lemma_unit_keys};
use crate::substitution_ciphers::{
    affine_char, affine_outcome, affine_text, all_symbols, not_coprime_message, shift_code,
    Direction,
};
use crate::text::digits;
use vstd::arithmetic::div_mod::{
    lemma_add_mod_noop_right, lemma_mod_multiples_vanish, lemma_mul_mod_noop_left,
    lemma_mul_mod_noop_right, lemma_sub_mod_noop, lemma_sub_mod_noop_right,
};
use vstd::prelude::*;

verus! {

/// A character folded to lower case; anything but an upper-case letter stays.
pub open spec fn to_lower(c: char) -> char {
    if is_upper(c) {
        (c as int - 'A' as int + 'a' as int) as char
    } else {
        c
    }
}

/// A text folded to lower case.
pub open spec fn lowercase(s: Seq<char>) -> Seq<char> {
    s.map_values(|c: char| to_lower(c))
}

/// The encoded form of a valid text, which is itself valid.
pub open spec fn encoded(s: Seq<char>, a: int, b: int) -> Seq<char> {
    affine_text(s, a, b, Direction::Encode)
}

/// Decoding undoes encoding on one letter code.
proof fn lemma_code_round_trip(x: int, a: int, b: int)
    requires
        0 <= x < 26,
        coprime26(a),
    ensures
        shift_code(shift_code(x, a, b, Direction::Encode), a, b, Direction::Decode) == x,
{
    lemma_coprime_has_inverse(a);
    let i = inverse26(a);
    let y = (a * x + b) % 26;
    lemma_sub_mod_noop(a * x + b, b, 26);
    lemma_sub_mod_noop_right(y, b, 26);
    assert((y - b) % 26 == (a * x) % 26);
    lemma_mul_mod_noop_right(i, y - b, 26);
    lemma_mul_mod_noop_right(i, a * x, 26);
    assert(i * (a * x) == (i * a) * x) by (nonlinear_arith);
    lemma_mul_mod_noop_left(i * a, x, 26);
    assert(i * a == a * i) by (nonlinear_arith);
}

/// A letter comes out of the cipher as a lower-case letter, a space as a space.
proof fn lemma_char_shape(c: char, a: int, b: int, direction: Direction)
    requires
        is_symbol(c),
    ensures
        is_symbol(affine_char(c, a, b, direction)),
        (affine_char(c, a, b, direction) == ' ') == (c == ' '),
        c != ' ' ==> is_lower(affine_char(c, a, b, direction)) && 0 <= letter_code(
            affine_char(c, a, b, direction),
        ) < 26 && letter_code(affine_char(c, a, b, direction)) == shift_code(
            letter_code(c),
            a,
            b,
            direction,
        ),
{
}

/// Encoding a valid text with a key coprime with 26 and decoding the result
/// with the same key gives back the text in lower case.
pub proof fn lemma_affine_round_trip(s: Seq<char>, a: int, b: int)
    requires
        all_symbols(s),
        coprime26(a),
    ensures
        affine_outcome(s, a, b, Direction::Encode) == Ok::<Seq<char>, Seq<char>>(encoded(s, a, b)),
        affine_outcome(encoded(s, a, b), a, b, Direction::Decode) == Ok::<Seq<char>, Seq<char>>(
            lowercase(s),
        ),
{
    let e = encoded(s, a, b);
    assert forall|i: int| 0 <= i < e.len() implies is_symbol(#[trigger] e[i]) by {
        lemma_char_shape(s[i], a, b, Direction::Encode);
    }
    assert forall|i: int| 0 <= i < s.len() implies #[trigger] affine_text(
        e,
        a,
        b,
        Direction::Decode,
    )[i] == lowercase(s)[i] by {
        let c = s[i];
        lemma_char_shape(c, a, b, Direction::Encode);
        if c != ' ' {
            lemma_code_round_trip(letter_code(c), a, b);
        }
    }
    assert(affine_text(e, a, b, Direction::Decode) =~= lowercase(s));
}

/// Caesar decoding with offset `k` undoes Caesar encoding with offset `k`:
/// the round trip gives the text back in lower case.
pub proof fn lemma_caesar_round_trip(s: Seq<char>, k: int)
    requires
        all_symbols(s),
    ensures
        affine_outcome(s, 1, k, Direction::Encode) == Ok::<Seq<char>, Seq<char>>(encoded(s, 1, k)),
        affine_outcome(encoded(s, 1, k), 1, k, Direction::Decode) == Ok::<Seq<char>, Seq<char>>(
            lowercase(s),
        ),
{
    lemma_unit_keys();
    lemma_affine_round_trip(s, 1, k);
}

/// A Caesar offset counts only modulo 26: `k` and `k mod 26` give the same
/// result on every text, in either direction.
pub proof fn lemma_caesar_offset_modulo(s: Seq<char>, k: int, direction: Direction)
    ensures
        affine_outcome(s, 1, k, direction) == affine_outcome(s, 1, k % 26, direction),
{
    lemma_unit_keys();
    assert forall|i: int| 0 <= i < s.len() implies #[trigger] affine_text(s, 1, k, direction)[i]
        == affine_text(s, 1, k % 26, direction)[i] by {
        let x = letter_code(s[i]);
        lemma_add_mod_noop_right(x, k, 26);
        lemma_sub_mod_noop_right(x, k, 26);
    }
    assert(affine_text(s, 1, k, direction) =~= affine_text(s, 1, k % 26, direction));
}

/// Every cipher keeps the spaces of a text, each at its place, and puts no
/// space anywhere else.
pub proof fn lemma_spaces_kept(s: Seq<char>, a: int, b: int, direction: Direction)
    ensures
        affine_outcome(s, a, b, direction) matches Ok(t) ==> t.len() == s.len() && forall|i: int|
            0 <= i < s.len() ==> (#[trigger] t[i] == ' ') == (s[i] == ' '),
{
    if all_symbols(s) {
        assert forall|i: int| 0 <= i < s.len() implies (#[trigger] affine_text(
            s,
            a,
            b,
            direction,
        )[i] == ' ') == (s[i] == ' ') by {
            lemma_char_shape(s[i], a, b, direction);
        }
    }
}

/// Atbash is its own inverse: encoding and decoding are the same map, and
/// applying it twice gives the text back in lower case.
pub proof fn lemma_atbash_involution(s: Seq<char>)
    ensures
        affine_outcome(s, -1, -1, Direction::Encode) == affine_outcome(
            s,
            -1,
            -1,
            Direction::Decode,
        ),
        all_symbols(s) ==> affine_outcome(encoded(s, -1, -1), -1, -1, Direction::Decode) == Ok::<
            Seq<char>,
            Seq<char>,
        >(lowercase(s)),
{
    lemma_unit_keys();
    assert forall|i: int| 0 <= i < s.len() implies #[trigger] affine_text(
        s,
        -1,
        -1,
        Direction::Encode,
    )[i] == affine_text(s, -1, -1, Direction::Decode)[i] by {
        let x = letter_code(s[i]);
        lemma_mod_multiples_vanish(x + 1, -(x + 1), 26);
        assert(25 * (x - -1) == 26 * (x + 1) + -(x + 1));
    }
    assert(affine_text(s, -1, -1, Direction::Encode) =~= affine_text(
        s,
        -1,
        -1,
        Direction::Decode,
    ));
    if all_symbols(s) {
        lemma_affine_round_trip(s, -1, -1);
    }
}

/// A multiplier of 2 shares the factor 2 with 26: the affine cipher refuses it
/// on every text, whatever the offset and direction.
pub proof fn lemma_even_multiplier_refused(s: Seq<char>, b: int, direction: Direction)
    ensures
        affine_outcome(s, 2, b, direction) == Err::<Seq<char>, Seq<char>>(
            "Value for a(2) is not coprime with 26"@,
        ),
{
    reveal_with_fuel(gcd_nat, 3);
    reveal_strlit("Value for a(2) is not coprime with 26");
    reveal_strlit("Value for a(");
    reveal_strlit(") is not coprime with 26");
    assert(!coprime26(2));
    assert(digits(2) == seq!['2']);
    assert(not_coprime_message(2) =~= "Value for a(2) is not coprime with 26"@);
}

} // verus!
