use ciphers::modular::{are_coprime, modular_inverse};
use ciphers::substitution_ciphers::{
    affine_cipher, atbash_cipher, caeser_cipher, rot_13_cipher, Direction,
};

#[test]
fn substitution_ciphers_caeser_cipher_with_offset_lt_26() {
    let input = "abcdef";
    let encoded = caeser_cipher(input.to_string(), 1, Direction::Encode);
    let decoded = caeser_cipher(encoded.clone().ok().unwrap().to_string(), 1, Direction::Decode);
    assert_eq!(encoded, Ok("bcdefg".to_string()));
    assert_eq!(decoded, Ok(input.to_string()));
}

#[test]
fn caeser_cipher_with_offset_gt_26() {
    let input = "abcdef";
    let encoded = caeser_cipher(input.to_string(), 27, Direction::Encode);
    let decoded = caeser_cipher(encoded.clone().ok().unwrap(), 27, Direction::Decode);
    assert_eq!(encoded, Ok("bcdefg".to_string()));
    assert_eq!(decoded, Ok(input.to_string()));
}

#[test]
fn rot_13_cipher_typical() {
    let input = "abcdef";
    let encoded = rot_13_cipher(input.to_string(), Direction::Encode);
    let decoded = rot_13_cipher(encoded.clone().ok().unwrap(), Direction::Decode);
    assert_eq!(encoded, Ok("nopqrs".to_string()));
    assert_eq!(decoded, Ok(input.to_string()));
}

#[test]
fn caeser_cipher_handles_looping() {
    let input = "xyz";
    let encoded = caeser_cipher(input.to_string(), 3, Direction::Encode);
    let decoded = caeser_cipher(encoded.clone().ok().unwrap(), 3, Direction::Decode);
    assert_eq!(encoded, Ok("abc".to_string()));
    assert_eq!(decoded, Ok(input.to_string()));
}

#[test]
fn caeser_cipher_preserves_spaces() {
    let input = "xyz abc";
    let encoded = caeser_cipher(input.to_string(), 3, Direction::Encode);
    let decoded = caeser_cipher(encoded.clone().ok().unwrap(), 3, Direction::Decode);
    assert_eq!(encoded, Ok("abc def".to_string()));
    assert_eq!(decoded, Ok(input.to_string()));
}

#[test]
fn atbash_cipher_decode_and_encode() {
    let input = "abcdef";
    let encoded = atbash_cipher(input.to_string(), Direction::Encode);
    let decoded = atbash_cipher(encoded.clone().ok().unwrap(), Direction::Decode);
    assert_eq!(encoded, Ok("zyxwvu".to_string()));
    assert_eq!(decoded, Ok(input.to_string()));
}

#[test]
fn atbash_cipher_preserves_spaces() {
    let input = "abc def";
    let encoded = atbash_cipher(input.to_string(), Direction::Encode);
    let decoded = atbash_cipher(encoded.clone().ok().unwrap(), Direction::Decode);
    assert_eq!(encoded, Ok("zyx wvu".to_string()));
    assert_eq!(decoded, Ok(input.to_string()));
}

#[test]
fn affine_cipher_fails_when_coprime_constraint_violated() {
    let input = "abc def";
    let encoded = affine_cipher(input.to_string(), 2, 0, Direction::Encode);
    assert!(encoded.is_err());
    assert_eq!(encoded, Err(String::from("Value for a(2) is not coprime with 26")));
}

#[test]
fn caesar_round_trip_lowercases() {
    let input = "The Quick Brown Fox";
    for k in [-53, -26, -1, 0, 5, 26, 40, 1000] {
        let encoded = caeser_cipher(input.to_string(), k, Direction::Encode).unwrap();
        let decoded = caeser_cipher(encoded, k, Direction::Decode);
        assert_eq!(decoded, Ok("the quick brown fox".to_string()));
    }
}

#[test]
fn caesar_offset_counts_modulo_26() {
    let input = "attack at dawn";
    for k in [-79i32, -27, -1, 27, 53, 1000] {
        let reduced = k.rem_euclid(26);
        assert_eq!(
            caeser_cipher(input.to_string(), k, Direction::Encode),
            caeser_cipher(input.to_string(), reduced, Direction::Encode)
        );
    }
    assert_eq!(
        caeser_cipher("abc".to_string(), -1, Direction::Encode),
        Ok("zab".to_string())
    );
}

#[test]
fn spaces_stay_in_place() {
    let input = " a  b c ";
    let out = affine_cipher(input.to_string(), 5, 8, Direction::Encode).unwrap();
    assert_eq!(out, " i  n s ");
    let out = atbash_cipher(input.to_string(), Direction::Decode).unwrap();
    assert_eq!(out, " z  y x ");
    let out = rot_13_cipher("  ".to_string(), Direction::Encode).unwrap();
    assert_eq!(out, "  ");
}

#[test]
fn atbash_is_self_inverse() {
    let input = "Wizard Of Oz";
    let enc = atbash_cipher(input.to_string(), Direction::Encode);
    let dec = atbash_cipher(input.to_string(), Direction::Decode);
    assert_eq!(enc, dec);
    assert_eq!(enc, Ok("draziw lu la".to_string()));
    let back = atbash_cipher(enc.unwrap(), Direction::Decode);
    assert_eq!(back, Ok("wizard of oz".to_string()));
}

#[test]
fn even_multiplier_refused_for_any_text() {
    for text in ["", "abc", "hello world", "1234"] {
        assert_eq!(
            affine_cipher(text.to_string(), 2, 7, Direction::Decode),
            Err("Value for a(2) is not coprime with 26".to_string())
        );
    }
}

#[test]
fn affine_known_values() {
    let enc = affine_cipher("affine cipher".to_string(), 5, 8, Direction::Encode);
    assert_eq!(enc, Ok("ihhwvc swfrcp".to_string()));
    let dec = affine_cipher(enc.unwrap(), 5, 8, Direction::Decode);
    assert_eq!(dec, Ok("affine cipher".to_string()));
    let enc = affine_cipher("abc".to_string(), -3, -40, Direction::Encode);
    assert_eq!(enc, Ok("mjg".to_string()));
    let dec = affine_cipher("mjg".to_string(), -3, -40, Direction::Decode);
    assert_eq!(dec, Ok("abc".to_string()));
}

#[test]
fn rot_13_is_self_inverse() {
    let enc = rot_13_cipher("Hello World".to_string(), Direction::Encode);
    assert_eq!(enc, Ok("uryyb jbeyq".to_string()));
    assert_eq!(rot_13_cipher("uryyb jbeyq".to_string(), Direction::Encode), Ok("hello world".to_string()));
}

#[test]
fn non_coprime_messages() {
    assert_eq!(
        affine_cipher("abc".to_string(), 13, 0, Direction::Encode),
        Err("Value for a(13) is not coprime with 26".to_string())
    );
    assert_eq!(
        affine_cipher("abc".to_string(), -13, 0, Direction::Encode),
        Err("Value for a(-13) is not coprime with 26".to_string())
    );
    assert_eq!(
        affine_cipher("abc".to_string(), 0, 0, Direction::Encode),
        Err("Value for a(0) is not coprime with 26".to_string())
    );
    assert_eq!(
        affine_cipher("abc".to_string(), i32::MIN, 0, Direction::Encode),
        Err("Value for a(-2147483648) is not coprime with 26".to_string())
    );
}

#[test]
fn invalid_character_refused() {
    assert_eq!(
        caeser_cipher("abc1 def!".to_string(), 3, Direction::Encode),
        Err("Character '1' is not a letter or a space".to_string())
    );
    assert_eq!(
        atbash_cipher("caf\u{e9}".to_string(), Direction::Decode),
        Err("Character '\u{e9}' is not a letter or a space".to_string())
    );
    // the key is checked before the text
    assert_eq!(
        affine_cipher("1".to_string(), 4, 0, Direction::Encode),
        Err("Value for a(4) is not coprime with 26".to_string())
    );
}

#[test]
fn empty_text() {
    assert_eq!(caeser_cipher(String::new(), 3, Direction::Encode), Ok(String::new()));
    assert_eq!(atbash_cipher(String::new(), Direction::Decode), Ok(String::new()));
}

#[test]
fn inverse_times_multiplier_is_one() {
    let mut units = 0;
    for a in -60i32..60 {
        let coprime = a % 2 != 0 && a % 13 != 0;
        assert_eq!(are_coprime(a, 26), coprime);
        match modular_inverse(a) {
            Some(i) => {
                assert!(coprime);
                assert!(i < 26);
                assert_eq!((a as i64 * i as i64).rem_euclid(26), 1);
                if (0..26).contains(&a) {
                    units += 1;
                }
            }
            None => assert!(!coprime),
        }
    }
    assert_eq!(units, 12);
    assert_eq!(modular_inverse(-1), Some(25));
    assert_eq!(modular_inverse(5), Some(21));
}

#[test]
fn coprime_ignores_sign() {
    assert!(are_coprime(-1, 26));
    assert!(are_coprime(7, -26));
    assert!(!are_coprime(-4, 26));
    assert!(!are_coprime(0, 26));
    assert!(are_coprime(i32::MIN + 1, 26));
}
