use crate::substitution_ciphers::{affine_cipher, affine_text, all_symbols, outcome_view};
use vstd::prelude::*;
use vstd::string::StringExecFns;

pub use crate::substitution_ciphers::Direction;

verus! {

/// The Caesar cipher on text known to hold only letters and spaces: every
/// letter moves `offset` places along the alphabet (back when decoding) and
/// comes out lower case; spaces stay.
pub fn caeser_cipher(text: &str, offset: i32, direction: Direction) -> (r: String)
    requires
        all_symbols(text@),
    ensures
        r@ == affine_text(text@, 1, offset as int, direction),
{
    proof {
        crate::modular::lemma_unit_keys();
    }
    let result = affine_cipher(String::from_str(text), 1, offset, direction);
    match result {
        Ok(t) => t,
        Err(_) => {
            proof {
                assert(outcome_view(result) is Ok);
            }
            String::new()
        },
    }
}

} // verus!
