//! Catalog ids: opaque, globally unique, server-generated text.

use vstd::prelude::*;

verus! {

/// The identifier of a movie in the catalog.
pub type MovieId = String;

/// Whether a character is a lowercase hexadecimal digit.
pub open spec fn is_lower_hex_digit(c: char) -> bool {
    (('0' as u32) <= (c as u32) && (c as u32) <= ('9' as u32)) || (('a' as u32) <= (c as u32) && (
    c as u32) <= ('f' as u32))
}

/// Generates and returns a new random movie ID.
///
/// Relies on `uuid::Uuid::new_v4` and its `Display` rendering
/// (`format_hyphenated`): a random version-4 UUID printed in the hyphenated
/// form, which is 36 characters with `-` at positions 8, 13, 18 and 23 and
/// a lowercase hexadecimal digit everywhere else. The value is random, so
/// nothing more is promised of it; distinctness of two calls is
/// probabilistic, and the catalog assumes ids never collide. `new_v4` can
/// panic only if the operating system's random source fails — an
/// environmental condition, not one an input could exclude.
#[verifier::external_body]
pub fn generate_movie_id() -> (r: MovieId)
    ensures
        r@.len() == 36,
        r@[8] == '-',
        r@[13] == '-',
        r@[18] == '-',
        r@[23] == '-',
        forall|i: int|
            0 <= i < 36 && i != 8 && i != 13 && i != 18 && i != 23 ==> is_lower_hex_digit(
                #[trigger] r@[i],
            ),
{
    uuid::Uuid::new_v4().to_string()
}

} // verus!
