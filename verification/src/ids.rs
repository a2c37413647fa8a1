//! Short random identifiers for availabilities, tables and sessions.
use rand::Rng;
use vstd::prelude::*;

use crate::text::push_char;

verus! {

/// The number of characters an identifier may use.
pub const ALPHABET_LEN: usize = 36;

/// The length of an identifier.
pub const ID_LEN: usize = 8;

/// The `i`-th character of the alphabet `abcdefghijklmnopqrstuvwxyz0123456789`.
pub open spec fn alphabet_char(i: int) -> char {
    if i < 26 {
        (97 + i) as char
    } else {
        (48 + i - 26) as char
    }
}

/// A character of the identifier alphabet.
pub open spec fn is_id_char(c: char) -> bool {
    exists|i: int| 0 <= i < 36 && c == #[trigger] alphabet_char(i)
}

/// rand: `thread_rng().gen_range(0..bound)`, a uniformly drawn index. Claimed:
/// it is below `bound`; nothing else, since it is random.
#[verifier::external_body]
fn random_index(bound: usize) -> (i: usize)
    requires
        bound > 0,
    ensures
        i < bound,
{
    rand::thread_rng().gen_range(0..bound)
}

/// The `i`-th character of the identifier alphabet.
fn alphabet_at(i: usize) -> (c: char)
    requires
        i < ALPHABET_LEN,
    ensures
        c == alphabet_char(i as int),
{
    if i < 26 {
        ((97 + i) as u8) as char
    } else {
        ((48 + i - 26) as u8) as char
    }
}

/// A random identifier of eight lowercase ASCII letters and digits.
pub fn short_id() -> (id: String)
    ensures
        id@.len() == ID_LEN,
        forall|k: int| 0 <= k < id@.len() ==> is_id_char(#[trigger] id@[k]),
{
    let mut id = String::new();
    let mut n: usize = 0;
    while n < ID_LEN
        invariant
            n <= ID_LEN,
            id@.len() == n,
            forall|k: int| 0 <= k < id@.len() ==> is_id_char(#[trigger] id@[k]),
        decreases ID_LEN - n,
    {
        let i = random_index(ALPHABET_LEN);
        let c = alphabet_at(i);
        assert(is_id_char(c));
        push_char(&mut id, c);
        n = n + 1;
    }
    id
}

} // verus!
