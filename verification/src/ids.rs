//! Row ids: random positive 63-bit numbers. Callers retry on a
//! unique-constraint collision.
use vstd::prelude::*;

verus! {

/// `rand::random::<u64>()`: a uniformly random number.
#[verifier::external_body]
fn random_u64() -> u64 {
    rand::random::<u64>()
}

/// The id a random draw gives: its low 63 bits, unless they are all zero.
pub open spec fn id_from_of(v: u64) -> Option<i64> {
    let masked = v & 0x7FFF_FFFF_FFFF_FFFFu64;
    if masked != 0 {
        Some(masked as i64)
    } else {
        None
    }
}

pub fn id_from(v: u64) -> (r: Option<i64>)
    ensures
        r == id_from_of(v),
        r matches Some(id) ==> id > 0,
{
    let masked = v & 0x7FFF_FFFF_FFFF_FFFFu64;
    assert(masked <= 0x7FFF_FFFF_FFFF_FFFFu64) by (bit_vector)
        requires
            masked == v & 0x7FFF_FFFF_FFFF_FFFFu64,
    ;
    if masked != 0 {
        Some(masked as i64)
    } else {
        None
    }
}

/// A random positive 63-bit id, drawn again while a draw gives none. After
/// `u64::MAX` draws that all give none, which does not happen, it is 1.
pub fn new_id() -> (id: i64)
    ensures
        id > 0,
{
    let mut tries: u64 = u64::MAX;
    while tries > 0
        decreases tries,
    {
        match id_from(random_u64()) {
            Some(id) => {
                return id;
            },
            None => {},
        }
        tries = tries - 1;
    }
    1
}

} // verus!
