//! Record ids: 128-bit values from a time-ordered generator, kept strictly
//! increasing by the store.
use vstd::prelude::*;

verus! {

/// Relies on `scru128::new`: a fresh id from the process-wide generator,
/// as its 128-bit value.
#[verifier::external_body]
pub(crate) fn clock_id() -> (r: u128) {
    scru128::new().to_u128()
}

/// The id to issue after `last` when the generator offers `candidate`: the
/// candidate if it sorts after `last`, else the value right after `last`,
/// and none when `last` is the greatest value.
pub open spec fn id_after(last: Option<u128>, candidate: u128) -> Option<u128> {
    match last {
        None => Some(candidate),
        Some(l) => if candidate > l {
            Some(candidate)
        } else if l < u128::MAX {
            Some((l + 1) as u128)
        } else {
            None
        },
    }
}

/// Decides `id_after`.
pub fn next_id(last: Option<u128>, candidate: u128) -> (r: Option<u128>)
    ensures
        r == id_after(last, candidate),
        r is None <==> last == Some(u128::MAX),
        r matches Some(id) ==> (last matches Some(l) ==> id > l),
{
    match last {
        None => Some(candidate),
        Some(l) => if candidate > l {
            Some(candidate)
        } else if l < u128::MAX {
            Some(l + 1)
        } else {
            None
        },
    }
}

} // verus!
