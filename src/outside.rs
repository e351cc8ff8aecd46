use vstd::prelude::*;

use rand::Rng;
use vstd::utf8::{decode_utf8, valid_utf8};

verus! {

/// Relies on `time::get_time`: the wall-clock time, of which the whole seconds
/// since the Unix epoch are kept. Nothing is promised of the value.
#[verifier::external_body]
pub(crate) fn clock_seconds() -> (r: i64) {
    time::get_time().sec
}

/// Relies on `rand::Rng::gen_range` over `rand::thread_rng`: a value drawn
/// uniformly from `0..bound`. An empty range panics, so `bound` is positive.
#[verifier::external_body]
pub(crate) fn draw_below(bound: u32) -> (r: u32)
    requires
        bound > 0,
    ensures
        r < bound,
{
    rand::thread_rng().gen_range(0..bound)
}

/// Relies on `std::str::from_utf8`: it accepts exactly the well-formed UTF-8
/// byte sequences, and then yields the text they encode, here copied into a
/// `String`.
#[verifier::external_body]
pub(crate) fn utf8_text(bytes: &Vec<u8>) -> (r: Option<String>)
    ensures
        r is Some <==> valid_utf8(bytes@),
        r matches Some(s) ==> s@ == decode_utf8(bytes@),
{
    match std::str::from_utf8(bytes) {
        Ok(s) => Some(s.to_owned()),
        Err(_) => None,
    }
}

} // verus!
