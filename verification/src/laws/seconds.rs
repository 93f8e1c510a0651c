//! Laws of points in time.
use vstd::prelude::*;

use crate::seconds::Seconds;

verus! {

/// The bits of a double stand for no number, or for an infinite one, where those of the
/// exponent are all set; for an infinite one where no other but the sign is.
pub proof fn law_bits_of_a_number(s: Seconds)
    ensures
        s.finite() <==> (s.bits as int / 0x10_0000_0000_0000) % 2048 != 2047,
        s.numeric() <==> s.finite() || s.bits as int % 0x10_0000_0000_0000 == 0,
{
}

} // verus!
