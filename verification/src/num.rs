//! Rendering integers as minimal decimal digits: no leading zeros, a
//! leading `-` exactly when the value is negative.

use vstd::prelude::*;

use crate::encoding::{dec_digits, dec_int};

verus! {

/// Append the decimal digits of `v` to `out`.
pub fn write_dec_u64(out: &mut Vec<u8>, v: u64)
    ensures
        final(out)@ == old(out)@ + dec_digits(v as nat),
    decreases v,
{
    if v < 10 {
        out.push(48 + (v as u8));
        assert(final(out)@ =~= old(out)@ + dec_digits(v as nat));
    } else {
        write_dec_u64(out, v / 10);
        out.push(48 + ((v % 10) as u8));
        assert(final(out)@ =~= old(out)@ + dec_digits(v as nat));
    }
}

/// Append the decimal form of `v` to `out`, with a leading `-` when
/// negative.
pub fn write_dec_i64(out: &mut Vec<u8>, v: i64)
    ensures
        final(out)@ == old(out)@ + dec_int(v as int),
{
    if v >= 0 {
        write_dec_u64(out, v as u64);
    } else {
        out.push(45);
        let magnitude: u64 = (-(v as i128)) as u64;
        assert(magnitude as nat == (-(v as int)) as nat);
        write_dec_u64(out, magnitude);
        assert(final(out)@ =~= old(out)@ + dec_int(v as int));
    }
}

} // verus!
