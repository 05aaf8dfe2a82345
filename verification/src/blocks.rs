//! Alignment to the 2880-byte FITS block boundary.
//!
//! Every FITS header and data unit occupies a whole number of blocks; a
//! writer pads the tail of a unit with fill bytes and a reader skips the
//! same amount.

use vstd::prelude::*;

verus! {

/// Number of bytes in one FITS block.
pub const FITS_BLOCK_SIZE: usize = 2880;

/// Bytes of padding that carry `n` bytes of payload to the next block
/// boundary.
pub open spec fn spec_block_padding(n: nat) -> nat {
    ((2880 - (n % 2880)) % 2880) as nat
}

/// Padding to append after writing `current_bytes_written` bytes so that the
/// total is a whole number of blocks.
pub fn pad_write(current_bytes_written: usize) -> (r: usize)
    ensures
        r == spec_block_padding(current_bytes_written as nat),
        (current_bytes_written + r) % 2880 == 0,
        r < 2880,
{
    let rem = current_bytes_written % 2880;
    if rem == 0 {
        0
    } else {
        2880 - rem
    }
}

/// Bytes a reader must skip after consuming `current_bytes_read` bytes to
/// stand on the next block boundary.
pub fn skip_read(current_bytes_read: usize) -> (r: usize)
    ensures
        r == spec_block_padding(current_bytes_read as nat),
        (current_bytes_read + r) % 2880 == 0,
        r < 2880,
{
    pad_write(current_bytes_read)
}


/// `n` copies of the fill byte `b`.
pub open spec fn spec_fill(n: nat, b: u8) -> Seq<u8> {
    Seq::new(n, |i: int| b)
}

/// Appends fill bytes to carry the buffer to the next block boundary.
///
/// Header blocks fill with ASCII space, data blocks with zero; the
/// caller picks the byte.
pub fn pad_buffer_to_fits_block(buffer: &mut Vec<u8>, fill: u8)
    requires
        old(buffer)@.len() + 2880 <= usize::MAX,
    ensures
        final(buffer)@ == old(buffer)@ + spec_fill(
            spec_block_padding(old(buffer)@.len()),
            fill,
        ),
        final(buffer)@.len() % 2880 == 0,
{
    let n = buffer.len();
    let pad = pad_write(n);
    let ghost b0 = buffer@;
    let mut i: usize = 0;
    while i < pad
        invariant
            i <= pad,
            buffer@ =~= b0 + spec_fill(i as nat, fill),
        decreases pad - i,
    {
        buffer.push(fill);
        proof {
            assert(buffer@ =~= b0 + spec_fill((i + 1) as nat, fill));
        }
        i += 1;
    }
    proof {
        assert(buffer@.len() == n + spec_block_padding(n as nat));
    }
}

} // verus!
