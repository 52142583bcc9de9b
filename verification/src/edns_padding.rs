//! How much EDNS padding a DNS message needs so that its length is a multiple of the block
//! size.

use vstd::prelude::*;

verus! {

/// Messages are padded to a multiple of this many bytes.
pub const BLOCK_SIZE: usize = 128;

/// Bytes of an EDNS option besides its payload: its code and its length.
pub const OPTION_OVERHEAD: usize = 4;

/// Bytes of an OPT record without options.
pub const EDNS_OVERHEAD: usize = 11;

/// The EDNS state of a message: no OPT record, an OPT record without a padding option, or one
/// whose padding option carries this many bytes.
pub open spec fn valid_message(len: int, edns: Option<Option<usize>>) -> bool {
    &&& len + BLOCK_SIZE <= usize::MAX
    &&& match edns {
        Some(Some(p)) => p + OPTION_OVERHEAD <= len,
        _ => true,
    }
}

/// The payload length of the padding option that is set, as the padding stream computes it.
pub open spec fn spec_missing_padding(len: int, edns: Option<Option<usize>>) -> int {
    let padded = (len + BLOCK_SIZE - 1) / (BLOCK_SIZE as int) * BLOCK_SIZE;
    let m0 = padded - len;
    let m1 = if m0 < OPTION_OVERHEAD { m0 + BLOCK_SIZE } else { m0 };
    let m2 = m1 - OPTION_OVERHEAD;
    match edns {
        None => {
            let m3 = if m2 < EDNS_OVERHEAD { m2 + BLOCK_SIZE } else { m2 };
            m3 - EDNS_OVERHEAD
        },
        Some(None) => m2,
        Some(Some(p)) => (m2 + OPTION_OVERHEAD + p) % (BLOCK_SIZE as int),
    }
}

/// The length of the message after the padding option with `padding` bytes replaced its
/// padding option, or was added (with an OPT record where there was none).
pub open spec fn padded_length(len: int, edns: Option<Option<usize>>, padding: int) -> int {
    match edns {
        None => len + EDNS_OVERHEAD + OPTION_OVERHEAD + padding,
        Some(None) => len + OPTION_OVERHEAD + padding,
        Some(Some(p)) => len - (OPTION_OVERHEAD + p) + OPTION_OVERHEAD + padding,
    }
}

/// The payload length of the padding option to set in a DNS message of `len` bytes with the
/// EDNS state `edns` (see [`valid_message`]): the message then has a length that is a multiple
/// of [`BLOCK_SIZE`].
pub fn missing_padding(len: usize, edns: Option<Option<usize>>) -> (r: usize)
    requires
        valid_message(len as int, edns),
    ensures
        r == spec_missing_padding(len as int, edns),
        r < BLOCK_SIZE,
        padded_length(len as int, edns, r as int) % (BLOCK_SIZE as int) == 0,
{
    proof {
        lemma_padded_to_block(len, edns);
    }
    let padded_len = (len + BLOCK_SIZE - 1) / BLOCK_SIZE * BLOCK_SIZE;
    let mut missing = padded_len - len;
    if missing < OPTION_OVERHEAD {
        missing = missing + BLOCK_SIZE;
    }
    missing = missing - OPTION_OVERHEAD;
    match edns {
        None => {
            if missing < EDNS_OVERHEAD {
                missing = missing + BLOCK_SIZE;
            }
            missing = missing - EDNS_OVERHEAD;
        },
        Some(None) => {},
        Some(Some(p)) => {
            missing = missing + OPTION_OVERHEAD + p;
            missing = missing % BLOCK_SIZE;
        },
    }
    missing
}

/// Whatever the EDNS state, the padded message has a length that is a multiple of the block
/// size, and the padding is shorter than a block.
pub proof fn lemma_padded_to_block(len: usize, edns: Option<Option<usize>>)
    requires
        valid_message(len as int, edns),
    ensures
        0 <= spec_missing_padding(len as int, edns) < BLOCK_SIZE,
        padded_length(len as int, edns, spec_missing_padding(len as int, edns)) % (BLOCK_SIZE as int) == 0,
{
    let padded = (len + BLOCK_SIZE - 1) / (BLOCK_SIZE as int) * BLOCK_SIZE;
    assert(len <= padded < len + BLOCK_SIZE && padded % 128 == 0) by (nonlinear_arith)
        requires
            padded == (len + BLOCK_SIZE - 1) / (BLOCK_SIZE as int) * BLOCK_SIZE,
            BLOCK_SIZE == 128,
    ;
}

/// Padding is idempotent: a message that was padded gets the same padding option again.
pub proof fn lemma_padding_idempotent(len: usize, edns: Option<Option<usize>>)
    requires
        valid_message(len as int, edns),
        valid_message(
            padded_length(len as int, edns, spec_missing_padding(len as int, edns)),
            Some(Some(spec_missing_padding(len as int, edns) as usize)),
        ),
    ensures
        ({
            let r = spec_missing_padding(len as int, edns);
            spec_missing_padding(padded_length(len as int, edns, r), Some(Some(r as usize))) == r
        }),
{
    lemma_padded_to_block(len, edns);
    let r = spec_missing_padding(len as int, edns);
    let l2 = padded_length(len as int, edns, r);
    assert((l2 + BLOCK_SIZE - 1) / (BLOCK_SIZE as int) * BLOCK_SIZE == l2) by (nonlinear_arith)
        requires
            l2 % 128 == 0,
            l2 >= 0,
            BLOCK_SIZE == 128,
    ;
}

} // verus!
