//! Checks on a weight file of the move-ordering network.
//!
//! The file is one 16-byte little-endian header (`u32` magic `0x4E4E5441`,
//! ASCII "ATNN", then six `u16` fields: version, input, accumulator,
//! hidden, policy, flags), followed by six float32 tensors in the order
//! `W_1 [128][768]`, `b_1 [128]`, `W_2 [32][256]`, `b_2 [32]`,
//! `W_3 [4096][32]`, `b_3 [4096]`: 967,312 bytes, no padding. A file is
//! refused for a wrong magic, version or dimension, nonzero flags, or a
//! size that disagrees with the header. Reading the floats is left to the
//! caller.

use vstd::prelude::*;

use crate::nn::features::{ACCUMULATOR_DIM, HIDDEN_DIM, INPUT_DIM, POLICY_SIZE};
use crate::proof_tree::binary::{read16, read32, spec_read16, spec_read32};

verus! {

#[verifier::external_type_specification]
#[verifier::external_body]
pub struct ExIoError(std::io::Error);

/// File magic: `0x4E4E5441`, bytes `41 54 4E 4E`.
pub const MAGIC: u32 = 0x4E4E_5441;

/// Weight-file format version.
pub const VERSION: u16 = 1;

/// Header size in bytes: one `u32` and six `u16`.
pub const HEADER_SIZE: usize = 16;

/// Total file size for the pinned architecture.
pub const TOTAL_SIZE: usize = 967_312;

/// Everything that can go wrong while loading a weight file.
#[derive(Debug)]
pub enum WeightsError {
    Io(std::io::Error),
    /// Fewer than `HEADER_SIZE` bytes.
    TooShortForHeader(usize),
    BadMagic { got: u32 },
    BadVersion { got: u16 },
    BadDimension { field: &'static str, got: u16 },
    BadFlags { got: u16 },
    SizeMismatch { got: usize, expected: usize },
}

/// The dimension fields of the header: their offsets and expected values.
pub open spec fn spec_dim_offset(k: int) -> int {
    6 + 2 * k
}

pub open spec fn spec_expected_dim(k: int) -> u16 {
    if k == 0 {
        INPUT_DIM as u16
    } else if k == 1 {
        ACCUMULATOR_DIM as u16
    } else if k == 2 {
        HIDDEN_DIM as u16
    } else {
        POLICY_SIZE as u16
    }
}

/// The dimension fields before the `k`-th all hold their expected value.
pub open spec fn spec_dims_ok_before(b: Seq<u8>, k: int) -> bool {
    forall|j: int| 0 <= j < k ==> #[trigger] spec_read16(b, spec_dim_offset(j)) == spec_expected_dim(j)
}

/// The header of `b` is accepted: size, magic, version, dimensions, flags.
pub open spec fn spec_header_ok(b: Seq<u8>) -> bool {
    &&& b.len() >= HEADER_SIZE
    &&& spec_read32(b, 0) == MAGIC
    &&& spec_read16(b, 4) == VERSION
    &&& spec_dims_ok_before(b, 4)
    &&& spec_read16(b, 14) == 0
}

/// The names of the dimension fields.
pub open spec fn spec_dim_name(k: int) -> Seq<char> {
    if k == 0 {
        "input"@
    } else if k == 1 {
        "accumulator"@
    } else if k == 2 {
        "hidden"@
    } else {
        "policy"@
    }
}

fn dim_name(k: usize) -> (r: &'static str)
    requires
        k < 4,
    ensures
        r@ == spec_dim_name(k as int),
{
    if k == 0 {
        "input"
    } else if k == 1 {
        "accumulator"
    } else if k == 2 {
        "hidden"
    } else {
        "policy"
    }
}

fn expected_dim(k: usize) -> (r: u16)
    requires
        k < 4,
    ensures
        r == spec_expected_dim(k as int),
{
    if k == 0 {
        768
    } else if k == 1 {
        128
    } else if k == 2 {
        32
    } else {
        4096
    }
}

/// Check a weight-file image before its tensors are read: `Ok` exactly when
/// the header is accepted and the size is `TOTAL_SIZE`; otherwise the first
/// check that fails, in the order size, magic, version, the four
/// dimensions, flags, total size.
pub fn check_weights_image(bytes: &[u8]) -> (r: Result<(), WeightsError>)
    ensures
        r is Ok <==> spec_header_ok(bytes@) && bytes.len() == TOTAL_SIZE,
        bytes.len() < HEADER_SIZE ==> r == Err::<(), WeightsError>(WeightsError::TooShortForHeader(bytes.len())),
        bytes.len() >= HEADER_SIZE && spec_read32(bytes@, 0) != MAGIC ==> r == Err::<(), WeightsError>(
            WeightsError::BadMagic { got: spec_read32(bytes@, 0) },
        ),
        bytes.len() >= HEADER_SIZE && spec_read32(bytes@, 0) == MAGIC && spec_read16(bytes@, 4) != VERSION ==> r == Err::<
            (),
            WeightsError,
        >(WeightsError::BadVersion { got: spec_read16(bytes@, 4) }),
        forall|k: int|
            0 <= k < 4 && bytes.len() >= HEADER_SIZE && spec_read32(bytes@, 0) == MAGIC && spec_read16(bytes@, 4) == VERSION
                && spec_dims_ok_before(bytes@, k) && #[trigger] spec_read16(bytes@, spec_dim_offset(k)) != spec_expected_dim(k)
                ==> (r matches Err(WeightsError::BadDimension { field, got }) && field@ == spec_dim_name(k) && got
                == spec_read16(bytes@, spec_dim_offset(k))),
        bytes.len() >= HEADER_SIZE && spec_read32(bytes@, 0) == MAGIC && spec_read16(bytes@, 4) == VERSION
            && spec_dims_ok_before(bytes@, 4) && spec_read16(bytes@, 14) != 0 ==> r == Err::<(), WeightsError>(
            WeightsError::BadFlags { got: spec_read16(bytes@, 14) },
        ),
        spec_header_ok(bytes@) && bytes.len() != TOTAL_SIZE ==> r == Err::<(), WeightsError>(
            WeightsError::SizeMismatch { got: bytes.len(), expected: TOTAL_SIZE },
        ),
{
    if bytes.len() < HEADER_SIZE {
        return Err(WeightsError::TooShortForHeader(bytes.len()));
    }
    let magic = read32(bytes, 0);
    if magic != MAGIC {
        return Err(WeightsError::BadMagic { got: magic });
    }
    let version = read16(bytes, 4);
    if version != VERSION {
        return Err(WeightsError::BadVersion { got: version });
    }
    let mut k: usize = 0;
    while k < 4
        invariant
            k <= 4,
            bytes.len() >= HEADER_SIZE,
            spec_read32(bytes@, 0) == MAGIC,
            spec_read16(bytes@, 4) == VERSION,
            spec_dims_ok_before(bytes@, k as int),
        decreases 4 - k,
    {
        let got = read16(bytes, 6 + 2 * k);
        if got != expected_dim(k) {
            proof {
                assert(spec_read16(bytes@, spec_dim_offset(k as int)) != spec_expected_dim(k as int));
                assert forall|j: int| 0 <= j < 4 && j != k implies !(spec_dims_ok_before(bytes@, j)
                    && #[trigger] spec_read16(bytes@, spec_dim_offset(j)) != spec_expected_dim(j)) by {
                    if j > k {
                        assert(!spec_dims_ok_before(bytes@, j)) by {
                            assert(spec_read16(bytes@, spec_dim_offset(k as int)) != spec_expected_dim(k as int));
                        }
                    }
                }
            }
            return Err(WeightsError::BadDimension { field: dim_name(k), got });
        }
        proof {
            assert forall|j: int| 0 <= j < k + 1 implies #[trigger] spec_read16(bytes@, spec_dim_offset(j)) == spec_expected_dim(j) by {
                if j < k {
                    assert(spec_dims_ok_before(bytes@, k as int));
                }
            }
        }
        k += 1;
    }
    let flags = read16(bytes, 14);
    if flags != 0 {
        return Err(WeightsError::BadFlags { got: flags });
    }
    if bytes.len() != TOTAL_SIZE {
        return Err(WeightsError::SizeMismatch { got: bytes.len(), expected: TOTAL_SIZE });
    }
    Ok(())
}

} // verus!
