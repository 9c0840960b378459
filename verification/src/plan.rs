//! The compression planner: invoke the external packer, then decide whether
//! rewriting is profitable (packed strictly smaller) and feasible (context
//! state, packed bytes and reconstruction destination all fit in the one-page
//! working window at once).

use vstd::prelude::*;

use crate::info::Data;
use crate::{CONTEXT_SIZE, MEM_SIZE};

verus! {

/// What the packer returns for given bytes and level: upkr is deterministic,
/// so this is a function of its arguments alone. (Its parse search scores
/// candidates with platform math-library floating point, so cross-machine
/// agreement rests on those libraries rounding alike; within a process the
/// result is fixed.)
pub uninterp spec fn packed_of(data: Seq<u8>, level: u8) -> Seq<u8>;

/// Relies on upkr::pack with the standard format configuration
/// (`Config::default()`) and no progress callback: a deterministic
/// compressor whose output depends on the input bytes and the level alone.
/// The packer builds a suffix array that requires inputs shorter than 2 GiB;
/// the bound here keeps the call far below that, inside the one-page window
/// the planner works with.
#[verifier::external_body]
fn pack_upkr(data: &Vec<u8>, level: u8) -> (r: Vec<u8>)
    requires
        data@.len() <= 0x10000,
    ensures
        r@ == packed_of(data@, level),
{
    upkr::pack(data, level, &upkr::Config::default(), None)
}

/// When rewriting goes ahead: the packed payload must be a net saving, and
/// decompression must fit the context state, the packed bytes and the
/// reconstructed image in the working window, with the image itself inside
/// the window.
pub open spec fn plan_accepts(data_offset: int, data_len: int, packed_len: int) -> bool {
    &&& packed_len < data_len
    &&& packed_len + CONTEXT_SIZE + data_len <= MEM_SIZE
    &&& 0 <= data_offset
    &&& data_offset + data_len <= MEM_SIZE
}

/// Memory-budget feasibility: whenever the planner accepts, the packed bytes
/// end below the reconstruction destination, so the context state, the
/// packed payload and the rebuilt image coexist in the working window, and
/// the image's own window lies inside the page.
pub proof fn lemma_plan_feasible(data_offset: int, data_len: int, packed_len: int)
    requires
        plan_accepts(data_offset, data_len, packed_len),
    ensures
        CONTEXT_SIZE + packed_len <= MEM_SIZE - data_len,
        packed_len + CONTEXT_SIZE + data_len <= MEM_SIZE,
        0 <= data_offset && data_offset + data_len <= MEM_SIZE,
        packed_len < data_len,
{
}

/// Pack the merged image and decide: the packed payload when rewriting is
/// profitable and feasible, nothing otherwise.
pub fn plan(data: &Data<Vec<u8>>, level: u8) -> (r: Option<Vec<u8>>)
    ensures
        match r {
            Some(p) => {
                &&& p@ == packed_of(data.data@, level)
                &&& plan_accepts(data.offset as int, data.data@.len() as int, p@.len() as int)
            },
            None => !plan_accepts(
                data.offset as int,
                data.data@.len() as int,
                packed_of(data.data@, level).len() as int,
            ),
        },
{
    let len = data.data.len();
    if data.offset < 0 {
        return None;
    }
    if len > MEM_SIZE as usize || (data.offset as usize) > MEM_SIZE as usize - len {
        return None;
    }
    let packed = pack_upkr(&data.data, level);
    if packed.len() >= len {
        return None;
    }
    if packed.len() + (CONTEXT_SIZE as usize) + len > MEM_SIZE as usize {
        return None;
    }
    Some(packed)
}

} // verus!
