//! Post-link size optimizer for WebAssembly modules: compresses a module's
//! initialized linear-memory data and grafts a decompressor into the module so
//! that the original memory image is rebuilt at instantiation time.

use vstd::prelude::*;

pub mod encode;
pub mod err;
pub mod info;
pub mod leb;
pub mod plan;
pub mod prologue;
pub mod renumber;
pub mod scan;
pub mod unpacker;
pub mod sections;

use crate::unpacker::is_unpacker_module;

verus! {

/// Size of the working linear-memory window: one WebAssembly page.
pub const MEM_SIZE: i32 = 0x10000;

/// Low end of memory reserved for the decompressor's probability contexts:
/// the standard upkr format uses (1 + 255) literal contexts, 1 match context,
/// and 64 + 64 length/offset contexts, one byte each.
pub const CONTEXT_SIZE: i32 = 385;

/// Where the packed bytes live at instantiation time.
pub const COMPRESSED_DATA_OFFSET: i32 = CONTEXT_SIZE;

/// Where the decompressor's probability context state lives.
pub const CONTEXT_OFFSET: i32 = 0;

/// Memory-mapped register defaults of the target host environment.
pub const PALETTE_OFFSET: i32 = 4;

pub const PALETTE_DEFAULT_0: i64 = 0x0086c06c_00e0f8cf;

pub const PALETTE_DEFAULT_1: i64 = 0x00071821_00306850;

pub const DRAW_COLORS_OFFSET: i32 = 0x14;

pub const DRAW_COLORS_DEFAULT: i32 = 0x1203;

pub const MOUSE_XY_OFFSET: i32 = 0x1a;

pub const MOUSE_XY_DEFAULT: i32 = 0x7fff7fff;

/// The whole rewrite, minus the I/O: scan the input module, merge its data
/// segments, pack them, and when packing is both profitable and feasible,
/// re-encode the module with the decompressor grafted in. The returned flag
/// says whether compression was applied; when it was not, the returned bytes
/// are the input unchanged, and when it was, they are strictly smaller than
/// the input and are the re-encoding of the mitigated input with a packed
/// First pass: fold every section's facts into a fresh builder.
fn scan_sections(input: &Vec<u8>, secs: &Vec<sections::Section>) -> (r: Result<
    info::RelevantInfoBuilder,
    err::SqueezeError,
>)
    requires
        forall|j: int|
            0 <= j < secs@.len() ==> (#[trigger] secs@[j]).payload_start <= secs@[j].payload_end
                <= input@.len(),
    ensures
        match r {
            Ok(_b) => true,
            Err(e) => e != err::SqueezeError::NoData,
        },
{
    let mut builder = info::RelevantInfoBuilder::new();
    let n = secs.len();
    let mut k: usize = 0;
    while k < n
        invariant
            k <= n,
            n == secs@.len(),
            forall|j: int|
                0 <= j < n ==> (#[trigger] secs@[j]).payload_start <= secs@[j].payload_end
                    <= input@.len(),
        decreases n - k,
    {
        let sec = secs[k];
        match builder.add_section(input, &sec) {
            Ok(()) => {},
            Err(e) => {
                return Err(e);
            },
        }
        k = k + 1;
    }
    Ok(builder)
}

/// payload the planner accepted.
#[verifier::rlimit(100)]
pub fn squeeze_module(input: &Vec<u8>, unpacker_bytes: &Vec<u8>, level: u8) -> (r: Result<
    (Vec<u8>, bool),
    err::SqueezeError,
>)
    ensures
        match r {
            Ok((out, applied)) => {
                &&& (!applied ==> out@ == input@)
                &&& (applied ==> out@.len() < input@.len())
                &&& (applied ==> is_unpacker_module(unpacker_bytes@))
                &&& (applied ==> exists|
                    rel: info::RelevantInfo,
                    unp: unpacker::UnpackerComponents,
                    mr: Option<(usize, usize)>,
                |
                    {
                        &&& #[trigger] encode::spec_reencode(
                            info::mitigated(input@, mr),
                            rel,
                            unp,
                            plan::packed_of(rel.data.data@, level),
                        ) == Some(out@)
                        &&& unpacker::unp_matches(unpacker_bytes@, unp)
                        &&& plan::plan_accepts(
                            rel.data.offset as int,
                            rel.data.data@.len() as int,
                            plan::packed_of(rel.data.data@, level).len() as int,
                        )
                    })
            },
            Err(e) => e != err::SqueezeError::NoData,
        },
{
    let secs = sections::split_sections(input)?;
    let ghost sseq = sections::sections_from(input@, 8).unwrap();
    proof {
        sections::lemma_sections_wf(input@, 8);
        assert(sections::spec_sections(input@) == Some(secs@));
        assert(sections::sections_from(input@, 8) == Some(secs@));
        assert(sseq == secs@);
        assert forall|j: int|
            0 <= j < secs@.len() implies (#[trigger] secs@[j]).payload_start
            <= secs@[j].payload_end <= input@.len() by {
            assert(8 <= sseq[j].header_start);
            assert(sseq[j].payload_start <= sseq[j].payload_end <= input@.len());
        }
    }
    let builder = match scan_sections(input, &secs) {
        Ok(b) => b,
        Err(e) => {
            return Err(e);
        },
    };
    let (relevant, mitigated) = match builder.build(input) {
        Ok(x) => x,
        Err(e) => {
            match e {
                err::SqueezeError::NoData => {
                    // nothing to compress: pass the input through unchanged
                    return Ok((info::copy_vec(input), false));
                },
                _ => {
                    return Err(e);
                },
            }
        },
    };
    let unp = unpacker::UnpackerComponents::parse(unpacker_bytes)?;
    let packed = match plan::plan(&relevant.data, level) {
        Some(p) => p,
        None => {
            // unprofitable or infeasible: pass the input through unchanged
            return Ok((info::copy_vec(input), false));
        },
    };
    let out = encode::reencode_with_unpacker(&mitigated, &relevant, &unp, &packed)?;
    if out.len() < input.len() {
        proof {
            assert(unpacker::unp_matches(unpacker_bytes@, unp));
            let ghost wrel = relevant;
            let ghost wunp = unp;
            let ghost wmr = builder.data_count_range;
            assert(plan::plan_accepts(
                wrel.data.offset as int,
                wrel.data.data@.len() as int,
                plan::packed_of(wrel.data.data@, level).len() as int,
            ));
            assert(encode::spec_reencode(
                info::mitigated(input@, wmr),
                wrel,
                wunp,
                plan::packed_of(wrel.data.data@, level),
            ) == Some(out@));
            assert(unpacker::unp_matches(unpacker_bytes@, wunp));
        }
        Ok((out, true))
    } else {
        // the rewrite did not reduce the size: pass the input through
        Ok((info::copy_vec(input), false))
    }
}

} // verus!
