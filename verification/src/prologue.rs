//! The prologue instruction sequence: call the decompressor, relocate the
//! reconstructed image, zero-fill everything outside the original data
//! window, and install the host environment's memory-mapped register
//! defaults.

use vstd::prelude::*;

use crate::leb::{sleb, uleb, write_sleb, write_uleb};
use crate::{CONTEXT_OFFSET, COMPRESSED_DATA_OFFSET, DRAW_COLORS_DEFAULT, DRAW_COLORS_OFFSET,
    MEM_SIZE, MOUSE_XY_DEFAULT, MOUSE_XY_OFFSET, PALETTE_DEFAULT_0, PALETTE_DEFAULT_1,
    PALETTE_OFFSET};

verus! {

/// An `i32.const v` instruction.
pub open spec fn i32c(v: int) -> Seq<u8> {
    seq![0x41u8] + sleb(v)
}

/// An `i64.const v` instruction.
pub open spec fn i64c(v: int) -> Seq<u8> {
    seq![0x42u8] + sleb(v)
}

/// A `call f` instruction.
pub open spec fn callb(f: nat) -> Seq<u8> {
    seq![0x10u8] + uleb(f)
}

/// Call the decompressor and drop its result.
pub open spec fn prologue_unpack_part(unpack_fn_idx: nat, dest: int) -> Seq<u8> {
    i32c(CONTEXT_OFFSET as int) + i32c(dest) + i32c(COMPRESSED_DATA_OFFSET as int) + callb(
        unpack_fn_idx,
    ) + seq![0x1au8]
}

/// Copy the reconstructed image down to its original place.
pub open spec fn prologue_move_part(data_offset: int, dest: int, data_len: int) -> Seq<u8> {
    i32c(data_offset) + i32c(dest) + i32c(data_len) + seq![0xfcu8, 0x0au8, 0x00u8, 0x00u8]
}

/// Zero-fill below and above the original data window.
pub open spec fn prologue_fill_part(data_offset: int, end: int) -> Seq<u8> {
    i32c(0) + i32c(0) + i32c(data_offset) + seq![0xfcu8, 0x0bu8, 0x00u8] + i32c(end) + i32c(0)
        + i32c(MEM_SIZE - end) + seq![0xfcu8, 0x0bu8, 0x00u8]
}

/// Install the host environment's register defaults.
pub open spec fn prologue_regs_part() -> Seq<u8> {
    i32c(PALETTE_OFFSET as int) + i64c(PALETTE_DEFAULT_0 as int) + seq![0x37u8, 0x02u8, 0x00u8]
        + i32c(PALETTE_OFFSET + 8) + i64c(PALETTE_DEFAULT_1 as int) + seq![0x37u8, 0x02u8, 0x00u8]
        + i32c(DRAW_COLORS_OFFSET as int) + i32c(DRAW_COLORS_DEFAULT as int) + seq![
        0x3bu8,
        0x01u8,
        0x00u8,
    ] + i32c(MOUSE_XY_OFFSET as int) + i32c(MOUSE_XY_DEFAULT as int) + seq![0x36u8, 0x01u8, 0x00u8]
}

/// The whole prologue for a module whose merged image of `data_len` bytes
/// originally lives at `data_offset`: unpack to the top of the window, copy
/// down, zero-fill both sides, set the register defaults.
pub open spec fn spec_prologue(unpack_fn_idx: nat, data_offset: int, data_len: int) -> Seq<u8> {
    let dest = MEM_SIZE - data_len;
    let end = data_offset + data_len;
    prologue_unpack_part(unpack_fn_idx, dest) + prologue_move_part(data_offset, dest, data_len)
        + prologue_fill_part(data_offset, end) + prologue_regs_part()
}

/// Append an `i32.const` instruction.
pub(crate) fn w_i32c(out: &mut Vec<u8>, v: i32)
    ensures
        final(out)@ == old(out)@ + i32c(v as int),
{
    out.push(0x41);
    write_sleb(out, v as i64);
    assert(final(out)@ =~= old(out)@ + i32c(v as int));
}

/// Append an `i64.const` instruction.
fn w_i64c(out: &mut Vec<u8>, v: i64)
    ensures
        final(out)@ == old(out)@ + i64c(v as int),
{
    out.push(0x42);
    write_sleb(out, v);
    assert(final(out)@ =~= old(out)@ + i64c(v as int));
}

/// Append the prologue instruction sequence.
#[verifier::rlimit(100)]
pub fn prologue_bytes(out: &mut Vec<u8>, unpack_fn_idx: u32, data_offset: i32, data_len: u32)
    requires
        0 <= data_offset,
        data_offset + data_len <= MEM_SIZE,
    ensures
        final(out)@ == old(out)@ + spec_prologue(
            unpack_fn_idx as nat,
            data_offset as int,
            data_len as int,
        ),
{
    let dest: i32 = MEM_SIZE - data_len as i32;
    let end: i32 = data_offset + data_len as i32;
    let ghost s0 = out@;

    w_i32c(out, CONTEXT_OFFSET);
    w_i32c(out, dest);
    w_i32c(out, COMPRESSED_DATA_OFFSET);
    out.push(0x10);
    write_uleb(out, unpack_fn_idx as u64);
    out.push(0x1a);
    proof {
        assert(out@ =~= s0 + prologue_unpack_part(unpack_fn_idx as nat, dest as int));
    }
    let ghost s1 = out@;

    w_i32c(out, data_offset);
    w_i32c(out, dest);
    w_i32c(out, data_len as i32);
    out.push(0xfc);
    out.push(0x0a);
    out.push(0x00);
    out.push(0x00);
    proof {
        assert(out@ =~= s1 + prologue_move_part(data_offset as int, dest as int, data_len as int));
    }
    let ghost s2 = out@;

    w_i32c(out, 0);
    w_i32c(out, 0);
    w_i32c(out, data_offset);
    out.push(0xfc);
    out.push(0x0b);
    out.push(0x00);

    w_i32c(out, end);
    w_i32c(out, 0);
    w_i32c(out, MEM_SIZE - end);
    out.push(0xfc);
    out.push(0x0b);
    out.push(0x00);
    proof {
        assert(out@ =~= s2 + prologue_fill_part(data_offset as int, end as int));
    }
    let ghost s3 = out@;

    w_i32c(out, PALETTE_OFFSET);
    w_i64c(out, PALETTE_DEFAULT_0);
    out.push(0x37);
    out.push(0x02);
    out.push(0x00);

    w_i32c(out, PALETTE_OFFSET + 8);
    w_i64c(out, PALETTE_DEFAULT_1);
    out.push(0x37);
    out.push(0x02);
    out.push(0x00);

    w_i32c(out, DRAW_COLORS_OFFSET);
    w_i32c(out, DRAW_COLORS_DEFAULT);
    out.push(0x3b);
    out.push(0x01);
    out.push(0x00);

    w_i32c(out, MOUSE_XY_OFFSET);
    w_i32c(out, MOUSE_XY_DEFAULT);
    out.push(0x36);
    out.push(0x01);
    out.push(0x00);
    proof {
        assert(out@ =~= s3 + prologue_regs_part());
        assert(out@ =~= s0 + spec_prologue(
            unpack_fn_idx as nat,
            data_offset as int,
            data_len as int,
        ));
    }
}

} // verus!
