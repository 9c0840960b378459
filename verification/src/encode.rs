//! The second-pass streaming re-encoder: walk the mitigated input's sections
//! in order, copy through what the rewrite does not touch, splice the
//! decompressor's types, functions and bodies in at the right boundaries,
//! rewrite the data section to the packed payload, and wire the prologue as
//! the instantiation-time entry point.

use vstd::prelude::*;

use crate::err::SqueezeError;
use crate::info::{push_range, RelevantInfo};
use crate::leb::{leb_end, lemma_leb_end_bounds, read_uleb32, uleb, uleb_val, write_uleb};
use crate::prologue::{i32c, prologue_bytes, spec_prologue};
use crate::renumber::{locals_end, read_locals, rebody, spec_rebody};
use crate::scan::{payload_count, read_count, uleb32_end};
use crate::sections::{lemma_sections_wf, spec_sections, split_sections, Section};
use crate::unpacker::UnpackerComponents;
use crate::{COMPRESSED_DATA_OFFSET, MEM_SIZE};

verus! {

/// A byte string with its LEB128 length in front.
pub open spec fn sized(b: Seq<u8>) -> Seq<u8> {
    uleb(b.len()) + b
}

/// A whole section: id, payload size, payload.
pub open spec fn sec_bytes(id: u8, payload: Seq<u8>) -> Seq<u8> {
    seq![id] + uleb(payload.len()) + payload
}

/// The function-section entries of the decompressor, each type index
/// rebased.
pub open spec fn renum_entries(ts: Seq<u32>, tb: nat) -> Seq<u8>
    decreases ts.len(),
{
    if ts.len() == 0 {
        Seq::empty()
    } else {
        uleb((tb + ts[0]) as nat) + renum_entries(ts.drop_first(), tb)
    }
}

/// The decompressor's bodies, rewritten and size-prefixed.
pub open spec fn unp_bodies_out(bs: Seq<Vec<u8>>, tb: nat, fb: nat) -> Option<Seq<u8>>
    decreases bs.len(),
{
    if bs.len() == 0 {
        Some(Seq::empty())
    } else {
        match spec_rebody(bs[0]@, tb, fb) {
            None => None,
            Some(o) => match unp_bodies_out(bs.drop_first(), tb, fb) {
                None => None,
                Some(rest) => Some(sized(o) + rest),
            },
        }
    }
}

/// The host module's code bodies: each is copied verbatim, except that the
/// declared start function's body gets the prologue spliced in after its
/// locals. `splice` is the start function's index relative to the first
/// defined function; `i` the current body's relative index.
pub open spec fn host_code_out(
    s: Seq<u8>,
    pos: int,
    limit: int,
    n: nat,
    splice: Option<int>,
    i: int,
    pro: Seq<u8>,
) -> Option<Seq<u8>>
    decreases n,
{
    if n == 0 {
        if pos == limit {
            Some(Seq::empty())
        } else {
            None
        }
    } else {
        let ce = uleb32_end(s, pos, limit);
        if ce < 0 {
            None
        } else {
            let sz = uleb_val(s.subrange(pos, ce));
            if ce + sz > limit {
                None
            } else {
                let this = if splice == Some(i) {
                    let le = locals_end(s, ce, ce + sz);
                    if le < 0 {
                        None
                    } else {
                        Some(sized(s.subrange(ce, le) + pro + s.subrange(le, ce + sz)))
                    }
                } else {
                    Some(s.subrange(pos, ce + sz))
                };
                match this {
                    None => None,
                    Some(t) => match host_code_out(s, ce + sz, limit, (n - 1) as nat, splice, i + 1, pro) {
                        None => None,
                        Some(rest) => Some(t + rest),
                    },
                }
            }
        }
    }
}

/// The prologue of this rewrite: unpack the packed payload and rebuild the
/// image of `info.data`.
pub open spec fn pro_of(info: RelevantInfo, unp: UnpackerComponents) -> Seq<u8> {
    spec_prologue(
        (info.import_function_count + info.old_function_count + unp.unpack_fn_idx) as nat,
        info.data.offset as int,
        info.data.data@.len() as int,
    )
}

/// The start function index of the output: the input's own, or the appended
/// prologue function.
pub open spec fn new_start_of(info: RelevantInfo, unp: UnpackerComponents) -> int {
    match info.start_fn_idx {
        Some(f) => f as int,
        None => info.import_function_count + info.old_function_count + unp.func_types@.len(),
    }
}

/// The content of a fresh start function: no locals, the prologue, `end`.
pub open spec fn new_start_body(info: RelevantInfo, unp: UnpackerComponents) -> Seq<u8> {
    seq![0x00u8] + pro_of(info, unp) + seq![0x0bu8]
}

/// What one section of the mitigated input becomes in the output.
pub open spec fn section_out(
    s: Seq<u8>,
    sec: Section,
    info: RelevantInfo,
    unp: UnpackerComponents,
    packed: Seq<u8>,
) -> Option<Seq<u8>> {
    let ps = sec.payload_start as int;
    let pe = sec.payload_end as int;
    let tb = info.old_type_count as nat;
    let fb = (info.import_function_count + info.old_function_count) as nat;
    let ufc = unp.func_types@.len();
    if sec.id == 1 {
        match payload_count(s, ps, pe) {
            None => None,
            Some((c, is)) => {
                if c != info.old_type_count as nat {
                    None
                } else {
                    Some(
                        sec_bytes(
                            1,
                            uleb((tb + unp.type_count + 1) as nat) + s.subrange(is, pe)
                                + unp.type_items@ + seq![0x60u8, 0x00u8, 0x00u8],
                        ),
                    )
                }
            },
        }
    } else if sec.id == 3 {
        match payload_count(s, ps, pe) {
            None => None,
            Some((c, is)) => {
                if c != info.old_function_count as nat {
                    None
                } else {
                    let tail = if info.start_fn_idx is None {
                        uleb((tb + unp.type_count) as nat)
                    } else {
                        Seq::empty()
                    };
                    let cnt = info.old_function_count + ufc + (if info.start_fn_idx is None {
                        1int
                    } else {
                        0int
                    });
                    Some(
                        sec_bytes(
                            3,
                            uleb(cnt as nat) + s.subrange(is, pe) + renum_entries(
                                unp.func_types@,
                                tb,
                            ) + tail,
                        ),
                    )
                }
            },
        }
    } else if sec.id == 10 {
        match payload_count(s, ps, pe) {
            None => None,
            Some((c, is)) => {
                if c != info.old_function_count as nat {
                    None
                } else {
                    let splice = match info.start_fn_idx {
                        Some(f) => if f >= info.import_function_count {
                            Some(f - info.import_function_count)
                        } else {
                            None
                        },
                        None => None,
                    };
                    match host_code_out(s, is, pe, c, splice, 0, pro_of(info, unp)) {
                        None => None,
                        Some(host) => match unp_bodies_out(unp.bodies@, tb, fb) {
                            None => None,
                            Some(ub) => {
                                let tail = if info.start_fn_idx is None {
                                    sized(new_start_body(info, unp))
                                } else {
                                    Seq::empty()
                                };
                                let cnt = info.old_function_count + ufc + (
                                if info.start_fn_idx is None {
                                    1int
                                } else {
                                    0int
                                });
                                Some(sec_bytes(10, uleb(cnt as nat) + host + ub + tail))
                            },
                        },
                    }
                }
            },
        }
    } else if sec.id == 11 {
        Some(
            sec_bytes(
                11,
                uleb(1) + seq![0x00u8] + i32c(COMPRESSED_DATA_OFFSET as int) + seq![0x0bu8] + uleb(
                    packed.len(),
                ) + packed,
            ),
        )
    } else {
        Some(s.subrange(sec.header_start as int, sec.payload_end as int))
    }
}

/// The output bytes for the sections from index `k` on, with the new Start
/// section injected right after the Export section when the input has no
/// start function.
pub open spec fn spec_reencode_from(
    s: Seq<u8>,
    secs: Seq<Section>,
    k: int,
    info: RelevantInfo,
    unp: UnpackerComponents,
    packed: Seq<u8>,
) -> Option<Seq<u8>>
    decreases secs.len() - k,
{
    if k < 0 || k >= secs.len() {
        Some(Seq::empty())
    } else {
        match section_out(s, secs[k], info, unp, packed) {
            None => None,
            Some(o) => {
                let inject = if secs[k].id == 7 && info.start_fn_idx is None {
                    sec_bytes(8, uleb(new_start_of(info, unp) as nat))
                } else {
                    Seq::empty()
                };
                match spec_reencode_from(s, secs, k + 1, info, unp, packed) {
                    None => None,
                    Some(rest) => Some(o + inject + rest),
                }
            },
        }
    }
}

/// The whole output module: the 8-byte header, then the transformed
/// sections. A decompressor whose rebased entry point or function count
/// cannot be numbered in 32 bits has no output.
#[verifier::opaque]
pub open spec fn spec_reencode(
    s: Seq<u8>,
    info: RelevantInfo,
    unp: UnpackerComponents,
    packed: Seq<u8>,
) -> Option<Seq<u8>> {
    if info.import_function_count + info.old_function_count + unp.unpack_fn_idx > u32::MAX
        || unp.func_types@.len() >= u32::MAX {
        None
    } else {
        match spec_sections(s) {
            None => None,
            Some(secs) => match spec_reencode_from(s, secs, 0, info, unp, packed) {
                None => None,
                Some(o) => Some(s.subrange(0, 8) + o),
            },
        }
    }
}

/// Data-count coherence: the rewritten data section declares exactly one
/// segment. Its count field is the single byte 1, matching what the
/// mitigated Data Count section reads.
pub proof fn lemma_output_data_count(
    s: Seq<u8>,
    sec: Section,
    info: RelevantInfo,
    unp: UnpackerComponents,
    packed: Seq<u8>,
)
    requires
        sec.id == 11,
    ensures
        match section_out(s, sec, info, unp, packed) {
            Some(o) => exists|p: Seq<u8>|
                o == sec_bytes(11, p) && p.len() >= 1 && #[trigger] p[0] == 1u8 && leb_end(p, 0)
                    == 1 && uleb_val(p.subrange(0, 1)) == 1,
            None => true,
        },
{
    let p = uleb(1) + seq![0x00u8] + i32c(COMPRESSED_DATA_OFFSET as int) + seq![0x0bu8] + uleb(
        packed.len(),
    ) + packed;
    assert(uleb(1) == seq![1u8]);
    assert(p[0] == 1u8);
    assert(p.subrange(0, 1) =~= seq![1u8]);
    assert(p.subrange(0, 1).drop_first() =~= Seq::<u8>::empty());
    assert(uleb_val(Seq::<u8>::empty()) == 0);
    assert(uleb_val(p.subrange(0, 1)) == (p.subrange(0, 1)[0] % 128) as nat + 128 * uleb_val(
        p.subrange(0, 1).drop_first(),
    ));
    assert(uleb_val(p.subrange(0, 1)) == 1);
}

/// Index-space soundness of the combined module: every rebased decompressor
/// type index stays below the output's type count, every rebased function
/// index, the combined unpack entry point, and the new start function all
/// stay below the output's function-index-space size, and rebasing never
/// collides.
pub proof fn lemma_combined_index_spaces(
    info: RelevantInfo,
    unp: UnpackerComponents,
    t: int,
    f: int,
    t2: int,
    f2: int,
)
    requires
        unp.wf(),
        0 <= t < unp.type_count,
        0 <= f < unp.func_types@.len(),
        0 <= t2 < unp.type_count,
        0 <= f2 < unp.func_types@.len(),
    ensures
        info.old_type_count + t < info.old_type_count + unp.type_count + 1,
        info.import_function_count + info.old_function_count + f < info.import_function_count
            + info.old_function_count + unp.func_types@.len() + 1,
        info.import_function_count + info.old_function_count + unp.unpack_fn_idx
            < info.import_function_count + info.old_function_count + unp.func_types@.len(),
        new_start_of(info, unp) < info.import_function_count + info.old_function_count
            + unp.func_types@.len() + 1 || (info.start_fn_idx matches Some(g) && new_start_of(
            info,
            unp,
        ) == g),
        t2 != t ==> info.old_type_count + t != info.old_type_count + t2,
        f2 != f ==> info.import_function_count + info.old_function_count + f
            != info.import_function_count + info.old_function_count + f2,
{
}

/// Append a whole section: id, payload size, payload.
fn write_section(out: &mut Vec<u8>, id: u8, payload: &Vec<u8>)
    ensures
        final(out)@ == old(out)@ + sec_bytes(id, payload@),
{
    out.push(id);
    write_uleb(out, payload.len() as u64);
    push_range(out, payload, 0, payload.len());
    proof {
        assert(payload@.subrange(0, payload@.len() as int) =~= payload@);
        assert(final(out)@ =~= old(out)@ + sec_bytes(id, payload@));
    }
}

/// Emit the transformed type section: the input's types, the decompressor's
/// types, and the synthesized `() -> ()` type.
fn emit_type_section(
    out: &mut Vec<u8>,
    m: &Vec<u8>,
    sec: &Section,
    info: &RelevantInfo,
    unp: &UnpackerComponents,
    packed: &Vec<u8>,
) -> (r: Result<(), SqueezeError>)
    requires
        sec.payload_start <= sec.payload_end <= m@.len(),
        sec.id == 1,
    ensures
        match r {
            Ok(()) => match section_out(m@, *sec, *info, *unp, packed@) {
                Some(o) => final(out)@ == old(out)@ + o,
                None => false,
            },
            Err(e) => (e == SqueezeError::Parse || e == SqueezeError::Encode) && final(out)@ == old(
                out,
            )@ && section_out(m@, *sec, *info, *unp, packed@) is None,
        },
{
    let (c, is) = read_count(m, sec)?;
    if c != info.old_type_count {
        return Err(SqueezeError::Encode);
    }
    let total: u64 = info.old_type_count as u64 + unp.type_count as u64 + 1;
    let mut payload: Vec<u8> = Vec::new();
    write_uleb(&mut payload, total);
    push_range(&mut payload, m, is, sec.payload_end);
    push_range(&mut payload, &unp.type_items, 0, unp.type_items.len());
    payload.push(0x60);
    payload.push(0x00);
    payload.push(0x00);
    proof {
        assert(unp.type_items@.subrange(0, unp.type_items@.len() as int) =~= unp.type_items@);
        assert(payload@ =~= uleb(
            (info.old_type_count as nat + unp.type_count as nat + 1) as nat,
        ) + m@.subrange(is as int, sec.payload_end as int) + unp.type_items@ + seq![
            0x60u8,
            0x00u8,
            0x00u8,
        ]);
    }
    write_section(out, 1, &payload);
    Ok(())
}

/// Emit the transformed function section: the input's entries, the
/// decompressor's entries rebased, and, when a prologue function must be
/// appended, one entry with the synthesized type.
#[verifier::rlimit(100)]
fn emit_function_section(
    out: &mut Vec<u8>,
    m: &Vec<u8>,
    sec: &Section,
    info: &RelevantInfo,
    unp: &UnpackerComponents,
    packed: &Vec<u8>,
) -> (r: Result<(), SqueezeError>)
    requires
        sec.payload_start <= sec.payload_end <= m@.len(),
        sec.id == 3,
        info.wf(),
        unp.func_types@.len() < u32::MAX,
    ensures
        match r {
            Ok(()) => match section_out(m@, *sec, *info, *unp, packed@) {
                Some(o) => final(out)@ == old(out)@ + o,
                None => false,
            },
            Err(e) => (e == SqueezeError::Parse || e == SqueezeError::Encode) && final(out)@ == old(
                out,
            )@ && section_out(m@, *sec, *info, *unp, packed@) is None,
        },
{
    let (c, is) = read_count(m, sec)?;
    if c != info.old_function_count {
        return Err(SqueezeError::Encode);
    }
    let ufc: u64 = unp.func_types.len() as u64;
    let extra: u64 = if info.start_fn_idx.is_none() {
        1
    } else {
        0
    };
    let cnt: u64 = info.old_function_count as u64 + ufc + extra;
    let mut payload: Vec<u8> = Vec::new();
    write_uleb(&mut payload, cnt);
    push_range(&mut payload, m, is, sec.payload_end);
    let ghost base = payload@;
    let tb: u32 = info.old_type_count;
    let n = unp.func_types.len();
    let mut k: usize = 0;
    proof {
        assert(unp.func_types@.skip(0) =~= unp.func_types@);
        assert(payload@.skip(base.len() as int) =~= Seq::<u8>::empty());
        assert(Seq::<u8>::empty() + renum_entries(unp.func_types@, tb as nat) =~= renum_entries(
            unp.func_types@,
            tb as nat,
        ));
        assert(payload@.subrange(0, base.len() as int) =~= base);
    }
    loop
        invariant
            k <= n,
            n == unp.func_types@.len(),
            tb == info.old_type_count,
            payload@.len() >= base.len(),
            payload@.subrange(0, base.len() as int) == base,
            renum_entries(unp.func_types@, tb as nat) == payload@.skip(base.len() as int)
                + renum_entries(unp.func_types@.skip(k as int), tb as nat),
        ensures
            k == n,
            payload@ == base + renum_entries(unp.func_types@, tb as nat),
        decreases n - k,
    {
        if k == n {
            proof {
                assert(unp.func_types@.skip(k as int) =~= Seq::<u32>::empty());
                assert(renum_entries(Seq::<u32>::empty(), tb as nat) == Seq::<u8>::empty());
                assert(payload@.skip(base.len() as int) + Seq::<u8>::empty() =~= payload@.skip(
                    base.len() as int,
                ));
                assert(payload@ =~= base + payload@.skip(base.len() as int));
            }
            break;
        }
        let t: u32 = unp.func_types[k];
        let ghost pre = payload@;
        write_uleb(&mut payload, tb as u64 + t as u64);
        proof {
            let ts = unp.func_types@;
            assert(ts.skip(k as int)[0] == ts[k as int]);
            assert(ts.skip(k as int).drop_first() =~= ts.skip(k + 1));
            assert(renum_entries(ts.skip(k as int), tb as nat) == uleb((tb + ts[k as int]) as nat)
                + renum_entries(ts.skip(k + 1), tb as nat));
            assert(payload@.subrange(0, base.len() as int) =~= base);
            assert(payload@.skip(base.len() as int) =~= pre.skip(base.len() as int) + uleb(
                (tb + t) as nat,
            ));
        }
        k = k + 1;
    }
    if info.start_fn_idx.is_none() {
        write_uleb(&mut payload, info.old_type_count as u64 + unp.type_count as u64);
    }
    proof {
        let tail = if info.start_fn_idx is None {
            uleb((info.old_type_count as nat + unp.type_count as nat) as nat)
        } else {
            Seq::<u8>::empty()
        };
        assert(payload@ =~= uleb(cnt as nat) + m@.subrange(is as int, sec.payload_end as int)
            + renum_entries(unp.func_types@, tb as nat) + tail);
    }
    write_section(out, 3, &payload);
    Ok(())
}

/// Emit the transformed data section: exactly one active segment holding the
/// packed payload at its fixed offset.
fn emit_data_section(out: &mut Vec<u8>, packed: &Vec<u8>)
    ensures
        final(out)@ == old(out)@ + sec_bytes(
            11,
            uleb(1) + seq![0x00u8] + i32c(COMPRESSED_DATA_OFFSET as int) + seq![0x0bu8] + uleb(
                packed@.len(),
            ) + packed@,
        ),
{
    let mut payload: Vec<u8> = Vec::new();
    write_uleb(&mut payload, 1);
    payload.push(0x00);
    crate::prologue::w_i32c(&mut payload, COMPRESSED_DATA_OFFSET);
    payload.push(0x0b);
    write_uleb(&mut payload, packed.len() as u64);
    push_range(&mut payload, packed, 0, packed.len());
    proof {
        assert(packed@.subrange(0, packed@.len() as int) =~= packed@);
        assert(payload@ =~= uleb(1) + seq![0x00u8] + i32c(COMPRESSED_DATA_OFFSET as int) + seq![
            0x0bu8,
        ] + uleb(packed@.len()) + packed@);
    }
    write_section(out, 11, &payload);
}

/// Emit the transformed code section: the input's bodies (the start
/// function's body, if any, with the prologue spliced in), then the
/// decompressor's bodies rebased, then, when the input had no start
/// function, a fresh body holding only the prologue.
#[verifier::rlimit(100)]
fn emit_code_section(
    out: &mut Vec<u8>,
    m: &Vec<u8>,
    sec: &Section,
    info: &RelevantInfo,
    unp: &UnpackerComponents,
    packed: &Vec<u8>,
    unpack_c: u32,
) -> (r: Result<(), SqueezeError>)
    requires
        sec.payload_start <= sec.payload_end <= m@.len(),
        sec.id == 10,
        info.wf(),
        unp.func_types@.len() < u32::MAX,
        0 <= info.data.offset,
        info.data.offset + info.data.data@.len() <= MEM_SIZE,
        unpack_c == info.import_function_count + info.old_function_count + unp.unpack_fn_idx,
    ensures
        match r {
            Ok(()) => match section_out(m@, *sec, *info, *unp, packed@) {
                Some(o) => final(out)@ == old(out)@ + o,
                None => false,
            },
            Err(e) => (e == SqueezeError::Parse || e == SqueezeError::Unsupported || e
                == SqueezeError::Encode) && final(out)@ == old(out)@ && section_out(
                m@,
                *sec,
                *info,
                *unp,
                packed@,
            ) is None,
        },
{
    let (cc, is) = read_count(m, sec)?;
    if cc != info.old_function_count {
        return Err(SqueezeError::Encode);
    }
    let ufc: u64 = unp.func_types.len() as u64;
    let extra: u64 = if info.start_fn_idx.is_none() {
        1
    } else {
        0
    };
    let cnt: u64 = info.old_function_count as u64 + ufc + extra;
    let mut payload: Vec<u8> = Vec::new();
    write_uleb(&mut payload, cnt);
    let ghost base0 = payload@;
    let pe = sec.payload_end;
    let mut pos: usize = is;
    let mut i: u32 = 0;
    let ghost splice: Option<int> = (match info.start_fn_idx {
        Some(f) => if f >= info.import_function_count {
            Some((f - info.import_function_count) as int)
        } else {
            None
        },
        None => None,
    });
    let ghost pro = pro_of(*info, *unp);
    proof {
        assert(payload@.skip(base0.len() as int) =~= Seq::<u8>::empty());
        assert(payload@.subrange(0, base0.len() as int) =~= base0);
        match host_code_out(m@, is as int, pe as int, cc as nat, splice, 0, pro) {
            Some(rest) => {
                assert(Seq::<u8>::empty() + rest =~= rest);
            },
            None => {},
        }
    }
    loop
        invariant
            i <= cc,
            is <= pos <= pe <= m@.len(),
            cc == info.old_function_count,
            sec.id == 10,
            pe == sec.payload_end,
            payload_count(m@, sec.payload_start as int, sec.payload_end as int) == Some(
                (cc as nat, is as int),
            ),
            info.wf(),
            unp.func_types@.len() < u32::MAX,
            0 <= info.data.offset,
            info.data.offset + info.data.data@.len() <= MEM_SIZE,
            unpack_c == info.import_function_count + info.old_function_count + unp.unpack_fn_idx,
            splice == (match info.start_fn_idx {
                Some(f) => if f >= info.import_function_count {
                    Some((f - info.import_function_count) as int)
                } else {
                    None
                },
                None => None,
            }),
            pro == pro_of(*info, *unp),
            payload@.len() >= base0.len(),
            payload@.subrange(0, base0.len() as int) == base0,
            (host_code_out(m@, is as int, pe as int, cc as nat, splice, 0, pro) is Some
                <==> host_code_out(
                m@,
                pos as int,
                pe as int,
                (cc - i) as nat,
                splice,
                i as int,
                pro,
            ) is Some),
            host_code_out(m@, pos as int, pe as int, (cc - i) as nat, splice, i as int, pro)
                matches Some(rest) ==> host_code_out(
                m@,
                is as int,
                pe as int,
                cc as nat,
                splice,
                0,
                pro,
            ) == Some(payload@.skip(base0.len() as int) + rest),
        ensures
            i == cc,
            payload@.len() >= base0.len(),
            payload@.subrange(0, base0.len() as int) == base0,
            (host_code_out(m@, is as int, pe as int, cc as nat, splice, 0, pro) is Some
                <==> host_code_out(
                m@,
                pos as int,
                pe as int,
                0,
                splice,
                i as int,
                pro,
            ) is Some),
            pos == pe ==> host_code_out(m@, is as int, pe as int, cc as nat, splice, 0, pro)
                == Some(payload@.skip(base0.len() as int)),
            pos != pe ==> host_code_out(m@, is as int, pe as int, cc as nat, splice, 0, pro)
                is None,
        decreases cc - i,
    {
        if i == cc {
            proof {
                if pos == pe {
                    assert(host_code_out(m@, pos as int, pe as int, 0, splice, i as int, pro)
                        == Some(Seq::<u8>::empty()));
                    assert(payload@.skip(base0.len() as int) + Seq::<u8>::empty() =~= payload@.skip(
                        base0.len() as int,
                    ));
                } else {
                    assert(host_code_out(m@, pos as int, pe as int, 0, splice, i as int, pro)
                        is None);
                }
            }
            break;
        }
        let (sz, ce) = match read_uleb32(m, pos) {
            Ok(x) => x,
            Err(_) => {
                proof {
                    if leb_end(m@, pos as int) >= 0 {
                        lemma_leb_end_bounds(m@, pos as int);
                    }
                    assert(host_code_out(
                        m@,
                        pos as int,
                        pe as int,
                        (cc - i) as nat,
                        splice,
                        i as int,
                        pro,
                    ) is None);
                    assert(section_out(m@, *sec, *info, *unp, packed@) is None);
                }
                return Err(SqueezeError::Parse);
            },
        };
        if ce > pe || (sz as usize) > pe - ce {
            proof {
                assert(host_code_out(
                    m@,
                    pos as int,
                    pe as int,
                    (cc - i) as nat,
                    splice,
                    i as int,
                    pro,
                ) is None);
                assert(section_out(m@, *sec, *info, *unp, packed@) is None);
            }
            return Err(SqueezeError::Parse);
        }
        let bend = ce + sz as usize;
        let is_splice: bool = match info.start_fn_idx {
            Some(f) => f >= info.import_function_count && f - info.import_function_count == i,
            None => false,
        };
        assert(is_splice <==> splice == Some(i as int));
        let ghost prev = payload@;
        if is_splice {
            let le = match read_locals(m, ce, bend) {
                Ok(le) => le,
                Err(e) => {
                    proof {
                        assert(host_code_out(
                            m@,
                            pos as int,
                            pe as int,
                            (cc - i) as nat,
                            splice,
                            i as int,
                            pro,
                        ) is None);
                        assert(section_out(m@, *sec, *info, *unp, packed@) is None);
                    }
                    return Err(e);
                },
            };
            let mut content: Vec<u8> = Vec::new();
            push_range(&mut content, m, ce, le);
            prologue_bytes(
                &mut content,
                unpack_c,
                info.data.offset,
                info.data.data.len() as u32,
            );
            push_range(&mut content, m, le, bend);
            proof {
                assert(content@ =~= m@.subrange(ce as int, le as int) + pro + m@.subrange(
                    le as int,
                    bend as int,
                ));
            }
            write_uleb(&mut payload, content.len() as u64);
            push_range(&mut payload, &content, 0, content.len());
            proof {
                assert(content@.subrange(0, content@.len() as int) =~= content@);
                assert(payload@ =~= prev + sized(content@));
            }
        } else {
            push_range(&mut payload, m, pos, bend);
        }
        proof {
            let n = (cc - i) as nat;
            match host_code_out(m@, bend as int, pe as int, (n - 1) as nat, splice, i + 1, pro) {
                Some(rest) => {
                    let t = if splice == Some(i as int) {
                        sized(
                            m@.subrange(ce as int, locals_end(m@, ce as int, bend as int)) + pro
                                + m@.subrange(
                                locals_end(m@, ce as int, bend as int),
                                bend as int,
                            ),
                        )
                    } else {
                        m@.subrange(pos as int, bend as int)
                    };
                    assert(host_code_out(m@, pos as int, pe as int, n, splice, i as int, pro)
                        == Some(t + rest));
                    assert(payload@.skip(base0.len() as int) =~= prev.skip(base0.len() as int)
                        + t);
                    assert(prev.skip(base0.len() as int) + (t + rest) =~= (prev.skip(
                        base0.len() as int,
                    ) + t) + rest);
                },
                None => {},
            }
            assert(payload@.subrange(0, base0.len() as int) =~= base0);
        }
        pos = bend;
        i = i + 1;
    }
    if pos != pe {
        proof {
            assert(section_out(m@, *sec, *info, *unp, packed@) is None);
        }
        return Err(SqueezeError::Parse);
    }
    let ghost host = payload@.skip(base0.len() as int);
    let ghost base1 = payload@;
    let tb: u32 = info.old_type_count;
    let fb: u32 = info.import_function_count + info.old_function_count;
    let nb = unp.bodies.len();
    let mut j: usize = 0;
    proof {
        assert(unp.bodies@.skip(0) =~= unp.bodies@);
        assert(payload@.skip(base1.len() as int) =~= Seq::<u8>::empty());
        assert(payload@.subrange(0, base1.len() as int) =~= base1);
        match unp_bodies_out(unp.bodies@, tb as nat, fb as nat) {
            Some(u) => {
                assert(Seq::<u8>::empty() + u =~= u);
            },
            None => {},
        }
    }
    loop
        invariant
            j <= nb,
            nb == unp.bodies@.len(),
            tb == info.old_type_count,
            fb == info.import_function_count + info.old_function_count,
            sec.id == 10,
            pe == sec.payload_end,
            cc == info.old_function_count,
            payload_count(m@, sec.payload_start as int, sec.payload_end as int) == Some(
                (cc as nat, is as int),
            ),
            splice == (match info.start_fn_idx {
                Some(f) => if f >= info.import_function_count {
                    Some((f - info.import_function_count) as int)
                } else {
                    None
                },
                None => None,
            }),
            pro == pro_of(*info, *unp),
            host_code_out(m@, is as int, pe as int, cc as nat, splice, 0, pro) is Some,
            payload@.len() >= base1.len(),
            payload@.subrange(0, base1.len() as int) == base1,
            (unp_bodies_out(unp.bodies@, tb as nat, fb as nat) is Some <==> unp_bodies_out(
                unp.bodies@.skip(j as int),
                tb as nat,
                fb as nat,
            ) is Some),
            unp_bodies_out(unp.bodies@.skip(j as int), tb as nat, fb as nat) matches Some(rest)
                ==> unp_bodies_out(unp.bodies@, tb as nat, fb as nat) == Some(
                payload@.skip(base1.len() as int) + rest,
            ),
        ensures
            j == nb,
            payload@.len() >= base1.len(),
            payload@.subrange(0, base1.len() as int) == base1,
            unp_bodies_out(unp.bodies@, tb as nat, fb as nat) == Some(
                payload@.skip(base1.len() as int),
            ),
        decreases nb - j,
    {
        if j == nb {
            proof {
                assert(unp.bodies@.skip(j as int) =~= Seq::<Vec<u8>>::empty());
                assert(unp_bodies_out(Seq::<Vec<u8>>::empty(), tb as nat, fb as nat) == Some(
                    Seq::<u8>::empty(),
                ));
                assert(payload@.skip(base1.len() as int) + Seq::<u8>::empty() =~= payload@.skip(
                    base1.len() as int,
                ));
            }
            break;
        }
        proof {
            assert(unp.bodies@.skip(j as int)[0] == unp.bodies@[j as int]);
            assert(unp.bodies@.skip(j as int).drop_first() =~= unp.bodies@.skip(j + 1));
        }
        let content = match rebody(&unp.bodies[j], tb, fb) {
            Ok(c) => c,
            Err(e) => {
                proof {
                    assert(unp_bodies_out(unp.bodies@.skip(j as int), tb as nat, fb as nat)
                        is None);
                    assert(unp_bodies_out(unp.bodies@, tb as nat, fb as nat) is None);
                    assert(section_out(m@, *sec, *info, *unp, packed@) is None);
                }
                return Err(e);
            },
        };
        let ghost prev = payload@;
        write_uleb(&mut payload, content.len() as u64);
        push_range(&mut payload, &content, 0, content.len());
        proof {
            assert(content@.subrange(0, content@.len() as int) =~= content@);
            assert(payload@ =~= prev + sized(content@));
            match unp_bodies_out(unp.bodies@.skip(j + 1), tb as nat, fb as nat) {
                Some(rest) => {
                    assert(unp_bodies_out(unp.bodies@.skip(j as int), tb as nat, fb as nat)
                        == Some(sized(content@) + rest));
                    assert(payload@.skip(base1.len() as int) =~= prev.skip(base1.len() as int)
                        + sized(content@));
                    assert(prev.skip(base1.len() as int) + (sized(content@) + rest) =~= (prev.skip(
                        base1.len() as int,
                    ) + sized(content@)) + rest);
                },
                None => {},
            }
            assert(payload@.subrange(0, base1.len() as int) =~= base1);
        }
        j = j + 1;
    }
    let ghost ub = payload@.skip(base1.len() as int);
    let ghost base2 = payload@;
    if info.start_fn_idx.is_none() {
        let mut content: Vec<u8> = Vec::new();
        content.push(0x00);
        prologue_bytes(&mut content, unpack_c, info.data.offset, info.data.data.len() as u32);
        content.push(0x0b);
        proof {
            assert(content@ =~= new_start_body(*info, *unp));
        }
        write_uleb(&mut payload, content.len() as u64);
        push_range(&mut payload, &content, 0, content.len());
        proof {
            assert(content@.subrange(0, content@.len() as int) =~= content@);
            assert(payload@ =~= base2 + sized(new_start_body(*info, *unp)));
        }
    }
    proof {
        let tail = if info.start_fn_idx is None {
            sized(new_start_body(*info, *unp))
        } else {
            Seq::<u8>::empty()
        };
        assert(base1 =~= base0 + host);
        assert(base2 =~= base1 + ub);
        assert(payload@ =~= uleb(cnt as nat) + host + ub + tail);
    }
    write_section(out, 10, &payload);
    Ok(())
}

/// Re-encode the mitigated input as the combined output module.
#[verifier::rlimit(100)]
pub fn reencode_with_unpacker(
    m: &Vec<u8>,
    info: &RelevantInfo,
    unp: &UnpackerComponents,
    packed: &Vec<u8>,
) -> (r: Result<Vec<u8>, SqueezeError>)
    requires
        info.wf(),
        unp.wf(),
        0 <= info.data.offset,
        info.data.offset + info.data.data@.len() <= MEM_SIZE,
    ensures
        match r {
            Ok(v) => spec_reencode(m@, *info, *unp, packed@) == Some(v@),
            Err(e) => (e == SqueezeError::Parse || e == SqueezeError::Unsupported || e
                == SqueezeError::Encode) && spec_reencode(m@, *info, *unp, packed@) is None,
        },
{
    let secs = match split_sections(m) {
        Ok(s) => s,
        Err(_) => {
            proof {
                reveal(crate::encode::spec_reencode);
            }
            return Err(SqueezeError::Parse);
        },
    };
    proof {
        lemma_sections_wf(m@, 8);
    }
    if unp.func_types.len() >= u32::MAX as usize {
        proof {
            reveal(crate::encode::spec_reencode);
        }
        return Err(SqueezeError::Encode);
    }
    let fb: u32 = info.import_function_count + info.old_function_count;
    let unpack_c: u32 = match fb.checked_add(unp.unpack_fn_idx) {
        Some(x) => x,
        None => {
            proof {
                reveal(crate::encode::spec_reencode);
            }
            return Err(SqueezeError::Encode);
        },
    };
    let new_start: u64 = match info.start_fn_idx {
        Some(f) => f as u64,
        None => fb as u64 + unp.func_types.len() as u64,
    };
    let mut out: Vec<u8> = Vec::new();
    push_range(&mut out, m, 0, 8);
    let ghost sseq = spec_sections(m@).unwrap();
    let n = secs.len();
    let mut k: usize = 0;
    proof {
        assert(out@ =~= m@.subrange(0, 8));
        assert(out@.skip(8) =~= Seq::<u8>::empty());
        match spec_reencode_from(m@, sseq, 0, *info, *unp, packed@) {
            Some(rest) => {
                assert(Seq::<u8>::empty() + rest =~= rest);
            },
            None => {},
        }
    }
    loop
        invariant
            k <= n,
            n == sseq.len(),
            spec_sections(m@) == Some(sseq),
            secs@ == sseq,
            m@.len() >= 8,
            info.wf(),
            unp.wf(),
            unp.func_types@.len() < u32::MAX,
            0 <= info.data.offset,
            info.data.offset + info.data.data@.len() <= MEM_SIZE,
            fb == info.import_function_count + info.old_function_count,
            unpack_c == info.import_function_count + info.old_function_count + unp.unpack_fn_idx,
            new_start == new_start_of(*info, *unp),
            forall|j: int|
                0 <= j < n ==> (#[trigger] sseq[j]).header_start < sseq[j].payload_start
                    <= sseq[j].payload_end <= m@.len(),
            out@.len() >= 8,
            out@.subrange(0, 8) == m@.subrange(0, 8),
            (spec_reencode_from(m@, sseq, 0, *info, *unp, packed@) is Some <==> spec_reencode_from(
                m@,
                sseq,
                k as int,
                *info,
                *unp,
                packed@,
            ) is Some),
            spec_reencode_from(m@, sseq, k as int, *info, *unp, packed@) matches Some(rest)
                ==> spec_reencode_from(m@, sseq, 0, *info, *unp, packed@) == Some(
                out@.skip(8) + rest,
            ),
        ensures
            k == n,
            spec_reencode_from(m@, sseq, 0, *info, *unp, packed@) == Some(out@.skip(8)),
            out@.subrange(0, 8) == m@.subrange(0, 8),
            out@.len() >= 8,
        decreases n - k,
    {
        if k == n {
            proof {
                assert(spec_reencode_from(m@, sseq, k as int, *info, *unp, packed@) == Some(
                    Seq::<u8>::empty(),
                ));
                assert(out@.skip(8) + Seq::<u8>::empty() =~= out@.skip(8));
            }
            break;
        }
        let sec = secs[k];
        proof {
            assert(sec == sseq[k as int]);
        }
        let ghost prev = out@;
        if sec.id == 1 {
            match emit_type_section(&mut out, m, &sec, info, unp, packed) {
                Ok(()) => {},
                Err(e) => {
                    proof {
                        assert(spec_reencode_from(m@, sseq, k as int, *info, *unp, packed@)
                            is None);
                        reveal(crate::encode::spec_reencode);
                        assert(spec_reencode(m@, *info, *unp, packed@) is None);
                    }
                    return Err(e);
                },
            }
        } else if sec.id == 3 {
            match emit_function_section(&mut out, m, &sec, info, unp, packed) {
                Ok(()) => {},
                Err(e) => {
                    proof {
                        assert(spec_reencode_from(m@, sseq, k as int, *info, *unp, packed@)
                            is None);
                        reveal(crate::encode::spec_reencode);
                        assert(spec_reencode(m@, *info, *unp, packed@) is None);
                    }
                    return Err(e);
                },
            }
        } else if sec.id == 10 {
            match emit_code_section(&mut out, m, &sec, info, unp, packed, unpack_c) {
                Ok(()) => {},
                Err(e) => {
                    proof {
                        assert(spec_reencode_from(m@, sseq, k as int, *info, *unp, packed@)
                            is None);
                        reveal(crate::encode::spec_reencode);
                        assert(spec_reencode(m@, *info, *unp, packed@) is None);
                    }
                    return Err(e);
                },
            }
        } else if sec.id == 11 {
            emit_data_section(&mut out, packed);
        } else {
            push_range(&mut out, m, sec.header_start, sec.payload_end);
        }
        let ghost mid = out@;
        if sec.id == 7 && info.start_fn_idx.is_none() {
            let mut sp: Vec<u8> = Vec::new();
            write_uleb(&mut sp, new_start);
            write_section(&mut out, 8, &sp);
            proof {
                assert(out@ =~= mid + sec_bytes(8, uleb(new_start_of(*info, *unp) as nat)));
            }
        }
        proof {
            let o = section_out(m@, sseq[k as int], *info, *unp, packed@).unwrap();
            let inject = if sseq[k as int].id == 7 && info.start_fn_idx is None {
                sec_bytes(8, uleb(new_start_of(*info, *unp) as nat))
            } else {
                Seq::<u8>::empty()
            };
            assert(out@ =~= prev + o + inject);
            assert(out@.subrange(0, 8) =~= m@.subrange(0, 8));
            match spec_reencode_from(m@, sseq, k + 1, *info, *unp, packed@) {
                Some(rest) => {
                    assert(spec_reencode_from(m@, sseq, k as int, *info, *unp, packed@) == Some(
                        o + inject + rest,
                    ));
                    assert(out@.skip(8) =~= prev.skip(8) + o + inject);
                    assert(prev.skip(8) + (o + inject + rest) =~= ((prev.skip(8) + o) + inject)
                        + rest);
                },
                None => {},
            }
        }
        k = k + 1;
    }
    proof {
        assert(out@ =~= m@.subrange(0, 8) + out@.skip(8));
        reveal(crate::encode::spec_reencode);
        assert(spec_reencode(m@, *info, *unp, packed@) == Some(out@));
    }
    Ok(out)
}

} // verus!
