//! The decompressor module adapter: parse the prebuilt decompressor once,
//! extracting its type section, function section, function bodies, and the
//! index of its single exported entry point.

use vstd::prelude::*;

use crate::err::SqueezeError;
use crate::info::push_range;
use crate::leb::{leb_end, lemma_leb_end_bounds, read_uleb32, uleb_val};
use crate::renumber::all_num_vt;
use crate::scan::{import_run, name_end, payload_count, read_count, read_name, read_u32_at,
    scan_import_section, uleb32_end};
use crate::sections::{lemma_sections_wf, spec_sections, split_sections, Section};

verus! {

/// End of a vector of numeric value types, or -1.
pub open spec fn vt_vec_end(s: Seq<u8>, pos: int, limit: int) -> int {
    let ce = uleb32_end(s, pos, limit);
    if ce < 0 {
        -1
    } else {
        let n = uleb_val(s.subrange(pos, ce));
        if ce + n > limit || !all_num_vt(s, ce, ce + n) {
            -1
        } else {
            ce + n
        }
    }
}

/// End of one function type (`0x60`, params, results), all value types
/// numeric so that no type references hide inside, or -1.
pub open spec fn functype_end(s: Seq<u8>, pos: int, limit: int) -> int {
    if !(0 <= pos && pos < limit <= s.len()) {
        -1
    } else if s[pos] != 0x60u8 {
        -1
    } else {
        let pe = vt_vec_end(s, pos + 1, limit);
        if pe < 0 {
            -1
        } else {
            vt_vec_end(s, pe, limit)
        }
    }
}

/// End of `n` function types, or -1.
pub open spec fn functype_run(s: Seq<u8>, pos: int, limit: int, n: nat) -> int
    decreases n,
{
    if n == 0 {
        pos
    } else {
        let e = functype_end(s, pos, limit);
        if e < 0 {
            -1
        } else {
            functype_run(s, e, limit, (n - 1) as nat)
        }
    }
}

/// A run of `n` 32-bit integers with their values.
pub open spec fn u32s_run(s: Seq<u8>, pos: int, limit: int, n: nat) -> Option<(int, Seq<u32>)>
    decreases n,
{
    if n == 0 {
        Some((pos, Seq::empty()))
    } else {
        let e = uleb32_end(s, pos, limit);
        if e < 0 {
            None
        } else {
            let v = uleb_val(s.subrange(pos, e));
            match u32s_run(s, e, limit, (n - 1) as nat) {
                None => None,
                Some((end, vs)) => Some((end, seq![v as u32] + vs)),
            }
        }
    }
}

/// A run of `n` size-prefixed code bodies: the end position and each body's
/// byte range.
pub open spec fn bodies_run(s: Seq<u8>, pos: int, limit: int, n: nat) -> Option<
    (int, Seq<(int, int)>),
>
    decreases n,
{
    if n == 0 {
        Some((pos, Seq::empty()))
    } else {
        let ce = uleb32_end(s, pos, limit);
        if ce < 0 {
            None
        } else {
            let sz = uleb_val(s.subrange(pos, ce));
            if ce + sz > limit {
                None
            } else {
                match bodies_run(s, ce + sz, limit, (n - 1) as nat) {
                    None => None,
                    Some((end, rs)) => Some((end, seq![(ce, ce + sz)] + rs)),
                }
            }
        }
    }
}

/// One export record: its end, kind byte and index.
pub open spec fn export_at(s: Seq<u8>, pos: int, limit: int) -> Option<(int, u8, nat)> {
    if !(0 <= pos && limit <= s.len()) {
        None
    } else {
        let ne = name_end(s, pos, limit);
        if ne < 0 || ne >= limit {
            None
        } else {
            let k = s[ne];
            let ie = uleb32_end(s, ne + 1, limit);
            if ie < 0 {
                None
            } else {
                Some((ie, k, uleb_val(s.subrange(ne + 1, ie))))
            }
        }
    }
}

/// The type section parses into function types that exactly fill it.
pub open spec fn type_sec_ok(s: Seq<u8>, sec: Section) -> bool {
    match payload_count(s, sec.payload_start as int, sec.payload_end as int) {
        Some((c, is)) => functype_run(s, is, sec.payload_end as int, c) == sec.payload_end,
        None => false,
    }
}

/// The function section's type-index entries, when they exactly fill it.
pub open spec fn func_sec_vals(s: Seq<u8>, sec: Section) -> Option<Seq<u32>> {
    match payload_count(s, sec.payload_start as int, sec.payload_end as int) {
        Some((c, is)) => match u32s_run(s, is, sec.payload_end as int, c) {
            Some((end, vs)) => if end == sec.payload_end {
                Some(vs)
            } else {
                None
            },
            None => None,
        },
        None => None,
    }
}

/// The code section's body ranges, when they exactly fill it.
pub open spec fn code_sec_ranges(s: Seq<u8>, sec: Section) -> Option<Seq<(int, int)>> {
    match payload_count(s, sec.payload_start as int, sec.payload_end as int) {
        Some((c, is)) => match bodies_run(s, is, sec.payload_end as int, c) {
            Some((end, rs)) => if end == sec.payload_end {
                Some(rs)
            } else {
                None
            },
            None => None,
        },
        None => None,
    }
}

/// The export section's single record, when it declares exactly one export.
pub open spec fn export_sec_entry(s: Seq<u8>, sec: Section) -> Option<(u8, nat)> {
    match payload_count(s, sec.payload_start as int, sec.payload_end as int) {
        Some((c, is)) => if c != 1 {
            None
        } else {
            match export_at(s, is, sec.payload_end as int) {
                Some((end, k, idx)) => if end == sec.payload_end {
                    Some((k, idx))
                } else {
                    None
                },
                None => None,
            }
        },
        None => None,
    }
}

/// The import section parses and brings no function imports.
pub open spec fn import_sec_ok(s: Seq<u8>, sec: Section) -> bool {
    match payload_count(s, sec.payload_start as int, sec.payload_end as int) {
        Some((c, is)) => import_run(s, is, sec.payload_end as int, c) == Some(
            (sec.payload_end as int, 0nat),
        ),
        None => false,
    }
}

/// The parsed components of the decompressor module.
pub struct UnpackerComponents {
    pub type_count: u32,
    pub type_items: Vec<u8>,
    pub func_types: Vec<u32>,
    pub bodies: Vec<Vec<u8>>,
    pub unpack_fn_idx: u32,
}

/// Read past a vector of numeric value types.
fn read_vt_vec(m: &Vec<u8>, pos: usize, limit: usize) -> (r: Result<usize, SqueezeError>)
    requires
        pos <= limit <= m@.len(),
    ensures
        match r {
            Ok(e) => vt_vec_end(m@, pos as int, limit as int) == e && pos < e <= limit,
            Err(e) => (e == SqueezeError::Parse || e == SqueezeError::Unsupported) && vt_vec_end(
                m@,
                pos as int,
                limit as int,
            ) < 0,
        },
{
    let ce = read_u32_at(m, pos, limit)?;
    let n: u32 = match read_uleb32(m, pos) {
        Ok((c, _e)) => c,
        Err(_) => {
            return Err(SqueezeError::Parse);
        },
    };
    if (n as usize) > limit - ce {
        return Err(SqueezeError::Parse);
    }
    let e = ce + n as usize;
    let mut p: usize = ce;
    while p < e
        invariant
            pos < ce <= p <= e <= limit <= m@.len(),
            uleb32_end(m@, pos as int, limit as int) == ce,
            n as nat == uleb_val(m@.subrange(pos as int, ce as int)),
            e == ce + n,
            forall|i: int| ce <= i < p ==> crate::scan::is_num_vt(#[trigger] m@[i]),
        decreases e - p,
    {
        let b: u8 = m[p];
        if !(b == 0x7f || b == 0x7e || b == 0x7d || b == 0x7c || b == 0x7b) {
            proof {
                assert(!crate::scan::is_num_vt(m@[p as int]));
                assert(!all_num_vt(m@, ce as int, e as int));
            }
            return Err(SqueezeError::Unsupported);
        }
        p = p + 1;
    }
    assert(all_num_vt(m@, ce as int, e as int));
    Ok(e)
}

/// Read past one function type.
fn read_functype(m: &Vec<u8>, pos: usize, limit: usize) -> (r: Result<usize, SqueezeError>)
    requires
        pos <= limit <= m@.len(),
    ensures
        match r {
            Ok(e) => functype_end(m@, pos as int, limit as int) == e && pos < e <= limit,
            Err(e) => (e == SqueezeError::Parse || e == SqueezeError::Unsupported) && functype_end(
                m@,
                pos as int,
                limit as int,
            ) < 0,
        },
{
    if pos >= limit {
        return Err(SqueezeError::Parse);
    }
    if m[pos] != 0x60 {
        return Err(SqueezeError::Unsupported);
    }
    let pe = read_vt_vec(m, pos + 1, limit)?;
    read_vt_vec(m, pe, limit)
}

/// Scan the decompressor's type section: the count and the raw item bytes,
/// validated to hold no type references.
fn scan_unp_types(m: &Vec<u8>, sec: &Section) -> (r: Result<(u32, Vec<u8>), SqueezeError>)
    requires
        sec.payload_start <= sec.payload_end <= m@.len(),
    ensures
        match r {
            Ok((c, items)) => {
                &&& payload_count(m@, sec.payload_start as int, sec.payload_end as int) matches Some(
                    p,
                ) && p.0 == c as nat && functype_run(m@, p.1, sec.payload_end as int, c as nat)
                    == sec.payload_end && items@ == m@.subrange(p.1, sec.payload_end as int)
                &&& type_sec_ok(m@, *sec)
            },
            Err(e) => (e == SqueezeError::Parse || e == SqueezeError::Unsupported) && !type_sec_ok(
                m@,
                *sec,
            ),
        },
{
    let (count, items_start) = read_count(m, sec)?;
    let limit = sec.payload_end;
    let mut pos: usize = items_start;
    let mut k: u32 = 0;
    loop
        invariant
            k <= count,
            limit == sec.payload_end,
            items_start <= pos <= limit <= m@.len(),
            payload_count(m@, sec.payload_start as int, sec.payload_end as int) == Some(
                (count as nat, items_start as int),
            ),
            functype_run(m@, items_start as int, limit as int, count as nat) == functype_run(
                m@,
                pos as int,
                limit as int,
                (count - k) as nat,
            ),
        ensures
            k == count,
            functype_run(m@, items_start as int, limit as int, count as nat) == pos,
        decreases count - k,
    {
        if k == count {
            break;
        }
        match read_functype(m, pos, limit) {
            Ok(e) => {
                pos = e;
                k = k + 1;
            },
            Err(e) => {
                proof {
                    assert(functype_run(m@, pos as int, limit as int, (count - k) as nat) == -1);
                    assert(!type_sec_ok(m@, *sec));
                }
                return Err(e);
            },
        }
    }
    if pos != limit {
        return Err(SqueezeError::Parse);
    }
    let mut items: Vec<u8> = Vec::new();
    push_range(&mut items, m, items_start, limit);
    proof {
        assert(items@ =~= m@.subrange(items_start as int, limit as int));
    }
    Ok((count, items))
}

/// Scan the decompressor's function section: the type index of each of its
/// defined functions.
fn scan_unp_funcs(m: &Vec<u8>, sec: &Section) -> (r: Result<Vec<u32>, SqueezeError>)
    requires
        sec.payload_start <= sec.payload_end <= m@.len(),
    ensures
        match r {
            Ok(v) => {
                &&& payload_count(m@, sec.payload_start as int, sec.payload_end as int) matches Some(
                    p,
                ) && u32s_run(m@, p.1, sec.payload_end as int, p.0) == Some(
                    (sec.payload_end as int, v@),
                )
                &&& func_sec_vals(m@, *sec) == Some(v@)
            },
            Err(e) => e == SqueezeError::Parse && func_sec_vals(m@, *sec) is None,
        },
{
    let (count, items_start) = read_count(m, sec)?;
    let limit = sec.payload_end;
    let mut pos: usize = items_start;
    let mut k: u32 = 0;
    let mut v: Vec<u32> = Vec::new();
    loop
        invariant
            k <= count,
            v@.len() == k,
            limit == sec.payload_end,
            items_start <= pos <= limit <= m@.len(),
            payload_count(m@, sec.payload_start as int, sec.payload_end as int) == Some(
                (count as nat, items_start as int),
            ),
            (u32s_run(m@, items_start as int, limit as int, count as nat) is Some <==> u32s_run(
                m@,
                pos as int,
                limit as int,
                (count - k) as nat,
            ) is Some),
            u32s_run(m@, pos as int, limit as int, (count - k) as nat) matches Some(p)
                ==> u32s_run(m@, items_start as int, limit as int, count as nat) == Some(
                (p.0, v@ + p.1),
            ),
        ensures
            k == count,
            u32s_run(m@, items_start as int, limit as int, count as nat) == Some((pos as int, v@)),
        decreases count - k,
    {
        if k == count {
            proof {
                assert(u32s_run(m@, pos as int, limit as int, 0) == Some(
                    (pos as int, Seq::<u32>::empty()),
                ));
                assert(v@ + Seq::<u32>::empty() =~= v@);
            }
            break;
        }
        match read_uleb32(m, pos) {
            Ok((x, e)) => {
                if e > limit {
                    proof {
                        assert(u32s_run(m@, pos as int, limit as int, (count - k) as nat)
                            is None);
                    }
                    return Err(SqueezeError::Parse);
                }
                proof {
                    match u32s_run(m@, e as int, limit as int, (count - k - 1) as nat) {
                        Some(p2) => {
                            assert(v@ + (seq![x] + p2.1) =~= v@.push(x) + p2.1);
                        },
                        None => {},
                    }
                }
                v.push(x);
                pos = e;
                k = k + 1;
            },
            Err(_) => {
                proof {
                    if leb_end(m@, pos as int) >= 0 {
                        lemma_leb_end_bounds(m@, pos as int);
                    }
                    assert(u32s_run(m@, pos as int, limit as int, (count - k) as nat) is None);
                }
                return Err(SqueezeError::Parse);
            },
        }
    }
    if pos != limit {
        return Err(SqueezeError::Parse);
    }
    Ok(v)
}

/// Scan the decompressor's code section: each body's bytes (without the size
/// prefix).
fn scan_unp_code(m: &Vec<u8>, sec: &Section) -> (r: Result<Vec<Vec<u8>>, SqueezeError>)
    requires
        sec.payload_start <= sec.payload_end <= m@.len(),
    ensures
        match r {
            Ok(v) => {
                &&& payload_count(m@, sec.payload_start as int, sec.payload_end as int) matches Some(
                    p,
                ) && (bodies_run(m@, p.1, sec.payload_end as int, p.0) matches Some(b) && b.0
                    == sec.payload_end && v@.len() == b.1.len() && (forall|j: int|
                    0 <= j < b.1.len() ==> (#[trigger] v@[j])@ == m@.subrange(
                        b.1[j].0,
                        b.1[j].1,
                    )))
                &&& code_sec_ranges(m@, *sec) matches Some(rs) && rs.len() == v@.len()
            },
            Err(e) => e == SqueezeError::Parse && code_sec_ranges(m@, *sec) is None,
        },
{
    let (count, items_start) = read_count(m, sec)?;
    let limit = sec.payload_end;
    let mut pos: usize = items_start;
    let mut k: u32 = 0;
    let mut v: Vec<Vec<u8>> = Vec::new();
    proof {
        match bodies_run(m@, items_start as int, limit as int, count as nat) {
            Some(q) => {
                assert(q.1.skip(0) =~= q.1);
            },
            None => {},
        }
    }
    loop
        invariant
            k <= count,
            v@.len() == k,
            limit == sec.payload_end,
            items_start <= pos <= limit <= m@.len(),
            payload_count(m@, sec.payload_start as int, sec.payload_end as int) == Some(
                (count as nat, items_start as int),
            ),
            (bodies_run(m@, items_start as int, limit as int, count as nat) is Some <==> bodies_run(
                m@,
                pos as int,
                limit as int,
                (count - k) as nat,
            ) is Some),
            bodies_run(m@, pos as int, limit as int, (count - k) as nat) matches Some(p) ==> (
            bodies_run(m@, items_start as int, limit as int, count as nat) matches Some(q) && q.0
                == p.0 && q.1.len() == k + p.1.len() && q.1.skip(k as int) == p.1),
            bodies_run(m@, items_start as int, limit as int, count as nat) matches Some(q) ==> (
            forall|j: int|
                0 <= j < k ==> (#[trigger] v@[j])@ == m@.subrange(q.1[j].0, q.1[j].1)),
        ensures
            k == count,
            bodies_run(m@, items_start as int, limit as int, count as nat) matches Some(q) && q.0
                == pos && q.1.len() == count && (forall|j: int|
                0 <= j < count ==> (#[trigger] v@[j])@ == m@.subrange(q.1[j].0, q.1[j].1)),
        decreases count - k,
    {
        if k == count {
            proof {
                assert(bodies_run(m@, pos as int, limit as int, 0) == Some(
                    (pos as int, Seq::<(int, int)>::empty()),
                ));
            }
            break;
        }
        let (sz, ce) = match read_uleb32(m, pos) {
            Ok(x) => x,
            Err(_) => {
                proof {
                    if leb_end(m@, pos as int) >= 0 {
                        lemma_leb_end_bounds(m@, pos as int);
                    }
                    assert(bodies_run(m@, pos as int, limit as int, (count - k) as nat) is None);
                }
                return Err(SqueezeError::Parse);
            },
        };
        if ce > limit || (sz as usize) > limit - ce {
            proof {
                assert(bodies_run(m@, pos as int, limit as int, (count - k) as nat) is None);
            }
            return Err(SqueezeError::Parse);
        }
        let bend = ce + sz as usize;
        let mut body: Vec<u8> = Vec::new();
        push_range(&mut body, m, ce, bend);
        proof {
            assert(body@ =~= m@.subrange(ce as int, bend as int));
            let n = (count - k) as nat;
            match bodies_run(m@, bend as int, limit as int, (n - 1) as nat) {
                Some(p2) => {
                    assert(bodies_run(m@, pos as int, limit as int, n) matches Some(p) && p.1
                        == seq![(ce as int, bend as int)] + p2.1);
                    match bodies_run(m@, items_start as int, limit as int, count as nat) {
                        Some(q) => {
                            assert(q.1.skip(k as int) == seq![(ce as int, bend as int)] + p2.1);
                            assert(q.1[k as int] == (ce as int, bend as int)) by {
                                assert(q.1.skip(k as int)[0] == q.1[k as int]);
                            }
                            assert(q.1.skip(k + 1) =~= p2.1) by {
                                assert(forall|i: int|
                                    0 <= i < q.1.len() - (k + 1) ==> #[trigger] q.1.skip(k + 1)[i]
                                        == q.1[k + 1 + i]);
                                assert(forall|i: int|
                                    0 <= i < q.1.len() - k ==> #[trigger] q.1.skip(k as int)[i]
                                        == q.1[k + i]);
                                assert(forall|i: int|
                                    0 <= i < p2.1.len() ==> #[trigger] p2.1[i] == (seq![
                                        (ce as int, bend as int)
                                    ] + p2.1)[i + 1]);
                            }
                        },
                        None => {},
                    }
                },
                None => {},
            }
        }
        v.push(body);
        pos = bend;
        k = k + 1;
    }
    if pos != limit {
        return Err(SqueezeError::Parse);
    }
    Ok(v)
}

/// Scan the decompressor's export section: it must declare exactly one
/// export, a function.
fn scan_unp_exports(m: &Vec<u8>, sec: &Section) -> (r: Result<u32, SqueezeError>)
    requires
        sec.payload_start <= sec.payload_end <= m@.len(),
    ensures
        match r {
            Ok(idx) => {
                &&& payload_count(m@, sec.payload_start as int, sec.payload_end as int) matches Some(
                    p,
                ) && p.0 == 1 && (export_at(m@, p.1, sec.payload_end as int) matches Some(x) && x.0
                    == sec.payload_end && x.1 == 0x00u8 && x.2 == idx as nat)
                &&& export_sec_entry(m@, *sec) == Some((0x00u8, idx as nat))
            },
            Err(e) => (e == SqueezeError::Parse || e == SqueezeError::Unsupported) && (match
            export_sec_entry(m@, *sec) {
                Some(x) => x.0 != 0x00u8,
                None => true,
            }),
        },
{
    let (count, items_start) = read_count(m, sec)?;
    let limit = sec.payload_end;
    if count != 1 {
        return Err(SqueezeError::Unsupported);
    }
    let ne = read_name(m, items_start, limit)?;
    if ne >= limit {
        return Err(SqueezeError::Parse);
    }
    let kind: u8 = m[ne];
    if kind != 0x00 {
        return Err(SqueezeError::Unsupported);
    }
    let (idx, ie) = match read_uleb32(m, ne + 1) {
        Ok(x) => x,
        Err(_) => {
            return Err(SqueezeError::Parse);
        },
    };
    if ie != limit {
        return Err(SqueezeError::Parse);
    }
    Ok(idx)
}

/// No two distinct sections carry this id.
pub open spec fn unique_sec(secs: Seq<Section>, id: u8) -> bool {
    forall|k1: int, k2: int|
        0 <= k1 < secs.len() && 0 <= k2 < secs.len() && (#[trigger] secs[k1]).id == id && (
        #[trigger] secs[k2]).id == id ==> k1 == k2
}

/// What the adapter accepts as a decompressor module: a well-formed section
/// run holding exactly one type, function, code and export section, each
/// parsing cleanly; exactly one export, a function whose index falls among
/// the defined bodies; no function imports; no start function.
#[verifier::opaque]
pub open spec fn is_unpacker_module(s: Seq<u8>) -> bool {
    match spec_sections(s) {
        None => false,
        Some(secs) => {
            &&& unique_sec(secs, 1)
            &&& unique_sec(secs, 3)
            &&& unique_sec(secs, 7)
            &&& unique_sec(secs, 10)
            &&& (forall|k: int| 0 <= k < secs.len() ==> (#[trigger] secs[k]).id != 8)
            &&& (forall|k: int|
                0 <= k < secs.len() && (#[trigger] secs[k]).id == 2 ==> import_sec_ok(s, secs[k]))
            &&& (exists|k: int|
                0 <= k < secs.len() && (#[trigger] secs[k]).id == 1 && type_sec_ok(s, secs[k]))
            &&& (exists|k: int|
                0 <= k < secs.len() && (#[trigger] secs[k]).id == 3 && func_sec_vals(
                    s,
                    secs[k],
                ) is Some)
            &&& (exists|k: int|
                0 <= k < secs.len() && (#[trigger] secs[k]).id == 10 && code_sec_ranges(
                    s,
                    secs[k],
                ) is Some)
            &&& (exists|k: int|
                0 <= k < secs.len() && (#[trigger] secs[k]).id == 7 && (match export_sec_entry(
                    s,
                    secs[k],
                ) {
                    Some(x) => x.0 == 0x00u8,
                    None => false,
                }))
            &&& (forall|k3: int, k10: int|
                0 <= k3 < secs.len() && 0 <= k10 < secs.len() && (#[trigger] secs[k3]).id == 3 && (
                #[trigger] secs[k10]).id == 10 ==> (match (func_sec_vals(s, secs[k3]),
                code_sec_ranges(s, secs[k10])) {
                    (Some(vs), Some(rs)) => vs.len() == rs.len(),
                    _ => true,
                }))
            &&& (forall|k7: int, k10: int|
                0 <= k7 < secs.len() && 0 <= k10 < secs.len() && (#[trigger] secs[k7]).id == 7 && (
                #[trigger] secs[k10]).id == 10 ==> (match (export_sec_entry(s, secs[k7]),
                code_sec_ranges(s, secs[k10])) {
                    (Some(x), Some(rs)) => x.1 < rs.len(),
                    _ => true,
                }))
        },
    }
}

/// The components `u` are exactly what the module bytes `s` hold: its type
/// section's count and raw items, its function section's entries, its code
/// section's bodies, and its single exported function index.
#[verifier::opaque]
pub open spec fn unp_matches(s: Seq<u8>, u: UnpackerComponents) -> bool {
    match spec_sections(s) {
        Some(secs) => {
            &&& (exists|k: int|
                0 <= k < secs.len() && (#[trigger] secs[k]).id == 1 && type_sec_ok(s, secs[k]) && (
                match payload_count(s, secs[k].payload_start as int, secs[k].payload_end as int) {
                    Some((c, is)) => c == u.type_count as nat && u.type_items@ == s.subrange(
                        is,
                        secs[k].payload_end as int,
                    ),
                    None => false,
                }))
            &&& (exists|k: int|
                0 <= k < secs.len() && (#[trigger] secs[k]).id == 3 && func_sec_vals(s, secs[k])
                    == Some(u.func_types@))
            &&& (exists|k: int|
                0 <= k < secs.len() && (#[trigger] secs[k]).id == 10 && (match code_sec_ranges(
                    s,
                    secs[k],
                ) {
                    Some(rs) => u.bodies@.len() == rs.len() && (forall|j: int|
                        0 <= j < rs.len() ==> (#[trigger] u.bodies@[j])@ == s.subrange(
                            rs[j].0,
                            rs[j].1,
                        )),
                    None => false,
                }))
            &&& (exists|k: int|
                0 <= k < secs.len() && (#[trigger] secs[k]).id == 7 && export_sec_entry(s, secs[k])
                    == Some((0x00u8, u.unpack_fn_idx as nat)))
        },
        None => false,
    }
}

impl UnpackerComponents {
    /// The parsed pieces fit together: one body per declared function, and
    /// the exported entry point refers to one of them.
    pub open spec fn wf(self) -> bool {
        &&& self.func_types@.len() == self.bodies@.len()
        &&& self.unpack_fn_idx < self.bodies@.len()
    }

    /// Parse the prebuilt decompressor module. It succeeds exactly on the
    /// modules `is_unpacker_module` describes, and then each component is
    /// what the corresponding section holds.
    #[verifier::rlimit(100)]
    #[verifier::spinoff_prover]
    pub fn parse(bytes: &Vec<u8>) -> (r: Result<UnpackerComponents, SqueezeError>)
        ensures
            match r {
                Ok(u) => {
                    &&& u.wf()
                    &&& is_unpacker_module(bytes@)
                    &&& unp_matches(bytes@, u)
                },
                Err(e) => (e == SqueezeError::Parse || e == SqueezeError::Unsupported)
                    && !is_unpacker_module(bytes@),
            },
    {
        let secs = match split_sections(bytes) {
            Ok(s) => s,
            Err(_) => {
                proof {
                    reveal(crate::unpacker::is_unpacker_module);
                }
                return Err(SqueezeError::Parse);
            },
        };
        let blen = bytes.len();
        proof {
            assert(bytes@.len() == blen);
            lemma_sections_wf(bytes@, 8);
        }
        let mut type_res: Option<(u32, Vec<u8>)> = None;
        let mut func_res: Option<Vec<u32>> = None;
        let mut code_res: Option<Vec<Vec<u8>>> = None;
        let mut export_res: Option<u32> = None;
        let n = secs.len();
        let mut k: usize = 0;
        let ghost sseq = spec_sections(bytes@).unwrap();
        while k < n
            invariant
                k <= n,
                n == sseq.len(),
                spec_sections(bytes@) == Some(sseq),
                secs@ == sseq,
                bytes@.len() <= usize::MAX,
                forall|j: int|
                    0 <= j < n ==> (#[trigger] sseq[j]).payload_start <= sseq[j].payload_end
                        <= bytes@.len(),
                forall|j1: int, j2: int|
                    0 <= j1 < j2 < k ==> !((#[trigger] sseq[j1]).id == 1 && (
                    #[trigger] sseq[j2]).id == 1),
                forall|j1: int, j2: int|
                    0 <= j1 < j2 < k ==> !((#[trigger] sseq[j1]).id == 3 && (
                    #[trigger] sseq[j2]).id == 3),
                forall|j1: int, j2: int|
                    0 <= j1 < j2 < k ==> !((#[trigger] sseq[j1]).id == 7 && (
                    #[trigger] sseq[j2]).id == 7),
                forall|j1: int, j2: int|
                    0 <= j1 < j2 < k ==> !((#[trigger] sseq[j1]).id == 10 && (
                    #[trigger] sseq[j2]).id == 10),
                forall|j: int| 0 <= j < k ==> (#[trigger] sseq[j]).id != 8,
                forall|j: int|
                    0 <= j < k && (#[trigger] sseq[j]).id == 2 ==> import_sec_ok(bytes@, sseq[j]),
                type_res is None ==> forall|j: int| 0 <= j < k ==> (#[trigger] sseq[j]).id != 1,
                func_res is None ==> forall|j: int| 0 <= j < k ==> (#[trigger] sseq[j]).id != 3,
                code_res is None ==> forall|j: int| 0 <= j < k ==> (#[trigger] sseq[j]).id != 10,
                export_res is None ==> forall|j: int| 0 <= j < k ==> (#[trigger] sseq[j]).id != 7,
                match type_res {
                    Some((c, ref items)) => exists|j: int|
                        0 <= j < k && (#[trigger] sseq[j]).id == 1 && type_sec_ok(bytes@, sseq[j])
                            && (match payload_count(
                            bytes@,
                            sseq[j].payload_start as int,
                            sseq[j].payload_end as int,
                        ) {
                            Some((cc, is)) => cc == c as nat && items@ == bytes@.subrange(
                                is,
                                sseq[j].payload_end as int,
                            ),
                            None => false,
                        }),
                    None => true,
                },
                match func_res {
                    Some(ref v) => exists|j: int|
                        0 <= j < k && (#[trigger] sseq[j]).id == 3 && func_sec_vals(
                            bytes@,
                            sseq[j],
                        ) == Some(v@),
                    None => true,
                },
                match code_res {
                    Some(ref v) => exists|j: int|
                        0 <= j < k && (#[trigger] sseq[j]).id == 10 && (match code_sec_ranges(
                            bytes@,
                            sseq[j],
                        ) {
                            Some(rs) => v@.len() == rs.len() && (forall|i: int|
                                0 <= i < rs.len() ==> (#[trigger] v@[i])@ == bytes@.subrange(
                                    rs[i].0,
                                    rs[i].1,
                                )),
                            None => false,
                        }),
                    None => true,
                },
                match export_res {
                    Some(idx) => exists|j: int|
                        0 <= j < k && (#[trigger] sseq[j]).id == 7 && export_sec_entry(
                            bytes@,
                            sseq[j],
                        ) == Some((0x00u8, idx as nat)),
                    None => true,
                },
            decreases n - k,
        {
            let sec = secs[k];
            proof {
                assert(sec == sseq[k as int]);
            }
            if sec.id == 1 {
                if type_res.is_some() {
                    proof {
                        let j = choose|j: int|
                            0 <= j < k && (#[trigger] sseq[j]).id == 1 && type_sec_ok(
                                bytes@,
                                sseq[j],
                            ) && (match payload_count(
                                bytes@,
                                sseq[j].payload_start as int,
                                sseq[j].payload_end as int,
                            ) {
                                Some((cc, is)) => cc == type_res.unwrap().0 as nat
                                    && type_res.unwrap().1@ == bytes@.subrange(
                                    is,
                                    sseq[j].payload_end as int,
                                ),
                                None => false,
                            });
                        assert(sseq[j].id == 1 && sseq[k as int].id == 1 && j != k);
                        assert(!unique_sec(sseq, 1));
                        reveal(crate::unpacker::is_unpacker_module);
                        assert(!is_unpacker_module(bytes@));
                    }
                    return Err(SqueezeError::Unsupported);
                }
                let (c, items) = match scan_unp_types(bytes, &sec) {
                    Ok(x) => x,
                    Err(e) => {
                        proof {
                            reveal(crate::unpacker::is_unpacker_module);
                            if is_unpacker_module(bytes@) {
                                let j = choose|j: int|
                                    0 <= j < sseq.len() && (#[trigger] sseq[j]).id == 1
                                        && type_sec_ok(bytes@, sseq[j]);
                                assert(j == k);
                                assert(false);
                            }
                        }
                        return Err(e);
                    },
                };
                type_res = Some((c, items));
            } else if sec.id == 2 {
                let fc = match scan_import_section(bytes, &sec) {
                    Ok(fc) => fc,
                    Err(e) => {
                        proof {
                            assert(!import_sec_ok(bytes@, sseq[k as int]));
                            reveal(crate::unpacker::is_unpacker_module);
                            assert(!is_unpacker_module(bytes@));
                        }
                        return Err(e);
                    },
                };
                if fc != 0 {
                    proof {
                        assert(!import_sec_ok(bytes@, sseq[k as int]));
                        reveal(crate::unpacker::is_unpacker_module);
                        assert(!is_unpacker_module(bytes@));
                    }
                    return Err(SqueezeError::Unsupported);
                }
            } else if sec.id == 3 {
                if func_res.is_some() {
                    proof {
                        let j = choose|j: int|
                            0 <= j < k && (#[trigger] sseq[j]).id == 3 && func_sec_vals(
                                bytes@,
                                sseq[j],
                            ) == Some(func_res.unwrap()@);
                        assert(sseq[j].id == 3 && sseq[k as int].id == 3 && j != k);
                        assert(!unique_sec(sseq, 3));
                        reveal(crate::unpacker::is_unpacker_module);
                        assert(!is_unpacker_module(bytes@));
                    }
                    return Err(SqueezeError::Unsupported);
                }
                let v = match scan_unp_funcs(bytes, &sec) {
                    Ok(x) => x,
                    Err(e) => {
                        proof {
                            reveal(crate::unpacker::is_unpacker_module);
                            if is_unpacker_module(bytes@) {
                                let j = choose|j: int|
                                    0 <= j < sseq.len() && (#[trigger] sseq[j]).id == 3
                                        && func_sec_vals(bytes@, sseq[j]) is Some;
                                assert(j == k);
                                assert(false);
                            }
                        }
                        return Err(e);
                    },
                };
                func_res = Some(v);
            } else if sec.id == 7 {
                if export_res.is_some() {
                    proof {
                        let j = choose|j: int|
                            0 <= j < k && (#[trigger] sseq[j]).id == 7 && export_sec_entry(
                                bytes@,
                                sseq[j],
                            ) == Some((0x00u8, export_res.unwrap() as nat));
                        assert(sseq[j].id == 7 && sseq[k as int].id == 7 && j != k);
                        assert(!unique_sec(sseq, 7));
                        reveal(crate::unpacker::is_unpacker_module);
                        assert(!is_unpacker_module(bytes@));
                    }
                    return Err(SqueezeError::Unsupported);
                }
                let idx = match scan_unp_exports(bytes, &sec) {
                    Ok(x) => x,
                    Err(e) => {
                        proof {
                            reveal(crate::unpacker::is_unpacker_module);
                            if is_unpacker_module(bytes@) {
                                let j = choose|j: int|
                                    0 <= j < sseq.len() && (#[trigger] sseq[j]).id == 7 && (match
                                    export_sec_entry(bytes@, sseq[j]) {
                                        Some(x) => x.0 == 0x00u8,
                                        None => false,
                                    });
                                assert(j == k);
                                assert(false);
                            }
                        }
                        return Err(e);
                    },
                };
                export_res = Some(idx);
            } else if sec.id == 8 {
                // the decompressor must not bring its own start function
                proof {
                    reveal(crate::unpacker::is_unpacker_module);
                    assert(!is_unpacker_module(bytes@));
                }
                return Err(SqueezeError::Unsupported);
            } else if sec.id == 10 {
                if code_res.is_some() {
                    proof {
                        let j = choose|j: int|
                            0 <= j < k && (#[trigger] sseq[j]).id == 10 && (match code_sec_ranges(
                                bytes@,
                                sseq[j],
                            ) {
                                Some(rs) => code_res.unwrap()@.len() == rs.len() && (forall|i: int|
                                    0 <= i < rs.len() ==> (#[trigger] code_res.unwrap()@[i])@
                                        == bytes@.subrange(rs[i].0, rs[i].1)),
                                None => false,
                            });
                        assert(sseq[j].id == 10 && sseq[k as int].id == 10 && j != k);
                        assert(!unique_sec(sseq, 10));
                        reveal(crate::unpacker::is_unpacker_module);
                        assert(!is_unpacker_module(bytes@));
                    }
                    return Err(SqueezeError::Unsupported);
                }
                let v = match scan_unp_code(bytes, &sec) {
                    Ok(x) => x,
                    Err(e) => {
                        proof {
                            reveal(crate::unpacker::is_unpacker_module);
                            if is_unpacker_module(bytes@) {
                                let j = choose|j: int|
                                    0 <= j < sseq.len() && (#[trigger] sseq[j]).id == 10
                                        && code_sec_ranges(bytes@, sseq[j]) is Some;
                                assert(j == k);
                                assert(false);
                            }
                        }
                        return Err(e);
                    },
                };
                code_res = Some(v);
            }
            k = k + 1;
        }
        assemble(
            bytes,
            Ghost(sseq),
            type_res,
            func_res,
            code_res,
            export_res,
        )
    }
}

/// The collected, mutually consistent pieces witness the whole-module
/// predicate.
#[verifier::rlimit(100)]
proof fn lemma_unpacker_ok(s: Seq<u8>, sseq: Seq<Section>, u: UnpackerComponents)
    requires
        spec_sections(s) == Some(sseq),
        forall|j1: int, j2: int|
            0 <= j1 < j2 < sseq.len() ==> !((#[trigger] sseq[j1]).id == 1 && (
            #[trigger] sseq[j2]).id == 1),
        forall|j1: int, j2: int|
            0 <= j1 < j2 < sseq.len() ==> !((#[trigger] sseq[j1]).id == 3 && (
            #[trigger] sseq[j2]).id == 3),
        forall|j1: int, j2: int|
            0 <= j1 < j2 < sseq.len() ==> !((#[trigger] sseq[j1]).id == 7 && (
            #[trigger] sseq[j2]).id == 7),
        forall|j1: int, j2: int|
            0 <= j1 < j2 < sseq.len() ==> !((#[trigger] sseq[j1]).id == 10 && (
            #[trigger] sseq[j2]).id == 10),
        forall|j: int| 0 <= j < sseq.len() ==> (#[trigger] sseq[j]).id != 8,
        forall|j: int|
            0 <= j < sseq.len() && (#[trigger] sseq[j]).id == 2 ==> import_sec_ok(s, sseq[j]),
        exists|j: int|
            0 <= j < sseq.len() && (#[trigger] sseq[j]).id == 1 && type_sec_ok(s, sseq[j]) && (
            match payload_count(s, sseq[j].payload_start as int, sseq[j].payload_end as int) {
                Some((cc, is)) => cc == u.type_count as nat && u.type_items@ == s.subrange(
                    is,
                    sseq[j].payload_end as int,
                ),
                None => false,
            }),
        exists|j: int|
            0 <= j < sseq.len() && (#[trigger] sseq[j]).id == 3 && func_sec_vals(s, sseq[j])
                == Some(u.func_types@),
        exists|j: int|
            0 <= j < sseq.len() && (#[trigger] sseq[j]).id == 10 && (match code_sec_ranges(
                s,
                sseq[j],
            ) {
                Some(rs) => u.bodies@.len() == rs.len() && (forall|i: int|
                    0 <= i < rs.len() ==> (#[trigger] u.bodies@[i])@ == s.subrange(
                        rs[i].0,
                        rs[i].1,
                    )),
                None => false,
            }),
        exists|j: int|
            0 <= j < sseq.len() && (#[trigger] sseq[j]).id == 7 && export_sec_entry(s, sseq[j])
                == Some((0x00u8, u.unpack_fn_idx as nat)),
        u.func_types@.len() == u.bodies@.len(),
        u.unpack_fn_idx < u.bodies@.len(),
    ensures
        is_unpacker_module(s),
        unp_matches(s, u),
{
    let n = sseq.len();
    reveal(crate::unpacker::unp_matches);
    lemma_fit_funcs(s, sseq, u);
    lemma_fit_export(s, sseq, u);
    assert(is_unpacker_module(s)) by {
        reveal(crate::unpacker::is_unpacker_module);
    }
}

/// Every function/code section pair agrees on the function count.
#[verifier::rlimit(100)]
proof fn lemma_fit_funcs(s: Seq<u8>, sseq: Seq<Section>, u: UnpackerComponents)
    requires
        forall|j1: int, j2: int|
            0 <= j1 < j2 < sseq.len() ==> !((#[trigger] sseq[j1]).id == 3 && (
            #[trigger] sseq[j2]).id == 3),
        forall|j1: int, j2: int|
            0 <= j1 < j2 < sseq.len() ==> !((#[trigger] sseq[j1]).id == 10 && (
            #[trigger] sseq[j2]).id == 10),
        exists|j: int|
            0 <= j < sseq.len() && (#[trigger] sseq[j]).id == 3 && func_sec_vals(s, sseq[j])
                == Some(u.func_types@),
        exists|j: int|
            0 <= j < sseq.len() && (#[trigger] sseq[j]).id == 10 && (match code_sec_ranges(
                s,
                sseq[j],
            ) {
                Some(rs) => u.bodies@.len() == rs.len() && (forall|i: int|
                    0 <= i < rs.len() ==> (#[trigger] u.bodies@[i])@ == s.subrange(
                        rs[i].0,
                        rs[i].1,
                    )),
                None => false,
            }),
        u.func_types@.len() == u.bodies@.len(),
    ensures
        forall|k3: int, k10: int|
            0 <= k3 < sseq.len() && 0 <= k10 < sseq.len() && (#[trigger] sseq[k3]).id == 3 && (
            #[trigger] sseq[k10]).id == 10 ==> (match (func_sec_vals(s, sseq[k3]),
            code_sec_ranges(s, sseq[k10])) {
                (Some(vs), Some(rs)) => vs.len() == rs.len(),
                _ => true,
            }),
{
    let n = sseq.len();
    assert forall|k3: int, k10: int|
        0 <= k3 < sseq.len() && 0 <= k10 < sseq.len() && (#[trigger] sseq[k3]).id == 3 && (
        #[trigger] sseq[k10]).id == 10 implies (match (func_sec_vals(s, sseq[k3]),
    code_sec_ranges(s, sseq[k10])) {
        (Some(vs), Some(rs)) => vs.len() == rs.len(),
        _ => true,
    }) by {
        let j3 = choose|j: int|
            0 <= j < n && (#[trigger] sseq[j]).id == 3 && func_sec_vals(s, sseq[j]) == Some(
                u.func_types@,
            );
        let j10 = choose|j: int|
            0 <= j < n && (#[trigger] sseq[j]).id == 10 && (match code_sec_ranges(s, sseq[j]) {
                Some(rs) => u.bodies@.len() == rs.len() && (forall|i: int|
                    0 <= i < rs.len() ==> (#[trigger] u.bodies@[i])@ == s.subrange(
                        rs[i].0,
                        rs[i].1,
                    )),
                None => false,
            });
        assert(k3 == j3 && k10 == j10);
    }
}

/// Every export/code section pair places the exported index among the
/// defined bodies.
#[verifier::rlimit(100)]
proof fn lemma_fit_export(s: Seq<u8>, sseq: Seq<Section>, u: UnpackerComponents)
    requires
        forall|j1: int, j2: int|
            0 <= j1 < j2 < sseq.len() ==> !((#[trigger] sseq[j1]).id == 7 && (
            #[trigger] sseq[j2]).id == 7),
        forall|j1: int, j2: int|
            0 <= j1 < j2 < sseq.len() ==> !((#[trigger] sseq[j1]).id == 10 && (
            #[trigger] sseq[j2]).id == 10),
        exists|j: int|
            0 <= j < sseq.len() && (#[trigger] sseq[j]).id == 7 && export_sec_entry(s, sseq[j])
                == Some((0x00u8, u.unpack_fn_idx as nat)),
        exists|j: int|
            0 <= j < sseq.len() && (#[trigger] sseq[j]).id == 10 && (match code_sec_ranges(
                s,
                sseq[j],
            ) {
                Some(rs) => u.bodies@.len() == rs.len() && (forall|i: int|
                    0 <= i < rs.len() ==> (#[trigger] u.bodies@[i])@ == s.subrange(
                        rs[i].0,
                        rs[i].1,
                    )),
                None => false,
            }),
        u.unpack_fn_idx < u.bodies@.len(),
    ensures
        forall|k7: int, k10: int|
            0 <= k7 < sseq.len() && 0 <= k10 < sseq.len() && (#[trigger] sseq[k7]).id == 7 && (
            #[trigger] sseq[k10]).id == 10 ==> (match (export_sec_entry(s, sseq[k7]),
            code_sec_ranges(s, sseq[k10])) {
                (Some(x), Some(rs)) => x.1 < rs.len(),
                _ => true,
            }),
{
    let n = sseq.len();
    assert forall|k7: int, k10: int|
        0 <= k7 < sseq.len() && 0 <= k10 < sseq.len() && (#[trigger] sseq[k7]).id == 7 && (
        #[trigger] sseq[k10]).id == 10 implies (match (export_sec_entry(s, sseq[k7]),
    code_sec_ranges(s, sseq[k10])) {
        (Some(x), Some(rs)) => x.1 < rs.len(),
        _ => true,
    }) by {
        let j7 = choose|j: int|
            0 <= j < n && (#[trigger] sseq[j]).id == 7 && export_sec_entry(s, sseq[j]) == Some(
                (0x00u8, u.unpack_fn_idx as nat),
            );
        let j10 = choose|j: int|
            0 <= j < n && (#[trigger] sseq[j]).id == 10 && (match code_sec_ranges(s, sseq[j]) {
                Some(rs) => u.bodies@.len() == rs.len() && (forall|i: int|
                    0 <= i < rs.len() ==> (#[trigger] u.bodies@[i])@ == s.subrange(
                        rs[i].0,
                        rs[i].1,
                    )),
                None => false,
            });
        assert(k7 == j7 && k10 == j10);
    }
}

/// Validate the collected pieces against one another and build the
/// components. The requires restate what the scanning loop established.
#[verifier::rlimit(100)]
#[verifier::spinoff_prover]
fn assemble(
    bytes: &Vec<u8>,
    Ghost(sseq): Ghost<Seq<Section>>,
    type_res: Option<(u32, Vec<u8>)>,
    func_res: Option<Vec<u32>>,
    code_res: Option<Vec<Vec<u8>>>,
    export_res: Option<u32>,
) -> (r: Result<UnpackerComponents, SqueezeError>)
    requires
        spec_sections(bytes@) == Some(sseq),
        forall|j1: int, j2: int|
            0 <= j1 < j2 < sseq.len() ==> !((#[trigger] sseq[j1]).id == 1 && (
            #[trigger] sseq[j2]).id == 1),
        forall|j1: int, j2: int|
            0 <= j1 < j2 < sseq.len() ==> !((#[trigger] sseq[j1]).id == 3 && (
            #[trigger] sseq[j2]).id == 3),
        forall|j1: int, j2: int|
            0 <= j1 < j2 < sseq.len() ==> !((#[trigger] sseq[j1]).id == 7 && (
            #[trigger] sseq[j2]).id == 7),
        forall|j1: int, j2: int|
            0 <= j1 < j2 < sseq.len() ==> !((#[trigger] sseq[j1]).id == 10 && (
            #[trigger] sseq[j2]).id == 10),
        forall|j: int| 0 <= j < sseq.len() ==> (#[trigger] sseq[j]).id != 8,
        forall|j: int|
            0 <= j < sseq.len() && (#[trigger] sseq[j]).id == 2 ==> import_sec_ok(
                bytes@,
                sseq[j],
            ),
        type_res is None ==> forall|j: int|
            0 <= j < sseq.len() ==> (#[trigger] sseq[j]).id != 1,
        func_res is None ==> forall|j: int|
            0 <= j < sseq.len() ==> (#[trigger] sseq[j]).id != 3,
        code_res is None ==> forall|j: int|
            0 <= j < sseq.len() ==> (#[trigger] sseq[j]).id != 10,
        export_res is None ==> forall|j: int|
            0 <= j < sseq.len() ==> (#[trigger] sseq[j]).id != 7,
        match type_res {
            Some((c, ref items)) => exists|j: int|
                0 <= j < sseq.len() && (#[trigger] sseq[j]).id == 1 && type_sec_ok(
                    bytes@,
                    sseq[j],
                ) && (match payload_count(
                    bytes@,
                    sseq[j].payload_start as int,
                    sseq[j].payload_end as int,
                ) {
                    Some((cc, is)) => cc == c as nat && items@ == bytes@.subrange(
                        is,
                        sseq[j].payload_end as int,
                    ),
                    None => false,
                }),
            None => true,
        },
        match func_res {
            Some(ref v) => exists|j: int|
                0 <= j < sseq.len() && (#[trigger] sseq[j]).id == 3 && func_sec_vals(
                    bytes@,
                    sseq[j],
                ) == Some(v@),
            None => true,
        },
        match code_res {
            Some(ref v) => exists|j: int|
                0 <= j < sseq.len() && (#[trigger] sseq[j]).id == 10 && (match code_sec_ranges(
                    bytes@,
                    sseq[j],
                ) {
                    Some(rs) => v@.len() == rs.len() && (forall|i: int|
                        0 <= i < rs.len() ==> (#[trigger] v@[i])@ == bytes@.subrange(
                            rs[i].0,
                            rs[i].1,
                        )),
                    None => false,
                }),
            None => true,
        },
        match export_res {
            Some(idx) => exists|j: int|
                0 <= j < sseq.len() && (#[trigger] sseq[j]).id == 7 && export_sec_entry(
                    bytes@,
                    sseq[j],
                ) == Some((0x00u8, idx as nat)),
            None => true,
        },
    ensures
        match r {
            Ok(u) => {
                &&& u.wf()
                &&& is_unpacker_module(bytes@)
                &&& unp_matches(bytes@, u)
            },
            Err(e) => (e == SqueezeError::Parse || e == SqueezeError::Unsupported)
                && !is_unpacker_module(bytes@),
        },
{
    let ghost n = sseq.len();
        let (type_count, type_items) = match type_res {
            Some(x) => x,
            None => {
                proof {
                    reveal(crate::unpacker::is_unpacker_module);
                    if is_unpacker_module(bytes@) {
                        let j = choose|j: int|
                            0 <= j < sseq.len() && (#[trigger] sseq[j]).id == 1 && type_sec_ok(
                                bytes@,
                                sseq[j],
                            );
                        assert(false);
                    }
                }
                return Err(SqueezeError::Parse);
            },
        };
        let func_types = match func_res {
            Some(x) => x,
            None => {
                proof {
                    reveal(crate::unpacker::is_unpacker_module);
                    if is_unpacker_module(bytes@) {
                        let j = choose|j: int|
                            0 <= j < sseq.len() && (#[trigger] sseq[j]).id == 3 && func_sec_vals(
                                bytes@,
                                sseq[j],
                            ) is Some;
                        assert(false);
                    }
                }
                return Err(SqueezeError::Parse);
            },
        };
        let bodies = match code_res {
            Some(x) => x,
            None => {
                proof {
                    reveal(crate::unpacker::is_unpacker_module);
                    if is_unpacker_module(bytes@) {
                        let j = choose|j: int|
                            0 <= j < sseq.len() && (#[trigger] sseq[j]).id == 10
                                && code_sec_ranges(bytes@, sseq[j]) is Some;
                        assert(false);
                    }
                }
                return Err(SqueezeError::Parse);
            },
        };
        let unpack_fn_idx = match export_res {
            Some(x) => x,
            None => {
                proof {
                    reveal(crate::unpacker::is_unpacker_module);
                    if is_unpacker_module(bytes@) {
                        let j = choose|j: int|
                            0 <= j < sseq.len() && (#[trigger] sseq[j]).id == 7 && (match
                            export_sec_entry(bytes@, sseq[j]) {
                                Some(x) => x.0 == 0x00u8,
                                None => false,
                            });
                        assert(false);
                    }
                }
                return Err(SqueezeError::Unsupported);
            },
        };
        if func_types.len() != bodies.len() {
            proof {
                reveal(crate::unpacker::is_unpacker_module);
                if is_unpacker_module(bytes@) {
                    let j3 = choose|j: int|
                        0 <= j < n && (#[trigger] sseq[j]).id == 3 && func_sec_vals(
                            bytes@,
                            sseq[j],
                        ) == Some(func_types@);
                    let j10 = choose|j: int|
                        0 <= j < n && (#[trigger] sseq[j]).id == 10 && (match code_sec_ranges(
                            bytes@,
                            sseq[j],
                        ) {
                            Some(rs) => bodies@.len() == rs.len() && (forall|i: int|
                                0 <= i < rs.len() ==> (#[trigger] bodies@[i])@ == bytes@.subrange(
                                    rs[i].0,
                                    rs[i].1,
                                )),
                            None => false,
                        });
                    assert(false);
                }
            }
            return Err(SqueezeError::Parse);
        }
        if (unpack_fn_idx as usize) >= bodies.len() {
            proof {
                reveal(crate::unpacker::is_unpacker_module);
                if is_unpacker_module(bytes@) {
                    let j7 = choose|j: int|
                        0 <= j < n && (#[trigger] sseq[j]).id == 7 && export_sec_entry(
                            bytes@,
                            sseq[j],
                        ) == Some((0x00u8, unpack_fn_idx as nat));
                    let j10 = choose|j: int|
                        0 <= j < n && (#[trigger] sseq[j]).id == 10 && (match code_sec_ranges(
                            bytes@,
                            sseq[j],
                        ) {
                            Some(rs) => bodies@.len() == rs.len() && (forall|i: int|
                                0 <= i < rs.len() ==> (#[trigger] bodies@[i])@ == bytes@.subrange(
                                    rs[i].0,
                                    rs[i].1,
                                )),
                            None => false,
                        });
                    assert(false);
                }
            }
            return Err(SqueezeError::Unsupported);
        }
        proof {
            lemma_unpacker_ok(
                bytes@,
                sseq,
                UnpackerComponents { type_count, type_items, func_types, bodies, unpack_fn_idx },
            );
        }
        Ok(UnpackerComponents { type_count, type_items, func_types, bodies, unpack_fn_idx })
}

} // verus!
