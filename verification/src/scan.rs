//! First-pass readers of the section payloads the rewriting plan depends on:
//! counts, the start function, data segment layout, the data-count bytes, and
//! the mutable-global integrity check.

use vstd::prelude::*;

use crate::err::SqueezeError;
use crate::leb::{leb_end, lemma_leb_end_bounds, read_sleb32, read_uleb32, skip_leb, sleb_val,
    uleb_val};
use crate::sections::Section;

verus! {

/// An active data segment on memory 0: its decoded offset and where its bytes
/// lie in the module.
#[derive(Clone, Copy, Debug)]
pub struct Seg {
    pub offset: i32,
    pub start: usize,
    pub end: usize,
}

/// A count-prefixed payload: the count and where the items start, if the
/// prefix is a well-formed 32-bit count inside the payload.
pub open spec fn payload_count(s: Seq<u8>, ps: int, pe: int) -> Option<(nat, int)> {
    let e = leb_end(s, ps);
    if !(0 <= ps <= pe <= s.len()) || e < 0 || e - ps > 5 || e > pe || uleb_val(
        s.subrange(ps, e),
    ) >= 0x1_0000_0000 {
        None
    } else {
        Some((uleb_val(s.subrange(ps, e)), e))
    }
}

/// Position after `n` unsigned 32-bit LEB128 items starting at `pos`, staying
/// within `limit`.
pub open spec fn uleb_run(s: Seq<u8>, pos: int, limit: int, n: nat) -> Option<int>
    decreases n,
    via uleb_run_decreases
{
    if n == 0 {
        Some(pos)
    } else {
        let e = leb_end(s, pos);
        if e < 0 || e - pos > 5 || e > limit || uleb_val(s.subrange(pos, e)) >= 0x1_0000_0000 {
            None
        } else {
            uleb_run(s, e, limit, (n - 1) as nat)
        }
    }
}

#[via_fn]
proof fn uleb_run_decreases(s: Seq<u8>, pos: int, limit: int, n: nat) {
}

/// End of one unsigned 32-bit LEB128 item at `pos`, or -1.
pub open spec fn uleb32_end(s: Seq<u8>, pos: int, limit: int) -> int {
    let e = leb_end(s, pos);
    if e < 0 || e - pos > 5 || e > limit || uleb_val(s.subrange(pos, e)) >= 0x1_0000_0000 {
        -1
    } else {
        e
    }
}

/// End of a length-prefixed name at `pos`, or -1.
pub open spec fn name_end(s: Seq<u8>, pos: int, limit: int) -> int {
    let e = uleb32_end(s, pos, limit);
    if e < 0 {
        -1
    } else {
        let n = uleb_val(s.subrange(pos, e));
        if e + n > limit {
            -1
        } else {
            e + n
        }
    }
}

/// Whether a byte encodes a numeric or vector value type.
pub open spec fn is_num_vt(b: u8) -> bool {
    b == 0x7fu8 || b == 0x7eu8 || b == 0x7du8 || b == 0x7cu8 || b == 0x7bu8
}

/// Whether a byte encodes a plain reference type.
pub open spec fn is_ref_vt(b: u8) -> bool {
    b == 0x70u8 || b == 0x6fu8
}

/// End of a table/memory limits record at `pos`, or -1.
pub open spec fn limits_end(s: Seq<u8>, pos: int, limit: int) -> int {
    if !(0 <= pos && pos < limit <= s.len()) {
        -1
    } else if s[pos] == 0x00u8 {
        uleb32_end(s, pos + 1, limit)
    } else if s[pos] == 0x01u8 {
        let e = uleb32_end(s, pos + 1, limit);
        if e < 0 {
            -1
        } else {
            uleb32_end(s, e, limit)
        }
    } else {
        -1
    }
}

/// One import record at `pos`: where it ends and whether it is a function
/// import.
#[verifier::opaque]
pub open spec fn import_at(s: Seq<u8>, pos: int, limit: int) -> Option<(int, bool)> {
    if !(0 <= pos && limit <= s.len()) {
        None
    } else {
        let e1 = name_end(s, pos, limit);
        if e1 < 0 {
            None
        } else {
            let e2 = name_end(s, e1, limit);
            if e2 < 0 || e2 >= limit {
                None
            } else {
                let k = s[e2];
                if k == 0x00u8 {
                    let e = uleb32_end(s, e2 + 1, limit);
                    if e < 0 {
                        None
                    } else {
                        Some((e, true))
                    }
                } else if k == 0x01u8 {
                    if e2 + 1 >= limit || !is_ref_vt(s[e2 + 1]) {
                        None
                    } else {
                        let e = limits_end(s, e2 + 2, limit);
                        if e < 0 {
                            None
                        } else {
                            Some((e, false))
                        }
                    }
                } else if k == 0x02u8 {
                    let e = limits_end(s, e2 + 1, limit);
                    if e < 0 {
                        None
                    } else {
                        Some((e, false))
                    }
                } else if k == 0x03u8 {
                    if e2 + 3 > limit || !(is_num_vt(s[e2 + 1]) || is_ref_vt(s[e2 + 1])) || s[e2
                        + 2] > 1 {
                        None
                    } else {
                        Some((e2 + 3, false))
                    }
                } else if k == 0x04u8 {
                    if e2 + 1 >= limit || s[e2 + 1] != 0x00u8 {
                        None
                    } else {
                        let e = uleb32_end(s, e2 + 2, limit);
                        if e < 0 {
                            None
                        } else {
                            Some((e, false))
                        }
                    }
                } else {
                    None
                }
            }
        }
    }
}

/// A run of `n` import records: the end position and how many are function
/// imports.
pub open spec fn import_run(s: Seq<u8>, pos: int, limit: int, n: nat) -> Option<(int, nat)>
    decreases n,
{
    if n == 0 {
        Some((pos, 0))
    } else {
        match import_at(s, pos, limit) {
            None => None,
            Some((e, isf)) => match import_run(s, e, limit, (n - 1) as nat) {
                None => None,
                Some((end, fc)) => Some((end, fc + (if isf {
                    1nat
                } else {
                    0nat
                }))),
            },
        }
    }
}

/// End of one signed LEB128 item of at most `max` bytes at `pos`, or -1.
pub open spec fn sleb_end_max(s: Seq<u8>, pos: int, limit: int, max: int) -> int {
    let e = leb_end(s, pos);
    if e < 0 || e - pos > max || e > limit {
        -1
    } else {
        e
    }
}

/// End of one instruction allowed in a constant expression, or -1.
pub open spec fn cinstr_end(s: Seq<u8>, pos: int, limit: int) -> int {
    if !(0 <= pos && pos < limit <= s.len()) {
        -1
    } else {
        let op = s[pos];
        if op == 0x41u8 {
            sleb_end_max(s, pos + 1, limit, 5)
        } else if op == 0x42u8 {
            sleb_end_max(s, pos + 1, limit, 10)
        } else if op == 0x43u8 {
            if pos + 5 <= limit {
                pos + 5
            } else {
                -1
            }
        } else if op == 0x44u8 {
            if pos + 9 <= limit {
                pos + 9
            } else {
                -1
            }
        } else if op == 0x23u8 || op == 0xd2u8 {
            uleb32_end(s, pos + 1, limit)
        } else if op == 0xd0u8 {
            if pos + 2 <= limit && is_ref_vt(s[pos + 1]) {
                pos + 2
            } else {
                -1
            }
        } else {
            -1
        }
    }
}

/// End of a whole constant expression (one past its `end` opcode), or -1.
pub open spec fn cexpr_end(s: Seq<u8>, pos: int, limit: int) -> int
    decreases limit - pos,
    via cexpr_end_decreases
{
    if !(0 <= pos && pos < limit <= s.len()) {
        -1
    } else if s[pos] == 0x0bu8 {
        pos + 1
    } else {
        let e = cinstr_end(s, pos, limit);
        if e < 0 {
            -1
        } else {
            cexpr_end(s, e, limit)
        }
    }
}

#[via_fn]
proof fn cexpr_end_decreases(s: Seq<u8>, pos: int, limit: int) {
    if 0 <= pos && pos < limit <= s.len() && s[pos] != 0x0bu8 {
        if leb_end(s, pos + 1) >= 0 {
            lemma_leb_end_bounds(s, pos + 1);
        }
    }
}

/// An offset expression of exactly the form `i32.const v; end`: its end and
/// the 32-bit value.
pub open spec fn iconst_expr(s: Seq<u8>, pos: int, limit: int) -> Option<(int, int)> {
    if !(0 <= pos && pos + 1 <= limit <= s.len()) {
        None
    } else if s[pos] != 0x41u8 {
        None
    } else {
        let e = sleb_end_max(s, pos + 1, limit, 5);
        if e < 0 {
            None
        } else {
            let v = sleb_val(s.subrange(pos + 1, e));
            if !(-0x8000_0000 <= v < 0x8000_0000) || e >= limit || s[e] != 0x0bu8 {
                None
            } else {
                Some((e + 1, v))
            }
        }
    }
}

/// One global record: its end, value type, mutability, and its initial value
/// when the initializer is exactly `i32.const v; end`.
#[verifier::opaque]
pub open spec fn global_at(s: Seq<u8>, pos: int, limit: int) -> Option<
    (int, u8, bool, Option<int>),
> {
    if !(0 <= pos && pos + 2 <= limit <= s.len()) {
        None
    } else {
        let vt = s[pos];
        let mu = s[pos + 1];
        if !(is_num_vt(vt) || is_ref_vt(vt)) || mu > 1 {
            None
        } else {
            let e = cexpr_end(s, pos + 2, limit);
            if e < 0 {
                None
            } else {
                let c = match iconst_expr(s, pos + 2, limit) {
                    Some((_e2, v)) => Some(v),
                    None => None,
                };
                Some((e, vt, mu == 1, c))
            }
        }
    }
}

/// A run of `n` global records.
pub open spec fn global_run(s: Seq<u8>, pos: int, limit: int, n: nat) -> Option<
    (int, Seq<(u8, bool, Option<int>)>),
>
    decreases n,
{
    if n == 0 {
        Some((pos, Seq::empty()))
    } else {
        match global_at(s, pos, limit) {
            None => None,
            Some((e, vt, mu, c)) => match global_run(s, e, limit, (n - 1) as nat) {
                None => None,
                Some((end, recs)) => Some((end, seq![(vt, mu, c)] + recs)),
            },
        }
    }
}

/// The stack-pointer convention this tool checks for: at most one mutable
/// global, of 32-bit integer type, initialized by a plain `i32.const`.
pub open spec fn globals_conform(recs: Seq<(u8, bool, Option<int>)>) -> bool {
    &&& (forall|i: int, j: int|
        0 <= i < j < recs.len() ==> !(#[trigger] recs[i].1 && #[trigger] recs[j].1))
    &&& (forall|i: int|
        0 <= i < recs.len() && (#[trigger] recs[i]).1 ==> recs[i].0 == 0x7fu8 && recs[i].2 is Some)
}

/// One data segment record: its end and the active segment it declares on
/// memory 0. Passive segments and other memories are not supported.
#[verifier::opaque]
pub open spec fn data_seg_at(s: Seq<u8>, pos: int, limit: int) -> Option<(int, Seg)> {
    if !(0 <= pos && pos <= limit <= s.len() && s.len() <= usize::MAX) {
        None
    } else {
        let fe = uleb32_end(s, pos, limit);
        if fe < 0 {
            None
        } else {
            let f = uleb_val(s.subrange(pos, fe));
            if f == 0 || f == 2 {
                let oe = if f == 2 {
                    let me = uleb32_end(s, fe, limit);
                    if me < 0 || uleb_val(s.subrange(fe, me)) != 0 {
                        -1
                    } else {
                        me
                    }
                } else {
                    fe
                };
                if oe < 0 {
                    None
                } else {
                    match iconst_expr(s, oe, limit) {
                        None => None,
                        Some((ee, v)) => {
                            let se = uleb32_end(s, ee, limit);
                            if se < 0 {
                                None
                            } else {
                                let n = uleb_val(s.subrange(ee, se));
                                if se + n > limit {
                                    None
                                } else {
                                    Some(
                                        (
                                            se + n,
                                            Seg {
                                                offset: v as i32,
                                                start: se as usize,
                                                end: (se + n) as usize,
                                            },
                                        ),
                                    )
                                }
                            }
                        },
                    }
                }
            } else {
                None
            }
        }
    }
}

/// A run of `n` data segment records.
pub open spec fn data_run(s: Seq<u8>, pos: int, limit: int, n: nat) -> Option<(int, Seq<Seg>)>
    decreases n,
{
    if n == 0 {
        Some((pos, Seq::empty()))
    } else {
        match data_seg_at(s, pos, limit) {
            None => None,
            Some((e, g)) => match data_run(s, e, limit, (n - 1) as nat) {
                None => None,
                Some((end, segs)) => Some((end, seq![g] + segs)),
            },
        }
    }
}

/// Read the count prefix of a section payload.
pub fn read_count(m: &Vec<u8>, sec: &Section) -> (r: Result<(u32, usize), SqueezeError>)
    requires
        sec.payload_start <= sec.payload_end <= m@.len(),
    ensures
        match r {
            Ok((c, is)) => payload_count(m@, sec.payload_start as int, sec.payload_end as int)
                == Some((c as nat, is as int)),
            Err(e) => e == SqueezeError::Parse && payload_count(
                m@,
                sec.payload_start as int,
                sec.payload_end as int,
            ) is None,
        },
{
    match read_uleb32(m, sec.payload_start) {
        Ok((c, e)) => {
            if e <= sec.payload_end {
                Ok((c, e))
            } else {
                Err(SqueezeError::Parse)
            }
        },
        Err(_) => {
            proof {
                if leb_end(m@, sec.payload_start as int) >= 0 {
                    lemma_leb_end_bounds(m@, sec.payload_start as int);
                }
            }
            Err(SqueezeError::Parse)
        },
    }
}

/// Scan a type section: the input's type count. The items themselves are
/// copied through verbatim by the re-encoder, so only the count and where the
/// items begin are read.
pub fn scan_type_section(m: &Vec<u8>, sec: &Section) -> (r: Result<(u32, usize), SqueezeError>)
    requires
        sec.payload_start <= sec.payload_end <= m@.len(),
    ensures
        match r {
            Ok((c, is)) => payload_count(m@, sec.payload_start as int, sec.payload_end as int)
                == Some((c as nat, is as int)),
            Err(e) => e == SqueezeError::Parse && payload_count(
                m@,
                sec.payload_start as int,
                sec.payload_end as int,
            ) is None,
        },
{
    read_count(m, sec)
}

/// Scan a function section: the declared count, validated against the run of
/// type-index entries that must exactly fill the payload.
pub fn scan_function_section(m: &Vec<u8>, sec: &Section) -> (r: Result<
    (u32, usize),
    SqueezeError,
>)
    requires
        sec.payload_start <= sec.payload_end <= m@.len(),
    ensures
        match r {
            Ok((c, is)) => {
                &&& payload_count(m@, sec.payload_start as int, sec.payload_end as int) == Some(
                    (c as nat, is as int),
                )
                &&& uleb_run(m@, is as int, sec.payload_end as int, c as nat) == Some(
                    sec.payload_end as int,
                )
            },
            Err(e) => {
                &&& e == SqueezeError::Parse
                &&& match payload_count(m@, sec.payload_start as int, sec.payload_end as int) {
                    Some((c, is)) => uleb_run(m@, is, sec.payload_end as int, c) != Some(
                        sec.payload_end as int,
                    ),
                    None => true,
                }
            },
        },
{
    let (count, items_start) = read_count(m, sec)?;
    let mut pos: usize = items_start;
    let mut k: u32 = 0;
    loop
        invariant
            k <= count,
            items_start <= pos <= sec.payload_end <= m@.len(),
            payload_count(m@, sec.payload_start as int, sec.payload_end as int) == Some(
                (count as nat, items_start as int),
            ),
            uleb_run(m@, items_start as int, sec.payload_end as int, count as nat) == uleb_run(
                m@,
                pos as int,
                sec.payload_end as int,
                (count - k) as nat,
            ),
        ensures
            k == count,
            uleb_run(m@, items_start as int, sec.payload_end as int, count as nat) == uleb_run(
                m@,
                pos as int,
                sec.payload_end as int,
                0,
            ),
        decreases count - k,
    {
        if k == count {
            break;
        }
        match read_uleb32(m, pos) {
            Ok((_v, e)) => {
                if e > sec.payload_end {
                    return Err(SqueezeError::Parse);
                }
                pos = e;
                k = k + 1;
            },
            Err(_) => {
                proof {
                    if leb_end(m@, pos as int) >= 0 {
                        lemma_leb_end_bounds(m@, pos as int);
                    }
                }
                return Err(SqueezeError::Parse);
            },
        }
    }
    if pos == sec.payload_end {
        Ok((count, items_start))
    } else {
        Err(SqueezeError::Parse)
    }
}

/// Read a 32-bit LEB128 item, discarding its value.
pub(crate) fn read_u32_at(m: &Vec<u8>, pos: usize, limit: usize) -> (r: Result<usize, SqueezeError>)
    requires
        pos <= m@.len(),
        limit <= m@.len(),
    ensures
        match r {
            Ok(e) => uleb32_end(m@, pos as int, limit as int) == e && pos < e <= limit,
            Err(e) => e == SqueezeError::Parse && uleb32_end(m@, pos as int, limit as int) < 0,
        },
{
    match read_uleb32(m, pos) {
        Ok((_v, e)) => {
            if e <= limit {
                Ok(e)
            } else {
                Err(SqueezeError::Parse)
            }
        },
        Err(_) => {
            proof {
                if leb_end(m@, pos as int) >= 0 {
                    lemma_leb_end_bounds(m@, pos as int);
                }
            }
            Err(SqueezeError::Parse)
        },
    }
}

/// Read past a length-prefixed name.
pub(crate) fn read_name(m: &Vec<u8>, pos: usize, limit: usize) -> (r: Result<usize, SqueezeError>)
    requires
        pos <= m@.len(),
        limit <= m@.len(),
    ensures
        match r {
            Ok(e) => name_end(m@, pos as int, limit as int) == e && pos < e <= limit,
            Err(e) => e == SqueezeError::Parse && name_end(m@, pos as int, limit as int) < 0,
        },
{
    match read_uleb32(m, pos) {
        Ok((n, e)) => {
            if e <= limit && (n as usize) <= limit - e {
                Ok(e + n as usize)
            } else {
                Err(SqueezeError::Parse)
            }
        },
        Err(_) => {
            proof {
                if leb_end(m@, pos as int) >= 0 {
                    lemma_leb_end_bounds(m@, pos as int);
                }
            }
            Err(SqueezeError::Parse)
        },
    }
}

/// Read past a limits record.
fn read_limits(m: &Vec<u8>, pos: usize, limit: usize) -> (r: Result<usize, SqueezeError>)
    requires
        pos <= m@.len(),
        limit <= m@.len(),
    ensures
        match r {
            Ok(e) => limits_end(m@, pos as int, limit as int) == e && pos < e <= limit,
            Err(e) => (e == SqueezeError::Parse || e == SqueezeError::Unsupported) && limits_end(
                m@,
                pos as int,
                limit as int,
            ) < 0,
        },
{
    if pos >= limit {
        return Err(SqueezeError::Parse);
    }
    let flag: u8 = m[pos];
    if flag == 0x00 {
        read_u32_at(m, pos + 1, limit)
    } else if flag == 0x01 {
        let e = read_u32_at(m, pos + 1, limit)?;
        read_u32_at(m, e, limit)
    } else {
        Err(SqueezeError::Unsupported)
    }
}

/// Read one import record.
fn read_import(m: &Vec<u8>, pos: usize, limit: usize) -> (r: Result<(usize, bool), SqueezeError>)
    requires
        pos <= m@.len(),
        limit <= m@.len(),
    ensures
        match r {
            Ok((e, isf)) => import_at(m@, pos as int, limit as int) == Some((e as int, isf)) && pos
                < e <= limit,
            Err(e) => (e == SqueezeError::Parse || e == SqueezeError::Unsupported) && import_at(
                m@,
                pos as int,
                limit as int,
            ) is None,
        },
{
    proof {
        reveal(crate::scan::import_at);
    }
    let e1 = read_name(m, pos, limit)?;
    let e2 = read_name(m, e1, limit)?;
    if e2 >= limit {
        return Err(SqueezeError::Parse);
    }
    let k: u8 = m[e2];
    if k == 0x00 {
        let e = read_u32_at(m, e2 + 1, limit)?;
        Ok((e, true))
    } else if k == 0x01 {
        if e2 + 1 >= limit {
            return Err(SqueezeError::Parse);
        }
        let rt: u8 = m[e2 + 1];
        if !(rt == 0x70 || rt == 0x6f) {
            return Err(SqueezeError::Unsupported);
        }
        let e = read_limits(m, e2 + 2, limit)?;
        Ok((e, false))
    } else if k == 0x02 {
        let e = read_limits(m, e2 + 1, limit)?;
        Ok((e, false))
    } else if k == 0x03 {
        if limit - e2 < 3 {
            return Err(SqueezeError::Parse);
        }
        let vt: u8 = m[e2 + 1];
        let mu: u8 = m[e2 + 2];
        if !(vt == 0x7f || vt == 0x7e || vt == 0x7d || vt == 0x7c || vt == 0x7b || vt == 0x70 || vt
            == 0x6f) || mu > 1 {
            return Err(SqueezeError::Unsupported);
        }
        Ok((e2 + 3, false))
    } else if k == 0x04 {
        if e2 + 1 >= limit {
            return Err(SqueezeError::Parse);
        }
        if m[e2 + 1] != 0x00 {
            return Err(SqueezeError::Unsupported);
        }
        let e = read_u32_at(m, e2 + 2, limit)?;
        Ok((e, false))
    } else {
        Err(SqueezeError::Unsupported)
    }
}

/// Scan an import section: how many of its records are function imports.
#[verifier::rlimit(60)]
pub fn scan_import_section(m: &Vec<u8>, sec: &Section) -> (r: Result<u32, SqueezeError>)
    requires
        sec.payload_start <= sec.payload_end <= m@.len(),
    ensures
        match r {
            Ok(fc) => {
                &&& match payload_count(m@, sec.payload_start as int, sec.payload_end as int) {
                    Some((c, is)) => import_run(m@, is, sec.payload_end as int, c) == Some(
                        (sec.payload_end as int, fc as nat),
                    ),
                    None => false,
                }
            },
            Err(e) => {
                &&& (e == SqueezeError::Parse || e == SqueezeError::Unsupported)
                &&& match payload_count(m@, sec.payload_start as int, sec.payload_end as int) {
                    Some((c, is)) => match import_run(m@, is, sec.payload_end as int, c) {
                        Some((end, _fc)) => end != sec.payload_end,
                        None => true,
                    },
                    None => true,
                }
            },
        },
{
    let (count, items_start) = read_count(m, sec)?;
    let limit = sec.payload_end;
    let mut pos: usize = items_start;
    let mut k: u32 = 0;
    let mut fc: u32 = 0;
    loop
        invariant
            k <= count,
            fc <= k,
            limit == sec.payload_end,
            items_start <= pos <= limit <= m@.len(),
            payload_count(m@, sec.payload_start as int, sec.payload_end as int) == Some(
                (count as nat, items_start as int),
            ),
            (import_run(m@, items_start as int, limit as int, count as nat) is Some <==> import_run(
                m@,
                pos as int,
                limit as int,
                (count - k) as nat,
            ) is Some),
            import_run(m@, pos as int, limit as int, (count - k) as nat) matches Some(p)
                ==> import_run(m@, items_start as int, limit as int, count as nat) == Some(
                (p.0, fc as nat + p.1),
            ),
        ensures
            k == count,
            import_run(m@, items_start as int, limit as int, count as nat) == Some(
                (pos as int, fc as nat),
            ),
        decreases count - k,
    {
        if k == count {
            proof {
                assert(import_run(m@, pos as int, limit as int, 0) == Some::<(int, nat)>(
                    (pos as int, 0nat),
                ));
            }
            break;
        }
        match read_import(m, pos, limit) {
            Ok((e, isf)) => {
                proof {
                    let n = (count - k) as nat;
                    assert(import_run(m@, pos as int, limit as int, n) matches Some(p)
                        ==> import_run(m@, e as int, limit as int, (n - 1) as nat) is Some);
                }
                pos = e;
                k = k + 1;
                if isf {
                    fc = fc + 1;
                }
            },
            Err(e) => {
                proof {
                    let n = (count - k) as nat;
                    assert(n != 0);
                    assert(import_run(m@, pos as int, limit as int, n) is None);
                }
                return Err(e);
            },
        }
    }
    if pos == limit {
        Ok(fc)
    } else {
        Err(SqueezeError::Parse)
    }
}

/// Scan a start section: the payload is exactly one function index.
pub fn scan_start_section(m: &Vec<u8>, sec: &Section) -> (r: Result<u32, SqueezeError>)
    requires
        sec.payload_start <= sec.payload_end <= m@.len(),
    ensures
        match r {
            Ok(f) => {
                &&& payload_count(m@, sec.payload_start as int, sec.payload_end as int) == Some(
                    (f as nat, sec.payload_end as int),
                )
            },
            Err(e) => {
                &&& e == SqueezeError::Parse
                &&& match payload_count(m@, sec.payload_start as int, sec.payload_end as int) {
                    Some((_c, is)) => is != sec.payload_end,
                    None => true,
                }
            },
        },
{
    let (f, e) = read_count(m, sec)?;
    if e == sec.payload_end {
        Ok(f)
    } else {
        Err(SqueezeError::Parse)
    }
}

/// Read past a whole constant expression.
fn read_cexpr(m: &Vec<u8>, pos: usize, limit: usize) -> (r: Result<usize, SqueezeError>)
    requires
        pos <= m@.len(),
        limit <= m@.len(),
    ensures
        match r {
            Ok(e) => cexpr_end(m@, pos as int, limit as int) == e && pos < e <= limit,
            Err(e) => (e == SqueezeError::Parse || e == SqueezeError::Unsupported) && cexpr_end(
                m@,
                pos as int,
                limit as int,
            ) < 0,
        },
{
    if pos >= limit {
        return Err(SqueezeError::Parse);
    }
    let mut p: usize = pos;
    loop
        invariant
            pos <= p <= limit <= m@.len(),
            cexpr_end(m@, pos as int, limit as int) == cexpr_end(m@, p as int, limit as int),
        ensures
            cexpr_end(m@, pos as int, limit as int) == cexpr_end(m@, p as int, limit as int),
            p < limit && m@[p as int] == 0x0bu8,
        decreases limit - p,
    {
        if p >= limit {
            return Err(SqueezeError::Parse);
        }
        let op: u8 = m[p];
        if op == 0x0b {
            break;
        }
        let e: usize = if op == 0x41 {
            match skip_leb(m, p + 1, 5) {
                Ok(e) => e,
                Err(_) => {
                    return Err(SqueezeError::Parse);
                },
            }
        } else if op == 0x42 {
            match skip_leb(m, p + 1, 10) {
                Ok(e) => e,
                Err(_) => {
                    return Err(SqueezeError::Parse);
                },
            }
        } else if op == 0x43 {
            if limit - p < 5 {
                return Err(SqueezeError::Parse);
            }
            p + 5
        } else if op == 0x44 {
            if limit - p < 9 {
                return Err(SqueezeError::Parse);
            }
            p + 9
        } else if op == 0x23 || op == 0xd2 {
            match read_u32_at(m, p + 1, limit) {
                Ok(e) => e,
                Err(e) => {
                    return Err(e);
                },
            }
        } else if op == 0xd0 {
            if limit - p < 2 {
                return Err(SqueezeError::Parse);
            }
            let rt: u8 = m[p + 1];
            if !(rt == 0x70 || rt == 0x6f) {
                return Err(SqueezeError::Unsupported);
            }
            p + 2
        } else {
            return Err(SqueezeError::Unsupported);
        };
        if e > limit {
            return Err(SqueezeError::Parse);
        }
        p = e;
    }
    Ok(p + 1)
}

/// Read an offset expression that must be exactly `i32.const v; end`.
fn read_iconst_expr(m: &Vec<u8>, pos: usize, limit: usize) -> (r: Result<
    (usize, i32),
    SqueezeError,
>)
    requires
        pos <= m@.len(),
        limit <= m@.len(),
    ensures
        match r {
            Ok((e, v)) => iconst_expr(m@, pos as int, limit as int) == Some((e as int, v as int))
                && pos < e <= limit,
            Err(e) => (e == SqueezeError::Parse || e == SqueezeError::UnsupportedOffset)
                && iconst_expr(m@, pos as int, limit as int) is None,
        },
{
    if pos >= limit {
        return Err(SqueezeError::Parse);
    }
    if m[pos] != 0x41 {
        return Err(SqueezeError::UnsupportedOffset);
    }
    match read_sleb32(m, pos + 1) {
        Ok((v, e)) => {
            if e >= limit {
                return Err(SqueezeError::Parse);
            }
            if m[e] != 0x0b {
                return Err(SqueezeError::UnsupportedOffset);
            }
            Ok((e + 1, v))
        },
        Err(_) => {
            proof {
                if leb_end(m@, pos + 1) >= 0 {
                    lemma_leb_end_bounds(m@, pos + 1);
                }
            }
            Err(SqueezeError::Parse)
        },
    }
}

/// Read one global record.
fn read_global(m: &Vec<u8>, pos: usize, limit: usize) -> (r: Result<
    (usize, u8, bool, Option<i32>),
    SqueezeError,
>)
    requires
        pos <= m@.len(),
        limit <= m@.len(),
    ensures
        match r {
            Ok((e, vt, mu, c)) => {
                &&& global_at(m@, pos as int, limit as int) matches Some((ge, gvt, gmu, gc))
                    && ge == e && gvt == vt && gmu == mu && gc == (match c {
                    Some(v) => Some(v as int),
                    None => None,
                })
                &&& pos < e <= limit
            },
            Err(e) => (e == SqueezeError::Parse || e == SqueezeError::Unsupported) && global_at(
                m@,
                pos as int,
                limit as int,
            ) is None,
        },
{
    proof {
        reveal(crate::scan::global_at);
    }
    if pos >= limit || limit - pos < 2 {
        return Err(SqueezeError::Parse);
    }
    let vt: u8 = m[pos];
    let mu: u8 = m[pos + 1];
    if !(vt == 0x7f || vt == 0x7e || vt == 0x7d || vt == 0x7c || vt == 0x7b || vt == 0x70 || vt
        == 0x6f) || mu > 1 {
        return Err(SqueezeError::Unsupported);
    }
    let e = read_cexpr(m, pos + 2, limit)?;
    let c: Option<i32> = match read_iconst_expr(m, pos + 2, limit) {
        Ok((_e2, v)) => Some(v),
        Err(_) => None,
    };
    Ok((e, vt, mu == 1, c))
}

/// Scan a global section, checking the stack-pointer convention: at most one
/// mutable global, its value type 32-bit integer, its initial value a plain
/// constant. Returns that global's index and initial value, if one exists.
#[verifier::rlimit(60)]
pub fn scan_global_section(m: &Vec<u8>, sec: &Section) -> (r: Result<
    Option<(u32, i32)>,
    SqueezeError,
>)
    requires
        sec.payload_start <= sec.payload_end <= m@.len(),
    ensures
        match r {
            Ok(mg) => {
                &&& match payload_count(m@, sec.payload_start as int, sec.payload_end as int) {
                    Some((c, is)) => match global_run(m@, is, sec.payload_end as int, c) {
                        Some((end, recs)) => {
                            &&& end == sec.payload_end
                            &&& globals_conform(recs)
                            &&& match mg {
                                Some((i, v)) => i < recs.len() && recs[i as int].1 && recs[i as int].2 == Some(v as int),
                                None => forall|i: int| 0 <= i < recs.len() ==> !recs[i].1,
                            }
                        },
                        None => false,
                    },
                    None => false,
                }
            },
            Err(e) => {
                &&& (e == SqueezeError::Parse || e == SqueezeError::Unsupported)
                &&& match payload_count(m@, sec.payload_start as int, sec.payload_end as int) {
                    Some((c, is)) => match global_run(m@, is, sec.payload_end as int, c) {
                        Some((end, recs)) => end != sec.payload_end || !globals_conform(recs),
                        None => true,
                    },
                    None => true,
                }
            },
        },
{
    let (count, items_start) = read_count(m, sec)?;
    let limit = sec.payload_end;
    let mut pos: usize = items_start;
    let mut k: u32 = 0;
    let mut mg: Option<(u32, i32)> = None;
    let ghost mut grecs: Seq<(u8, bool, Option<int>)> = Seq::empty();
    loop
        invariant
            k <= count,
            limit == sec.payload_end,
            items_start <= pos <= limit <= m@.len(),
            payload_count(m@, sec.payload_start as int, sec.payload_end as int) == Some(
                (count as nat, items_start as int),
            ),
            grecs.len() == k,
            (global_run(m@, items_start as int, limit as int, count as nat) is Some <==> global_run(
                m@,
                pos as int,
                limit as int,
                (count - k) as nat,
            ) is Some),
            global_run(m@, pos as int, limit as int, (count - k) as nat) matches Some(p)
                ==> global_run(m@, items_start as int, limit as int, count as nat) == Some(
                (p.0, grecs + p.1),
            ),
            globals_conform(grecs),
            match mg {
                Some((i, v)) => i < grecs.len() && grecs[i as int].1 && grecs[i as int].2 == Some(
                    v as int,
                ),
                None => forall|i: int| 0 <= i < grecs.len() ==> !grecs[i].1,
            },
        ensures
            k == count,
            global_run(m@, items_start as int, limit as int, count as nat) == Some(
                (pos as int, grecs),
            ),
            globals_conform(grecs),
            match mg {
                Some((i, v)) => i < grecs.len() && grecs[i as int].1 && grecs[i as int].2 == Some(
                    v as int,
                ),
                None => forall|i: int| 0 <= i < grecs.len() ==> !grecs[i].1,
            },
        decreases count - k,
    {
        if k == count {
            proof {
                assert(global_run(m@, pos as int, limit as int, 0) == Some(
                    (pos as int, Seq::<(u8, bool, Option<int>)>::empty()),
                ));
                assert(grecs + Seq::<(u8, bool, Option<int>)>::empty() =~= grecs);
            }
            break;
        }
        match read_global(m, pos, limit) {
            Ok((e, vt, mu, c)) => {
                if mu && (mg.is_some() || vt != 0x7f || c.is_none()) {
                    // this mutable global breaks the stack-pointer convention
                    proof {
                        let rec = (vt, mu, (match c {
                            Some(v) => Some(v as int),
                            None => None,
                        }));
                        let n = (count - k) as nat;
                        match global_run(m@, e as int, limit as int, (n - 1) as nat) {
                            Some(p2) => {
                                let full = grecs + (seq![rec] + p2.1);
                                let newi = grecs.len() as int;
                                assert(full[newi] == rec);
                                match mg {
                                    Some((i, _v)) => {
                                        assert(full[i as int].1 && full[newi].1);
                                        assert(!globals_conform(full));
                                    },
                                    None => {
                                        assert(full[newi].1 && (full[newi].0 != 0x7fu8 || full[newi].2 is None));
                                        assert(!globals_conform(full));
                                    },
                                }
                            },
                            None => {},
                        }
                    }
                    return Err(SqueezeError::Unsupported);
                }
                if mu {
                    match c {
                        Some(v) => {
                            mg = Some((k, v));
                        },
                        None => {},
                    }
                }
                proof {
                    let rec = (vt, mu, (match c {
                        Some(v) => Some(v as int),
                        None => None,
                    }));
                    let n = (count - k) as nat;
                    match global_run(m@, e as int, limit as int, (n - 1) as nat) {
                        Some(p2) => {
                            assert(grecs + (seq![rec] + p2.1) =~= (grecs + seq![rec]) + p2.1);
                        },
                        None => {},
                    }
                    grecs = grecs + seq![rec];
                }
                pos = e;
                k = k + 1;
            },
            Err(e) => {
                proof {
                    let n = (count - k) as nat;
                    assert(n != 0);
                    assert(global_run(m@, pos as int, limit as int, n) is None);
                }
                return Err(e);
            },
        }
    }
    if pos == limit {
        Ok(mg)
    } else {
        Err(SqueezeError::Parse)
    }
}

/// Read one data segment record.
fn read_data_seg(m: &Vec<u8>, pos: usize, limit: usize) -> (r: Result<
    (usize, Seg),
    SqueezeError,
>)
    requires
        pos <= m@.len(),
        limit <= m@.len(),
    ensures
        match r {
            Ok((e, g)) => data_seg_at(m@, pos as int, limit as int) == Some((e as int, g)) && pos
                < e <= limit,
            Err(e) => (e == SqueezeError::Parse || e == SqueezeError::Unsupported || e
                == SqueezeError::UnsupportedOffset) && data_seg_at(
                m@,
                pos as int,
                limit as int,
            ) is None,
        },
{
    proof {
        reveal(crate::scan::data_seg_at);
    }
    let mlen = m.len();
    assert(m@.len() == mlen && mlen <= usize::MAX);
    let (f, fe) = match read_uleb32(m, pos) {
        Ok((f, fe)) => {
            if fe > limit {
                return Err(SqueezeError::Parse);
            }
            (f, fe)
        },
        Err(_) => {
            proof {
                if leb_end(m@, pos as int) >= 0 {
                    lemma_leb_end_bounds(m@, pos as int);
                }
            }
            return Err(SqueezeError::Parse);
        },
    };
    if f == 0 || f == 2 {
        let oe: usize = if f == 2 {
            let (mi, me) = match read_uleb32(m, fe) {
                Ok(x) => x,
                Err(_) => {
                    proof {
                        if leb_end(m@, fe as int) >= 0 {
                            lemma_leb_end_bounds(m@, fe as int);
                        }
                    }
                    return Err(SqueezeError::Parse);
                },
            };
            if me > limit {
                return Err(SqueezeError::Parse);
            }
            if mi != 0 {
                return Err(SqueezeError::Unsupported);
            }
            me
        } else {
            fe
        };
        let (ee, v) = read_iconst_expr(m, oe, limit)?;
        let (n, se) = match read_uleb32(m, ee) {
            Ok(x) => x,
            Err(_) => {
                proof {
                    if leb_end(m@, ee as int) >= 0 {
                        lemma_leb_end_bounds(m@, ee as int);
                    }
                }
                return Err(SqueezeError::Parse);
            },
        };
        if se > limit || (n as usize) > limit - se {
            return Err(SqueezeError::Parse);
        }
        Ok((se + n as usize, Seg { offset: v, start: se, end: se + n as usize }))
    } else {
        // a passive segment, or another form this tool does not rewrite
        Err(SqueezeError::Unsupported)
    }
}

/// Scan a data section: each segment must be active on memory 0 with a
/// plain constant offset; anything else is rejected.
#[verifier::rlimit(60)]
pub fn scan_data_section(m: &Vec<u8>, sec: &Section) -> (r: Result<Vec<Seg>, SqueezeError>)
    requires
        sec.payload_start <= sec.payload_end <= m@.len(),
    ensures
        match r {
            Ok(v) => {
                &&& match payload_count(m@, sec.payload_start as int, sec.payload_end as int) {
                    Some((c, is)) => data_run(m@, is, sec.payload_end as int, c) == Some(
                        (sec.payload_end as int, v@),
                    ),
                    None => false,
                }
            },
            Err(e) => {
                &&& (e == SqueezeError::Parse || e == SqueezeError::Unsupported || e
                    == SqueezeError::UnsupportedOffset)
                &&& match payload_count(m@, sec.payload_start as int, sec.payload_end as int) {
                    Some((c, is)) => match data_run(m@, is, sec.payload_end as int, c) {
                        Some((end, _segs)) => end != sec.payload_end,
                        None => true,
                    },
                    None => true,
                }
            },
        },
{
    let (count, items_start) = read_count(m, sec)?;
    let limit = sec.payload_end;
    let mut pos: usize = items_start;
    let mut k: u32 = 0;
    let mut segs: Vec<Seg> = Vec::new();
    loop
        invariant
            k <= count,
            limit == sec.payload_end,
            items_start <= pos <= limit <= m@.len(),
            payload_count(m@, sec.payload_start as int, sec.payload_end as int) == Some(
                (count as nat, items_start as int),
            ),
            (data_run(m@, items_start as int, limit as int, count as nat) is Some <==> data_run(
                m@,
                pos as int,
                limit as int,
                (count - k) as nat,
            ) is Some),
            data_run(m@, pos as int, limit as int, (count - k) as nat) matches Some(p) ==> data_run(
                m@,
                items_start as int,
                limit as int,
                count as nat,
            ) == Some((p.0, segs@ + p.1)),
        ensures
            k == count,
            data_run(m@, items_start as int, limit as int, count as nat) == Some(
                (pos as int, segs@),
            ),
        decreases count - k,
    {
        if k == count {
            proof {
                assert(data_run(m@, pos as int, limit as int, 0) == Some(
                    (pos as int, Seq::<Seg>::empty()),
                ));
                assert(segs@ + Seq::<Seg>::empty() =~= segs@);
            }
            break;
        }
        match read_data_seg(m, pos, limit) {
            Ok((e, g)) => {
                proof {
                    let n = (count - k) as nat;
                    match data_run(m@, e as int, limit as int, (n - 1) as nat) {
                        Some(p2) => {
                            assert(segs@ + (seq![g] + p2.1) =~= segs@.push(g) + p2.1);
                        },
                        None => {},
                    }
                }
                segs.push(g);
                pos = e;
                k = k + 1;
            },
            Err(e) => {
                proof {
                    let n = (count - k) as nat;
                    assert(n != 0);
                    assert(data_run(m@, pos as int, limit as int, n) is None);
                }
                return Err(e);
            },
        }
    }
    if pos == limit {
        Ok(segs)
    } else {
        Err(SqueezeError::Parse)
    }
}

/// Scan a data-count section: the payload is exactly one count.
pub fn scan_data_count_section(m: &Vec<u8>, sec: &Section) -> (r: Result<u32, SqueezeError>)
    requires
        sec.payload_start <= sec.payload_end <= m@.len(),
    ensures
        match r {
            Ok(c) => {
                &&& payload_count(m@, sec.payload_start as int, sec.payload_end as int) == Some(
                    (c as nat, sec.payload_end as int),
                )
            },
            Err(e) => {
                &&& e == SqueezeError::Parse
                &&& match payload_count(m@, sec.payload_start as int, sec.payload_end as int) {
                    Some((_c, is)) => is != sec.payload_end,
                    None => true,
                }
            },
        },
{
    let (c, e) = read_count(m, sec)?;
    if e == sec.payload_end {
        Ok(c)
    } else {
        Err(SqueezeError::Parse)
    }
}

} // verus!
