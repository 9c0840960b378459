//! The index-rebase view used when the decompressor module is grafted into
//! the host module: a stateless transform adding one base per index space,
//! and the function-body rewriter that applies it to call and type
//! references inside the decompressor's code.

use vstd::prelude::*;

use crate::err::SqueezeError;
use crate::info::push_range;
use crate::leb::{leb_end, lemma_leb_end_bounds, read_uleb32, skip_leb, uleb, uleb_val, write_uleb};
use crate::scan::{is_num_vt, is_ref_vt, read_u32_at, sleb_end_max, uleb32_end, uleb_run};

verus! {

/// Rebasing offsets for the decompressor's type and function index spaces.
#[derive(Clone, Copy, Debug)]
pub struct AdaptUnpacker {
    pub functions_index_base: u32,
    pub types_index_base: u32,
}

impl AdaptUnpacker {
    /// A type index of the decompressor, renumbered into the combined module.
    pub fn type_index(&self, ty: u32) -> (r: Result<u32, SqueezeError>)
        ensures
            match r {
                Ok(v) => v == self.types_index_base + ty,
                Err(e) => e == SqueezeError::Encode && self.types_index_base + ty > u32::MAX,
            },
    {
        match self.types_index_base.checked_add(ty) {
            Some(v) => Ok(v),
            None => Err(SqueezeError::Encode),
        }
    }

    /// A function index of the decompressor, renumbered into the combined
    /// module.
    pub fn function_index(&self, func: u32) -> (r: Result<u32, SqueezeError>)
        ensures
            match r {
                Ok(v) => v == self.functions_index_base + func,
                Err(e) => e == SqueezeError::Encode && self.functions_index_base + func
                    > u32::MAX,
            },
    {
        match self.functions_index_base.checked_add(func) {
            Some(v) => Ok(v),
            None => Err(SqueezeError::Encode),
        }
    }
}

/// Index-space soundness of rebasing: when the rebased range fits under the
/// combined total, every rebased index is in bounds, and two distinct
/// original indices never collide.
pub proof fn lemma_renumber_sound(base: int, count: int, total: int, t1: int, t2: int)
    requires
        base + count <= total,
        0 <= t1 < count,
        0 <= t2 < count,
    ensures
        base + t1 < total,
        t1 != t2 ==> base + t1 != base + t2,
{
}

/// The immediate shapes of the instructions the body rewriter understands.
pub enum ImmClass {
    Plain,
    OneIdx,
    MemArg,
    ConstI32,
    ConstI64,
    ConstF32,
    ConstF64,
    Block,
    CallFn,
    CallInd,
    RefFunc,
    RefNull,
    BrTable,
    SelectT,
    Prefix,
    Bad,
}

/// Which immediate shape an opcode carries.
pub open spec fn class_of(op: u8) -> ImmClass {
    if op == 0x00u8 || op == 0x01u8 || op == 0x05u8 || op == 0x0bu8 || op == 0x0fu8 || op == 0x1au8
        || op == 0x1bu8 || (0x45u8 <= op && op <= 0xc4u8) || op == 0xd1u8 {
        ImmClass::Plain
    } else if op == 0x02u8 || op == 0x03u8 || op == 0x04u8 {
        ImmClass::Block
    } else if op == 0x0cu8 || op == 0x0du8 || (0x20u8 <= op && op <= 0x26u8) || op == 0x3fu8 || op
        == 0x40u8 {
        ImmClass::OneIdx
    } else if op == 0x0eu8 {
        ImmClass::BrTable
    } else if op == 0x10u8 || op == 0x12u8 {
        ImmClass::CallFn
    } else if op == 0x11u8 || op == 0x13u8 {
        ImmClass::CallInd
    } else if op == 0x1cu8 {
        ImmClass::SelectT
    } else if 0x28u8 <= op && op <= 0x3eu8 {
        ImmClass::MemArg
    } else if op == 0x41u8 {
        ImmClass::ConstI32
    } else if op == 0x42u8 {
        ImmClass::ConstI64
    } else if op == 0x43u8 {
        ImmClass::ConstF32
    } else if op == 0x44u8 {
        ImmClass::ConstF64
    } else if op == 0xd0u8 {
        ImmClass::RefNull
    } else if op == 0xd2u8 {
        ImmClass::RefFunc
    } else if op == 0xfcu8 {
        ImmClass::Prefix
    } else {
        ImmClass::Bad
    }
}

/// All bytes in `[a, b)` encode numeric value types.
pub open spec fn all_num_vt(s: Seq<u8>, a: int, b: int) -> bool {
    forall|i: int| a <= i < b ==> is_num_vt(#[trigger] s[i])
}

/// One instruction at `pos`, rewritten: where the next instruction starts
/// and the output bytes, with function indices rebased by `fb` and type
/// indices by `tb`.
#[verifier::opaque]
pub open spec fn renum_step(s: Seq<u8>, pos: int, limit: int, tb: nat, fb: nat) -> Option<
    (int, Seq<u8>),
> {
    if !(0 <= pos && pos < limit <= s.len()) {
        None
    } else {
        let op = s[pos];
        match class_of(op) {
            ImmClass::Plain => Some((pos + 1, seq![op])),
            ImmClass::OneIdx => {
                let e = uleb32_end(s, pos + 1, limit);
                if e < 0 {
                    None
                } else {
                    Some((e, s.subrange(pos, e)))
                }
            },
            ImmClass::MemArg => {
                let e1 = uleb32_end(s, pos + 1, limit);
                if e1 < 0 {
                    None
                } else {
                    let e = uleb32_end(s, e1, limit);
                    if e < 0 {
                        None
                    } else {
                        Some((e, s.subrange(pos, e)))
                    }
                }
            },
            ImmClass::ConstI32 => {
                let e = sleb_end_max(s, pos + 1, limit, 5);
                if e < 0 {
                    None
                } else {
                    Some((e, s.subrange(pos, e)))
                }
            },
            ImmClass::ConstI64 => {
                let e = sleb_end_max(s, pos + 1, limit, 10);
                if e < 0 {
                    None
                } else {
                    Some((e, s.subrange(pos, e)))
                }
            },
            ImmClass::ConstF32 => {
                if pos + 5 <= limit {
                    Some((pos + 5, s.subrange(pos, pos + 5)))
                } else {
                    None
                }
            },
            ImmClass::ConstF64 => {
                if pos + 9 <= limit {
                    Some((pos + 9, s.subrange(pos, pos + 9)))
                } else {
                    None
                }
            },
            ImmClass::Block => {
                if pos + 2 <= limit && (s[pos + 1] == 0x40u8 || is_num_vt(s[pos + 1]) || is_ref_vt(
                    s[pos + 1],
                )) {
                    Some((pos + 2, s.subrange(pos, pos + 2)))
                } else {
                    None
                }
            },
            ImmClass::CallFn => {
                let e = uleb32_end(s, pos + 1, limit);
                if e < 0 {
                    None
                } else {
                    let f = uleb_val(s.subrange(pos + 1, e));
                    if fb + f > u32::MAX {
                        None
                    } else {
                        Some((e, seq![op] + uleb(fb + f)))
                    }
                }
            },
            ImmClass::CallInd => {
                let e1 = uleb32_end(s, pos + 1, limit);
                if e1 < 0 {
                    None
                } else {
                    let t = uleb_val(s.subrange(pos + 1, e1));
                    if tb + t > u32::MAX {
                        None
                    } else {
                        let e = uleb32_end(s, e1, limit);
                        if e < 0 {
                            None
                        } else {
                            Some((e, seq![op] + uleb(tb + t) + s.subrange(e1, e)))
                        }
                    }
                }
            },
            ImmClass::RefFunc => {
                let e = uleb32_end(s, pos + 1, limit);
                if e < 0 {
                    None
                } else {
                    let f = uleb_val(s.subrange(pos + 1, e));
                    if fb + f > u32::MAX {
                        None
                    } else {
                        Some((e, seq![op] + uleb(fb + f)))
                    }
                }
            },
            ImmClass::RefNull => {
                if pos + 2 <= limit && is_ref_vt(s[pos + 1]) {
                    Some((pos + 2, s.subrange(pos, pos + 2)))
                } else {
                    None
                }
            },
            ImmClass::BrTable => {
                let ce = uleb32_end(s, pos + 1, limit);
                if ce < 0 {
                    None
                } else {
                    let n = uleb_val(s.subrange(pos + 1, ce));
                    match uleb_run(s, ce, limit, n + 1) {
                        None => None,
                        Some(e) => Some((e, s.subrange(pos, e))),
                    }
                }
            },
            ImmClass::SelectT => {
                let ce = uleb32_end(s, pos + 1, limit);
                if ce < 0 {
                    None
                } else {
                    let n = uleb_val(s.subrange(pos + 1, ce));
                    if ce + n > limit || !all_num_vt(s, ce, ce + n) {
                        None
                    } else {
                        Some((ce + n, s.subrange(pos, ce + n)))
                    }
                }
            },
            ImmClass::Prefix => {
                let se = uleb32_end(s, pos + 1, limit);
                if se < 0 {
                    None
                } else {
                    let sub = uleb_val(s.subrange(pos + 1, se));
                    if sub <= 7 {
                        Some((se, s.subrange(pos, se)))
                    } else if sub == 10 {
                        let e1 = uleb32_end(s, se, limit);
                        if e1 < 0 {
                            None
                        } else {
                            let e = uleb32_end(s, e1, limit);
                            if e < 0 {
                                None
                            } else {
                                Some((e, s.subrange(pos, e)))
                            }
                        }
                    } else if sub == 11 {
                        let e = uleb32_end(s, se, limit);
                        if e < 0 {
                            None
                        } else {
                            Some((e, s.subrange(pos, e)))
                        }
                    } else {
                        None
                    }
                }
            },
            ImmClass::Bad => None,
        }
    }
}

/// Steps never stand still and never pass the limit.
pub proof fn lemma_renum_step_bounds(s: Seq<u8>, pos: int, limit: int, tb: nat, fb: nat)
    ensures
        match renum_step(s, pos, limit, tb, fb) {
            Some((nx, _o)) => pos < nx <= limit,
            None => true,
        },
{
    reveal(crate::renumber::renum_step);
    if 0 <= pos && pos < limit <= s.len() {
        if leb_end(s, pos + 1) >= 0 {
            lemma_leb_end_bounds(s, pos + 1);
        }
        match class_of(s[pos]) {
            ImmClass::CallInd => {
                let e1 = uleb32_end(s, pos + 1, limit);
                if e1 >= 0 && leb_end(s, e1) >= 0 {
                    lemma_leb_end_bounds(s, e1);
                }
            },
            ImmClass::MemArg => {
                let e1 = uleb32_end(s, pos + 1, limit);
                if e1 >= 0 && leb_end(s, e1) >= 0 {
                    lemma_leb_end_bounds(s, e1);
                }
            },
            ImmClass::BrTable => {
                let ce = uleb32_end(s, pos + 1, limit);
                if ce >= 0 {
                    let n = uleb_val(s.subrange(pos + 1, ce));
                    lemma_uleb_run_bounds(s, ce, limit, n + 1);
                }
            },
            ImmClass::Prefix => {
                let se = uleb32_end(s, pos + 1, limit);
                if se >= 0 {
                    if leb_end(s, se) >= 0 {
                        lemma_leb_end_bounds(s, se);
                    }
                    let e1 = uleb32_end(s, se, limit);
                    if e1 >= 0 && leb_end(s, e1) >= 0 {
                        lemma_leb_end_bounds(s, e1);
                    }
                }
            },
            _ => {},
        }
    }
}

/// A run of LEB128 items only moves forward, up to the limit.
pub proof fn lemma_uleb_run_bounds(s: Seq<u8>, pos: int, limit: int, n: nat)
    requires
        pos <= limit,
    ensures
        match uleb_run(s, pos, limit, n) {
            Some(e) => pos <= e <= limit,
            None => true,
        },
    decreases n,
{
    if n > 0 {
        if leb_end(s, pos) >= 0 {
            lemma_leb_end_bounds(s, pos);
        }
        let e = leb_end(s, pos);
        if !(e < 0 || e - pos > 5 || e > limit || uleb_val(s.subrange(pos, e))
            >= 0x1_0000_0000) {
            lemma_uleb_run_bounds(s, e, limit, (n - 1) as nat);
        }
    }
}

/// A whole instruction stream from `pos` to `limit`, rewritten.
pub open spec fn renum_run(s: Seq<u8>, pos: int, limit: int, tb: nat, fb: nat) -> Option<Seq<u8>>
    decreases limit - pos,
    via renum_run_decreases
{
    if !(0 <= pos && pos <= limit <= s.len()) {
        None
    } else if pos == limit {
        Some(Seq::empty())
    } else {
        match renum_step(s, pos, limit, tb, fb) {
            None => None,
            Some((nx, o)) => match renum_run(s, nx, limit, tb, fb) {
                None => None,
                Some(rest) => Some(o + rest),
            },
        }
    }
}

#[via_fn]
proof fn renum_run_decreases(s: Seq<u8>, pos: int, limit: int, tb: nat, fb: nat) {
    lemma_renum_step_bounds(s, pos, limit, tb, fb);
}

/// Decide an opcode's immediate shape.
fn classify(op: u8) -> (c: ImmClass)
    ensures
        c == class_of(op),
{
    if op == 0x00 || op == 0x01 || op == 0x05 || op == 0x0b || op == 0x0f || op == 0x1a || op
        == 0x1b || (0x45 <= op && op <= 0xc4) || op == 0xd1 {
        ImmClass::Plain
    } else if op == 0x02 || op == 0x03 || op == 0x04 {
        ImmClass::Block
    } else if op == 0x0c || op == 0x0d || (0x20 <= op && op <= 0x26) || op == 0x3f || op == 0x40 {
        ImmClass::OneIdx
    } else if op == 0x0e {
        ImmClass::BrTable
    } else if op == 0x10 || op == 0x12 {
        ImmClass::CallFn
    } else if op == 0x11 || op == 0x13 {
        ImmClass::CallInd
    } else if op == 0x1c {
        ImmClass::SelectT
    } else if 0x28 <= op && op <= 0x3e {
        ImmClass::MemArg
    } else if op == 0x41 {
        ImmClass::ConstI32
    } else if op == 0x42 {
        ImmClass::ConstI64
    } else if op == 0x43 {
        ImmClass::ConstF32
    } else if op == 0x44 {
        ImmClass::ConstF64
    } else if op == 0xd0 {
        ImmClass::RefNull
    } else if op == 0xd2 {
        ImmClass::RefFunc
    } else if op == 0xfc {
        ImmClass::Prefix
    } else {
        ImmClass::Bad
    }
}

/// The common contract of one rewriting step, for an opcode of the given
/// class.
pub open spec fn step_post(
    s: Seq<u8>,
    pos: int,
    limit: int,
    tb: nat,
    fb: nat,
    r: Result<usize, SqueezeError>,
    out_old: Seq<u8>,
    out_new: Seq<u8>,
) -> bool {
    match r {
        Ok(nx) => match renum_step(s, pos, limit, tb, fb) {
            Some((snx, o)) => nx == snx && out_new == out_old + o && pos < nx <= limit,
            None => false,
        },
        Err(e) => (e == SqueezeError::Parse || e == SqueezeError::Unsupported || e
            == SqueezeError::Encode) && renum_step(s, pos, limit, tb, fb) is None,
    }
}

/// Steps that copy the instruction bytes through unchanged.
#[verifier::rlimit(100)]
fn step_copy(m: &Vec<u8>, pos: usize, limit: usize, out: &mut Vec<u8>, tb: u32, fb: u32) -> (r:
    Result<usize, SqueezeError>)
    requires
        pos < limit <= m@.len(),
        class_of(m@[pos as int]) == ImmClass::OneIdx || class_of(m@[pos as int])
            == ImmClass::MemArg || class_of(m@[pos as int]) == ImmClass::ConstI32 || class_of(
            m@[pos as int],
        ) == ImmClass::ConstI64 || class_of(m@[pos as int]) == ImmClass::ConstF32 || class_of(
            m@[pos as int],
        ) == ImmClass::ConstF64 || class_of(m@[pos as int]) == ImmClass::Block || class_of(
            m@[pos as int],
        ) == ImmClass::RefNull || class_of(m@[pos as int]) == ImmClass::Prefix,
    ensures
        step_post(m@, pos as int, limit as int, tb as nat, fb as nat, r, old(out)@, final(out)@),
{
    proof {
        reveal(crate::renumber::renum_step);
    }
    let op: u8 = m[pos];
    match classify(op) {
        ImmClass::OneIdx => {
            let e = read_u32_at(m, pos + 1, limit)?;
            push_range(out, m, pos, e);
            Ok(e)
        },
        ImmClass::MemArg => {
            let e1 = read_u32_at(m, pos + 1, limit)?;
            let e = read_u32_at(m, e1, limit)?;
            push_range(out, m, pos, e);
            Ok(e)
        },
        ImmClass::ConstI32 => {
            let e = match skip_leb(m, pos + 1, 5) {
                Ok(e) => e,
                Err(e) => {
                    return Err(e);
                },
            };
            if e > limit {
                return Err(SqueezeError::Parse);
            }
            push_range(out, m, pos, e);
            Ok(e)
        },
        ImmClass::ConstI64 => {
            let e = match skip_leb(m, pos + 1, 10) {
                Ok(e) => e,
                Err(e) => {
                    return Err(e);
                },
            };
            if e > limit {
                return Err(SqueezeError::Parse);
            }
            push_range(out, m, pos, e);
            Ok(e)
        },
        ImmClass::ConstF32 => {
            if limit - pos < 5 {
                return Err(SqueezeError::Parse);
            }
            push_range(out, m, pos, pos + 5);
            Ok(pos + 5)
        },
        ImmClass::ConstF64 => {
            if limit - pos < 9 {
                return Err(SqueezeError::Parse);
            }
            push_range(out, m, pos, pos + 9);
            Ok(pos + 9)
        },
        ImmClass::Block => {
            if limit - pos < 2 {
                return Err(SqueezeError::Parse);
            }
            let b: u8 = m[pos + 1];
            if !(b == 0x40 || b == 0x7f || b == 0x7e || b == 0x7d || b == 0x7c || b == 0x7b || b
                == 0x70 || b == 0x6f) {
                return Err(SqueezeError::Unsupported);
            }
            push_range(out, m, pos, pos + 2);
            Ok(pos + 2)
        },
        ImmClass::RefNull => {
            if limit - pos < 2 {
                return Err(SqueezeError::Parse);
            }
            let b: u8 = m[pos + 1];
            if !(b == 0x70 || b == 0x6f) {
                return Err(SqueezeError::Unsupported);
            }
            push_range(out, m, pos, pos + 2);
            Ok(pos + 2)
        },
        ImmClass::Prefix => {
            let (sub, se) = match read_uleb32(m, pos + 1) {
                Ok(x) => x,
                Err(e) => {
                    proof {
                        if leb_end(m@, pos + 1) >= 0 {
                            lemma_leb_end_bounds(m@, pos + 1);
                        }
                    }
                    return Err(e);
                },
            };
            if se > limit {
                return Err(SqueezeError::Parse);
            }
            if sub <= 7 {
                push_range(out, m, pos, se);
                Ok(se)
            } else if sub == 10 {
                let e1 = read_u32_at(m, se, limit)?;
                let e = read_u32_at(m, e1, limit)?;
                push_range(out, m, pos, e);
                Ok(e)
            } else if sub == 11 {
                let e = read_u32_at(m, se, limit)?;
                push_range(out, m, pos, e);
                Ok(e)
            } else {
                Err(SqueezeError::Unsupported)
            }
        },
        _ => {
            // unreachable: the requires pins the class
            Err(SqueezeError::Unsupported)
        },
    }
}

/// Steps that rebase a function or type index.
#[verifier::rlimit(100)]
fn step_call(m: &Vec<u8>, pos: usize, limit: usize, out: &mut Vec<u8>, tb: u32, fb: u32) -> (r:
    Result<usize, SqueezeError>)
    requires
        pos < limit <= m@.len(),
        class_of(m@[pos as int]) == ImmClass::CallFn || class_of(m@[pos as int])
            == ImmClass::RefFunc || class_of(m@[pos as int]) == ImmClass::CallInd,
    ensures
        step_post(m@, pos as int, limit as int, tb as nat, fb as nat, r, old(out)@, final(out)@),
{
    proof {
        reveal(crate::renumber::renum_step);
    }
    let op: u8 = m[pos];
    let (v, e1) = match read_uleb32(m, pos + 1) {
        Ok(x) => x,
        Err(e) => {
            proof {
                if leb_end(m@, pos + 1) >= 0 {
                    lemma_leb_end_bounds(m@, pos + 1);
                }
            }
            return Err(e);
        },
    };
    if e1 > limit {
        return Err(SqueezeError::Parse);
    }
    match classify(op) {
        ImmClass::CallInd => {
            if v > u32::MAX - tb {
                return Err(SqueezeError::Encode);
            }
            let e = read_u32_at(m, e1, limit)?;
            out.push(op);
            write_uleb(out, (tb + v) as u64);
            push_range(out, m, e1, e);
            proof {
                assert(final(out)@ =~= old(out)@ + (seq![op] + uleb((tb + v) as nat) + m@.subrange(
                    e1 as int,
                    e as int,
                )));
            }
            Ok(e)
        },
        _ => {
            if v > u32::MAX - fb {
                return Err(SqueezeError::Encode);
            }
            out.push(op);
            write_uleb(out, (fb + v) as u64);
            proof {
                assert(final(out)@ =~= old(out)@ + (seq![op] + uleb((fb + v) as nat)));
            }
            Ok(e1)
        },
    }
}

/// Steps whose immediates are a counted list: branch tables and typed
/// selects.
#[verifier::rlimit(100)]
fn step_list(m: &Vec<u8>, pos: usize, limit: usize, out: &mut Vec<u8>, tb: u32, fb: u32) -> (r:
    Result<usize, SqueezeError>)
    requires
        pos < limit <= m@.len(),
        class_of(m@[pos as int]) == ImmClass::BrTable || class_of(m@[pos as int])
            == ImmClass::SelectT,
    ensures
        step_post(m@, pos as int, limit as int, tb as nat, fb as nat, r, old(out)@, final(out)@),
{
    proof {
        reveal(crate::renumber::renum_step);
    }
    let op: u8 = m[pos];
    let (n, ce) = match read_uleb32(m, pos + 1) {
        Ok(x) => x,
        Err(e) => {
            proof {
                if leb_end(m@, pos + 1) >= 0 {
                    lemma_leb_end_bounds(m@, pos + 1);
                }
            }
            return Err(e);
        },
    };
    if ce > limit {
        return Err(SqueezeError::Parse);
    }
    match classify(op) {
        ImmClass::BrTable => {
            let mut p: usize = ce;
            let mut k: u64 = 0;
            let count: u64 = n as u64 + 1;
            loop
                invariant
                    k <= count,
                    count == n as u64 + 1,
                    pos < ce <= p <= limit <= m@.len(),
                    class_of(m@[pos as int]) == ImmClass::BrTable,
                    uleb32_end(m@, pos + 1, limit as int) == ce,
                    n as nat == uleb_val(m@.subrange(pos + 1, ce as int)),
                    uleb_run(m@, ce as int, limit as int, count as nat) == uleb_run(
                        m@,
                        p as int,
                        limit as int,
                        (count - k) as nat,
                    ),
                ensures
                    k == count,
                    uleb_run(m@, ce as int, limit as int, count as nat) == Some(p as int),
                decreases count - k,
            {
                if k == count {
                    break;
                }
                match read_u32_at(m, p, limit) {
                    Ok(e) => {
                        p = e;
                        k = k + 1;
                    },
                    Err(e) => {
                        proof {
                            reveal(crate::renumber::renum_step);
                            assert(uleb_run(m@, p as int, limit as int, (count - k) as nat)
                                is None);
                        }
                        return Err(e);
                    },
                }
            }
            push_range(out, m, pos, p);
            Ok(p)
        },
        _ => {
            if (n as usize) > limit - ce {
                return Err(SqueezeError::Parse);
            }
            let e = ce + n as usize;
            let mut p: usize = ce;
            while p < e
                invariant
                    pos < ce <= p <= e <= limit <= m@.len(),
                    class_of(m@[pos as int]) == ImmClass::SelectT,
                    uleb32_end(m@, pos + 1, limit as int) == ce,
                    n as nat == uleb_val(m@.subrange(pos + 1, ce as int)),
                    e == ce + n,
                    forall|i: int| ce <= i < p ==> is_num_vt(#[trigger] m@[i]),
                decreases e - p,
            {
                let b: u8 = m[p];
                if !(b == 0x7f || b == 0x7e || b == 0x7d || b == 0x7c || b == 0x7b) {
                    proof {
                        reveal(crate::renumber::renum_step);
                        assert(!is_num_vt(m@[p as int]));
                        assert(!all_num_vt(m@, ce as int, e as int));
                    }
                    return Err(SqueezeError::Unsupported);
                }
                p = p + 1;
            }
            assert(all_num_vt(m@, ce as int, e as int));
            push_range(out, m, pos, e);
            Ok(e)
        },
    }
}

/// Rewrite one instruction at `pos`, appending its output bytes.
fn renum_step_exec(m: &Vec<u8>, pos: usize, limit: usize, tb: u32, fb: u32, out: &mut Vec<u8>) -> (r:
    Result<usize, SqueezeError>)
    requires
        pos < limit <= m@.len(),
    ensures
        step_post(m@, pos as int, limit as int, tb as nat, fb as nat, r, old(out)@, final(out)@),
{
    let op: u8 = m[pos];
    match classify(op) {
        ImmClass::Plain => {
            proof {
                reveal(crate::renumber::renum_step);
            }
            out.push(op);
            proof {
                assert(final(out)@ =~= old(out)@ + seq![op]);
            }
            Ok(pos + 1)
        },
        ImmClass::Bad => {
            proof {
                reveal(crate::renumber::renum_step);
            }
            Err(SqueezeError::Unsupported)
        },
        ImmClass::CallFn => step_call(m, pos, limit, out, tb, fb),
        ImmClass::RefFunc => step_call(m, pos, limit, out, tb, fb),
        ImmClass::CallInd => step_call(m, pos, limit, out, tb, fb),
        ImmClass::BrTable => step_list(m, pos, limit, out, tb, fb),
        ImmClass::SelectT => step_list(m, pos, limit, out, tb, fb),
        _ => step_copy(m, pos, limit, out, tb, fb),
    }
}

/// Rewrite a whole instruction stream, appending the output bytes.
pub fn renum_instrs(
    m: &Vec<u8>,
    start: usize,
    limit: usize,
    tb: u32,
    fb: u32,
    out: &mut Vec<u8>,
) -> (r: Result<(), SqueezeError>)
    requires
        start <= limit <= m@.len(),
    ensures
        match r {
            Ok(()) => match renum_run(m@, start as int, limit as int, tb as nat, fb as nat) {
                Some(o) => final(out)@ == old(out)@ + o,
                None => false,
            },
            Err(e) => (e == SqueezeError::Parse || e == SqueezeError::Unsupported || e
                == SqueezeError::Encode) && renum_run(
                m@,
                start as int,
                limit as int,
                tb as nat,
                fb as nat,
            ) is None,
        },
{
    let mut pos: usize = start;
    loop
        invariant
            start <= pos <= limit <= m@.len(),
            out@.len() >= old(out)@.len(),
            out@.subrange(0, old(out)@.len() as int) == old(out)@,
            (renum_run(m@, start as int, limit as int, tb as nat, fb as nat) is Some <==> renum_run(
                m@,
                pos as int,
                limit as int,
                tb as nat,
                fb as nat,
            ) is Some),
            renum_run(m@, pos as int, limit as int, tb as nat, fb as nat) matches Some(rest)
                ==> renum_run(m@, start as int, limit as int, tb as nat, fb as nat) == Some(
                out@.skip(old(out)@.len() as int) + rest,
            ),
        ensures
            pos == limit,
            (renum_run(m@, start as int, limit as int, tb as nat, fb as nat) is Some <==> renum_run(
                m@,
                pos as int,
                limit as int,
                tb as nat,
                fb as nat,
            ) is Some),
            renum_run(m@, pos as int, limit as int, tb as nat, fb as nat) is Some ==> renum_run(
                m@,
                start as int,
                limit as int,
                tb as nat,
                fb as nat,
            ) == Some(out@.skip(old(out)@.len() as int)),
        decreases limit - pos,
    {
        if pos == limit {
            proof {
                assert(renum_run(m@, pos as int, limit as int, tb as nat, fb as nat) == Some(
                    Seq::<u8>::empty(),
                ));
                assert(out@.skip(old(out)@.len() as int) + Seq::<u8>::empty() =~= out@.skip(
                    old(out)@.len() as int,
                ));
            }
            break;
        }
        let ghost prev = out@;
        match renum_step_exec(m, pos, limit, tb, fb, out) {
            Ok(nx) => {
                proof {
                    let sres = renum_step(m@, pos as int, limit as int, tb as nat, fb as nat);
                    let o = sres.unwrap().1;
                    assert(out@ == prev + o);
                    assert(out@.subrange(0, old(out)@.len() as int) =~= old(out)@);
                    match renum_run(m@, nx as int, limit as int, tb as nat, fb as nat) {
                        Some(rest) => {
                            assert(renum_run(m@, pos as int, limit as int, tb as nat, fb as nat)
                                == Some(o + rest));
                            assert(out@.skip(old(out)@.len() as int) =~= prev.skip(
                                old(out)@.len() as int,
                            ) + o);
                            assert(prev.skip(old(out)@.len() as int) + (o + rest) =~= (prev.skip(
                                old(out)@.len() as int,
                            ) + o) + rest);
                        },
                        None => {},
                    }
                }
                pos = nx;
            },
            Err(e) => {
                return Err(e);
            },
        }
    }
    Ok(())
}

/// End of one local declaration (a count and a value type), or -1.
pub open spec fn local_pair_end(s: Seq<u8>, pos: int, limit: int) -> int {
    let e = uleb32_end(s, pos, limit);
    if e < 0 || e >= limit || !(is_num_vt(s[e]) || is_ref_vt(s[e])) {
        -1
    } else {
        e + 1
    }
}

/// End of `n` local declarations, or -1.
pub open spec fn locals_run(s: Seq<u8>, pos: int, limit: int, n: nat) -> int
    decreases n,
{
    if n == 0 {
        pos
    } else {
        let e = local_pair_end(s, pos, limit);
        if e < 0 {
            -1
        } else {
            locals_run(s, e, limit, (n - 1) as nat)
        }
    }
}

/// End of a body's whole locals vector, or -1.
pub open spec fn locals_end(s: Seq<u8>, pos: int, limit: int) -> int {
    let ce = uleb32_end(s, pos, limit);
    if ce < 0 {
        -1
    } else {
        locals_run(s, ce, limit, uleb_val(s.subrange(pos, ce)))
    }
}

/// Read past a body's locals vector.
pub fn read_locals(m: &Vec<u8>, pos: usize, limit: usize) -> (r: Result<usize, SqueezeError>)
    requires
        pos <= limit <= m@.len(),
    ensures
        match r {
            Ok(e) => locals_end(m@, pos as int, limit as int) == e && pos < e <= limit,
            Err(e) => (e == SqueezeError::Parse || e == SqueezeError::Unsupported) && locals_end(
                m@,
                pos as int,
                limit as int,
            ) < 0,
        },
{
    let ce = read_u32_at(m, pos, limit)?;
    let ghost n0 = uleb_val(m@.subrange(pos as int, ce as int));
    let count: u32 = match read_uleb32(m, pos) {
        Ok((c, _e)) => c,
        Err(_) => {
            return Err(SqueezeError::Parse);
        },
    };
    assert(count as nat == n0);
    let mut p: usize = ce;
    let mut k: u32 = 0;
    loop
        invariant
            k <= count,
            count as nat == n0,
            pos < ce <= p <= limit <= m@.len(),
            uleb32_end(m@, pos as int, limit as int) == ce,
            n0 == uleb_val(m@.subrange(pos as int, ce as int)),
            locals_run(m@, ce as int, limit as int, n0) == locals_run(
                m@,
                p as int,
                limit as int,
                (count - k) as nat,
            ),
        ensures
            k == count,
            locals_run(m@, ce as int, limit as int, n0) == p,
        decreases count - k,
    {
        if k == count {
            break;
        }
        let e = match read_u32_at(m, p, limit) {
            Ok(e) => e,
            Err(e) => {
                proof {
                    assert(local_pair_end(m@, p as int, limit as int) < 0);
                    assert(locals_run(m@, p as int, limit as int, (count - k) as nat) < 0);
                }
                return Err(e);
            },
        };
        if e >= limit {
            proof {
                assert(local_pair_end(m@, p as int, limit as int) < 0);
            }
            return Err(SqueezeError::Parse);
        }
        let b: u8 = m[e];
        if !(b == 0x7f || b == 0x7e || b == 0x7d || b == 0x7c || b == 0x7b || b == 0x70 || b
            == 0x6f) {
            proof {
                assert(local_pair_end(m@, p as int, limit as int) < 0);
            }
            return Err(SqueezeError::Unsupported);
        }
        proof {
            assert(local_pair_end(m@, p as int, limit as int) == e + 1);
        }
        p = e + 1;
        k = k + 1;
    }
    Ok(p)
}

/// A function body (locals then instructions, without the size prefix) with
/// its call and type references rebased.
pub open spec fn spec_rebody(s: Seq<u8>, tb: nat, fb: nat) -> Option<Seq<u8>> {
    let le = locals_end(s, 0, s.len() as int);
    if le < 0 {
        None
    } else {
        match renum_run(s, le, s.len() as int, tb, fb) {
            None => None,
            Some(o) => Some(s.subrange(0, le) + o),
        }
    }
}

/// Rewrite one decompressor body for the combined module: locals are kept,
/// call and type references are rebased.
pub fn rebody(body: &Vec<u8>, tb: u32, fb: u32) -> (r: Result<Vec<u8>, SqueezeError>)
    ensures
        match r {
            Ok(v) => spec_rebody(body@, tb as nat, fb as nat) == Some(v@),
            Err(e) => (e == SqueezeError::Parse || e == SqueezeError::Unsupported || e
                == SqueezeError::Encode) && spec_rebody(body@, tb as nat, fb as nat) is None,
        },
{
    let limit = body.len();
    let le = read_locals(body, 0, limit)?;
    let mut out: Vec<u8> = Vec::new();
    push_range(&mut out, body, 0, le);
    let ghost locals_part = out@;
    match renum_instrs(body, le, limit, tb, fb, &mut out) {
        Ok(()) => {
            proof {
                let o = renum_run(
                    body@,
                    le as int,
                    limit as int,
                    tb as nat,
                    fb as nat,
                ).unwrap();
                assert(out@ =~= body@.subrange(0, le as int) + o);
            }
            Ok(out)
        },
        Err(e) => Err(e),
    }
}

} // verus!
