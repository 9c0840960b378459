//! LEB128 integer encoding: the variable-width integers of the WebAssembly
//! binary format. Readers accept any shape-valid (possibly padded) encoding;
//! writers emit the minimal-width form.

use vstd::prelude::*;

use crate::err::SqueezeError;

verus! {

/// Minimal little-endian base-128 encoding of an unsigned value.
pub open spec fn uleb(v: nat) -> Seq<u8>
    decreases v,
{
    if v < 128 {
        seq![v as u8]
    } else {
        seq![(v % 128 + 128) as u8] + uleb(v / 128)
    }
}

/// Minimal signed LEB128 encoding of an integer.
pub open spec fn sleb(v: int) -> Seq<u8>
    decreases (if v >= 0 { v } else { -1 - v }),
{
    if -64 <= v < 64 {
        seq![(v % 128) as u8]
    } else {
        seq![(v % 128 + 128) as u8] + sleb(v / 128)
    }
}

/// 128 to the `n`th power: the place value of the `n`th LEB128 byte.
pub open spec fn pow128(n: nat) -> nat
    decreases n,
{
    if n == 0 {
        1
    } else {
        128 * pow128((n - 1) as nat)
    }
}

/// Where the LEB128 item starting at `pos` ends (one past its last byte),
/// or -1 if the continuation bits run off the end of `s`.
pub open spec fn leb_end(s: Seq<u8>, pos: int) -> int
    decreases s.len() - pos,
{
    if pos < 0 || pos >= s.len() {
        -1
    } else if s[pos] < 128 {
        pos + 1
    } else {
        leb_end(s, pos + 1)
    }
}

/// The unsigned value denoted by LEB128 bytes (7 value bits per byte).
pub open spec fn uleb_val(s: Seq<u8>) -> nat
    decreases s.len(),
{
    if s.len() == 0 {
        0
    } else {
        (s[0] % 128) as nat + 128 * uleb_val(s.drop_first())
    }
}

/// The signed value denoted by LEB128 bytes: as `uleb_val`, with bit 6 of the
/// last byte read as the sign.
pub open spec fn sleb_val(s: Seq<u8>) -> int
    decreases s.len(),
{
    if s.len() == 0 {
        0
    } else if s.len() == 1 {
        if s[0] % 128 >= 64 {
            s[0] % 128 - 128
        } else {
            (s[0] % 128) as int
        }
    } else {
        (s[0] % 128) + 128 * sleb_val(s.drop_first())
    }
}

pub proof fn lemma_uleb_val_bound(s: Seq<u8>)
    ensures
        uleb_val(s) < pow128(s.len()),
    decreases s.len(),
{
    if s.len() > 0 {
        lemma_uleb_val_bound(s.drop_first());
    }
}

pub proof fn lemma_leb_end_bounds(s: Seq<u8>, pos: int)
    requires
        0 <= pos,
        leb_end(s, pos) >= 0,
    ensures
        pos < leb_end(s, pos) <= s.len(),
        forall|i: int| pos <= i < leb_end(s, pos) - 1 ==> s[i] >= 128,
        s[leb_end(s, pos) - 1] < 128,
    decreases s.len() - pos,
{
    if pos < s.len() && s[pos] >= 128 {
        lemma_leb_end_bounds(s, pos + 1);
    }
}

/// The signed reading differs from the unsigned one exactly by the weight of
/// the sign bit of the last byte.
pub proof fn lemma_sleb_from_uleb(s: Seq<u8>)
    requires
        s.len() >= 1,
    ensures
        sleb_val(s) == uleb_val(s) - (if s[s.len() - 1] % 128 >= 64 {
            pow128(s.len()) as int
        } else {
            0
        }),
    decreases s.len(),
{
    if s.len() == 1 {
        assert(uleb_val(s) == (s[0] % 128) as nat + 128 * uleb_val(s.drop_first()));
        assert(s.drop_first() =~= Seq::<u8>::empty());
        assert(uleb_val(Seq::<u8>::empty()) == 0);
        assert(pow128(1) == 128) by {
            reveal_with_fuel(pow128, 2);
        }
    } else {
        let t = s.drop_first();
        lemma_sleb_from_uleb(t);
        assert(t[t.len() - 1] == s[s.len() - 1]);
        assert(pow128(s.len()) == 128 * pow128(t.len()));
        let w: int = if s[s.len() - 1] % 128 >= 64 {
            pow128(t.len()) as int
        } else {
            0
        };
        assert(sleb_val(t) == uleb_val(t) - w);
        assert(sleb_val(s) == (s[0] % 128) + 128 * sleb_val(t));
        assert(uleb_val(s) == (s[0] % 128) as nat + 128 * uleb_val(t));
        assert(128 * sleb_val(t) == 128 * uleb_val(t) - 128 * w) by (nonlinear_arith)
            requires
                sleb_val(t) == uleb_val(t) - w,
        ;
    }
}

/// Read one unsigned LEB128 item of at most `max` bytes starting at `pos`.
fn read_uleb_rec(m: &Vec<u8>, pos: usize, max: usize) -> (r: Result<(u64, usize), SqueezeError>)
    requires
        pos <= m@.len(),
        1 <= max <= 5,
    ensures
        match r {
            Ok((v, end)) => {
                &&& leb_end(m@, pos as int) == end
                &&& pos < end <= m@.len()
                &&& end - pos <= max
                &&& v == uleb_val(m@.subrange(pos as int, end as int))
            },
            Err(e) => {
                &&& e == SqueezeError::Parse
                &&& (leb_end(m@, pos as int) < 0 || leb_end(m@, pos as int) - pos > max)
            },
        },
    decreases max,
{
    if pos >= m.len() {
        return Err(SqueezeError::Parse);
    }
    let b: u8 = m[pos];
    if b < 128 {
        proof {
            let s = m@.subrange(pos as int, pos + 1);
            assert(s.drop_first() =~= Seq::<u8>::empty());
            assert(uleb_val(Seq::<u8>::empty()) == 0);
            assert(s[0] == b);
            assert(uleb_val(s) == b as nat);
        }
        Ok((b as u64, pos + 1))
    } else if max == 1 {
        proof {
            if leb_end(m@, pos + 1) >= 0 {
                lemma_leb_end_bounds(m@, pos + 1);
            }
        }
        Err(SqueezeError::Parse)
    } else {
        match read_uleb_rec(m, pos + 1, max - 1) {
            Ok((rest, end)) => {
                proof {
                    let s = m@.subrange(pos as int, end as int);
                    assert(s.drop_first() =~= m@.subrange(pos + 1, end as int));
                    lemma_uleb_val_bound(m@.subrange(pos + 1, end as int));
                    let k = (end - pos - 1) as nat;
                    assert(pow128(k) <= 268435456) by {
                        reveal_with_fuel(pow128, 6);
                        assert(k == 1 || k == 2 || k == 3 || k == 4);
                    }
                }
                Ok(((b - 128) as u64 + 128 * rest, end))
            },
            Err(e) => Err(e),
        }
    }
}

/// Read an unsigned 32-bit LEB128 integer, rejecting encodings whose value
/// does not fit in 32 bits.
pub fn read_uleb32(m: &Vec<u8>, pos: usize) -> (r: Result<(u32, usize), SqueezeError>)
    requires
        pos <= m@.len(),
    ensures
        match r {
            Ok((v, end)) => {
                &&& leb_end(m@, pos as int) == end
                &&& pos < end <= m@.len()
                &&& end - pos <= 5
                &&& v == uleb_val(m@.subrange(pos as int, end as int))
            },
            Err(e) => {
                &&& e == SqueezeError::Parse
                &&& (leb_end(m@, pos as int) < 0 || leb_end(m@, pos as int) - pos > 5 || uleb_val(
                    m@.subrange(pos as int, leb_end(m@, pos as int)),
                ) >= 0x1_0000_0000)
            },
        },
{
    match read_uleb_rec(m, pos, 5) {
        Ok((v, end)) => {
            if v < 0x1_0000_0000 {
                Ok((v as u32, end))
            } else {
                Err(SqueezeError::Parse)
            }
        },
        Err(e) => Err(e),
    }
}

/// Read a signed 32-bit LEB128 integer, rejecting encodings whose value does
/// not fit in 32 bits.
pub fn read_sleb32(m: &Vec<u8>, pos: usize) -> (r: Result<(i32, usize), SqueezeError>)
    requires
        pos <= m@.len(),
    ensures
        match r {
            Ok((v, end)) => {
                &&& leb_end(m@, pos as int) == end
                &&& pos < end <= m@.len()
                &&& end - pos <= 5
                &&& v == sleb_val(m@.subrange(pos as int, end as int))
            },
            Err(e) => {
                &&& e == SqueezeError::Parse
                &&& (leb_end(m@, pos as int) < 0 || leb_end(m@, pos as int) - pos > 5 || !(
                -0x8000_0000 <= sleb_val(m@.subrange(pos as int, leb_end(m@, pos as int)))
                    < 0x8000_0000))
            },
        },
{
    match read_uleb_rec(m, pos, 5) {
        Ok((v, end)) => {
            let n: usize = end - pos;
            let ghost s = m@.subrange(pos as int, end as int);
            proof {
                lemma_leb_end_bounds(m@, pos as int);
                lemma_sleb_from_uleb(s);
                lemma_uleb_val_bound(s);
                assert(pow128(1) == 128 && pow128(2) == 16384 && pow128(3) == 2097152 && pow128(4)
                    == 268435456 && pow128(5) == 34359738368) by {
                    reveal_with_fuel(pow128, 6);
                }
            }
            let last: u8 = m[end - 1];
            let weight: i64 = if n == 1 {
                128
            } else if n == 2 {
                16384
            } else if n == 3 {
                2097152
            } else if n == 4 {
                268435456
            } else {
                34359738368
            };
            assert(weight == pow128(n as nat));
            let sval: i64 = if last % 128 >= 64 {
                v as i64 - weight
            } else {
                v as i64
            };
            assert(sval == sleb_val(s));
            if -0x8000_0000 <= sval && sval < 0x8000_0000 {
                Ok((sval as i32, end))
            } else {
                Err(SqueezeError::Parse)
            }
        },
        Err(e) => Err(e),
    }
}

/// Skip one LEB128 item of at most `max` bytes, without reading its value.
pub fn skip_leb(m: &Vec<u8>, pos: usize, max: usize) -> (r: Result<usize, SqueezeError>)
    requires
        pos <= m@.len(),
        1 <= max <= 10,
    ensures
        match r {
            Ok(end) => {
                &&& leb_end(m@, pos as int) == end
                &&& pos < end <= m@.len()
                &&& end - pos <= max
            },
            Err(e) => {
                &&& e == SqueezeError::Parse
                &&& (leb_end(m@, pos as int) < 0 || leb_end(m@, pos as int) - pos > max)
            },
        },
    decreases max,
{
    if pos >= m.len() {
        return Err(SqueezeError::Parse);
    }
    if m[pos] < 128 {
        Ok(pos + 1)
    } else if max == 1 {
        proof {
            if leb_end(m@, pos + 1) >= 0 {
                lemma_leb_end_bounds(m@, pos + 1);
            }
        }
        Err(SqueezeError::Parse)
    } else {
        skip_leb(m, pos + 1, max - 1)
    }
}

/// Append the minimal unsigned LEB128 encoding of `x`.
pub fn write_uleb(out: &mut Vec<u8>, x: u64)
    ensures
        final(out)@ == old(out)@ + uleb(x as nat),
    decreases x,
{
    if x < 128 {
        out.push(x as u8);
        assert(final(out)@ =~= old(out)@ + uleb(x as nat));
    } else {
        out.push((x % 128 + 128) as u8);
        write_uleb(out, x / 128);
        assert(final(out)@ =~= old(out)@ + uleb(x as nat));
    }
}

/// Append the minimal signed LEB128 encoding of `x`.
pub fn write_sleb(out: &mut Vec<u8>, x: i64)
    ensures
        final(out)@ == old(out)@ + sleb(x as int),
    decreases (if x >= 0 { x as int } else { -1 - x }),
{
    if -64 <= x && x < 64 {
        let b: i64 = if x >= 0 {
            x
        } else {
            x + 128
        };
        assert(b == x as int % 128);
        out.push(b as u8);
        assert(final(out)@ =~= old(out)@ + sleb(x as int));
    } else if x >= 64 {
        let m: i64 = x % 128;
        let next: i64 = x / 128;
        assert(m == x as int % 128 && next == x as int / 128);
        out.push((m + 128) as u8);
        write_sleb(out, next);
        assert(final(out)@ =~= old(out)@ + sleb(x as int));
    } else {
        // x <= -65: reduce through the nonnegative magnitude to keep the
        // executable division on nonnegative operands.
        let y: i64 = -(x + 1);  // y >= 64
        let r: i64 = y % 128;
        let q: i64 = y / 128 + 1;  // -floor(x / 128)
        let m: i64 = 127 - r;  // x mod 128
        proof {
            assert(x as int / 128 == -(q as int) && m == x as int % 128) by (nonlinear_arith)
                requires
                    x <= -65,
                    y == -(x as int + 1),
                    r == y as int % 128,
                    q == y as int / 128 + 1,
                    m == 127 - r,
            ;
        }
        out.push((m + 128) as u8);
        write_sleb(out, -q);
        assert(final(out)@ =~= old(out)@ + sleb(x as int));
    }
}

} // verus!
