//! Splitting a module byte string into its top-level sections: the 8-byte
//! magic/version header followed by a run of `id, size, payload` records.

use vstd::prelude::*;

use crate::err::SqueezeError;
use crate::leb::{leb_end, lemma_leb_end_bounds, read_uleb32, uleb_val};

verus! {

/// One top-level section of a module: its id and where its header and payload
/// lie in the module bytes.
#[derive(Clone, Copy, Debug)]
pub struct Section {
    pub id: u8,
    pub header_start: usize,
    pub payload_start: usize,
    pub payload_end: usize,
}

/// The module starts with `\0asm` and binary version 1.
pub open spec fn magic_ok(s: Seq<u8>) -> bool {
    &&& s.len() >= 8
    &&& s[0] == 0x00u8
    &&& s[1] == 0x61u8
    &&& s[2] == 0x73u8
    &&& s[3] == 0x6du8
    &&& s[4] == 0x01u8
    &&& s[5] == 0x00u8
    &&& s[6] == 0x00u8
    &&& s[7] == 0x00u8
}

/// The section whose header starts at `pos`, if the bytes there form one:
/// a known id byte, a size of at most 32 bits, and a payload within bounds.
pub open spec fn sec_at(s: Seq<u8>, pos: int) -> Option<Section> {
    if !(0 <= pos && pos + 2 <= s.len() && s.len() <= usize::MAX) {
        None
    } else {
        let id = s[pos];
        let e = leb_end(s, pos + 1);
        if id > 13 || e < 0 || e - (pos + 1) > 5 {
            None
        } else {
            let size = uleb_val(s.subrange(pos + 1, e));
            if size >= 0x1_0000_0000 || e + size > s.len() {
                None
            } else {
                Some(
                    Section {
                        id,
                        header_start: pos as usize,
                        payload_start: e as usize,
                        payload_end: (e + size) as usize,
                    },
                )
            }
        }
    }
}

/// The run of sections tiling `s` from `pos` to its end, if the bytes form
/// one.
pub open spec fn sections_from(s: Seq<u8>, pos: int) -> Option<Seq<Section>>
    decreases s.len() - pos,
    via sections_from_decreases
{
    if pos == s.len() {
        Some(Seq::empty())
    } else {
        match sec_at(s, pos) {
            None => None,
            Some(sec) => match sections_from(s, sec.payload_end as int) {
                None => None,
                Some(rest) => Some(seq![sec] + rest),
            },
        }
    }
}

#[via_fn]
proof fn sections_from_decreases(s: Seq<u8>, pos: int) {
    if pos != s.len() {
        match sec_at(s, pos) {
            Some(sec) => {
                if leb_end(s, pos + 1) >= 0 {
                    lemma_leb_end_bounds(s, pos + 1);
                }
            },
            None => {},
        }
    }
}

/// Every section of a well-formed tiling lies inside the module bytes.
pub proof fn lemma_sections_wf(s: Seq<u8>, pos: int)
    requires
        0 <= pos,
    ensures
        match sections_from(s, pos) {
            Some(v) => forall|j: int|
                0 <= j < v.len() ==> pos <= (#[trigger] v[j]).header_start && v[j].header_start
                    < v[j].payload_start <= v[j].payload_end <= s.len(),
            None => true,
        },
    decreases s.len() - pos,
{
    if pos < s.len() {
        match sec_at(s, pos) {
            Some(sec) => {
                lemma_leb_end_bounds(s, pos + 1);
                lemma_sections_wf(s, sec.payload_end as int);
            },
            None => {},
        }
    }
}

/// The whole reading of a module's outer structure.
pub open spec fn spec_sections(s: Seq<u8>) -> Option<Seq<Section>> {
    if magic_ok(s) {
        sections_from(s, 8)
    } else {
        None
    }
}

/// Split a module byte string into its sections.
pub fn split_sections(m: &Vec<u8>) -> (r: Result<Vec<Section>, SqueezeError>)
    ensures
        match r {
            Ok(v) => spec_sections(m@) == Some(v@),
            Err(e) => e == SqueezeError::Parse && spec_sections(m@) is None,
        },
{
    if m.len() < 8 {
        return Err(SqueezeError::Parse);
    }
    if !(m[0] == 0x00 && m[1] == 0x61 && m[2] == 0x73 && m[3] == 0x6d && m[4] == 0x01 && m[5]
        == 0x00 && m[6] == 0x00 && m[7] == 0x00) {
        return Err(SqueezeError::Parse);
    }
    let mut acc: Vec<Section> = Vec::new();
    let mut pos: usize = 8;
    loop
        invariant
            8 <= pos <= m@.len(),
            magic_ok(m@),
            (sections_from(m@, 8) is Some <==> sections_from(m@, pos as int) is Some),
            sections_from(m@, pos as int) matches Some(rest) ==> sections_from(m@, 8) == Some(
                acc@ + rest,
            ),
        ensures
            match sections_from(m@, pos as int) {
                Some(rest) => rest.len() == 0 && pos == m@.len(),
                None => true,
            },
            (sections_from(m@, 8) is Some <==> sections_from(m@, pos as int) is Some),
            sections_from(m@, pos as int) is Some ==> sections_from(m@, 8) == Some(acc@),
        decreases m@.len() - pos,
    {
        if pos == m.len() {
            proof {
                assert(sections_from(m@, pos as int) == Some(Seq::<Section>::empty()));
                assert(acc@ + Seq::<Section>::empty() =~= acc@);
            }
            break;
        }
        let id: u8 = m[pos];
        if id > 13 {
            return Err(SqueezeError::Parse);
        }
        let (size, e) = match read_uleb32(m, pos + 1) {
            Ok(x) => x,
            Err(_) => {
                proof {
                    if leb_end(m@, pos + 1) >= 0 {
                        lemma_leb_end_bounds(m@, pos + 1);
                    }
                    assert(sec_at(m@, pos as int) is None);
                }
                return Err(SqueezeError::Parse);
            },
        };
        if (size as usize) > m.len() - e {
            assert(sec_at(m@, pos as int) is None);
            return Err(SqueezeError::Parse);
        }
        let sec = Section { id, header_start: pos, payload_start: e, payload_end: e + size as usize };
        proof {
            assert(sec_at(m@, pos as int) == Some(sec));
            match sections_from(m@, sec.payload_end as int) {
                Some(rest) => {
                    assert(sections_from(m@, pos as int) == Some(seq![sec] + rest));
                    assert(acc@.push(sec) + rest =~= acc@ + (seq![sec] + rest));
                },
                None => {},
            }
        }
        acc.push(sec);
        pos = e + size as usize;
    }
    if pos == m.len() {
        Ok(acc)
    } else {
        Err(SqueezeError::Parse)
    }
}

} // verus!
