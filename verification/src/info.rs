//! The facts the rewriting plan needs from the input module, accumulated
//! over its sections, then validated and condensed: the merged data image and
//! the mitigated input bytes.

use vstd::multiset::Multiset;
use vstd::prelude::*;

use crate::err::SqueezeError;
use crate::renumber::AdaptUnpacker;
use crate::scan::{data_run, global_run, globals_conform, import_run, payload_count, scan_data_count_section,
    scan_data_section, scan_function_section, scan_global_section, scan_import_section,
    scan_start_section, scan_type_section, uleb_run, Seg};
use crate::sections::Section;

verus! {

/// A data image: an offset in linear memory and the bytes that live there.
#[derive(Clone, Debug)]
pub struct Data<D> {
    pub offset: i32,
    pub data: D,
}

impl<'a> Data<&'a [u8]> {
    /// Copy the borrowed bytes into an owned record.
    pub fn to_vec(&self) -> (r: Data<Vec<u8>>)
        ensures
            r.offset == self.offset,
            r.data@ == self.data@,
    {
        Data { offset: self.offset, data: vstd::slice::slice_to_vec(self.data) }
    }
}

/// Everything the second pass needs from the first: index-space sizes, the
/// start wiring, and the merged data image.
#[derive(Debug)]
pub struct RelevantInfo {
    pub start_fn_idx: Option<u32>,
    pub data: Data<Vec<u8>>,
    pub old_function_count: u32,
    pub old_type_count: u32,
    pub import_function_count: u32,
}

impl RelevantInfo {
    /// The function index base never overflows when rebasing.
    pub open spec fn wf(self) -> bool {
        self.old_function_count + self.import_function_count <= u32::MAX
    }

    /// The rebase view for grafting the decompressor: its types start after
    /// the input's types, its functions after the input's imported and
    /// defined functions.
    pub fn unpacker_reencoder(&self) -> (r: AdaptUnpacker)
        requires
            self.wf(),
        ensures
            r.functions_index_base == self.old_function_count + self.import_function_count,
            r.types_index_base == self.old_type_count,
    {
        AdaptUnpacker {
            functions_index_base: self.old_function_count + self.import_function_count,
            types_index_base: self.old_type_count,
        }
    }
}

/// Accumulates section facts during the first pass.
pub struct RelevantInfoBuilder {
    pub start_fn_idx: Option<u32>,
    pub segs: Vec<Seg>,
    pub seen_data: bool,
    pub seen_data_count: bool,
    pub old_function_count: Option<u32>,
    pub old_type_count: Option<u32>,
    pub import_function_count: Option<u32>,
    pub data_count_range: Option<(usize, usize)>,
    pub mutable_global: Option<(u32, i32)>,
}

impl RelevantInfoBuilder {
    /// A builder that has seen nothing yet.
    pub fn new() -> (r: Self)
        ensures
            r.start_fn_idx is None,
            r.segs@.len() == 0,
            !r.seen_data,
            !r.seen_data_count,
            r.old_function_count is None,
            r.old_type_count is None,
            r.import_function_count is None,
            r.data_count_range is None,
            r.mutable_global is None,
    {
        RelevantInfoBuilder {
            start_fn_idx: None,
            segs: Vec::new(),
            seen_data: false,
            seen_data_count: false,
            old_function_count: None,
            old_type_count: None,
            import_function_count: None,
            data_count_range: None,
            mutable_global: None,
        }
    }

    /// Fold one section's facts into the builder. Sections the plan does not
    /// depend on are left untouched; duplicated unique sections and malformed
    /// payloads fail.
    pub fn add_section(&mut self, m: &Vec<u8>, sec: &Section) -> (r: Result<(), SqueezeError>)
        requires
            sec.payload_start <= sec.payload_end <= m@.len(),
        ensures
            match r {
                Ok(()) => {
                    &&& (sec.id == 1 ==> old(self).old_type_count is None && match payload_count(
                        m@,
                        sec.payload_start as int,
                        sec.payload_end as int,
                    ) {
                        Some((c, _is)) => final(self).old_type_count == Some(c as u32),
                        None => false,
                    })
                    &&& (sec.id != 1 ==> final(self).old_type_count == old(self).old_type_count)
                    &&& (sec.id == 2 ==> old(self).import_function_count is None && old(self).old_function_count is None && match payload_count(
                        m@,
                        sec.payload_start as int,
                        sec.payload_end as int,
                    ) {
                        Some((c, is)) => import_run(m@, is, sec.payload_end as int, c) matches Some(
                            p,
                        ) && p.0 == sec.payload_end && final(self).import_function_count == Some(
                            p.1 as u32,
                        ),
                        None => false,
                    })
                    &&& (sec.id != 2 ==> final(self).import_function_count == old(self).import_function_count)
                    &&& (sec.id == 3 ==> old(self).old_function_count is None && match payload_count(
                        m@,
                        sec.payload_start as int,
                        sec.payload_end as int,
                    ) {
                        Some((c, is)) => uleb_run(m@, is, sec.payload_end as int, c) == Some(
                            sec.payload_end as int,
                        ) && final(self).old_function_count == Some(c as u32),
                        None => false,
                    })
                    &&& (sec.id != 3 ==> final(self).old_function_count == old(self).old_function_count)
                    &&& (sec.id == 6 ==> match payload_count(
                        m@,
                        sec.payload_start as int,
                        sec.payload_end as int,
                    ) {
                        Some((c, is)) => match global_run(m@, is, sec.payload_end as int, c) {
                            Some((end, recs)) => {
                                &&& end == sec.payload_end
                                &&& globals_conform(recs)
                                &&& match final(self).mutable_global {
                                    Some((i, v)) => (old(self).mutable_global == Some((i, v))
                                        && (forall|j: int|
                                        0 <= j < recs.len() ==> !(#[trigger] recs[j]).1)) || (old(
                                        self,
                                    ).mutable_global is None && i < recs.len() && recs[i as int].1
                                        && recs[i as int].2 == Some(v as int)),
                                    None => old(self).mutable_global is None && (forall|j: int|
                                        0 <= j < recs.len() ==> !(#[trigger] recs[j]).1),
                                }
                            },
                            None => false,
                        },
                        None => false,
                    })
                    &&& (sec.id != 6 ==> final(self).mutable_global == old(self).mutable_global)
                    &&& (sec.id == 8 ==> old(self).start_fn_idx is None && match payload_count(
                        m@,
                        sec.payload_start as int,
                        sec.payload_end as int,
                    ) {
                        Some((f, is)) => is == sec.payload_end && final(self).start_fn_idx == Some(
                            f as u32,
                        ),
                        None => false,
                    })
                    &&& (sec.id != 8 ==> final(self).start_fn_idx == old(self).start_fn_idx)
                    &&& (sec.id == 11 ==> !old(self).seen_data && final(self).seen_data && match
                        payload_count(m@, sec.payload_start as int, sec.payload_end as int) {
                        Some((c, is)) => data_run(m@, is, sec.payload_end as int, c) == Some(
                            (sec.payload_end as int, final(self).segs@),
                        ),
                        None => false,
                    })
                    &&& (sec.id != 11 ==> final(self).segs == old(self).segs && final(self).seen_data
                        == old(self).seen_data)
                    &&& (sec.id == 12 ==> !old(self).seen_data_count && final(self).seen_data_count
                        && match payload_count(m@, sec.payload_start as int, sec.payload_end as int) {
                        Some((c, is)) => is == sec.payload_end && (c == 1 ==> final(self).data_count_range == old(self).data_count_range) && (c != 1 ==> final(self).data_count_range == Some((sec.payload_start, sec.payload_end))),
                        None => false,
                    })
                    &&& (sec.id != 12 ==> final(self).data_count_range == old(self).data_count_range
                        && final(self).seen_data_count == old(self).seen_data_count)
                },
                Err(e) => {
                    &&& *final(self) == *old(self)
                    &&& (e == SqueezeError::Parse || e == SqueezeError::Unsupported || e
                        == SqueezeError::UnsupportedOffset)
                    &&& (sec.id == 0 || sec.id == 4 || sec.id == 5 || sec.id == 7 || sec.id == 9
                        || sec.id == 10 || sec.id == 13) == false
                    &&& (sec.id == 1 ==> old(self).old_type_count is Some || payload_count(
                        m@,
                        sec.payload_start as int,
                        sec.payload_end as int,
                    ) is None)
                    &&& (sec.id == 2 ==> old(self).import_function_count is Some || old(
                        self,
                    ).old_function_count is Some || (match payload_count(
                        m@,
                        sec.payload_start as int,
                        sec.payload_end as int,
                    ) {
                        Some((c, is)) => match import_run(m@, is, sec.payload_end as int, c) {
                            Some((end, _fc)) => end != sec.payload_end,
                            None => true,
                        },
                        None => true,
                    }))
                    &&& (sec.id == 3 ==> old(self).old_function_count is Some || (match
                    payload_count(m@, sec.payload_start as int, sec.payload_end as int) {
                        Some((c, is)) => uleb_run(m@, is, sec.payload_end as int, c) != Some(
                            sec.payload_end as int,
                        ),
                        None => true,
                    }))
                    &&& (sec.id == 6 ==> match payload_count(
                        m@,
                        sec.payload_start as int,
                        sec.payload_end as int,
                    ) {
                        Some((c, is)) => match global_run(m@, is, sec.payload_end as int, c) {
                            Some((end, recs)) => end != sec.payload_end || !globals_conform(recs)
                                || (old(self).mutable_global is Some && exists|j: int|
                                0 <= j < recs.len() && (#[trigger] recs[j]).1),
                            None => true,
                        },
                        None => true,
                    })
                    &&& (sec.id == 8 ==> old(self).start_fn_idx is Some || (match payload_count(
                        m@,
                        sec.payload_start as int,
                        sec.payload_end as int,
                    ) {
                        Some((_f, is)) => is != sec.payload_end,
                        None => true,
                    }))
                    &&& (sec.id == 11 ==> old(self).seen_data || (match payload_count(
                        m@,
                        sec.payload_start as int,
                        sec.payload_end as int,
                    ) {
                        Some((c, is)) => match data_run(m@, is, sec.payload_end as int, c) {
                            Some((end, _segs)) => end != sec.payload_end,
                            None => true,
                        },
                        None => true,
                    }))
                    &&& (sec.id == 12 ==> old(self).seen_data_count || (match payload_count(
                        m@,
                        sec.payload_start as int,
                        sec.payload_end as int,
                    ) {
                        Some((_c, is)) => is != sec.payload_end,
                        None => true,
                    }))
                },
            },
    {
        if sec.id == 1 {
            if self.old_type_count.is_some() {
                return Err(SqueezeError::Unsupported);
            }
            let (c, _is) = scan_type_section(m, sec)?;
            self.old_type_count = Some(c);
            Ok(())
        } else if sec.id == 2 {
            if self.import_function_count.is_some() || self.old_function_count.is_some() {
                return Err(SqueezeError::Unsupported);
            }
            let fc = scan_import_section(m, sec)?;
            self.import_function_count = Some(fc);
            Ok(())
        } else if sec.id == 3 {
            if self.old_function_count.is_some() {
                return Err(SqueezeError::Unsupported);
            }
            let (c, _is) = scan_function_section(m, sec)?;
            self.old_function_count = Some(c);
            Ok(())
        } else if sec.id == 6 {
            let mg = scan_global_section(m, sec)?;
            match mg {
                Some(g) => {
                    if self.mutable_global.is_some() {
                        return Err(SqueezeError::Unsupported);
                    }
                    self.mutable_global = Some(g);
                },
                None => {},
            }
            Ok(())
        } else if sec.id == 8 {
            if self.start_fn_idx.is_some() {
                return Err(SqueezeError::Unsupported);
            }
            let f = scan_start_section(m, sec)?;
            self.start_fn_idx = Some(f);
            Ok(())
        } else if sec.id == 11 {
            if self.seen_data {
                return Err(SqueezeError::Unsupported);
            }
            let segs = scan_data_section(m, sec)?;
            self.segs = segs;
            self.seen_data = true;
            Ok(())
        } else if sec.id == 12 {
            if self.seen_data_count {
                return Err(SqueezeError::Unsupported);
            }
            let c = scan_data_count_section(m, sec)?;
            if c != 1 {
                self.data_count_range = Some((sec.payload_start, sec.payload_end));
            }
            self.seen_data_count = true;
            Ok(())
        } else {
            Ok(())
        }
    }
}

/// Length of a segment's byte run.
pub open spec fn seg_len(g: Seg) -> int {
    g.end - g.start
}

/// Whether image position `i` (relative to `base`) falls inside segment `g`.
pub open spec fn covers(g: Seg, base: int, i: int) -> bool {
    g.offset - base <= i < g.offset - base + seg_len(g)
}

/// Whether any of `segs` covers image position `i`.
pub open spec fn covered(segs: Seq<Seg>, base: int, i: int) -> bool {
    exists|k: int| 0 <= k < segs.len() && covers(#[trigger] segs[k], base, i)
}

/// Of two segments, the one placed lower ends before the other starts.
pub open spec fn no_overlap(g1: Seg, g2: Seg) -> bool {
    g1.offset <= g2.offset ==> g1.offset + seg_len(g1) <= g2.offset
}

/// No two distinct segments overlap.
pub open spec fn segs_disjoint(segs: Seq<Seg>) -> bool {
    forall|k1: int, k2: int|
        0 <= k1 < segs.len() && 0 <= k2 < segs.len() && k1 != k2 ==> no_overlap(
            #[trigger] segs[k1],
            #[trigger] segs[k2],
        )
}

/// The merged image `img` holds each segment's bytes at its place and zeros
/// everywhere else.
pub open spec fn image_matches(s: Seq<u8>, segs: Seq<Seg>, base: int, img: Seq<u8>) -> bool {
    &&& (forall|k: int, i: int|
        #![trigger segs[k], img[i]]
        0 <= k < segs.len() && 0 <= i < img.len() && covers(segs[k], base, i) ==> img[i] == s[
            segs[k].start + i - (segs[k].offset - base)])
    &&& (forall|i: int| 0 <= i < img.len() && !covered(segs, base, i) ==> #[trigger] img[i] == 0)
}

/// The bytes that replace an `n`-byte LEB128 count so that it reads as 1.
pub open spec fn mitigation_bytes(n: nat) -> Seq<u8> {
    if n == 1 {
        seq![1u8]
    } else {
        seq![0x81u8] + Seq::new((n - 2) as nat, |i: int| 0x80u8) + seq![0u8]
    }
}

/// The input bytes after the data-count mitigation.
pub open spec fn mitigated(s: Seq<u8>, r: Option<(usize, usize)>) -> Seq<u8> {
    match r {
        None => s,
        Some((a, b)) => s.take(a as int) + mitigation_bytes((b - a) as nat) + s.skip(b as int),
    }
}

proof fn lemma_zero_tail(k: nat)
    ensures
        crate::leb::uleb_val(Seq::new(k, |i: int| 0x80u8) + seq![0u8]) == 0,
    decreases k,
{
    let s = Seq::new(k, |i: int| 0x80u8) + seq![0u8];
    if k == 0 {
        assert(s =~= seq![0u8]);
        assert(s[0] == 0u8);
        assert(s.drop_first() =~= Seq::<u8>::empty());
        assert(crate::leb::uleb_val(Seq::<u8>::empty()) == 0);
    } else {
        lemma_zero_tail((k - 1) as nat);
        assert(s[0] == 0x80u8);
        assert(s.drop_first() =~= Seq::new((k - 1) as nat, |i: int| 0x80u8) + seq![0u8]);
        assert(crate::leb::uleb_val(s) == (s[0] % 128) as nat + 128 * crate::leb::uleb_val(
            s.drop_first(),
        ));
    }
}

/// The data-count mitigation keeps the byte width of the count and makes it
/// read as exactly one.
pub proof fn lemma_mitigation_reads_one(n: nat)
    requires
        n >= 1,
    ensures
        mitigation_bytes(n).len() == n,
        crate::leb::uleb_val(mitigation_bytes(n)) == 1,
        forall|i: int| 0 <= i < n - 1 ==> #[trigger] mitigation_bytes(n)[i] >= 128,
        mitigation_bytes(n)[n - 1] < 128,
{
    let s = mitigation_bytes(n);
    if n == 1 {
        assert(s[0] == 1u8);
        assert(s.drop_first() =~= Seq::<u8>::empty());
        assert(crate::leb::uleb_val(Seq::<u8>::empty()) == 0);
    } else {
        lemma_zero_tail((n - 2) as nat);
        assert(s[0] == 0x81u8);
        assert(s.drop_first() =~= Seq::new((n - 2) as nat, |i: int| 0x80u8) + seq![0u8]);
        assert(crate::leb::uleb_val(s) == (s[0] % 128) as nat + 128 * crate::leb::uleb_val(
            s.drop_first(),
        ));
    }
}

/// Append `count` zero bytes.
pub(crate) fn push_zeros(v: &mut Vec<u8>, count: usize)
    ensures
        final(v)@.len() == old(v)@.len() + count,
        final(v)@.subrange(0, old(v)@.len() as int) == old(v)@,
        forall|i: int| old(v)@.len() <= i < final(v)@.len() ==> final(v)@[i] == 0,
{
    let mut k: usize = 0;
    while k < count
        invariant
            k <= count,
            v@.len() == old(v)@.len() + k,
            v@.subrange(0, old(v)@.len() as int) == old(v)@,
            forall|i: int| old(v)@.len() <= i < v@.len() ==> v@[i] == 0,
        decreases count - k,
    {
        v.push(0);
        k = k + 1;
        proof {
            assert(v@.subrange(0, old(v)@.len() as int) =~= old(v)@);
        }
    }
}

/// Append the bytes `m[start..end]`.
pub(crate) fn push_range(v: &mut Vec<u8>, m: &Vec<u8>, start: usize, end: usize)
    requires
        start <= end <= m@.len(),
    ensures
        final(v)@ == old(v)@ + m@.subrange(start as int, end as int),
{
    let mut k: usize = start;
    while k < end
        invariant
            start <= k <= end <= m@.len(),
            v@ == old(v)@ + m@.subrange(start as int, k as int),
        decreases end - k,
    {
        v.push(m[k]);
        k = k + 1;
        proof {
            assert(old(v)@ + m@.subrange(start as int, k as int) =~= v@);
        }
    }
    proof {
        assert(v@ =~= old(v)@ + m@.subrange(start as int, end as int));
    }
}

/// Copy a byte vector.
pub(crate) fn copy_vec(m: &Vec<u8>) -> (r: Vec<u8>)
    ensures
        r@ == m@,
{
    let mut r: Vec<u8> = Vec::new();
    push_range(&mut r, m, 0, m.len());
    proof {
        assert(r@ =~= m@);
    }
    r
}

/// Overwrite the count bytes at `a..b` in place so that the LEB128 item
/// there reads as one, preserving its byte width.
fn mitigate_in_place(v: &mut Vec<u8>, a: usize, b: usize)
    requires
        a < b <= old(v)@.len(),
    ensures
        final(v)@ == mitigated(old(v)@, Some((a, b))),
{
    proof {
        lemma_mitigation_reads_one((b - a) as nat);
    }
    if b - a == 1 {
        v.set(a, 1);
    } else {
        v.set(a, 0x81);
        let mut k: usize = a + 1;
        while k < b - 1
            invariant
                a + 1 <= k <= b - 1,
                b <= v@.len(),
                v@.len() == old(v)@.len(),
                forall|i: int| 0 <= i < v@.len() && !(a <= i < k) ==> v@[i] == old(v)@[i],
                v@[a as int] == 0x81u8,
                forall|i: int| a < i < k ==> v@[i] == 0x80u8,
            decreases b - k,
        {
            v.set(k, 0x80);
            k = k + 1;
        }
        v.set(b - 1, 0);
    }
    proof {
        assert(v@ =~= mitigated(old(v)@, Some((a, b))));
    }
}

/// Sort segments by ascending offset; the result holds the same segments.
fn sort_segs(v: Vec<Seg>) -> (r: Vec<Seg>)
    ensures
        r@.to_multiset() == v@.to_multiset(),
        r@.len() == v@.len(),
        forall|i: int, j: int| 0 <= i <= j < r@.len() ==> #[trigger] r@[i].offset <= #[trigger] r@[j].offset,
{
    broadcast use vstd::seq_lib::group_to_multiset_ensures;

    let mut rest = v;
    let mut out: Vec<Seg> = Vec::new();
    loop
        invariant
            out@.len() + rest@.len() == v@.len(),
            out@.to_multiset().add(rest@.to_multiset()) == v@.to_multiset(),
            forall|i: int, j: int|
                0 <= i <= j < out@.len() ==> #[trigger] out@[i].offset <= #[trigger] out@[j].offset,
            forall|i: int, j: int|
                0 <= i < out@.len() && 0 <= j < rest@.len() ==> #[trigger] out@[i].offset
                    <= #[trigger] rest@[j].offset,
        ensures
            rest@.len() == 0,
            out@.to_multiset().add(rest@.to_multiset()) == v@.to_multiset(),
            forall|i: int, j: int|
                0 <= i <= j < out@.len() ==> #[trigger] out@[i].offset <= #[trigger] out@[j].offset,
        decreases rest@.len(),
    {
        if rest.len() == 0 {
            break;
        }
        let mut mi: usize = 0;
        let mut i: usize = 1;
        while i < rest.len()
            invariant
                mi < i <= rest@.len() || (i <= rest@.len() && mi == 0),
                mi < rest@.len(),
                forall|j: int| 0 <= j < i ==> rest@[mi as int].offset <= #[trigger] rest@[j].offset,
            decreases rest@.len() - i,
        {
            if rest[i].offset < rest[mi].offset {
                mi = i;
            }
            i = i + 1;
        }
        let ghost rest0 = rest@;
        let g = rest.remove(mi);
        proof {
            assert(rest0[mi as int] == g);
            assert(rest0.contains(g));
            vstd::seq_lib::to_multiset_contains::<Seg>(rest0, g);
            vstd::seq_lib::to_multiset_remove::<Seg>(rest0, mi as int);
            vstd::seq_lib::to_multiset_build::<Seg>(out@, g);
            assert(rest@.to_multiset() =~= rest0.to_multiset().remove(g));
            assert(out@.push(g).to_multiset() =~= out@.to_multiset().insert(g));
            assert(out@.push(g).to_multiset().add(rest@.to_multiset()) =~= v@.to_multiset());
        }
        out.push(g);
    }
    proof {
        assert(rest@.to_multiset() =~= Multiset::<Seg>::empty());
        assert(out@.to_multiset() =~= v@.to_multiset());
    }
    out
}

/// Sequences with equal multisets hold the same elements.
proof fn lemma_same_elems(a: Seq<Seg>, b: Seq<Seg>)
    requires
        a.to_multiset() == b.to_multiset(),
    ensures
        forall|k: int| 0 <= k < b.len() ==> a.contains(#[trigger] b[k]),
        forall|k: int| 0 <= k < a.len() ==> b.contains(#[trigger] a[k]),
        a.len() == b.len(),
{
    broadcast use vstd::seq_lib::group_to_multiset_ensures;

    assert forall|k: int| 0 <= k < b.len() implies a.contains(#[trigger] b[k]) by {
        assert(b.to_multiset().count(b[k]) > 0);
    }
    assert forall|k: int| 0 <= k < a.len() implies b.contains(#[trigger] a[k]) by {
        assert(a.to_multiset().count(a[k]) > 0);
    }
    assert(a.to_multiset().len() == a.len());
    assert(b.to_multiset().len() == b.len());
}

/// If a value occurs at two positions of `a`, then it occurs at two distinct
/// positions of any sequence with the same multiset.
proof fn lemma_dup_transfer(a: Seq<Seg>, b: Seq<Seg>, i: int, j: int)
    requires
        a.to_multiset() == b.to_multiset(),
        0 <= i < a.len(),
        0 <= j < a.len(),
        i != j,
        a[i] == a[j],
    ensures
        exists|p: int, q: int|
            0 <= p < b.len() && 0 <= q < b.len() && p != q && b[p] == a[i] && b[q] == a[i],
{
    broadcast use vstd::seq_lib::group_to_multiset_ensures;

    let x = a[i];
    let lo = if i < j {
        i
    } else {
        j
    };
    let hi = if i < j {
        j
    } else {
        i
    };
    // removing the later occurrence keeps the earlier one
    let a2 = a.remove(hi);
    assert(a2[lo] == x);
    assert(a2.to_multiset() == a.to_multiset().remove(x));
    assert(a2.to_multiset().count(x) > 0);
    assert(b.to_multiset().remove(x).count(x) > 0);
    assert(b.to_multiset().count(x) >= 2);
    let p = choose|p: int| 0 <= p < b.len() && b[p] == x;
    let b2 = b.remove(p);
    assert(b2.to_multiset() == b.to_multiset().remove(x));
    assert(b2.to_multiset().count(x) > 0);
    let q2 = choose|q: int| 0 <= q < b2.len() && b2[q] == x;
    let q = if q2 < p {
        q2
    } else {
        q2 + 1
    };
    assert(b[q] == x);
}

/// The image description is independent of the order the segments are
/// listed in.
proof fn lemma_image_transfer(s: Seq<u8>, a: Seq<Seg>, b: Seq<Seg>, base: int, img: Seq<u8>)
    requires
        a.to_multiset() == b.to_multiset(),
        image_matches(s, a, base, img),
    ensures
        image_matches(s, b, base, img),
{
    lemma_same_elems(a, b);
    assert forall|k: int, i: int|
        #![trigger b[k], img[i]]
        0 <= k < b.len() && 0 <= i < img.len() && covers(b[k], base, i) implies img[i] == s[b[k].start + i - (b[k].offset - base)] by {
        assert(a.contains(b[k]));
        let p = choose|p: int| 0 <= p < a.len() && a[p] == b[k];
        assert(covers(a[p], base, i));
    }
    assert forall|i: int| 0 <= i < img.len() && !covered(b, base, i) implies #[trigger] img[i]
        == 0 by {
        if covered(a, base, i) {
            let k = choose|k: int| 0 <= k < a.len() && covers(#[trigger] a[k], base, i);
            assert(b.contains(a[k]));
            let q = choose|q: int| 0 <= q < b.len() && b[q] == a[k];
            assert(covers(b[q], base, i));
            assert(covered(b, base, i));
        }
        assert(!covered(a, base, i));
    }
}

impl RelevantInfoBuilder {
    /// Validate what the first pass collected, merge the data segments into
    /// one contiguous image (gaps zero-filled), and rewrite the data-count
    /// bytes of a copy of the input so that the count reads as one.
    #[verifier::rlimit(100)]
    pub fn build(self, input: &Vec<u8>) -> (r: Result<(RelevantInfo, Vec<u8>), SqueezeError>)
        ensures
            match r {
                Ok((info, mit)) => {
                    &&& self.segs@.len() > 0
                    &&& self.old_type_count == Some(info.old_type_count)
                    &&& self.old_function_count == Some(info.old_function_count)
                    &&& info.import_function_count == (match self.import_function_count {
                        Some(x) => x,
                        None => 0u32,
                    })
                    &&& info.start_fn_idx == self.start_fn_idx
                    &&& (match info.start_fn_idx {
                        Some(f) => info.import_function_count <= f && f
                            < info.import_function_count + info.old_function_count,
                        None => true,
                    })
                    &&& info.wf()
                    &&& mit@ == mitigated(input@, self.data_count_range)
                    &&& mit@.len() == input@.len()
                    &&& forall|k: int|
                        0 <= k < self.segs@.len() ==> (#[trigger] self.segs@[k]).start
                            <= self.segs@[k].end <= input@.len()
                    &&& segs_disjoint(self.segs@)
                    &&& (exists|k: int|
                        0 <= k < self.segs@.len() && info.data.offset == (
                        #[trigger] self.segs@[k]).offset)
                    &&& (forall|k: int|
                        0 <= k < self.segs@.len() ==> info.data.offset <= (
                        #[trigger] self.segs@[k]).offset)
                    &&& (exists|k: int|
                        0 <= k < self.segs@.len() && info.data.data@.len() == (
                        #[trigger] self.segs@[k]).offset - info.data.offset + seg_len(
                            self.segs@[k],
                        ))
                    &&& (forall|k: int|
                        0 <= k < self.segs@.len() ==> (#[trigger] self.segs@[k]).offset
                            - info.data.offset + seg_len(self.segs@[k])
                            <= info.data.data@.len())
                    &&& image_matches(mit@, self.segs@, info.data.offset as int, info.data.data@)
                },
                Err(e) => {
                    &&& (e == SqueezeError::NoData <==> self.segs@.len() == 0)
                    &&& (e == SqueezeError::Parse ==> self.old_type_count is None
                        || self.old_function_count is None || (exists|k: int|
                        0 <= k < self.segs@.len() && !((#[trigger] self.segs@[k]).start
                            <= self.segs@[k].end && self.segs@[k].end <= input@.len())) || (
                    match self.data_count_range {
                        Some((a, b)) => !(a < b && b <= input@.len()),
                        None => false,
                    }))
                    &&& (e == SqueezeError::Encode ==> (match self.old_function_count {
                        Some(c) => c
                    as int,
                        None => 0,
                    }) + (match self.import_function_count {
                        Some(c) => c as int,
                        None => 0,
                    }) > u32::MAX)
                    &&& (e == SqueezeError::Unsupported ==> !segs_disjoint(self.segs@) || (match (
                        self.start_fn_idx,
                        self.old_function_count,
                    ) {
                        (Some(f), Some(ofc)) => !((match self.import_function_count {
                            Some(x) => x as int,
                            None => 0,
                        }) <= f && f < (match self.import_function_count {
                            Some(x) => x as int,
                            None => 0,
                        }) + ofc),
                        _ => false,
                    }))
                    &&& (e == SqueezeError::NoData || e == SqueezeError::Parse || e
                        == SqueezeError::Encode || e == SqueezeError::Unsupported)
                },
            },
    {
        if self.segs.len() == 0 {
            return Err(SqueezeError::NoData);
        }
        let old_type_count = match self.old_type_count {
            Some(c) => c,
            None => {
                return Err(SqueezeError::Parse);
            },
        };
        let old_function_count = match self.old_function_count {
            Some(c) => c,
            None => {
                return Err(SqueezeError::Parse);
            },
        };
        let import_function_count = match self.import_function_count {
            Some(c) => c,
            None => 0,
        };
        if u32::MAX - old_function_count < import_function_count {
            return Err(SqueezeError::Encode);
        }
        // a declared start function must be one of the input's own defined
        // functions, so that the prologue has a body to land in
        match self.start_fn_idx {
            Some(f) => {
                if f < import_function_count || f - import_function_count >= old_function_count {
                    return Err(SqueezeError::Unsupported);
                }
            },
            None => {},
        }
        // segment ranges must lie inside the module
        let n = self.segs.len();
        let mut k: usize = 0;
        while k < n
            invariant
                k <= n,
                n == self.segs@.len(),
                forall|i: int|
                    0 <= i < k ==> (#[trigger] self.segs@[i]).start <= self.segs@[i].end
                        <= input@.len(),
            decreases n - k,
        {
            let g = self.segs[k];
            if !(g.start <= g.end && g.end <= input.len()) {
                return Err(SqueezeError::Parse);
            }
            k = k + 1;
        }
        // no two distinct segments may overlap
        let mut k1: usize = 0;
        while k1 < n
            invariant
                k1 <= n,
                n == self.segs@.len(),
                forall|i: int|
                    0 <= i < n ==> (#[trigger] self.segs@[i]).start <= self.segs@[i].end
                        <= input@.len(),
                forall|i: int, j: int|
                    0 <= i < k1 && 0 <= j < n && i != j ==> no_overlap(
                        #[trigger] self.segs@[i],
                        #[trigger] self.segs@[j],
                    ),
            decreases n - k1,
        {
            let g1 = self.segs[k1];
            let mut k2: usize = 0;
            while k2 < n
                invariant
                    k2 <= n,
                    k1 < n,
                    n == self.segs@.len(),
                    forall|i: int|
                        0 <= i < n ==> (#[trigger] self.segs@[i]).start <= self.segs@[i].end
                            <= input@.len(),
                    g1 == self.segs@[k1 as int],
                    forall|j: int|
                        0 <= j < k2 && j != k1 ==> no_overlap(
                            self.segs@[k1 as int],
                            #[trigger] self.segs@[j],
                        ),
                decreases n - k2,
            {
                if k2 != k1 {
                    let g2 = self.segs[k2];
                    if g1.offset <= g2.offset && g1.offset as i128 + (g1.end - g1.start) as i128
                        > g2.offset as i128 {
                        return Err(SqueezeError::Unsupported);
                    }
                }
                k2 = k2 + 1;
            }
            k1 = k1 + 1;
        }
        // mitigate the data-count bytes in a copy of the input
        let mut mit = copy_vec(input);
        match self.data_count_range {
            Some((a, b)) => {
                if !(a < b && b <= mit.len()) {
                    return Err(SqueezeError::Parse);
                }
                mitigate_in_place(&mut mit, a, b);
            },
            None => {},
        }
        let mitlen = mit.len();
        proof {
            assert(mit@.len() == mitlen);
        }
        let ghost orig = self.segs@;
        let sorted = sort_segs(self.segs);
        proof {
            lemma_same_elems(sorted@, orig);
        }
        // the sorted view keeps the ranges and the disjointness
        proof {
            assert forall|i: int|
                0 <= i < sorted@.len() implies (#[trigger] sorted@[i]).start <= sorted@[i].end
                <= mit@.len() by {
                assert(orig.contains(sorted@[i]));
                let p = choose|p: int| 0 <= p < orig.len() && orig[p] == sorted@[i];
            }
            assert forall|i: int, j: int|
                0 <= i < sorted@.len() && 0 <= j < sorted@.len() && i != j implies no_overlap(
                #[trigger] sorted@[i],
                #[trigger] sorted@[j],
            ) by {
                if sorted@[i] == sorted@[j] {
                    lemma_dup_transfer(sorted@, orig, i, j);
                    let (p, q) = choose|p: int, q: int|
                        0 <= p < orig.len() && 0 <= q < orig.len() && p != q && orig[p] == sorted@[i] && orig[q] == sorted@[i];
                    assert(no_overlap(orig[p], orig[q]));
                } else {
                    let p = choose|p: int| 0 <= p < orig.len() && orig[p] == sorted@[i];
                    let q = choose|q: int| 0 <= q < orig.len() && orig[q] == sorted@[j];
                    assert(no_overlap(orig[p], orig[q]));
                }
            }
        }
        // merge: the first segment's bytes, then for each later segment a
        // zero-filled gap followed by its bytes
        let base: i32 = sorted[0].offset;
        let mut img: Vec<u8> = Vec::new();
        push_range(&mut img, &mit, sorted[0].start, sorted[0].end);
        proof {
            assert(img@ =~= mit@.subrange(
                sorted@[0].start as int,
                sorted@[0].end as int,
            ));
            assert(image_matches(mit@, sorted@.take(1), base as int, img@)) by {
                assert forall|i: int|
                    0 <= i < img@.len() && !covered(sorted@.take(1), base as int, i) implies
                    #[trigger] img@[i] == 0 by {
                    assert(covers(sorted@.take(1)[0], base as int, i));
                }
            }
        }
        let mut k: usize = 1;
        loop
            invariant
                1 <= k <= sorted@.len(),
                sorted@.len() == orig.len(),
                base == sorted@[0].offset,
                mit@.len() <= usize::MAX,
                forall|i: int, j: int|
                    0 <= i <= j < sorted@.len() ==> #[trigger] sorted@[i].offset
                        <= #[trigger] sorted@[j].offset,
                forall|i: int|
                    0 <= i < sorted@.len() ==> (#[trigger] sorted@[i]).start <= sorted@[i].end
                        <= mit@.len(),
                forall|i: int, j: int|
                    0 <= i < sorted@.len() && 0 <= j < sorted@.len() && i != j ==> no_overlap(
                        #[trigger] sorted@[i],
                        #[trigger] sorted@[j],
                    ),
                img@.len() == sorted@[k - 1].offset - base + seg_len(sorted@[k - 1]),
                forall|j: int|
                    0 <= j < k ==> (#[trigger] sorted@[j]).offset - base + seg_len(sorted@[j])
                        <= img@.len(),
                image_matches(mit@, sorted@.take(k as int), base as int, img@),
            ensures
                k == sorted@.len(),
                img@.len() == sorted@[k - 1].offset - base + seg_len(sorted@[k - 1]),
                forall|j: int|
                    0 <= j < k ==> (#[trigger] sorted@[j]).offset - base + seg_len(sorted@[j])
                        <= img@.len(),
                image_matches(mit@, sorted@.take(k as int), base as int, img@),
            decreases sorted@.len() - k,
        {
            if k == sorted.len() {
                break;
            }
            let g = sorted[k];
            let ghost old_img = img@;
            let gap_i: i128 = g.offset as i128 - base as i128;
            proof {
                assert(no_overlap(sorted@[k - 1], sorted@[k as int]));
                assert(img@.len() <= gap_i);
                assert(gap_i + seg_len(sorted@[k as int]) <= mit@.len() + 0x1_0000_0000);
            }
            let gap: usize = gap_i as usize;
            let fill: usize = gap - img.len();
            push_zeros(&mut img, fill);
            let ghost mid_img = img@;
            push_range(&mut img, &mit, g.start, g.end);
            proof {
                let kk = k as int;
                let b = base as int;
                let pre = sorted@.take(kk);
                let cur = sorted@.take(kk + 1);
                assert(cur[kk] == sorted@[kk]);
                assert(forall|j: int| 0 <= j < kk ==> cur[j] == sorted@[j] && pre[j] == sorted@[j]);
                // earlier bytes are unchanged
                assert(forall|i: int|
                    0 <= i < old_img.len() ==> mid_img[i] == old_img[i] && img@[i] == mid_img[i]);
                assert(forall|i: int| old_img.len() <= i < gap ==> img@[i] == mid_img[i]);
                assert forall|j: int, i: int|
                    #![trigger cur[j], img@[i]]
                    0 <= j < cur.len() && 0 <= i < img@.len() && covers(cur[j], b, i) implies img@[i] == mit@[cur[j].start + i - (cur[j].offset - b)] by {
                    if j < kk {
                        assert(sorted@[j].offset - b + seg_len(sorted@[j]) <= old_img.len());
                        assert(i < old_img.len());
                        assert(covers(pre[j], b, i));
                        assert(old_img[i] == mit@[pre[j].start + i - (pre[j].offset - b)]);
                    } else {
                        assert(cur[j] == g);
                        assert(gap <= i < gap + seg_len(sorted@[kk]));
                        assert(img@[i] == mit@.subrange(g.start as int, g.end as int)[i - gap]);
                    }
                }
                assert forall|i: int|
                    0 <= i < img@.len() && !covered(cur, b, i) implies #[trigger] img@[i] == 0 by {
                    assert(!covers(cur[kk], b, i));
                    if i < old_img.len() {
                        if covered(pre, b, i) {
                            let j = choose|j: int|
                                0 <= j < pre.len() && covers(#[trigger] pre[j], b, i);
                            assert(covers(cur[j], b, i));
                        }
                        assert(!covered(pre, b, i));
                        assert(old_img[i] == 0);
                    } else {
                        assert(i < gap);
                        assert(img@[i] == 0);
                    }
                }
            }
            k = k + 1;
        }
        proof {
            assert(sorted@.take(sorted@.len() as int) =~= sorted@);
            lemma_image_transfer(mit@, sorted@, orig, base as int, img@);
        }
        Ok(
            (
                RelevantInfo {
                    start_fn_idx: self.start_fn_idx,
                    data: Data { offset: base, data: img },
                    old_function_count,
                    old_type_count,
                    import_function_count,
                },
                mit,
            ),
        )
    }
}

} // verus!
