//! Extracting the bytes of the loadable segments of an object file.
use vstd::prelude::*;

use object::{Object, ObjectSegment};


use crate::hex::data_pairs;
use crate::MergehexError;

verus! {

/// ELF segment permission bits: readable, executable, writable.
const PF_R: u32 = 0x4;
const PF_X: u32 = 0x1;
const PF_W: u32 = 0x2;

/// A segment of an object file, as plain values: its ELF `p_flags` when the file
/// is an ELF file, its address, and its bytes or the text of the error that
/// reading them gave.
pub struct Segment {
    pub elf_p_flags: Option<u32>,
    pub address: u64,
    pub data: Result<Vec<u8>, String>,
}

/// A segment with its bytes and error text as sequences.
pub struct SegmentView {
    pub elf_p_flags: Option<u32>,
    pub address: u64,
    pub data: Result<Seq<u8>, Seq<char>>,
}

impl View for Segment {
    type V = SegmentView;

    open spec fn view(&self) -> SegmentView {
        SegmentView {
            elf_p_flags: self.elf_p_flags,
            address: self.address,
            data: match self.data {
                Ok(d) => Ok(d@),
                Err(e) => Err(e@),
            },
        }
    }
}

/// The segments that the `object` crate reads from a file's bytes, or the text of
/// its error when it cannot parse the file.
pub uninterp spec fn object_segments(data: Seq<u8>) -> Result<Seq<SegmentView>, Seq<char>>;

/// The segments as views.
pub open spec fn segments_view(v: Seq<Segment>) -> Seq<SegmentView> {
    v.map_values(|s: Segment| s@)
}

/// `object::File::parse` on the bytes, then each of its `segments()` with its
/// `flags()` (the `p_flags` of an ELF segment), `address()` and `data()`; a parse
/// error is turned into its text.  What comes out is a function of the bytes
/// alone, named `object_segments`; nothing more is claimed of it.
#[verifier::external_body]
fn read_object_segments(data: &[u8]) -> (r: Result<Vec<Segment>, String>)
    ensures
        match r {
            Ok(v) => object_segments(data@) == Ok::<Seq<SegmentView>, Seq<char>>(segments_view(v@)),
            Err(t) => object_segments(data@) == Err::<Seq<SegmentView>, Seq<char>>(t@),
        },
{
    let file = object::File::parse(data).map_err(|e| e.to_string())?;
    let mut out = Vec::new();
    for s in file.segments() {
        let elf_p_flags = match s.flags() {
            object::SegmentFlags::Elf { p_flags } => Some(p_flags),
            _ => None,
        };
        let bytes = s.data().map(|d| d.to_vec()).map_err(|e| e.to_string());
        out.push(Segment { elf_p_flags, address: s.address(), data: bytes });
    }
    Ok(out)
}

/// Whether the segment is worth extracting: an ELF segment with at least one
/// of the read, write or execute permissions, or any segment of another format.
pub open spec fn segment_useful(s: SegmentView) -> bool {
    match s.elf_p_flags {
        Some(f) => f & 7 != 0,
        None => true,
    }
}

/// What extracting the segments gives.
pub enum ElfOutcome {
    /// The pairs of all useful segments, in order.
    Pairs(Seq<(u64, u8)>),
    /// The bytes of a useful segment could not be read; the error's text.
    SegmentError(Seq<char>),
    /// No useful segment holds any byte.
    NoLoadable,
    /// A segment runs past the end of the address space: the address arithmetic overflows.
    Overflows,
}

/// Extracting the segments in order: skip segments that are not useful or empty,
/// stop at the first useful segment whose bytes cannot be read.
pub open spec fn segments_outcome(segs: Seq<SegmentView>) -> ElfOutcome
    decreases segs.len(),
{
    if segs.len() == 0 {
        ElfOutcome::Pairs(Seq::empty())
    } else {
        let s = segs[0];
        if !segment_useful(s) {
            segments_outcome(segs.drop_first())
        } else {
            match s.data {
                Err(msg) => ElfOutcome::SegmentError(msg),
                Ok(d) => if d.len() == 0 {
                    segments_outcome(segs.drop_first())
                } else if s.address + d.len() - 1 > u64::MAX {
                    ElfOutcome::Overflows
                } else {
                    match segments_outcome(segs.drop_first()) {
                        ElfOutcome::Pairs(ps) => ElfOutcome::Pairs(data_pairs(s.address as int, d) + ps),
                        other => other,
                    }
                },
            }
        }
    }
}

/// The outcome for a whole file: no pairs at all is an error.
pub open spec fn elf_outcome(segs: Seq<SegmentView>) -> ElfOutcome {
    match segments_outcome(segs) {
        ElfOutcome::Pairs(ps) => if ps.len() == 0 {
            ElfOutcome::NoLoadable
        } else {
            ElfOutcome::Pairs(ps)
        },
        other => other,
    }
}

/// The result `r` reports the outcome `o`.
pub open spec fn reports_elf(o: ElfOutcome, r: Result<Vec<(u64, u8)>, MergehexError>) -> bool {
    match o {
        ElfOutcome::Pairs(ps) => r matches Ok(v) && v@ == ps,
        ElfOutcome::SegmentError(msg) => r matches Err(MergehexError::ElfParse { detail }) && detail@
            == "failed to read segment data: "@ + msg,
        ElfOutcome::NoLoadable => r matches Err(MergehexError::ElfParse { detail }) && detail@
            == "no loadable segments found"@,
        ElfOutcome::Overflows => false,
    }
}

proof fn lemma_outcome_suffix(segs: Seq<SegmentView>, i: int)
    requires
        0 <= i < segs.len(),
    ensures
        segs.skip(i).drop_first() == segs.skip(i + 1),
        segs.skip(i)[0] == segs[i],
{
    assert(segs.skip(i).drop_first() =~= segs.skip(i + 1));
}

/// Whether extracting the segments overflows the address arithmetic.
pub fn segments_overflow(segments: &Vec<Segment>) -> (b: bool)
    ensures
        b == (segments_outcome(segments_view(segments@)) is Overflows),
{
    let ghost segs = segments_view(segments@);
    let n = segments.len();
    proof {
        assert(segs.skip(0) =~= segs);
        assert(PF_R | PF_X | PF_W == 7u32) by (bit_vector);
    }
    for i in 0..n
        invariant
            n == segments@.len(),
            segs == segments_view(segments@),
            (segments_outcome(segs) is Overflows) == (segments_outcome(segs.skip(i as int)) is Overflows),
    {
        proof {
            lemma_outcome_suffix(segs, i as int);
            assert(segs[i as int] == segments@[i as int]@);
            assert(PF_R | PF_X | PF_W == 7u32) by (bit_vector);
        }
        let s = &segments[i];
        let useful = match s.elf_p_flags {
            Some(f) => (f & (PF_R | PF_X | PF_W)) != 0,
            None => true,
        };
        if useful {
            match &s.data {
                Err(_) => {
                    return false;
                },
                Ok(d) => {
                    if d.len() > 0 && s.address > u64::MAX - (d.len() as u64 - 1) {
                        return true;
                    }
                },
            }
        }
    }
    proof {
        assert(segs.skip(n as int) =~= Seq::<SegmentView>::empty());
    }
    false
}

/// Extract `(address, byte)` pairs from the useful segments, in order.
pub fn elf_pairs(segments: &Vec<Segment>) -> (r: Result<Vec<(u64, u8)>, MergehexError>)
    requires
        !(segments_outcome(segments_view(segments@)) is Overflows),
    ensures
        reports_elf(elf_outcome(segments_view(segments@)), r),
{
    let ghost segs = segments_view(segments@);
    let mut pairs: Vec<(u64, u8)> = Vec::new();
    let n = segments.len();
    proof {
        assert(segs.skip(0) =~= segs);
        assert(pairs@ + Seq::<(u64, u8)>::empty() =~= Seq::<(u64, u8)>::empty());
    }
    for i in 0..n
        invariant
            n == segments@.len(),
            segs == segments_view(segments@),
            !(segments_outcome(segs.skip(i as int)) is Overflows),
            match segments_outcome(segs) {
                ElfOutcome::Pairs(ps) => segments_outcome(segs.skip(i as int)) matches ElfOutcome::Pairs(rest)
                    && ps == pairs@ + rest,
                other => segments_outcome(segs.skip(i as int)) == other,
            },
    {
        proof {
            lemma_outcome_suffix(segs, i as int);
            assert(segs[i as int] == segments@[i as int]@);
            assert(PF_R | PF_X | PF_W == 7u32) by (bit_vector);
        }
        let s = &segments[i];
        let useful = match s.elf_p_flags {
            Some(f) => (f & (PF_R | PF_X | PF_W)) != 0,
            None => true,
        };
        if useful {
            match &s.data {
                Err(msg) => {
                    let mut detail = String::from_str("failed to read segment data: ");
                    detail.append(msg.as_str());
                    return Err(MergehexError::ElfParse { detail });
                },
                Ok(d) => {
                    let address = s.address;
                    let len = d.len();
                    let ghost before = pairs@;
                    for k in 0..len
                        invariant
                            len == d@.len(),
                            len == 0 || address + len - 1 <= u64::MAX,
                            pairs@ == before + data_pairs(address as int, d@.take(k as int)),
                    {
                        pairs.push((address + k as u64, d[k]));
                        proof {
                            assert(data_pairs(address as int, d@.take(k + 1)) =~= data_pairs(address as int, d@.take(k as int)).push(((address + k) as u64, d@[k as int])));
                        }
                    }
                    proof {
                        assert(d@.take(len as int) =~= d@);
                        if len == 0 {
                            assert(data_pairs(address as int, d@) =~= Seq::<(u64, u8)>::empty());
                        }
                    }
                },
            }
        }
    }
    proof {
        assert(segs.skip(n as int) =~= Seq::<SegmentView>::empty());
    }
    if pairs.len() == 0 {
        return Err(MergehexError::ElfParse { detail: String::from_str("no loadable segments found") });
    }
    Ok(pairs)
}

/// Extract `(address, byte)` pairs from the loadable segments of an object file's
/// bytes.  `None` when a segment runs past the end of the address space.
pub fn parse_elf_file(data: &[u8]) -> (r: Option<Result<Vec<(u64, u8)>, MergehexError>>)
    ensures
        match object_segments(data@) {
            Err(text) => r matches Some(Err(MergehexError::ElfParse { detail })) && detail@ == text,
            Ok(segs) => if segments_outcome(segs) is Overflows {
                r is None
            } else {
                r matches Some(res) && reports_elf(elf_outcome(segs), res)
            },
        },
{
    let segments = match read_object_segments(data) {
        Ok(s) => s,
        Err(text) => {
            return Some(Err(MergehexError::ElfParse { detail: text }));
        },
    };
    if segments_overflow(&segments) {
        return None;
    }
    Some(elf_pairs(&segments))
}


/* Laws */

/// The segment has the read, write or execute permission bit, or is a segment of
/// a format without ELF flags.
pub open spec fn has_permission(s: SegmentView) -> bool {
    match s.elf_p_flags {
        Some(f) => f & 4 != 0 || f & 2 != 0 || f & 1 != 0,
        None => true,
    }
}

/// The bytes of the segment are readable and the last one's address fits in 64 bits.
pub open spec fn readable_and_fits(s: SegmentView) -> bool {
    s.data matches Ok(d) && (d.len() == 0 || s.address + d.len() - 1 <= u64::MAX)
}

/// What a segment places: when it has a permission bit, each byte `d[i]` at its
/// address plus `i`; otherwise nothing.
pub open spec fn segment_contribution(s: SegmentView) -> Seq<(u64, u8)> {
    match s.data {
        Ok(d) => if has_permission(s) {
            Seq::new(d.len(), |i: int| ((s.address + i) as u64, d[i]))
        } else {
            Seq::empty()
        },
        Err(_) => Seq::empty(),
    }
}

/// When the bytes of every segment with a permission bit can be read and fit in
/// the address space, extraction succeeds with the bytes of exactly those
/// segments, in segment order, each byte at the segment's address plus its index,
/// whichever of the read, write and execute bits are set; with no such byte the
/// file is reported as having no loadable segment.
pub proof fn law_segments_with_permission_are_placed(segs: Seq<SegmentView>)
    requires
        forall|k: int| 0 <= k < segs.len() && has_permission(#[trigger] segs[k]) ==> readable_and_fits(segs[k]),
    ensures
        segments_outcome(segs) == ElfOutcome::Pairs(segs.map_values(|s: SegmentView| segment_contribution(s)).flatten()),
        elf_outcome(segs) == (if segs.map_values(|s: SegmentView| segment_contribution(s)).flatten().len() == 0 {
            ElfOutcome::NoLoadable
        } else {
            ElfOutcome::Pairs(segs.map_values(|s: SegmentView| segment_contribution(s)).flatten())
        }),
    decreases segs.len(),
{
    let cs = segs.map_values(|s: SegmentView| segment_contribution(s));
    if segs.len() > 0 {
        let s = segs[0];
        let rest = segs.drop_first();
        assert forall|k: int| 0 <= k < rest.len() && has_permission(#[trigger] rest[k]) implies readable_and_fits(rest[k]) by {
            assert(rest[k] == segs[k + 1]);
        }
        law_segments_with_permission_are_placed(rest);
        assert(cs.drop_first() =~= rest.map_values(|s: SegmentView| segment_contribution(s)));
        assert(cs.first() == segment_contribution(s));
        match s.elf_p_flags {
            Some(f) => {
                assert((f & 7 != 0) == (f & 4 != 0 || f & 2 != 0 || f & 1 != 0)) by (bit_vector);
            },
            None => {},
        }
        assert(segment_useful(s) == has_permission(s));
        if has_permission(s) {
            assert(readable_and_fits(segs[0]));
            let d = s.data->Ok_0;
            if d.len() > 0 {
                assert(data_pairs(s.address as int, d) =~= segment_contribution(s));
            } else {
                assert(segment_contribution(s) =~= Seq::<(u64, u8)>::empty());
                assert(cs.flatten() =~= rest.map_values(|s: SegmentView| segment_contribution(s)).flatten());
            }
        } else {
            assert(segment_contribution(s) =~= Seq::<(u64, u8)>::empty());
            assert(cs.flatten() =~= rest.map_values(|s: SegmentView| segment_contribution(s)).flatten());
        }
    }
}


/// The first segment with a permission bit whose bytes cannot be read, or run
/// past the end of the address space, decides the outcome: its error text is
/// reported, or the extraction is known to overflow.
pub proof fn law_first_bad_segment_decides(segs: Seq<SegmentView>, k: int)
    requires
        0 <= k < segs.len(),
        has_permission(segs[k]),
        !readable_and_fits(segs[k]),
        forall|j: int| 0 <= j < k && has_permission(#[trigger] segs[j]) ==> readable_and_fits(segs[j]),
    ensures
        segments_outcome(segs) == (match segs[k].data {
            Err(msg) => ElfOutcome::SegmentError(msg),
            Ok(_) => ElfOutcome::Overflows,
        }),
    decreases k,
{
    let s = segs[0];
    match s.elf_p_flags {
        Some(f) => {
            assert((f & 7 != 0) == (f & 4 != 0 || f & 2 != 0 || f & 1 != 0)) by (bit_vector);
        },
        None => {},
    }
    assert(segment_useful(s) == has_permission(s));
    if k > 0 {
        let rest = segs.drop_first();
        assert forall|j: int| 0 <= j < k - 1 && has_permission(#[trigger] rest[j]) implies readable_and_fits(rest[j]) by {
            assert(rest[j] == segs[j + 1]);
        }
        assert(rest[k - 1] == segs[k]);
        law_first_bad_segment_decides(rest, k - 1);
    }
}


/// A segment's view keeps its flags and address, and its bytes or error text as
/// sequences.
pub proof fn law_segment_view(s: Segment)
    ensures
        s@.elf_p_flags == s.elf_p_flags,
        s@.address == s.address,
        s.data matches Ok(d) ==> s@.data == Ok::<Seq<u8>, Seq<char>>(d@),
        s.data matches Err(t) ==> s@.data == Err::<Seq<u8>, Seq<char>>(t@),
{
}


/// Extracted pairs are reported as those pairs.
pub proof fn law_reports_elf(ps: Seq<(u64, u8)>, r: Result<Vec<(u64, u8)>, MergehexError>)
    ensures
        reports_elf(ElfOutcome::Pairs(ps), r) <==> (r matches Ok(v) && v@ == ps),
{
}

} // verus!
