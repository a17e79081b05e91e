//! The parts of an ELF file and their encoding.

pub mod encode;
pub mod header;
pub mod section;
pub mod segment;

use vstd::prelude::*;
use encode::put_bytes;

pub use header::ElfHeader;
pub use section::Section;
pub use segment::Segment;

verus! {

/// The program headers of the first `n` of `segments`, one behind the
/// other.
pub open spec fn program_headers(segments: Seq<Segment>, n: int) -> Seq<u8>
    decreases n,
{
    if n <= 0 {
        Seq::empty()
    } else {
        program_headers(segments, n - 1) + segments[n - 1].header_encoded()
    }
}

/// `bytes`, filled up with zeros to a length of `to` where they are
/// shorter.
pub open spec fn padded(bytes: Seq<u8>, to: int) -> Seq<u8> {
    if bytes.len() < to {
        bytes + Seq::new((to - bytes.len()) as nat, |i: int| 0u8)
    } else {
        bytes
    }
}

/// `bytes` with the data of the first `n` of `segments` behind them, in
/// order: the data of a segment begins at the file offset that the segment
/// names, behind as many zeros as it takes to get there, or right behind
/// what is written where the file has already passed that offset.
pub open spec fn with_data(bytes: Seq<u8>, segments: Seq<Segment>, n: int) -> Seq<u8>
    decreases n,
{
    if n <= 0 {
        bytes
    } else {
        padded(with_data(bytes, segments, n - 1), segments[n - 1].p_offset as int) + segments[n
            - 1].data@
    }
}

/// The encodings of `sections`, one behind the other.
pub open spec fn sections_encoded(sections: Seq<Section>) -> Seq<u8>
    decreases sections.len(),
{
    if sections.len() == 0 {
        Seq::empty()
    } else {
        sections_encoded(sections.drop_last()) + sections.last().encoded()
    }
}

/// An ELF file: its header, its segments and its sections.
pub struct ElfFile {
    pub header: ElfHeader,
    pub sections: Vec<Section>,
    pub segments: Vec<Segment>,
}

impl ElfFile {
    /// The bytes of the file: the header, the program header of every
    /// segment, the data of every segment at its file offset, and then
    /// every section as it is encoded.
    pub open spec fn encoded(&self) -> Seq<u8> {
        with_data(
            self.header.encoded() + program_headers(self.segments@, self.segments@.len() as int),
            self.segments@,
            self.segments@.len() as int,
        ) + sections_encoded(self.sections@)
    }

    /// A file of one segment whose offset lies behind the two headers holds
    /// the data of the segment at that offset, and ends with it where it
    /// has no sections.
    pub proof fn lemma_one_segment(&self)
        requires
            self.segments@.len() == 1,
            self.sections@.len() == 0,
            self.segments@[0].p_offset >= 120,
        ensures
            self.encoded().len() == self.segments@[0].p_offset + self.segments@[0].data@.len(),
            self.encoded().skip(self.segments@[0].p_offset as int) == self.segments@[0].data@,
            self.encoded().take(64) == self.header.encoded(),
            self.encoded().subrange(64, 120) == self.segments@[0].header_encoded(),
            forall|i: int| 120 <= i < self.segments@[0].p_offset ==> self.encoded()[i] == 0,
    {
        let segment = self.segments@[0];
        let heads = self.header.encoded() + program_headers(self.segments@, 1);
        self.header.lemma_encoded_len();
        segment.lemma_encoded_len();
        assert(program_headers(self.segments@, 1) == segment.header_encoded()) by {
            assert(program_headers(self.segments@, 0) == Seq::<u8>::empty());
            assert(Seq::<u8>::empty() + segment.header_encoded() == segment.header_encoded());
        }
        assert(with_data(heads, self.segments@, 1) == padded(heads, segment.p_offset as int)
            + segment.data@) by {
            assert(with_data(heads, self.segments@, 0) == heads);
        }
        assert(sections_encoded(self.sections@) == Seq::<u8>::empty());
        assert(self.encoded() == padded(heads, segment.p_offset as int) + segment.data@);
        assert(self.encoded().skip(segment.p_offset as int) == segment.data@);
        assert(self.encoded().take(64) == self.header.encoded());
        assert(self.encoded().subrange(64, 120) == segment.header_encoded());
    }

    /// A file with the default header and neither segments nor sections.
    pub fn new() -> (file: Self)
        ensures
            file.header == ElfHeader::default_header(),
            file.sections@ == Seq::<Section>::empty(),
            file.segments@ == Seq::<Segment>::empty(),
    {
        Self { header: ElfHeader::default(), sections: Vec::new(), segments: Vec::new() }
    }

    /// The bytes of the file, ready to be written out.
    pub fn to_bytes(&self) -> (bytes: Vec<u8>)
        ensures
            bytes@ == self.encoded(),
    {
        let mut out: Vec<u8> = Vec::new();
        self.header.write(&mut out);
        let mut i: usize = 0;
        while i < self.segments.len()
            invariant
                i <= self.segments.len(),
                out@ == self.header.encoded() + program_headers(self.segments@, i as int),
            decreases self.segments.len() - i,
        {
            self.segments[i].write_header(&mut out);
            i += 1;
        }
        let ghost heads = out@;
        let mut k: usize = 0;
        while k < self.segments.len()
            invariant
                k <= self.segments.len(),
                out@ == with_data(heads, self.segments@, k as int),
            decreases self.segments.len() - k,
        {
            pad(&mut out, self.segments[k].p_offset);
            put_bytes(&mut out, self.segments[k].data.as_slice());
            k += 1;
        }
        let ghost body = out@;
        let mut j: usize = 0;
        assert(self.sections@.take(0) == Seq::<Section>::empty());
        while j < self.sections.len()
            invariant
                j <= self.sections.len(),
                out@ == body + sections_encoded(self.sections@.take(j as int)),
            decreases self.sections.len() - j,
        {
            proof {
                let next = self.sections@.take(j + 1);
                assert(next.drop_last() == self.sections@.take(j as int));
                assert(next.last() == self.sections@[j as int]);
            }
            self.sections[j].write(&mut out);
            j += 1;
        }
        assert(self.sections@.take(j as int) == self.sections@);
        out
    }
}

/// Fills `out` up with zeros to a length of `to` where it is shorter.
fn pad(out: &mut Vec<u8>, to: u64)
    ensures
        final(out)@ == padded(old(out)@, to as int),
{
    let ghost before = out@;
    while (out.len() as u64) < to
        invariant
            before == old(out)@,
            before.len() <= out@.len(),
            out@.len() <= to || out@ == before,
            out@ == before + Seq::new((out@.len() - before.len()) as nat, |i: int| 0u8),
        decreases to - out@.len(),
    {
        out.push(0);
    }
    assert(out@ == padded(before, to as int));
}

} // verus!
