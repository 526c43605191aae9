//! The reader: finds the footer through the trailer, checks it, and decodes
//! row groups through the offset index.
use vstd::prelude::*;
use crate::bytes::{le_value, read_le, NL};
use crate::codec::Deserialize;
use crate::error::PlankError;
use crate::footer::{parse_footer, schema_view, Footer, FooterView};
use crate::layout::TRAILER_LEN;
use crate::rowgroup::{parse_rowgroup, RowGroup};
use crate::tags::{tag_at, tag_bytes, tag_of, Tag};

verus! {

/// The footer offset that the trailer at the end of `t` gives: `t` must end
/// in the `!FOOTER_OFFSET=` tag, four offset bytes and a newline.
pub open spec fn parse_trailer(t: Seq<u8>) -> Result<u32, PlankError> {
    if t.len() < TRAILER_LEN {
        Err(PlankError::TruncatedFile)
    } else {
        let s = t.len() - TRAILER_LEN;
        if t.subrange(s, s + 15) != tag_of(Tag::FooterOffset) || t[t.len() - 1] != NL {
            Err(PlankError::CorruptFooter)
        } else {
            Ok(le_value(t, s + 15) as u32)
        }
    }
}

/// The offset index starts at zero, never decreases, has one entry per row
/// group and one more, and ends where the footer starts.
pub open spec fn offsets_valid(f: FooterView, footer_offset: u32) -> bool {
    &&& f.offsets.len() == f.row_group_count + 1
    &&& f.offsets[0] == 0
    &&& f.offsets.last() == footer_offset
    &&& forall|i: int| 0 <= i < f.offsets.len() - 1 ==> #[trigger] f.offsets[i] <= f.offsets[i + 1]
}

/// What a reader finds in a footer that starts at `footer_offset`.
pub open spec fn parse_located_footer(footer_offset: u32, b: Seq<u8>) -> Result<
    FooterView,
    PlankError,
> {
    match parse_footer(b) {
        Err(e) => Err(e),
        Ok(f) => if offsets_valid(f, footer_offset) {
            Ok(f)
        } else {
            Err(PlankError::CorruptFooter)
        },
    }
}

/// What opening the file `f` finds: the trailer, then the footer decoded
/// from the span between the offset it gives and the end of the file.
pub open spec fn open_file(f: Seq<u8>) -> Result<FooterView, PlankError> {
    match parse_trailer(f) {
        Err(e) => Err(e),
        Ok(fo) => if fo > f.len() - TRAILER_LEN {
            Err(PlankError::CorruptFooter)
        } else {
            parse_located_footer(fo, f.subrange(fo as int, f.len() as int))
        },
    }
}

/// Row group `i` decoded from `b`, the bytes read from where it starts: fewer
/// bytes than its span is `TruncatedFile`; its span must decode as a row group
/// with the footer's column count.
pub open spec fn decode_group(f: FooterView, i: int, b: Seq<u8>) -> Result<
    Seq<Seq<Seq<char>>>,
    PlankError,
> {
    let len = f.offsets[i + 1] - f.offsets[i];
    if b.len() < len {
        Err(PlankError::TruncatedFile)
    } else {
        match parse_rowgroup(b.subrange(0, len)) {
            Some(cols) => if cols.len() == f.col_count {
                Ok(cols)
            } else {
                Err(PlankError::CorruptRowGroup)
            },
            None => Err(PlankError::CorruptRowGroup),
        }
    }
}

/// Row group `i` of the file `file`.
pub open spec fn read_group(f: FooterView, file: Seq<u8>, i: int) -> Result<
    Seq<Seq<Seq<char>>>,
    PlankError,
> {
    let start = f.offsets[i] as int;
    let end = if f.offsets[i + 1] <= file.len() {
        f.offsets[i + 1] as int
    } else {
        file.len() as int
    };
    if start > file.len() {
        decode_group(f, i, Seq::<u8>::empty())
    } else {
        decode_group(f, i, file.subrange(start, end))
    }
}

/// The footer offset that a trailer gives, as `parse_trailer` states.
pub fn decode_trailer(t: &[u8]) -> (r: Result<u32, PlankError>)
    ensures
        r == parse_trailer(t@),
{
    if t.len() < TRAILER_LEN {
        return Err(PlankError::TruncatedFile);
    }
    let s = t.len() - TRAILER_LEN;
    let tag = tag_bytes(Tag::FooterOffset);
    if !tag_at(t, s, &tag) || t[t.len() - 1] != NL {
        return Err(PlankError::CorruptFooter);
    }
    Ok(read_le(t, s + 15))
}

/// Whether no entry of `v` exceeds the next one.
fn nondecreasing(v: &Vec<u32>) -> (r: bool)
    ensures
        r == forall|i: int| 0 <= i < v@.len() - 1 ==> #[trigger] v@[i] <= v@[i + 1],
{
    let n = v.len();
    let mut i: usize = 0;
    while i + 1 < n
        invariant
            n == v@.len(),
            i + 1 <= n || n == 0,
            i <= n,
            forall|k: int| 0 <= k < i ==> #[trigger] v@[k] <= v@[k + 1],
        decreases n - i,
    {
        if v[i] > v[i + 1] {
            return false;
        }
        i = i + 1;
    }
    true
}

/// A file opened for reading: its checked footer and where that starts.
pub struct SF2Reader {
    footer: Footer,
    footer_offset: u32,
}

impl View for SF2Reader {
    type V = FooterView;

    closed spec fn view(&self) -> FooterView {
        self.footer@
    }
}

impl SF2Reader {
    pub closed spec fn wf(&self) -> bool {
        offsets_valid(self.footer@, self.footer_offset)
    }

    /// Opens the footer `b` found at `footer_offset`.
    pub fn from_footer(footer_offset: u32, b: &[u8]) -> (r: Result<SF2Reader, PlankError>)
        ensures
            match r {
                Ok(rd) => rd.wf() && parse_located_footer(footer_offset, b@) == Ok::<
                    FooterView,
                    PlankError,
                >(rd@),
                Err(e) => parse_located_footer(footer_offset, b@) == Err::<FooterView, PlankError>(
                    e,
                ),
            },
    {
        let footer = match Footer::from_bytes(b) {
            Ok(f) => f,
            Err(e) => {
                return Err(e);
            },
        };
        let offsets = footer.offsets();
        let n = offsets.len();
        if n as u64 != footer.row_group_count() as u64 + 1 || offsets[0] != 0 || offsets[n - 1]
            != footer_offset {
            return Err(PlankError::CorruptFooter);
        }
        if !nondecreasing(offsets) {
            return Err(PlankError::CorruptFooter);
        }
        Ok(SF2Reader { footer, footer_offset })
    }

    /// Opens a whole file held in memory.
    pub fn open(file: &[u8]) -> (r: Result<SF2Reader, PlankError>)
        ensures
            match r {
                Ok(rd) => rd.wf() && open_file(file@) == Ok::<FooterView, PlankError>(rd@),
                Err(e) => open_file(file@) == Err::<FooterView, PlankError>(e),
            },
    {
        let fo = match decode_trailer(file) {
            Ok(v) => v,
            Err(e) => {
                return Err(e);
            },
        };
        let end = file.len() - TRAILER_LEN;
        if fo as usize > end {
            return Err(PlankError::CorruptFooter);
        }
        SF2Reader::from_footer(fo, &file[fo as usize..file.len()])
    }

    pub fn footer(&self) -> (r: &Footer)
        ensures
            r@ == self@,
    {
        &self.footer
    }

    pub fn get_schema(&self) -> (r: &Vec<(String, String)>)
        ensures
            schema_view(r@) == self@.schema,
    {
        self.footer.schema()
    }

    pub fn row_count(&self) -> (r: u32)
        ensures
            r == self@.row_count,
    {
        self.footer.row_count()
    }

    pub fn col_count(&self) -> (r: u32)
        ensures
            r == self@.col_count,
    {
        self.footer.col_count()
    }

    pub fn row_group_count(&self) -> (r: u32)
        ensures
            r == self@.row_group_count,
    {
        self.footer.row_group_count()
    }

    /// Where row group `i` starts, and how many bytes it spans.
    pub fn row_group_span(&self, i: u32) -> (r: (u32, u32))
        requires
            self.wf(),
            i < self@.row_group_count,
        ensures
            r.0 == self@.offsets[i as int],
            r.1 == self@.offsets[i + 1] - self@.offsets[i as int],
    {
        let offsets = self.footer.offsets();
        (offsets[i as usize], offsets[i as usize + 1] - offsets[i as usize])
    }

    /// Decodes row group `i` from the bytes read where it starts.
    pub fn decode_row_group(&self, i: u32, b: &[u8]) -> (r: Result<RowGroup, PlankError>)
        requires
            self.wf(),
            i < self@.row_group_count,
        ensures
            match r {
                Ok(g) => decode_group(self@, i as int, b@) == Ok::<
                    Seq<Seq<Seq<char>>>,
                    PlankError,
                >(g@),
                Err(e) => decode_group(self@, i as int, b@) == Err::<
                    Seq<Seq<Seq<char>>>,
                    PlankError,
                >(e),
            },
    {
        let (_, len) = self.row_group_span(i);
        if b.len() < len as usize {
            return Err(PlankError::TruncatedFile);
        }
        let g = match RowGroup::from_bytes(&b[0..len as usize]) {
            Ok(g) => g,
            Err(e) => {
                return Err(e);
            },
        };
        if g.columns().len() != self.footer.col_count() as usize {
            return Err(PlankError::CorruptRowGroup);
        }
        Ok(g)
    }

    /// Reads row group `i` of a whole file held in memory.
    pub fn read_row_group(&self, file: &[u8], i: u32) -> (r: Result<RowGroup, PlankError>)
        requires
            self.wf(),
            i < self@.row_group_count,
        ensures
            match r {
                Ok(g) => read_group(self@, file@, i as int) == Ok::<
                    Seq<Seq<Seq<char>>>,
                    PlankError,
                >(g@),
                Err(e) => read_group(self@, file@, i as int) == Err::<
                    Seq<Seq<Seq<char>>>,
                    PlankError,
                >(e),
            },
    {
        let (start, len) = self.row_group_span(i);
        let s = start as usize;
        if s > file.len() {
            let empty: Vec<u8> = Vec::new();
            return self.decode_row_group(i, empty.as_slice());
        }
        let e = if (len as usize) <= file.len() - s {
            s + len as usize
        } else {
            file.len()
        };
        self.decode_row_group(i, &file[s..e])
    }

    /// A cursor over the row groups, from the first.
    pub fn iter(&self) -> (r: RowGroupIterator)
        ensures
            r.next == 0,
            r.count == self@.row_group_count,
    {
        RowGroupIterator { next: 0, count: self.footer.row_group_count() }
    }
}

/// A forward cursor over a file's row groups.
pub struct RowGroupIterator {
    pub next: u32,
    pub count: u32,
}

impl RowGroupIterator {
    /// The next row group of a file held in memory, or `None` after the last.
    pub fn next(&mut self, reader: &SF2Reader, file: &[u8]) -> (r: Option<
        Result<RowGroup, PlankError>,
    >)
        requires
            reader.wf(),
            old(self).count == reader@.row_group_count,
            old(self).next <= old(self).count,
        ensures
            final(self).count == old(self).count,
            final(self).next <= final(self).count,
            old(self).next == old(self).count ==> r is None && final(self).next == old(self).next,
            old(self).next < old(self).count ==> final(self).next == old(self).next + 1 && match r {
                Some(Ok(g)) => read_group(reader@, file@, old(self).next as int) == Ok::<
                    Seq<Seq<Seq<char>>>,
                    PlankError,
                >(g@),
                Some(Err(e)) => read_group(reader@, file@, old(self).next as int) == Err::<
                    Seq<Seq<Seq<char>>>,
                    PlankError,
                >(e),
                None => false,
            },
    {
        if self.next >= self.count {
            return None;
        }
        let i = self.next;
        self.next = self.next + 1;
        Some(reader.read_row_group(file, i))
    }
}

} // verus!
