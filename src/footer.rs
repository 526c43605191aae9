//! The footer codec: schema, counts, the row-group offset index and a
//! SHA-256 digest over all of them.
use vstd::prelude::*;
use vstd::utf8::{decode_utf8, encode_utf8, encode_utf8_decode_utf8, encode_utf8_valid_utf8, valid_utf8};
use crate::bytes::{
    all_free_of, append_bytes, bytes_eq, find_byte, find_from, free_of, join_term, le_bytes,
    le_value, lemma_find_from, lemma_join_free, lemma_le_roundtrip, lemma_split_join,
    lemma_split_on_nonempty, push_le, read_le, split_bytes, split_on, text_from_utf8, views, NL,
    SEP,
};
use crate::codec::{Deserialize, Serialize};
use crate::error::PlankError;
use crate::tags::{tag_at, tag_bytes, tag_of, Tag};

verus! {

/// The byte between a column's name and its type tag in the schema field.
pub const COLON: u8 = 0x3A;

/// The length of a SHA-256 digest.
pub const DIGEST_LEN: usize = 32;

/// The SHA-256 digest of a byte sequence.
pub uninterp spec fn sha256_of(b: Seq<u8>) -> Seq<u8>;

/// Relies on sha2::Sha256::digest: the 32-byte SHA-256 digest of the input,
/// which depends on the input bytes alone.
#[verifier::external_body]
fn sha256(b: &[u8]) -> (r: Vec<u8>)
    ensures
        r@ == sha256_of(b@),
        r@.len() == DIGEST_LEN,
{
    <sha2::Sha256 as sha2::Digest>::digest(b).to_vec()
}

/// A schema as texts: (column name, type tag) pairs in column order.
pub type SchemaView = Seq<(Seq<char>, Seq<char>)>;

/// The metadata that a footer holds.
pub struct FooterView {
    pub schema: SchemaView,
    pub offsets: Seq<u32>,
    pub row_count: u32,
    pub col_count: u32,
    pub row_group_count: u32,
}

/// The texts of a schema held as strings.
pub open spec fn schema_view(s: Seq<(String, String)>) -> SchemaView {
    s.map_values(|p: (String, String)| (p.0@, p.1@))
}

/// The bytes of one schema entry: `name:type`.
pub open spec fn pair_bytes(p: (Seq<char>, Seq<char>)) -> Seq<u8> {
    encode_utf8(p.0) + seq![COLON] + encode_utf8(p.1)
}

/// The schema field: its tag, every entry followed by the separator, a newline.
#[verifier::opaque]
pub open spec fn schema_field(schema: SchemaView) -> Seq<u8> {
    tag_of(Tag::Schema) + join_term(schema.map_values(|p: (Seq<char>, Seq<char>)| pair_bytes(p)), SEP)
        + seq![NL]
}

/// A field holding one integer: its tag, four little-endian bytes, a newline.
#[verifier::opaque]
pub open spec fn u32_field(t: Tag, v: u32) -> Seq<u8> {
    tag_of(t) + le_bytes(v) + seq![NL]
}

/// Integers as little-endian bytes, back to back.
pub open spec fn le_seq(vs: Seq<u32>) -> Seq<u8>
    decreases vs.len(),
{
    if vs.len() == 0 {
        Seq::<u8>::empty()
    } else {
        le_seq(vs.drop_last()) + le_bytes(vs.last())
    }
}

/// The offset-index field.
#[verifier::opaque]
pub open spec fn offsets_field(offsets: Seq<u32>) -> Seq<u8> {
    tag_of(Tag::RowGroupOffsets) + le_seq(offsets) + seq![NL]
}

/// The five fields that the digest covers, in order.
pub open spec fn fields_bytes(f: FooterView) -> Seq<u8> {
    schema_field(f.schema) + u32_field(Tag::RowCount, f.row_count) + u32_field(
        Tag::ColumnCount,
        f.col_count,
    ) + u32_field(Tag::RowGroupCount, f.row_group_count) + offsets_field(f.offsets)
}

/// The checksum field for the given covered bytes.
#[verifier::opaque]
pub open spec fn checksum_field(covered: Seq<u8>) -> Seq<u8> {
    tag_of(Tag::Checksum) + sha256_of(covered) + seq![NL]
}

/// The bytes of a footer.
pub open spec fn footer_bytes(f: FooterView) -> Seq<u8> {
    fields_bytes(f) + checksum_field(fields_bytes(f))
}

/// One schema entry decoded: the name runs up to the first colon, the type is
/// the rest; both must be UTF-8.
pub open spec fn parse_pair(p: Seq<u8>) -> Option<(Seq<char>, Seq<char>)> {
    let c = find_from(p, 0, COLON);
    if c < p.len() && valid_utf8(p.subrange(0, c)) && valid_utf8(p.subrange(c + 1, p.len() as int)) {
        Some((decode_utf8(p.subrange(0, c)), decode_utf8(p.subrange(c + 1, p.len() as int))))
    } else {
        None
    }
}

/// Every piece decodes as a schema entry.
pub open spec fn all_pairs(ps: Seq<Seq<u8>>) -> bool {
    forall|i: int| 0 <= i < ps.len() ==> (#[trigger] parse_pair(ps[i])) is Some
}

/// The schema entries that the pieces decode to.
pub open spec fn parsed_pairs(ps: Seq<Seq<u8>>) -> SchemaView {
    ps.map_values(|p: Seq<u8>| parse_pair(p).unwrap())
}

/// The schema that the text of the schema field decodes to: separator
/// terminated entries, each `name:type`.
pub open spec fn parse_schema(t: Seq<u8>) -> Option<SchemaView> {
    let ps = split_on(t, SEP);
    if ps.len() >= 1 && ps.last().len() == 0 && all_pairs(ps.drop_last()) {
        Some(parsed_pairs(ps.drop_last()))
    } else {
        None
    }
}

/// Whether `b` holds `t` at `pos`, given that it is long enough.
pub open spec fn has_tag(b: Seq<u8>, pos: int, t: Tag) -> bool {
    b.subrange(pos, pos + tag_of(t).len()) == tag_of(t)
}

/// The position after the schema field at the start of `b`: its tag, then
/// text up to the first newline.
pub open spec fn parse_schema_field(b: Seq<u8>) -> Result<int, PlankError> {
    let n = tag_of(Tag::Schema).len() as int;
    if b.len() < n {
        Err(PlankError::TruncatedFile)
    } else if !has_tag(b, 0, Tag::Schema) {
        Err(PlankError::CorruptFooter)
    } else {
        let e = find_from(b, n, NL);
        if e >= b.len() {
            Err(PlankError::TruncatedFile)
        } else {
            Ok(e + 1)
        }
    }
}

/// The integer field tagged `t` at `pos` of `b`.
pub open spec fn parse_u32_field(b: Seq<u8>, pos: int, t: Tag) -> Result<u32, PlankError> {
    let n = tag_of(t).len() as int;
    if b.len() < pos + n + 5 {
        Err(PlankError::TruncatedFile)
    } else if !has_tag(b, pos, t) || b[pos + n + 4] != NL {
        Err(PlankError::CorruptFooter)
    } else {
        Ok(le_value(b, pos + n) as u32)
    }
}

/// The `count` integers stored little-endian from `pos` of `b`.
pub open spec fn le_values(b: Seq<u8>, pos: int, count: int) -> Seq<u32> {
    Seq::new(count as nat, |i: int| le_value(b, pos + 4 * i) as u32)
}

/// The offset-index field at `pos` of `b`, holding `count` entries.
pub open spec fn parse_offsets_field(b: Seq<u8>, pos: int, count: int) -> Result<
    Seq<u32>,
    PlankError,
> {
    let n = tag_of(Tag::RowGroupOffsets).len() as int;
    if b.len() < pos + n + 4 * count + 1 {
        Err(PlankError::TruncatedFile)
    } else if !has_tag(b, pos, Tag::RowGroupOffsets) || b[pos + n + 4 * count] != NL {
        Err(PlankError::CorruptFooter)
    } else {
        Ok(le_values(b, pos + n, count))
    }
}

/// The checksum field at `pos`, checked against the digest of everything
/// before `pos`; bytes after it (such as the trailer) are not read.
pub open spec fn check_checksum_field(b: Seq<u8>, pos: int) -> Result<(), PlankError> {
    let n = tag_of(Tag::Checksum).len() as int;
    if b.len() < pos + n + 33 {
        Err(PlankError::TruncatedFile)
    } else if !has_tag(b, pos, Tag::Checksum) || b[pos + n + 32] != NL {
        Err(PlankError::CorruptFooter)
    } else if b.subrange(pos + n, pos + n + 32) != sha256_of(b.subrange(0, pos)) {
        Err(PlankError::ChecksumMismatch)
    } else {
        Ok(())
    }
}

/// What a footer's bytes decode to. First the layout: the fields in their
/// fixed order, each tag checked; a short field is `TruncatedFile`, a wrong
/// tag or terminator or trailing bytes `CorruptFooter`. Then the digest,
/// `ChecksumMismatch`. Last the content: the schema text and the column count
/// against it, `CorruptFooter`. The three integer fields take 15, 18 and 20
/// bytes, so they start 0, 15 and 33 bytes after the schema field, and the
/// offset index 53 bytes after it.
#[verifier::opaque]
pub open spec fn parse_footer(b: Seq<u8>) -> Result<FooterView, PlankError> {
    match parse_schema_field(b) {
        Err(e) => Err(e),
        Ok(p1) => match parse_u32_field(b, p1, Tag::RowCount) {
            Err(e) => Err(e),
            Ok(row_count) => match parse_u32_field(b, p1 + 15, Tag::ColumnCount) {
                Err(e) => Err(e),
                Ok(col_count) => match parse_u32_field(b, p1 + 33, Tag::RowGroupCount) {
                    Err(e) => Err(e),
                    Ok(row_group_count) => match parse_offsets_field(
                        b,
                        p1 + 53,
                        row_group_count + 1,
                    ) {
                        Err(e) => Err(e),
                        Ok(offsets) => match check_checksum_field(
                            b,
                            p1 + 53 + 17 + 4 * (row_group_count + 1) + 1,
                        ) {
                            Err(e) => Err(e),
                            Ok(_) => match parse_schema(b.subrange(7, p1 - 1)) {
                                None => Err(PlankError::CorruptFooter),
                                Some(schema) => if col_count != schema.len() {
                                    Err(PlankError::CorruptFooter)
                                } else {
                                    Ok(
                                        FooterView {
                                            schema,
                                            offsets,
                                            row_count,
                                            col_count,
                                            row_group_count,
                                        },
                                    )
                                },
                            },
                        },
                    },
                },
            },
        },
    }
}

/// File-level metadata: schema, counts and the row-group offset index.
#[derive(Debug, Clone)]
pub struct Footer {
    schema: Vec<(String, String)>,
    offsets: Vec<u32>,
    row_count: u32,
    col_count: u32,
    row_group_count: u32,
}

impl View for Footer {
    type V = FooterView;

    closed spec fn view(&self) -> FooterView {
        FooterView {
            schema: schema_view(self.schema@),
            offsets: self.offsets@,
            row_count: self.row_count,
            col_count: self.col_count,
            row_group_count: self.row_group_count,
        }
    }
}

impl Footer {
    pub fn new(
        schema: Vec<(String, String)>,
        offsets: Vec<u32>,
        row_count: u32,
        col_count: u32,
        row_group_count: u32,
    ) -> (r: Footer)
        ensures
            r@ == (FooterView {
                schema: schema_view(schema@),
                offsets: offsets@,
                row_count,
                col_count,
                row_group_count,
            }),
    {
        Footer { schema, offsets, row_count, col_count, row_group_count }
    }

    pub fn schema(&self) -> (r: &Vec<(String, String)>)
        ensures
            schema_view(r@) == self@.schema,
    {
        &self.schema
    }

    pub fn offsets(&self) -> (r: &Vec<u32>)
        ensures
            r@ == self@.offsets,
    {
        &self.offsets
    }

    pub fn row_count(&self) -> (r: u32)
        ensures
            r == self@.row_count,
    {
        self.row_count
    }

    pub fn col_count(&self) -> (r: u32)
        ensures
            r == self@.col_count,
    {
        self.col_count
    }

    pub fn row_group_count(&self) -> (r: u32)
        ensures
            r == self@.row_group_count,
    {
        self.row_group_count
    }

    /// The bytes of this footer; the digest in them is 32 bytes long.
    pub fn encode(&self) -> (r: Vec<u8>)
        ensures
            r@ == footer_bytes(self@),
            sha256_of(fields_bytes(self@)).len() == DIGEST_LEN,
    {
        let mut s = self.fields_to_bytes();
        let ghost covered = s@;
        let digest = sha256(s.as_slice());
        let t = tag_bytes(Tag::Checksum);
        append_bytes(&mut s, t.as_slice());
        append_bytes(&mut s, digest.as_slice());
        s.push(NL);
        reveal(checksum_field);
        assert(s@ =~= covered + checksum_field(covered));
        s
    }

    /// The bytes of fields one to five.
    fn fields_to_bytes(&self) -> (r: Vec<u8>)
        ensures
            r@ == fields_bytes(self@),
    {
        let ghost sv = self@.schema;
        let ghost entries = sv.map_values(|p: (Seq<char>, Seq<char>)| pair_bytes(p));
        let mut s = tag_bytes(Tag::Schema);
        let ghost start = s@;
        let mut i: usize = 0;
        assert(entries.subrange(0, 0) =~= Seq::<Seq<u8>>::empty());
        assert(s@ =~= start + join_term(entries.subrange(0, 0), SEP));
        while i < self.schema.len()
            invariant
                i <= self.schema@.len(),
                sv == schema_view(self.schema@),
                entries == sv.map_values(|p: (Seq<char>, Seq<char>)| pair_bytes(p)),
                start == tag_of(Tag::Schema),
                s@ == start + join_term(entries.subrange(0, i as int), SEP),
            decreases self.schema@.len() - i,
        {
            let ghost before = entries.subrange(0, i as int);
            let ghost prev = s@;
            append_bytes(&mut s, self.schema[i].0.as_str().as_bytes());
            s.push(COLON);
            append_bytes(&mut s, self.schema[i].1.as_str().as_bytes());
            s.push(SEP);
            proof {
                let after = entries.subrange(0, i + 1);
                assert(after =~= before.push(entries[i as int]));
                assert(after.drop_last() =~= before);
                assert(entries[i as int] == pair_bytes(sv[i as int]));
                assert(s@ =~= prev + pair_bytes(sv[i as int]) + seq![SEP]);
            }
            i = i + 1;
        }
        assert(entries.subrange(0, self.schema@.len() as int) =~= entries);
        s.push(NL);
        let ghost after_schema = s@;
        reveal(schema_field);
        assert(after_schema =~= schema_field(sv));
        let t = tag_bytes(Tag::RowCount);
        append_bytes(&mut s, t.as_slice());
        push_le(&mut s, self.row_count);
        s.push(NL);
        let t = tag_bytes(Tag::ColumnCount);
        append_bytes(&mut s, t.as_slice());
        push_le(&mut s, self.col_count);
        s.push(NL);
        let t = tag_bytes(Tag::RowGroupCount);
        append_bytes(&mut s, t.as_slice());
        push_le(&mut s, self.row_group_count);
        s.push(NL);
        let ghost after_counts = s@;
        reveal(u32_field);
        assert(after_counts =~= after_schema + u32_field(Tag::RowCount, self.row_count) + u32_field(
            Tag::ColumnCount,
            self.col_count,
        ) + u32_field(Tag::RowGroupCount, self.row_group_count));
        let t = tag_bytes(Tag::RowGroupOffsets);
        append_bytes(&mut s, t.as_slice());
        let mut j: usize = 0;
        assert(self.offsets@.subrange(0, 0) =~= Seq::<u32>::empty());
        assert(s@ =~= after_counts + tag_of(Tag::RowGroupOffsets) + le_seq(
            self.offsets@.subrange(0, 0),
        ));
        while j < self.offsets.len()
            invariant
                j <= self.offsets@.len(),
                s@ == after_counts + tag_of(Tag::RowGroupOffsets) + le_seq(
                    self.offsets@.subrange(0, j as int),
                ),
            decreases self.offsets@.len() - j,
        {
            let ghost prev = s@;
            push_le(&mut s, self.offsets[j]);
            proof {
                let a = self.offsets@.subrange(0, j + 1);
                assert(a.drop_last() =~= self.offsets@.subrange(0, j as int));
                assert(a.last() == self.offsets@[j as int]);
                assert(s@ =~= after_counts + tag_of(Tag::RowGroupOffsets) + le_seq(a));
            }
            j = j + 1;
        }
        assert(self.offsets@.subrange(0, self.offsets@.len() as int) =~= self.offsets@);
        s.push(NL);
        reveal(offsets_field);
        assert(s@ =~= fields_bytes(self@));
        s
    }
}

/// Decodes one schema entry as `parse_pair` does.
fn read_pair(p: &[u8]) -> (r: Option<(String, String)>)
    ensures
        match r {
            Some(v) => parse_pair(p@) == Some((v.0@, v.1@)),
            None => parse_pair(p@) is None,
        },
{
    let c = find_byte(p, 0, COLON);
    if c == p.len() {
        return None;
    }
    let name = text_from_utf8(&p[0..c]);
    let ty = text_from_utf8(&p[c + 1..p.len()]);
    match (name, ty) {
        (Some(n), Some(t)) => Some((n, t)),
        _ => None,
    }
}

/// Decodes the text of the schema field as `parse_schema` does.
fn read_schema(t: &[u8]) -> (r: Option<Vec<(String, String)>>)
    ensures
        match r {
            Some(v) => parse_schema(t@) == Some(schema_view(v@)),
            None => parse_schema(t@) is None,
        },
{
    let pieces = split_bytes(t, SEP);
    let ghost ps = split_on(t@, SEP);
    proof {
        lemma_split_on_nonempty(t@, SEP);
    }
    let n = pieces.len();
    assert(ps[n - 1] == views(pieces@)[n - 1]);
    if pieces[n - 1].len() != 0 {
        return None;
    }
    let ghost body = ps.drop_last();
    let mut out: Vec<(String, String)> = Vec::new();
    let mut i: usize = 0;
    while i < n - 1
        invariant
            n == pieces@.len(),
            n >= 1,
            views(pieces@) == ps,
            ps == split_on(t@, SEP),
            body == ps.drop_last(),
            i <= n - 1,
            all_pairs(body.subrange(0, i as int)),
            schema_view(out@) == parsed_pairs(body.subrange(0, i as int)),
        decreases n - 1 - i,
    {
        assert(body[i as int] == pieces@[i as int]@);
        let ghost sub = body.subrange(0, i as int);
        let ghost next = body.subrange(0, i + 1);
        assert(next =~= sub.push(body[i as int]));
        match read_pair(pieces[i].as_slice()) {
            Some(v) => {
                let ghost prev = out@;
                out.push(v);
                proof {
                    assert(schema_view(out@) =~= schema_view(prev).push((v.0@, v.1@)));
                    assert(parsed_pairs(next) =~= parsed_pairs(sub).push((v.0@, v.1@)));
                    assert(all_pairs(next)) by {
                        assert forall|k: int| 0 <= k < next.len() implies (#[trigger] parse_pair(
                            next[k],
                        )) is Some by {
                            if k < i {
                                assert(next[k] == sub[k]);
                            }
                        }
                    }
                }
            },
            None => {
                assert(!all_pairs(body)) by {
                    assert(parse_pair(body[i as int]) is None);
                }
                return None;
            },
        }
        i = i + 1;
    }
    assert(body.subrange(0, n - 1) =~= body);
    Some(out)
}

/// Finds the end of the schema field at the start of `b` as
/// `parse_schema_field` does.
fn read_schema_field(b: &[u8]) -> (r: Result<usize, PlankError>)
    ensures
        match r {
            Ok(p) => parse_schema_field(b@) == Ok::<int, PlankError>(p as int) && 7 < p <= b@.len(),
            Err(e) => parse_schema_field(b@) == Err::<int, PlankError>(e),
        },
{
    let t = tag_bytes(Tag::Schema);
    if b.len() < t.len() {
        return Err(PlankError::TruncatedFile);
    }
    if !tag_at(b, 0, &t) {
        return Err(PlankError::CorruptFooter);
    }
    let e = find_byte(b, t.len(), NL);
    if e >= b.len() {
        return Err(PlankError::TruncatedFile);
    }
    Ok(e + 1)
}

/// Decodes the integer field tagged `tag` at `pos` as `parse_u32_field` does.
fn read_u32_field(b: &[u8], pos: usize, tag: Tag) -> (r: Result<u32, PlankError>)
    requires
        pos <= b@.len(),
    ensures
        r == parse_u32_field(b@, pos as int, tag),
{
    let t = tag_bytes(tag);
    if b.len() - pos < t.len() + 5 {
        return Err(PlankError::TruncatedFile);
    }
    if !tag_at(b, pos, &t) || b[pos + t.len() + 4] != NL {
        return Err(PlankError::CorruptFooter);
    }
    Ok(read_le(b, pos + t.len()))
}

/// Decodes the offset-index field at `pos` as `parse_offsets_field` does.
fn read_offsets_field(b: &[u8], pos: usize, count: u64) -> (r: Result<
    (Vec<u32>, usize),
    PlankError,
>)
    requires
        pos <= b@.len(),
        count <= 0x1_0000_0000,
    ensures
        match r {
            Ok((v, end)) => parse_offsets_field(b@, pos as int, count as int) == Ok::<
                Seq<u32>,
                PlankError,
            >(v@) && end == pos + 17 + 4 * count + 1,
            Err(e) => parse_offsets_field(b@, pos as int, count as int) == Err::<
                Seq<u32>,
                PlankError,
            >(e),
        },
{
    let t = tag_bytes(Tag::RowGroupOffsets);
    if ((b.len() - pos) as u64) < (t.len() as u64) + 4 * count + 1 {
        return Err(PlankError::TruncatedFile);
    }
    let blen = b.len();
    let start = pos + t.len();
    let n = count as usize;
    if !tag_at(b, pos, &t) || b[start + 4 * n] != NL {
        return Err(PlankError::CorruptFooter);
    }
    let mut v: Vec<u32> = Vec::new();
    let mut i: usize = 0;
    assert(v@ =~= le_values(b@, start as int, 0));
    while i < n
        invariant
            i <= n,
            n == count,
            blen == b@.len(),
            start + 4 * n < b@.len(),
            v@ == le_values(b@, start as int, i as int),
        decreases n - i,
    {
        let x = read_le(b, start + 4 * i);
        v.push(x);
        i = i + 1;
        assert(v@ =~= le_values(b@, start as int, i as int));
    }
    Ok((v, start + 4 * n + 1))
}

/// Checks the checksum field at `pos` as `check_checksum_field` does.
fn read_checksum_field(b: &[u8], pos: usize) -> (r: Result<(), PlankError>)
    requires
        pos <= b@.len(),
    ensures
        r == check_checksum_field(b@, pos as int),
{
    let t = tag_bytes(Tag::Checksum);
    if b.len() - pos < t.len() + 33 {
        return Err(PlankError::TruncatedFile);
    }
    let d = pos + t.len();
    if !tag_at(b, pos, &t) || b[d + 32] != NL {
        return Err(PlankError::CorruptFooter);
    }
    let digest = sha256(&b[0..pos]);
    if !bytes_eq(&b[d..d + 32], digest.as_slice()) {
        return Err(PlankError::ChecksumMismatch);
    }
    Ok(())
}

impl Deserialize for Footer {
    open spec fn decodes_to(b: Seq<u8>, r: Result<Footer, PlankError>) -> bool {
        match r {
            Ok(f) => parse_footer(b) == Ok::<FooterView, PlankError>(f@),
            Err(e) => parse_footer(b) == Err::<FooterView, PlankError>(e),
        }
    }

    fn from_bytes(bytes: &[u8]) -> (r: Result<Footer, PlankError>) {
        reveal(parse_footer);
        let blen = bytes.len();
        assert(tag_of(Tag::RowCount).len() == 10);
        assert(tag_of(Tag::ColumnCount).len() == 13);
        assert(tag_of(Tag::RowGroupCount).len() == 15);
        assert(tag_of(Tag::RowGroupOffsets).len() == 17);
        let p1 = match read_schema_field(bytes) {
            Ok(v) => v,
            Err(e) => {
                return Err(e);
            },
        };
        let row_count = match read_u32_field(bytes, p1, Tag::RowCount) {
            Ok(v) => v,
            Err(e) => {
                return Err(e);
            },
        };
        let col_count = match read_u32_field(bytes, p1 + 15, Tag::ColumnCount) {
            Ok(v) => v,
            Err(e) => {
                return Err(e);
            },
        };
        let row_group_count = match read_u32_field(bytes, p1 + 33, Tag::RowGroupCount) {
            Ok(v) => v,
            Err(e) => {
                return Err(e);
            },
        };
        let count: u64 = row_group_count as u64 + 1;
        let (offsets, q) = match read_offsets_field(bytes, p1 + 53, count) {
            Ok(v) => v,
            Err(e) => {
                return Err(e);
            },
        };
        match read_checksum_field(bytes, q) {
            Ok(_) => {},
            Err(e) => {
                return Err(e);
            },
        }
        let schema = match read_schema(&bytes[7..p1 - 1]) {
            Some(v) => v,
            None => {
                return Err(PlankError::CorruptFooter);
            },
        };
        if col_count as usize != schema.len() {
            return Err(PlankError::CorruptFooter);
        }
        Ok(Footer { schema, offsets, row_count, col_count, row_group_count })
    }
}

impl Serialize for Footer {
    open spec fn spec_bytes(&self) -> Seq<u8> {
        footer_bytes(self@)
    }

    fn to_bytes(&self) -> (r: Vec<u8>) {
        self.encode()
    }
}

/// A schema entry that can be stored: the name holds no colon, and neither
/// part holds the separator or a newline.
pub open spec fn entry_storable(p: (Seq<char>, Seq<char>)) -> bool {
    &&& free_of(encode_utf8(p.0), COLON)
    &&& free_of(encode_utf8(p.0), SEP)
    &&& free_of(encode_utf8(p.0), NL)
    &&& free_of(encode_utf8(p.1), SEP)
    &&& free_of(encode_utf8(p.1), NL)
}

/// Every entry of the schema can be stored.
pub open spec fn schema_storable(schema: SchemaView) -> bool {
    forall|i: int| 0 <= i < schema.len() ==> entry_storable(#[trigger] schema[i])
}

/// The footer's counts agree with its schema and offset index.
pub open spec fn footer_consistent(f: FooterView) -> bool {
    &&& f.offsets.len() == f.row_group_count + 1
    &&& f.col_count == f.schema.len()
    &&& schema_storable(f.schema)
}

/// The entries of a schema as bytes.
pub open spec fn entries(schema: SchemaView) -> Seq<Seq<u8>> {
    schema.map_values(|p: (Seq<char>, Seq<char>)| pair_bytes(p))
}

proof fn lemma_pair_roundtrip(p: (Seq<char>, Seq<char>))
    requires
        entry_storable(p),
    ensures
        parse_pair(pair_bytes(p)) == Some(p),
        free_of(pair_bytes(p), SEP),
        free_of(pair_bytes(p), NL),
{
    let a = encode_utf8(p.0);
    let c = encode_utf8(p.1);
    let b = pair_bytes(p);
    assert(b[a.len() as int] == COLON);
    assert forall|k: int| 0 <= k < a.len() implies b[k] != COLON by {
        assert(b[k] == a[k]);
    }
    lemma_find_from(b, 0, a.len() as int, COLON);
    assert(b.subrange(0, a.len() as int) =~= a);
    assert(b.subrange(a.len() as int + 1, b.len() as int) =~= c);
    encode_utf8_valid_utf8(p.0);
    encode_utf8_valid_utf8(p.1);
    encode_utf8_decode_utf8(p.0);
    encode_utf8_decode_utf8(p.1);
    assert forall|k: int| 0 <= k < b.len() implies b[k] != SEP && b[k] != NL by {
        if k < a.len() {
            assert(b[k] == a[k]);
        } else if k > a.len() {
            assert(b[k] == c[k - a.len() - 1]);
        }
    }
}

proof fn lemma_schema_roundtrip(schema: SchemaView)
    requires
        schema_storable(schema),
    ensures
        parse_schema(join_term(entries(schema), SEP)) == Some(schema),
        free_of(join_term(entries(schema), SEP), NL),
{
    let es = entries(schema);
    assert forall|i: int| 0 <= i < es.len() implies free_of(#[trigger] es[i], SEP) && free_of(
        es[i],
        NL,
    ) && parse_pair(es[i]) == Some(schema[i]) by {
        lemma_pair_roundtrip(schema[i]);
    }
    assert(all_free_of(es, SEP));
    assert(all_free_of(es, NL));
    lemma_split_join(es, SEP);
    lemma_join_free(es, SEP, NL);
    let ps = split_on(join_term(es, SEP), SEP);
    assert(ps.drop_last() =~= es);
    assert(all_pairs(es));
    assert(parsed_pairs(es) =~= schema);
}

proof fn lemma_le_seq(vs: Seq<u32>)
    ensures
        le_seq(vs).len() == 4 * vs.len(),
        forall|i: int| 0 <= i < vs.len() ==> #[trigger] le_value(le_seq(vs), 4 * i) == vs[i] as int,
    decreases vs.len(),
{
    if vs.len() > 0 {
        let ws = vs.drop_last();
        lemma_le_seq(ws);
        lemma_le_roundtrip(vs.last());
        let a = le_seq(ws);
        let b = le_bytes(vs.last());
        assert forall|i: int| 0 <= i < vs.len() implies #[trigger] le_value(le_seq(vs), 4 * i)
            == vs[i] as int by {
            if i < ws.len() {
                assert(le_value(a, 4 * i) == ws[i] as int);
                assert(le_seq(vs)[4 * i] == a[4 * i]);
                assert(le_seq(vs)[4 * i + 1] == a[4 * i + 1]);
                assert(le_seq(vs)[4 * i + 2] == a[4 * i + 2]);
                assert(le_seq(vs)[4 * i + 3] == a[4 * i + 3]);
            } else {
                assert(le_seq(vs)[4 * i] == b[0]);
                assert(le_seq(vs)[4 * i + 1] == b[1]);
                assert(le_seq(vs)[4 * i + 2] == b[2]);
                assert(le_seq(vs)[4 * i + 3] == b[3]);
            }
        }
    }
}

proof fn lemma_u32_field_at(b: Seq<u8>, pos: int, t: Tag, v: u32)
    requires
        0 <= pos,
        pos + tag_of(t).len() + 5 <= b.len(),
        b.subrange(pos, pos + tag_of(t).len() + 5) == u32_field(t, v),
    ensures
        parse_u32_field(b, pos, t) == Ok::<u32, PlankError>(v),
{
    reveal(u32_field);
    let n = tag_of(t).len() as int;
    let f = u32_field(t, v);
    assert(b.subrange(pos, pos + n) =~= f.subrange(0, n));
    assert(f.subrange(0, n) =~= tag_of(t));
    assert(b[pos + n + 4] == f[n + 4]);
    lemma_le_roundtrip(v);
    assert(le_value(b, pos + n) == le_value(le_bytes(v), 0)) by {
        assert(b[pos + n] == f[n]);
        assert(b[pos + n + 1] == f[n + 1]);
        assert(b[pos + n + 2] == f[n + 2]);
        assert(b[pos + n + 3] == f[n + 3]);
    }
}

proof fn lemma_offsets_field_at(b: Seq<u8>, pos: int, offs: Seq<u32>)
    requires
        0 <= pos,
        pos + 17 + 4 * offs.len() + 1 <= b.len(),
        b.subrange(pos, pos + 17 + 4 * offs.len() + 1) == offsets_field(offs),
    ensures
        parse_offsets_field(b, pos, offs.len() as int) == Ok::<Seq<u32>, PlankError>(offs),
{
    reveal(offsets_field);
    let f = offsets_field(offs);
    lemma_le_seq(offs);
    let m = offs.len() as int;
    assert(tag_of(Tag::RowGroupOffsets).len() == 17);
    assert(b.subrange(pos, pos + 17) =~= f.subrange(0, 17));
    assert(f.subrange(0, 17) =~= tag_of(Tag::RowGroupOffsets));
    assert(b[pos + 17 + 4 * m] == f[17 + 4 * m]);
    let vals = le_values(b, pos + 17, m);
    assert forall|i: int| 0 <= i < m implies vals[i] == offs[i] by {
        let l = le_seq(offs);
        let sb = b.subrange(pos, pos + 17 + 4 * m + 1);
        assert(le_value(l, 4 * i) == offs[i] as int);
        assert(sb[17 + 4 * i] == b[pos + 17 + 4 * i]);
        assert(sb[17 + 4 * i + 1] == b[pos + 17 + 4 * i + 1]);
        assert(sb[17 + 4 * i + 2] == b[pos + 17 + 4 * i + 2]);
        assert(sb[17 + 4 * i + 3] == b[pos + 17 + 4 * i + 3]);
        assert(f[17 + 4 * i] == l[4 * i]);
        assert(f[17 + 4 * i + 1] == l[4 * i + 1]);
        assert(f[17 + 4 * i + 2] == l[4 * i + 2]);
        assert(f[17 + 4 * i + 3] == l[4 * i + 3]);
        assert(b[pos + 17 + 4 * i + 0] == l[4 * i + 0]);
        assert(b[pos + 17 + 4 * i + 1] == l[4 * i + 1]);
        assert(b[pos + 17 + 4 * i + 2] == l[4 * i + 2]);
        assert(b[pos + 17 + 4 * i + 3] == l[4 * i + 3]);
    }
    assert(vals =~= offs);
}

proof fn lemma_segment(x: Seq<u8>, y: Seq<u8>, z: Seq<u8>)
    ensures
        (x + y + z).subrange(x.len() as int, (x.len() + y.len()) as int) == y,
{
    assert((x + y + z).subrange(x.len() as int, (x.len() + y.len()) as int) =~= y);
}

proof fn lemma_footer_schema_part(f: FooterView, ck: Seq<u8>)
    requires
        footer_consistent(f),
    ensures
        parse_schema_field(fields_bytes(f) + ck) == Ok::<int, PlankError>(
            schema_field(f.schema).len() as int,
        ),
        (fields_bytes(f) + ck).subrange(7, schema_field(f.schema).len() - 1) == join_term(
            entries(f.schema),
            SEP,
        ),
{
    let j = join_term(entries(f.schema), SEP);
    lemma_schema_roundtrip(f.schema);
    let sf = schema_field(f.schema);
    let b = fields_bytes(f) + ck;
    let rest = b.subrange(sf.len() as int, b.len() as int);
    reveal(schema_field);
    assert(b =~= sf + rest);
    assert(sf =~= tag_of(Tag::Schema) + j + seq![NL]);
    assert(b.subrange(0, 7) =~= tag_of(Tag::Schema));
    assert forall|k: int| 7 <= k < 7 + j.len() implies b[k] != NL by {
        assert(b[k] == j[k - 7]);
    }
    assert(b[7 + j.len() as int] == NL);
    lemma_find_from(b, 7, 7 + j.len() as int, NL);
    assert(b.subrange(7, sf.len() - 1) =~= j);
}

proof fn lemma_segments(a: Seq<u8>, x: Seq<u8>, y: Seq<u8>, z: Seq<u8>, rest: Seq<u8>)
    ensures
        ({
            let b = a + x + y + z + rest;
            let i = a.len() as int;
            let j = i + x.len();
            let k = j + y.len();
            &&& b.subrange(i, j) == x
            &&& b.subrange(j, k) == y
            &&& b.subrange(k, k + z.len()) == z
        }),
{
    let b = a + x + y + z + rest;
    let i = a.len() as int;
    let j = i + x.len();
    let k = j + y.len();
    assert(b.subrange(i, j) =~= x);
    assert(b.subrange(j, k) =~= y);
    assert(b.subrange(k, k + z.len()) =~= z);
}

proof fn lemma_assoc(a: Seq<u8>, o: Seq<u8>, c: Seq<u8>)
    ensures
        (a + o) + c == a + (o + c),
{
    assert((a + o) + c =~= a + (o + c));
}

#[verifier::rlimit(100)]
proof fn lemma_counts_at(
    b: Seq<u8>,
    sf: Seq<u8>,
    rest: Seq<u8>,
    row_count: u32,
    col_count: u32,
    row_group_count: u32,
)
    requires
        b == sf + u32_field(Tag::RowCount, row_count) + u32_field(Tag::ColumnCount, col_count)
            + u32_field(Tag::RowGroupCount, row_group_count) + rest,
    ensures
        parse_u32_field(b, sf.len() as int, Tag::RowCount) == Ok::<u32, PlankError>(row_count),
        parse_u32_field(b, sf.len() as int + 15, Tag::ColumnCount) == Ok::<u32, PlankError>(col_count),
        parse_u32_field(b, sf.len() as int + 33, Tag::RowGroupCount) == Ok::<u32, PlankError>(
            row_group_count,
        ),
{
    let rc = u32_field(Tag::RowCount, row_count);
    let cc = u32_field(Tag::ColumnCount, col_count);
    let gc = u32_field(Tag::RowGroupCount, row_group_count);
    let p1 = sf.len() as int;
    assert(rc.len() == 15 && cc.len() == 18 && gc.len() == 20) by {
        reveal(u32_field);
    }
    lemma_segments(sf, rc, cc, gc, rest);
    lemma_u32_field_at(b, p1, Tag::RowCount, row_count);
    lemma_u32_field_at(b, p1 + 15, Tag::ColumnCount, col_count);
    lemma_u32_field_at(b, p1 + 33, Tag::RowGroupCount, row_group_count);
}

/// A checksum field holding the digest `d`.
pub open spec fn checksum_with(d: Seq<u8>) -> Seq<u8> {
    tag_of(Tag::Checksum) + d + seq![NL]
}

#[verifier::rlimit(100)]
proof fn lemma_tail_at(b: Seq<u8>, pre: Seq<u8>, offsets: Seq<u32>, tail: Seq<u8>)
    requires
        b == pre + offsets_field(offsets) + tail,
    ensures
        parse_offsets_field(b, pre.len() as int, offsets.len() as int) == Ok::<
            Seq<u32>,
            PlankError,
        >(offsets),
        pre.len() + offsets_field(offsets).len() == pre.len() + 17 + 4 * offsets.len() + 1,
        b.subrange(0, (pre.len() + offsets_field(offsets).len()) as int) == pre + offsets_field(offsets),
        b.subrange((pre.len() + offsets_field(offsets).len()) as int, b.len() as int) == tail,
{
    reveal(offsets_field);
    let of = offsets_field(offsets);
    lemma_le_seq(offsets);
    let m = offsets.len() as int;
    assert(of.len() == 17 + 4 * m + 1);
    lemma_segment(pre, of, tail);
    lemma_offsets_field_at(b, pre.len() as int, offsets);
    let q = (pre.len() + of.len()) as int;
    assert(b.subrange(0, q) =~= pre + of);
    assert(b.subrange(q, b.len() as int) =~= tail);
}

proof fn lemma_checksum_at(b: Seq<u8>, q: int, fields: Seq<u8>, d: Seq<u8>, rest: Seq<u8>)
    requires
        0 <= q <= b.len(),
        d.len() == DIGEST_LEN,
        b.subrange(0, q) == fields,
        b.subrange(q, b.len() as int) == checksum_with(d) + rest,
    ensures
        check_checksum_field(b, q) == (if d == sha256_of(fields) {
            Ok::<(), PlankError>(())
        } else {
            Err::<(), PlankError>(PlankError::ChecksumMismatch)
        }),
{
    let t = b.subrange(q, b.len() as int);
    assert(tag_of(Tag::Checksum).len() == 9);
    assert(checksum_with(d).len() == 42);
    assert(t.len() == 42 + rest.len());
    assert(t.subrange(0, 9) =~= tag_of(Tag::Checksum));
    assert(b.subrange(q, q + 9) =~= t.subrange(0, 9));
    assert(b.subrange(q + 9, q + 41) =~= t.subrange(9, 41));
    assert(t.subrange(9, 41) =~= d);
    assert(b[q + 41] == t[41]);
}

#[verifier::rlimit(100)]
proof fn lemma_footer_head(f: FooterView, ck: Seq<u8>)
    requires
        footer_consistent(f),
    ensures
        ({
            let b = fields_bytes(f) + ck;
            let p1 = schema_field(f.schema).len() as int;
            &&& parse_schema_field(b) == Ok::<int, PlankError>(p1)
            &&& parse_schema(b.subrange(7, p1 - 1)) == Some(f.schema)
            &&& parse_u32_field(b, p1, Tag::RowCount) == Ok::<u32, PlankError>(f.row_count)
            &&& parse_u32_field(b, p1 + 15, Tag::ColumnCount) == Ok::<u32, PlankError>(
                f.col_count,
            )
            &&& parse_u32_field(b, p1 + 33, Tag::RowGroupCount) == Ok::<u32, PlankError>(
                f.row_group_count,
            )
        }),
{
    let b = fields_bytes(f) + ck;
    let sf = schema_field(f.schema);
    let of = offsets_field(f.offsets);
    lemma_footer_schema_part(f, ck);
    lemma_schema_roundtrip(f.schema);
    let rest = of + ck;
    assert(b =~= sf + u32_field(Tag::RowCount, f.row_count) + u32_field(
        Tag::ColumnCount,
        f.col_count,
    ) + u32_field(Tag::RowGroupCount, f.row_group_count) + rest);
    lemma_counts_at(b, sf, rest, f.row_count, f.col_count, f.row_group_count);
}

#[verifier::rlimit(100)]
proof fn lemma_footer_index(f: FooterView, ck: Seq<u8>)
    requires
        footer_consistent(f),
    ensures
        ({
            let b = fields_bytes(f) + ck;
            let p1 = schema_field(f.schema).len() as int;
            let m = f.offsets.len() as int;
            let q = p1 + 53 + 17 + 4 * m + 1;
            &&& parse_offsets_field(b, p1 + 53, m) == Ok::<Seq<u32>, PlankError>(f.offsets)
            &&& q <= b.len()
            &&& b.subrange(0, q) == fields_bytes(f)
            &&& b.subrange(q, b.len() as int) == ck
        }),
{
    let b = fields_bytes(f) + ck;
    let sf = schema_field(f.schema);
    let of = offsets_field(f.offsets);
    let pre = sf + u32_field(Tag::RowCount, f.row_count) + u32_field(
        Tag::ColumnCount,
        f.col_count,
    ) + u32_field(Tag::RowGroupCount, f.row_group_count);
    assert(pre.len() == sf.len() + 53) by {
        reveal(u32_field);
    }
    lemma_tail_at(b, pre, f.offsets, ck);
}

#[verifier::rlimit(100)]
pub(crate) proof fn lemma_footer_parts(f: FooterView, d: Seq<u8>, rest: Seq<u8>)
    requires
        footer_consistent(f),
        d.len() == DIGEST_LEN,
    ensures
        ({
            let b = fields_bytes(f) + checksum_with(d) + rest;
            let p1 = schema_field(f.schema).len() as int;
            let m = f.offsets.len() as int;
            &&& parse_schema_field(b) == Ok::<int, PlankError>(p1)
            &&& parse_schema(b.subrange(7, p1 - 1)) == Some(f.schema)
            &&& parse_u32_field(b, p1, Tag::RowCount) == Ok::<u32, PlankError>(f.row_count)
            &&& parse_u32_field(b, p1 + 15, Tag::ColumnCount) == Ok::<u32, PlankError>(
                f.col_count,
            )
            &&& parse_u32_field(b, p1 + 33, Tag::RowGroupCount) == Ok::<u32, PlankError>(
                f.row_group_count,
            )
            &&& parse_offsets_field(b, p1 + 53, m) == Ok::<Seq<u32>, PlankError>(f.offsets)
            &&& check_checksum_field(b, p1 + 53 + 17 + 4 * m + 1) == (if d == sha256_of(
                fields_bytes(f),
            ) {
                Ok::<(), PlankError>(())
            } else {
                Err::<(), PlankError>(PlankError::ChecksumMismatch)
            })
        }),
{
    let ck = checksum_with(d) + rest;
    lemma_assoc(fields_bytes(f), checksum_with(d), rest);
    lemma_footer_head(f, ck);
    lemma_footer_index(f, ck);
    let b = fields_bytes(f) + ck;
    let q = schema_field(f.schema).len() as int + 53 + 17 + 4 * f.offsets.len() as int + 1;
    lemma_checksum_at(b, q, fields_bytes(f), d, rest);
}

/// Decoding the bytes of a consistent footer, followed by any bytes, gives
/// the footer back.
#[verifier::rlimit(100)]
pub proof fn lemma_footer_roundtrip(f: FooterView, rest: Seq<u8>)
    requires
        footer_consistent(f),
        sha256_of(fields_bytes(f)).len() == DIGEST_LEN,
    ensures
        parse_footer(footer_bytes(f) + rest) == Ok::<FooterView, PlankError>(f),
{
    let d = sha256_of(fields_bytes(f));
    assert(checksum_field(fields_bytes(f)) == checksum_with(d)) by {
        reveal(checksum_field);
    }
    lemma_footer_parts(f, d, rest);
    assert(f.row_group_count + 1 == f.offsets.len());
    reveal(parse_footer);
}

} // verus!
