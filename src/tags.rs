//! The literal ASCII tags that label the footer's fields and the trailer.
use vstd::prelude::*;

verus! {

/// The fields of the footer and trailer, each introduced by its own tag.
#[derive(Debug, Clone, Copy, PartialEq, Eq, Structural)]
pub enum Tag {
    Schema,
    RowCount,
    ColumnCount,
    RowGroupCount,
    RowGroupOffsets,
    Checksum,
    FooterOffset,
}

/// The bytes of each tag: `SCHEMA=`, `ROW_COUNT=`, `COLUMN_COUNT=`,
/// `ROWGROUP_COUNT=`, `ROWGROUP_OFFSETS=`, `CHECKSUM=`, and for the trailer
/// `!FOOTER_OFFSET=`.
pub open spec fn tag_of(t: Tag) -> Seq<u8> {
    match t {
        Tag::Schema => seq![83u8, 67, 72, 69, 77, 65, 61],
        Tag::RowCount => seq![82u8, 79, 87, 95, 67, 79, 85, 78, 84, 61],
        Tag::ColumnCount => seq![67u8, 79, 76, 85, 77, 78, 95, 67, 79, 85, 78, 84, 61],
        Tag::RowGroupCount => seq![82u8, 79, 87, 71, 82, 79, 85, 80, 95, 67, 79, 85, 78, 84, 61],
        Tag::RowGroupOffsets => seq![
            82u8,
            79,
            87,
            71,
            82,
            79,
            85,
            80,
            95,
            79,
            70,
            70,
            83,
            69,
            84,
            83,
            61,
        ],
        Tag::Checksum => seq![67u8, 72, 69, 67, 75, 83, 85, 77, 61],
        Tag::FooterOffset => seq![33u8, 70, 79, 79, 84, 69, 82, 95, 79, 70, 70, 83, 69, 84, 61],
    }
}

/// The bytes of a tag.
pub fn tag_bytes(t: Tag) -> (r: Vec<u8>)
    ensures
        r@ == tag_of(t),
{
    let v = match t {
        Tag::Schema => vec![83u8, 67, 72, 69, 77, 65, 61],
        Tag::RowCount => vec![82u8, 79, 87, 95, 67, 79, 85, 78, 84, 61],
        Tag::ColumnCount => vec![67u8, 79, 76, 85, 77, 78, 95, 67, 79, 85, 78, 84, 61],
        Tag::RowGroupCount => vec![82u8, 79, 87, 71, 82, 79, 85, 80, 95, 67, 79, 85, 78, 84, 61],
        Tag::RowGroupOffsets => vec![
            82u8,
            79,
            87,
            71,
            82,
            79,
            85,
            80,
            95,
            79,
            70,
            70,
            83,
            69,
            84,
            83,
            61,
        ],
        Tag::Checksum => vec![67u8, 72, 69, 67, 75, 83, 85, 77, 61],
        Tag::FooterOffset => vec![33u8, 70, 79, 79, 84, 69, 82, 95, 79, 70, 70, 83, 69, 84, 61],
    };
    assert(v@ =~= tag_of(t));
    v
}

/// Whether `b` holds the tag `t` at `pos`.
pub fn tag_at(b: &[u8], pos: usize, t: &Vec<u8>) -> (r: bool)
    requires
        pos + t@.len() <= b@.len(),
    ensures
        r == (b@.subrange(pos as int, pos + t@.len()) == t@),
{
    let n = b.len();
    let mut i: usize = 0;
    while i < t.len()
        invariant
            n == b@.len(),
            i <= t@.len(),
            pos + t@.len() <= b@.len(),
            forall|k: int| 0 <= k < i ==> b@[pos + k] == t@[k],
        decreases t@.len() - i,
    {
        if b[pos + i] != t[i] {
            assert(b@.subrange(pos as int, pos + t@.len())[i as int] != t@[i as int]);
            return false;
        }
        i = i + 1;
    }
    assert(b@.subrange(pos as int, pos + t@.len()) =~= t@);
    true
}

} // verus!
