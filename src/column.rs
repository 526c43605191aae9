//! The column codec: a column's cells, each followed by the separator byte.
use vstd::prelude::*;
use vstd::utf8::*;
use crate::bytes::{
    all_free_of, append_bytes, free_of, join_term, lemma_split_join, lemma_split_on_nonempty,
    split_bytes, split_on, text_from_utf8, views, NL, SEP,
};
use crate::codec::{Deserialize, Serialize};
use crate::error::PlankError;

verus! {

/// The texts of a sequence of strings.
pub open spec fn texts(v: Seq<String>) -> Seq<Seq<char>> {
    v.map_values(|s: String| s@)
}

/// The UTF-8 encodings of a sequence of texts.
pub open spec fn encodings(cells: Seq<Seq<char>>) -> Seq<Seq<u8>> {
    cells.map_values(|c: Seq<char>| encode_utf8(c))
}

/// The bytes of a column: every cell's UTF-8 bytes followed by the separator.
pub open spec fn column_bytes(cells: Seq<Seq<char>>) -> Seq<u8> {
    join_term(encodings(cells), SEP)
}

/// A text that can stand in a column: its encoding holds neither the
/// separator nor a line terminator.
pub open spec fn storable(c: Seq<char>) -> bool {
    free_of(encode_utf8(c), SEP) && free_of(encode_utf8(c), NL)
}

/// The cells that a column's bytes decode to: the split on the separator must
/// end in an empty piece, which is dropped, and every other piece must be UTF-8.
pub open spec fn parse_column(b: Seq<u8>) -> Option<Seq<Seq<char>>> {
    let ps = split_on(b, SEP);
    if ps.len() >= 1 && ps.last().len() == 0 && all_utf8(ps.drop_last()) {
        Some(ps.drop_last().map_values(|p: Seq<u8>| decode_utf8(p)))
    } else {
        None
    }
}

/// Every piece is well-formed UTF-8.
pub open spec fn all_utf8(ps: Seq<Seq<u8>>) -> bool {
    forall|i: int| 0 <= i < ps.len() ==> valid_utf8(#[trigger] ps[i])
}

/// One column of a row group: an ordered sequence of cells.
#[derive(Debug, Clone)]
pub struct Column {
    records: Vec<String>,
}

impl View for Column {
    type V = Seq<Seq<char>>;

    closed spec fn view(&self) -> Seq<Seq<char>> {
        texts(self.records@)
    }
}

impl Column {
    pub fn new(records: Vec<String>) -> (r: Column)
        ensures
            r@ == texts(records@),
    {
        Column { records }
    }

    pub fn records(&self) -> (r: &Vec<String>)
        ensures
            texts(r@) == self@,
    {
        &self.records
    }
}

impl Serialize for Column {
    open spec fn spec_bytes(&self) -> Seq<u8> {
        column_bytes(self@)
    }

    fn to_bytes(&self) -> (r: Vec<u8>) {
        let mut buf: Vec<u8> = Vec::new();
        let mut i: usize = 0;
        assert(encodings(self@.subrange(0, 0)) =~= Seq::<Seq<u8>>::empty());
        while i < self.records.len()
            invariant
                i <= self.records@.len(),
                buf@ == join_term(encodings(self@.subrange(0, i as int)), SEP),
            decreases self.records@.len() - i,
        {
            let ghost before = encodings(self@.subrange(0, i as int));
            append_bytes(&mut buf, self.records[i].as_str().as_bytes());
            buf.push(SEP);
            proof {
                let after = encodings(self@.subrange(0, i + 1));
                assert(after =~= before.push(encode_utf8(self@[i as int])));
                assert(after.drop_last() =~= before);
                assert(buf@ =~= join_term(before, SEP) + encode_utf8(self@[i as int]) + seq![SEP]);
            }
            i = i + 1;
        }
        assert(self@.subrange(0, self.records@.len() as int) =~= self@);
        buf
    }
}

impl Deserialize for Column {
    open spec fn decodes_to(b: Seq<u8>, r: Result<Column, PlankError>) -> bool {
        match r {
            Ok(c) => parse_column(b) == Some(c@),
            Err(e) => parse_column(b) is None && e == PlankError::CorruptRowGroup,
        }
    }

    fn from_bytes(bytes: &[u8]) -> (r: Result<Column, PlankError>) {
        let pieces = split_bytes(bytes, SEP);
        let ghost ps = split_on(bytes@, SEP);
        proof {
            lemma_split_on_nonempty(bytes@, SEP);
        }
        let n = pieces.len();
        assert(ps[n - 1] == views(pieces@)[n - 1]);
        if pieces[n - 1].len() != 0 {
            return Err(PlankError::CorruptRowGroup);
        }
        let mut records: Vec<String> = Vec::new();
        let mut i: usize = 0;
        assert(texts(records@) =~= ps.subrange(0, 0).map_values(|p: Seq<u8>| decode_utf8(p)));
        while i < n - 1
            invariant
                n == pieces@.len(),
                n >= 1,
                views(pieces@) == ps,
                ps == split_on(bytes@, SEP),
                i <= n - 1,
                forall|k: int| 0 <= k < i ==> valid_utf8(#[trigger] ps[k]),
                texts(records@) == ps.subrange(0, i as int).map_values(
                    |p: Seq<u8>| decode_utf8(p),
                ),
            decreases n - 1 - i,
        {
            assert(ps[i as int] == pieces@[i as int]@);
            match text_from_utf8(pieces[i].as_slice()) {
                Some(s) => {
                    let ghost prev = records@;
                    records.push(s);
                    assert(texts(records@) =~= texts(prev).push(decode_utf8(ps[i as int])));
                },
                None => {
                    assert(!valid_utf8(ps[i as int]));
                    assert(ps.drop_last()[i as int] == ps[i as int]);
                    return Err(PlankError::CorruptRowGroup);
                },
            }
            i = i + 1;
            assert(ps.subrange(0, i as int) =~= ps.subrange(0, i - 1).push(ps[i - 1]));
            assert(ps.subrange(0, i as int).map_values(|p: Seq<u8>| decode_utf8(p)) =~= ps.subrange(
                0,
                i - 1,
            ).map_values(|p: Seq<u8>| decode_utf8(p)).push(decode_utf8(ps[i - 1])));
        }
        assert(ps.subrange(0, n - 1) =~= ps.drop_last());
        assert(all_utf8(ps.drop_last())) by {
            assert forall|k: int| 0 <= k < n - 1 implies valid_utf8(#[trigger] ps.drop_last()[k]) by {
                assert(ps.drop_last()[k] == ps[k]);
            }
        }
        Ok(Column { records })
    }
}

/// Decoding the bytes of a column gives back its cells.
pub proof fn lemma_column_roundtrip(cells: Seq<Seq<char>>)
    requires
        forall|i: int| 0 <= i < cells.len() ==> storable(#[trigger] cells[i]),
    ensures
        parse_column(column_bytes(cells)) == Some(cells),
{
    let es = encodings(cells);
    assert(all_free_of(es, SEP)) by {
        assert forall|i: int| 0 <= i < es.len() implies free_of(#[trigger] es[i], SEP) by {
            assert(storable(cells[i]));
        }
    }
    lemma_split_join(es, SEP);
    let ps = split_on(column_bytes(cells), SEP);
    assert(ps.drop_last() =~= es);
    assert forall|i: int| 0 <= i < es.len() implies valid_utf8(#[trigger] es[i]) by {
        encode_utf8_valid_utf8(cells[i]);
    }
    assert forall|i: int| 0 <= i < cells.len() implies decode_utf8(es[i]) == cells[i] by {
        encode_utf8_decode_utf8(cells[i]);
    }
    assert(ps.drop_last().map_values(|p: Seq<u8>| decode_utf8(p)) =~= cells);
}

} // verus!
