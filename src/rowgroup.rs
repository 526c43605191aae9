//! The row-group codec: columns in schema order, each followed by a newline.
use vstd::prelude::*;
use crate::bytes::{
    all_free_of, append_bytes, free_of, join_term, lemma_join_free, lemma_split_join,
    lemma_split_on_nonempty, split_bytes, split_on, views, NL, SEP,
};
use crate::codec::{Deserialize, Serialize};
use crate::column::{
    column_bytes, encodings, lemma_column_roundtrip, parse_column, storable, texts, Column,
};
use crate::error::PlankError;

verus! {

/// Every column has as many cells as the first.
pub open spec fn uniform(cols: Seq<Seq<Seq<char>>>) -> bool {
    forall|i: int| 0 <= i < cols.len() ==> (#[trigger] cols[i]).len() == cols[0].len()
}

/// Every cell of every column can be stored.
pub open spec fn all_storable(cols: Seq<Seq<Seq<char>>>) -> bool {
    forall|i: int, j: int|
        0 <= i < cols.len() && 0 <= j < cols[i].len() ==> storable(#[trigger] cols[i][j])
}

/// The number of rows of a row group: the length of its first column.
pub open spec fn row_count_of(cols: Seq<Seq<Seq<char>>>) -> nat {
    if cols.len() == 0 {
        0
    } else {
        cols[0].len()
    }
}

/// Row `r` of a row group: the `r`-th cell of every column.
pub open spec fn row_of(cols: Seq<Seq<Seq<char>>>, r: int) -> Seq<Seq<char>> {
    Seq::new(cols.len(), |j: int| cols[j][r])
}

/// The rows of a row group, in order.
pub open spec fn rows_of(cols: Seq<Seq<Seq<char>>>) -> Seq<Seq<Seq<char>>> {
    Seq::new(row_count_of(cols), |r: int| row_of(cols, r))
}

/// The bytes of each column.
pub open spec fn column_runs(cols: Seq<Seq<Seq<char>>>) -> Seq<Seq<u8>> {
    cols.map_values(|c: Seq<Seq<char>>| column_bytes(c))
}

/// The bytes of a row group: every column's bytes followed by a newline.
pub open spec fn rowgroup_bytes(cols: Seq<Seq<Seq<char>>>) -> Seq<u8> {
    join_term(column_runs(cols), NL)
}

/// Every line decodes as a column.
pub open spec fn all_columns(ls: Seq<Seq<u8>>) -> bool {
    forall|i: int| 0 <= i < ls.len() ==> (#[trigger] parse_column(ls[i])) is Some
}

/// No line is empty.
pub open spec fn no_empty_line(ls: Seq<Seq<u8>>) -> bool {
    forall|i: int| 0 <= i < ls.len() ==> (#[trigger] ls[i]).len() > 0
}

/// The columns that the lines decode to.
pub open spec fn parsed_columns(ls: Seq<Seq<u8>>) -> Seq<Seq<Seq<char>>> {
    ls.map_values(|l: Seq<u8>| parse_column(l).unwrap())
}

/// The columns that a row group's bytes decode to: the split on newlines
/// must end in an empty piece, which is dropped; every other line must be
/// non-empty and decode as a column, and all columns must have the same length.
pub open spec fn parse_rowgroup(b: Seq<u8>) -> Option<Seq<Seq<Seq<char>>>> {
    let ls = split_on(b, NL);
    if ls.len() >= 1 && ls.last().len() == 0 && no_empty_line(ls.drop_last()) && all_columns(
        ls.drop_last(),
    ) && uniform(
        parsed_columns(ls.drop_last()),
    ) {
        Some(parsed_columns(ls.drop_last()))
    } else {
        None
    }
}

/// The views of a sequence of columns.
pub open spec fn column_views(cs: Seq<Column>) -> Seq<Seq<Seq<char>>> {
    cs.map_values(|c: Column| c@)
}

/// An ordered sequence of columns of equal length.
#[derive(Debug)]
pub struct RowGroup {
    columns: Vec<Column>,
}

impl View for RowGroup {
    type V = Seq<Seq<Seq<char>>>;

    closed spec fn view(&self) -> Seq<Seq<Seq<char>>> {
        column_views(self.columns@)
    }
}

impl RowGroup {
    #[verifier::type_invariant]
    spec fn wf(&self) -> bool {
        uniform(column_views(self.columns@))
    }

    pub fn new(columns: Vec<Column>) -> (r: RowGroup)
        requires
            uniform(column_views(columns@)),
        ensures
            r@ == column_views(columns@),
    {
        RowGroup { columns }
    }

    pub fn columns(&self) -> (r: &Vec<Column>)
        ensures
            column_views(r@) == self@,
            uniform(self@),
    {
        proof {
            use_type_invariant(self);
        }
        &self.columns
    }

    /// The number of rows: the length of the first column.
    pub fn row_count(&self) -> (r: usize)
        ensures
            r == row_count_of(self@),
    {
        if self.columns.len() == 0 {
            0
        } else {
            self.columns[0].records().len()
        }
    }

    /// Row `r`: the `r`-th cell of every column.
    pub fn row(&self, r: usize) -> (out: Vec<String>)
        requires
            r < row_count_of(self@),
        ensures
            texts(out@) == row_of(self@, r as int),
    {
        proof {
            use_type_invariant(self);
        }
        let mut out: Vec<String> = Vec::new();
        let mut j: usize = 0;
        while j < self.columns.len()
            invariant
                j <= self.columns@.len(),
                uniform(self@),
                r < row_count_of(self@),
                texts(out@) =~= row_of(self@, r as int).subrange(0, j as int),
            decreases self.columns@.len() - j,
        {
            let cells = self.columns[j].records();
            assert(self@[j as int] == self.columns@[j as int]@);
            assert(texts(cells@)[r as int] == cells@[r as int]@);
            let ghost prev = out@;
            out.push(cells[r].clone());
            assert(texts(out@) =~= texts(prev).push(self@[j as int][r as int]));
            j = j + 1;
        }
        out
    }

    /// All rows, in order.
    pub fn rows(&self) -> (out: Vec<Vec<String>>)
        ensures
            out@.len() == rows_of(self@).len(),
            forall|i: int| 0 <= i < out@.len() ==> texts(#[trigger] out@[i]@) == rows_of(self@)[i],
    {
        let n = self.row_count();
        let mut out: Vec<Vec<String>> = Vec::new();
        let mut i: usize = 0;
        while i < n
            invariant
                i <= n,
                n == row_count_of(self@),
                out@.len() == i,
                forall|k: int| 0 <= k < i ==> texts(#[trigger] out@[k]@) == rows_of(self@)[k],
            decreases n - i,
        {
            let row = self.row(i);
            out.push(row);
            i = i + 1;
        }
        out
    }
}

impl Serialize for RowGroup {
    open spec fn spec_bytes(&self) -> Seq<u8> {
        rowgroup_bytes(self@)
    }

    fn to_bytes(&self) -> (r: Vec<u8>) {
        let mut buf: Vec<u8> = Vec::new();
        let mut i: usize = 0;
        assert(column_runs(self@.subrange(0, 0)) =~= Seq::<Seq<u8>>::empty());
        while i < self.columns.len()
            invariant
                i <= self.columns@.len(),
                self@ == column_views(self.columns@),
                buf@ == join_term(column_runs(self@.subrange(0, i as int)), NL),
            decreases self.columns@.len() - i,
        {
            let ghost before = column_runs(self@.subrange(0, i as int));
            let bytes = self.columns[i].to_bytes();
            append_bytes(&mut buf, bytes.as_slice());
            buf.push(NL);
            proof {
                let after = column_runs(self@.subrange(0, i + 1));
                assert(self@[i as int] == self.columns@[i as int]@);
                assert(after =~= before.push(column_bytes(self@[i as int])));
                assert(after.drop_last() =~= before);
            }
            i = i + 1;
        }
        assert(self@.subrange(0, self.columns@.len() as int) =~= self@);
        buf
    }
}

impl Deserialize for RowGroup {
    open spec fn decodes_to(b: Seq<u8>, r: Result<RowGroup, PlankError>) -> bool {
        match r {
            Ok(g) => parse_rowgroup(b) == Some(g@),
            Err(e) => parse_rowgroup(b) is None && e == PlankError::CorruptRowGroup,
        }
    }

    fn from_bytes(bytes: &[u8]) -> (r: Result<RowGroup, PlankError>) {
        let lines = split_bytes(bytes, NL);
        let ghost ls = split_on(bytes@, NL);
        proof {
            lemma_split_on_nonempty(bytes@, NL);
        }
        let n = lines.len();
        assert(ls[n - 1] == views(lines@)[n - 1]);
        if lines[n - 1].len() != 0 {
            return Err(PlankError::CorruptRowGroup);
        }
        let ghost body = ls.drop_last();
        let mut columns: Vec<Column> = Vec::new();
        let mut first_len: usize = 0;
        let mut i: usize = 0;
        while i < n - 1
            invariant
                n == lines@.len(),
                n >= 1,
                views(lines@) == ls,
                ls == split_on(bytes@, NL),
                body == ls.drop_last(),
                i <= n - 1,
                all_columns(body.subrange(0, i as int)),
                no_empty_line(body.subrange(0, i as int)),
                column_views(columns@) == parsed_columns(body.subrange(0, i as int)),
                uniform(column_views(columns@)),
                i > 0 ==> first_len == column_views(columns@)[0].len(),
            decreases n - 1 - i,
        {
            assert(body[i as int] == lines@[i as int]@);
            let ghost sub = body.subrange(0, i as int);
            let ghost next = body.subrange(0, i + 1);
            assert(next =~= sub.push(body[i as int]));
            if lines[i].len() == 0 {
                assert(!no_empty_line(body));
                return Err(PlankError::CorruptRowGroup);
            }
            assert(no_empty_line(next)) by {
                assert forall|k: int| 0 <= k < next.len() implies (#[trigger] next[k]).len() > 0 by {
                    if k < i {
                        assert(next[k] == sub[k]);
                    }
                }
            }
            match Column::from_bytes(lines[i].as_slice()) {
                Ok(c) => {
                    let len = c.records().len();
                    if i > 0 && len != first_len {
                        proof {
                            let pc = parsed_columns(body);
                            assert forall|k: int| 0 <= k < body.len() implies (#[trigger] parse_column(
                                body[k],
                            )) is Some || !all_columns(body) by {}
                            if all_columns(body) {
                                assert(pc[i as int] == c@);
                                assert(pc[0] == parsed_columns(sub)[0]);
                                assert(!uniform(pc));
                            }
                        }
                        return Err(PlankError::CorruptRowGroup);
                    }
                    if i == 0 {
                        first_len = len;
                    }
                    let ghost prev = columns@;
                    columns.push(c);
                    proof {
                        assert(column_views(columns@) =~= column_views(prev).push(c@));
                        assert(parsed_columns(next) =~= parsed_columns(sub).push(c@));
                        assert(all_columns(next)) by {
                            assert forall|k: int| 0 <= k < next.len() implies (#[trigger] parse_column(
                                next[k],
                            )) is Some by {
                                if k < i {
                                    assert(next[k] == sub[k]);
                                }
                            }
                        }
                    }
                },
                Err(_) => {
                    assert(!all_columns(body)) by {
                        assert(parse_column(body[i as int]) is None);
                    }
                    return Err(PlankError::CorruptRowGroup);
                },
            }
            i = i + 1;
        }
        assert(body.subrange(0, n - 1) =~= body);
        Ok(RowGroup { columns })
    }
}

/// Decoding the bytes of a row group gives back its columns.
pub proof fn lemma_rowgroup_roundtrip(cols: Seq<Seq<Seq<char>>>)
    requires
        all_storable(cols),
        uniform(cols),
        forall|i: int| 0 <= i < cols.len() ==> (#[trigger] cols[i]).len() > 0,
    ensures
        parse_rowgroup(rowgroup_bytes(cols)) == Some(cols),
{
    let runs = column_runs(cols);
    assert forall|i: int| 0 <= i < runs.len() implies free_of(#[trigger] runs[i], NL) && parse_column(
        runs[i],
    ) == Some(cols[i]) && runs[i].len() > 0 by {
        let es = encodings(cols[i]);
        assert forall|j: int| 0 <= j < es.len() implies free_of(#[trigger] es[j], NL) by {
            assert(storable(cols[i][j]));
        }
        assert forall|j: int| 0 <= j < cols[i].len() implies storable(#[trigger] cols[i][j]) by {}
        lemma_join_free(es, SEP, NL);
        lemma_column_roundtrip(cols[i]);
        assert(es.len() > 0);
        assert(join_term(es, SEP).len() > 0);
    }
    assert(no_empty_line(runs));
    assert(all_free_of(runs, NL));
    lemma_split_join(runs, NL);
    let ls = split_on(rowgroup_bytes(cols), NL);
    assert(ls.drop_last() =~= runs);
    assert(all_columns(runs));
    assert(parsed_columns(runs) =~= cols);
}

} // verus!
