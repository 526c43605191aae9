//! The writer: buffers rows into row groups, hands back the bytes to append
//! to the file as each group fills, and on `finish` the last group, the
//! footer and the trailer.
use vstd::prelude::*;
use crate::bytes::{append_bytes, push_le, NL};
use crate::codec::Serialize;
use crate::column::{texts, Column};
use crate::error::PlankError;
use crate::footer::{
    fields_bytes, footer_bytes, schema_view, sha256_of, Footer, SchemaView, DIGEST_LEN,
};
use crate::layout::{
    columns_of, data_bytes, file_bytes, file_data, file_footer, full_groups, group_columns,
    group_count, group_rows, lemma_data_prefix, offsets_of, rows_match, trailer_bytes, RowView,
    ROWGROUP_SIZE,
};
use crate::rowgroup::{column_views, RowGroup};
use crate::tags::{tag_bytes, Tag};

verus! {

/// The texts of buffered rows.
pub open spec fn rows_texts(b: Seq<Vec<String>>) -> Seq<RowView> {
    b.map_values(|r: Vec<String>| texts(r@))
}

/// What a writer has been given: its schema, the rows appended so far, and
/// whether it has been finished.
pub struct WriterView {
    pub schema: SchemaView,
    pub rows: Seq<RowView>,
    pub closed: bool,
}

/// The bytes a writer has handed out before `finish`: its full row groups.
pub open spec fn emitted(schema: SchemaView, rows: Seq<RowView>) -> Seq<u8> {
    data_bytes(rows, schema.len(), full_groups(rows.len()))
}

/// The row count and the bytes of the full row groups fit in 32 bits.
pub open spec fn appendable(schema: SchemaView, rows: Seq<RowView>) -> bool {
    rows.len() <= u32::MAX && emitted(schema, rows).len() <= u32::MAX
}

/// Clones a schema entry by entry.
fn clone_schema(s: &Vec<(String, String)>) -> (r: Vec<(String, String)>)
    ensures
        schema_view(r@) == schema_view(s@),
{
    let mut r: Vec<(String, String)> = Vec::new();
    let mut i: usize = 0;
    while i < s.len()
        invariant
            i <= s@.len(),
            schema_view(r@) =~= schema_view(s@).subrange(0, i as int),
        decreases s@.len() - i,
    {
        let ghost prev = r@;
        r.push((s[i].0.clone(), s[i].1.clone()));
        assert(schema_view(r@) =~= schema_view(prev).push((s@[i as int].0@, s@[i as int].1@)));
        i = i + 1;
    }
    r
}

/// Builds the row group whose columns are the fields of `rows`.
fn group_from_rows(rows: &Vec<Vec<String>>, ncols: usize) -> (r: RowGroup)
    requires
        forall|i: int| 0 <= i < rows@.len() ==> (#[trigger] rows@[i])@.len() == ncols,
    ensures
        r@ == columns_of(rows_texts(rows@), ncols as nat),
{
    let ghost rt = rows_texts(rows@);
    let ghost target = columns_of(rt, ncols as nat);
    let mut cols: Vec<Column> = Vec::new();
    let mut j: usize = 0;
    while j < ncols
        invariant
            j <= ncols,
            rt == rows_texts(rows@),
            target == columns_of(rt, ncols as nat),
            forall|i: int| 0 <= i < rows@.len() ==> (#[trigger] rows@[i])@.len() == ncols,
            column_views(cols@) =~= target.subrange(0, j as int),
        decreases ncols - j,
    {
        let mut cells: Vec<String> = Vec::new();
        let mut i: usize = 0;
        while i < rows.len()
            invariant
                i <= rows@.len(),
                j < ncols,
                rt == rows_texts(rows@),
                forall|k: int| 0 <= k < rows@.len() ==> (#[trigger] rows@[k])@.len() == ncols,
                texts(cells@) =~= Seq::new(i as nat, |k: int| rt[k][j as int]),
            decreases rows@.len() - i,
        {
            assert(rt[i as int] == texts(rows@[i as int]@));
            let ghost prev = cells@;
            cells.push(rows[i][j].clone());
            assert(texts(cells@) =~= texts(prev).push(rt[i as int][j as int]));
            i = i + 1;
        }
        let c = Column::new(cells);
        let ghost prevc = cols@;
        cols.push(c);
        assert(column_views(cols@) =~= column_views(prevc).push(c@));
        assert(c@ =~= target[j as int]);
        j = j + 1;
    }
    assert(target.subrange(0, ncols as int) =~= target);
    RowGroup::new(cols)
}

/// The footer's bytes, then the trailer pointing at `position`.
fn footer_and_trailer(footer: &Footer, position: u32) -> (r: Vec<u8>)
    ensures
        r@ == footer_bytes(footer@) + trailer_bytes(position),
        sha256_of(fields_bytes(footer@)).len() == DIGEST_LEN,
{
    let mut out = footer.encode();
    let t = tag_bytes(Tag::FooterOffset);
    append_bytes(&mut out, t.as_slice());
    push_le(&mut out, position);
    out.push(NL);
    assert(out@ =~= footer_bytes(footer@) + trailer_bytes(position));
    out
}

/// Buffers rows into row groups of `ROWGROUP_SIZE` and lays out the file.
pub struct PlankWriter {
    schema: Vec<(String, String)>,
    buffer: Vec<Vec<String>>,
    offsets: Vec<u32>,
    position: u32,
    row_count: u32,
    closed: bool,
    rows: Ghost<Seq<RowView>>,
}

impl View for PlankWriter {
    type V = WriterView;

    closed spec fn view(&self) -> WriterView {
        WriterView { schema: schema_view(self.schema@), rows: self.rows@, closed: self.closed }
    }
}

impl PlankWriter {
    /// The writer's internal state agrees with the rows it has been given.
    pub closed spec fn wf(&self) -> bool {
        let sv = schema_view(self.schema@);
        let n = sv.len();
        let rows = self.rows@;
        let full = full_groups(rows.len());
        &&& n <= u32::MAX
        &&& rows_match(sv, rows)
        &&& rows.len() == self.row_count
        &&& forall|i: int|
            0 <= i < self.buffer@.len() ==> (#[trigger] self.buffer@[i])@.len() == n
        &&& rows_texts(self.buffer@) == rows.subrange(full * ROWGROUP_SIZE, rows.len() as int)
        &&& self.offsets@ == Seq::new(full, |i: int| data_bytes(rows, n, i as nat).len() as u32)
        &&& self.position == data_bytes(rows, n, full).len()
    }

    pub fn new(schema: Vec<(String, String)>) -> (r: PlankWriter)
        requires
            schema@.len() <= u32::MAX,
        ensures
            r.wf(),
            r@ == (WriterView {
                schema: schema_view(schema@),
                rows: Seq::<RowView>::empty(),
                closed: false,
            }),
    {
        let r = PlankWriter {
            schema,
            buffer: Vec::new(),
            offsets: Vec::new(),
            position: 0,
            row_count: 0,
            closed: false,
            rows: Ghost(Seq::<RowView>::empty()),
        };
        assert(rows_texts(r.buffer@) =~= Seq::<RowView>::empty().subrange(0, 0));
        assert(r.offsets@ =~= Seq::new(
            0,
            |i: int| data_bytes(Seq::<RowView>::empty(), schema_view(r.schema@).len(), i as nat).len() as u32,
        ));
        r
    }

    pub fn schema(&self) -> (r: &Vec<(String, String)>)
        ensures
            schema_view(r@) == self@.schema,
    {
        &self.schema
    }

    /// Appends one row. When it completes a row group, the group's bytes are
    /// returned, to be written at the end of the file; otherwise no bytes.
    pub fn append_row(&mut self, row: Vec<String>) -> (r: Result<Vec<u8>, PlankError>)
        requires
            old(self).wf(),
        ensures
            final(self).wf(),
            old(self)@.closed ==> r == Err::<Vec<u8>, PlankError>(PlankError::WriterClosed),
            !old(self)@.closed && row@.len() != old(self)@.schema.len() ==> r == Err::<
                Vec<u8>,
                PlankError,
            >(PlankError::SchemaMismatch),
            !old(self)@.closed && row@.len() == old(self)@.schema.len() ==> (r is Ok <==> appendable(
                old(self)@.schema,
                old(self)@.rows.push(texts(row@)),
            )),
            r is Err && !old(self)@.closed && row@.len() == old(self)@.schema.len() ==> r
                == Err::<Vec<u8>, PlankError>(PlankError::TooLarge),
            r is Err ==> final(self)@ == old(self)@,
            r matches Ok(out) ==> {
                &&& final(self)@ == (WriterView {
                    rows: old(self)@.rows.push(texts(row@)),
                    ..old(self)@
                })
                &&& emitted(old(self)@.schema, old(self)@.rows) + out@ == emitted(
                    final(self)@.schema,
                    final(self)@.rows,
                )
            },
    {
        if self.closed {
            return Err(PlankError::WriterClosed);
        }
        if row.len() != self.schema.len() {
            return Err(PlankError::SchemaMismatch);
        }
        let ghost sv = schema_view(self.schema@);
        let ghost n = sv.len();
        let ghost rows = self.rows@;
        let ghost x = texts(row@);
        let ghost rows2 = rows.push(x);
        let ghost full = full_groups(rows.len());
        let ghost full2 = full_groups(rows2.len());
        proof {
            assert(full2 == full || (full2 == full + 1 && rows2.len() == full2 * ROWGROUP_SIZE));
            assert(full * ROWGROUP_SIZE <= rows.len()) by (nonlinear_arith)
                requires full == rows.len() / 10;
            assert forall|i: nat| i <= full implies data_bytes(rows2, n, i) == data_bytes(
                rows,
                n,
                i,
            ) by {
                assert(i * ROWGROUP_SIZE <= full * ROWGROUP_SIZE) by (nonlinear_arith)
                    requires i <= full;
                assert(rows2.subrange(0, i * ROWGROUP_SIZE) =~= rows.subrange(0, i * ROWGROUP_SIZE));
                lemma_data_prefix(rows2, rows, n, i);
            }
        }
        if self.row_count == u32::MAX {
            return Err(PlankError::TooLarge);
        }
        let ghost old_buffer = self.buffer@;
        self.buffer.push(row);
        assert(rows_texts(self.buffer@) =~= rows_texts(old_buffer).push(x));
        assert(rows2.subrange(full * ROWGROUP_SIZE, rows2.len() as int) =~= rows.subrange(
            full * ROWGROUP_SIZE,
            rows.len() as int,
        ).push(x));
        let mut out: Vec<u8> = Vec::new();
        if self.buffer.len() == ROWGROUP_SIZE {
            let group = group_from_rows(&self.buffer, self.schema.len());
            let bytes = group.to_bytes();
            proof {
                assert(full2 == full + 1);
                assert(group_rows(rows2, full as int) =~= rows2.subrange(
                    full * ROWGROUP_SIZE,
                    rows2.len() as int,
                ));
                assert(group@ == group_columns(rows2, n, full as int));
                assert(data_bytes(rows2, n, full2) == data_bytes(rows2, n, full) + bytes@);
            }
            if (bytes.len() as u64) > (u32::MAX - self.position) as u64 {
                let _ = self.buffer.pop();
                assert(self.buffer@ =~= old_buffer);
                return Err(PlankError::TooLarge);
            }
            self.offsets.push(self.position);
            self.position = self.position + bytes.len() as u32;
            self.buffer = Vec::new();
            out = bytes;
            proof {
                assert(self.offsets@ =~= Seq::new(
                    full2,
                    |i: int| data_bytes(rows2, n, i as nat).len() as u32,
                ));
                assert(rows_texts(self.buffer@) =~= rows2.subrange(
                    full2 * ROWGROUP_SIZE,
                    rows2.len() as int,
                ));
            }
        } else {
            proof {
                assert(full2 == full);
                assert(self.offsets@ =~= Seq::new(
                    full2,
                    |i: int| data_bytes(rows2, n, i as nat).len() as u32,
                ));
                assert(emitted(sv, rows) + out@ =~= emitted(sv, rows2));
            }
        }
        self.row_count = self.row_count + 1;
        self.rows = Ghost(rows2);
        assert(rows_match(sv, rows2)) by {
            assert forall|i: int| 0 <= i < rows2.len() implies (#[trigger] rows2[i]).len()
                == sv.len() by {
                if i < rows.len() {
                    assert(rows2[i] == rows[i]);
                }
            }
        }
        Ok(out)
    }

    /// Finishes the file: returns the last, partial row group if any, the
    /// footer and the trailer, to be written at the end of the file.
    pub fn finish(&mut self) -> (r: Result<Vec<u8>, PlankError>)
        requires
            old(self).wf(),
        ensures
            final(self).wf(),
            old(self)@.closed ==> r == Err::<Vec<u8>, PlankError>(PlankError::WriterClosed),
            !old(self)@.closed ==> (r is Ok <==> file_data(old(self)@.schema, old(self)@.rows).len()
                <= u32::MAX),
            r is Err && !old(self)@.closed ==> r == Err::<Vec<u8>, PlankError>(
                PlankError::TooLarge,
            ),
            r is Err ==> final(self)@ == old(self)@,
            r matches Ok(out) ==> {
                &&& final(self)@ == (WriterView { closed: true, ..old(self)@ })
                &&& sha256_of(fields_bytes(file_footer(old(self)@.schema, old(self)@.rows))).len()
                    == DIGEST_LEN
                &&& emitted(old(self)@.schema, old(self)@.rows) + out@ == file_bytes(
                    old(self)@.schema,
                    old(self)@.rows,
                )
            },
    {
        if self.closed {
            return Err(PlankError::WriterClosed);
        }
        let ghost sv = schema_view(self.schema@);
        let ghost n = sv.len();
        let ghost rows = self.rows@;
        let ghost full = full_groups(rows.len());
        let ghost g = group_count(rows.len());
        let mut out: Vec<u8> = Vec::new();
        let mut position = self.position;
        let mut offsets = self.offsets.clone();
        let mut groups: u32 = self.row_count / (ROWGROUP_SIZE as u32);
        proof {
            assert(full * ROWGROUP_SIZE <= rows.len()) by (nonlinear_arith)
                requires full == rows.len() / 10;
            assert(offsets@ =~= self.offsets@);
        }
        if self.buffer.len() > 0 {
            let group = group_from_rows(&self.buffer, self.schema.len());
            let bytes = group.to_bytes();
            proof {
                assert(g == full + 1);
                assert(group_rows(rows, full as int) =~= rows.subrange(
                    full * ROWGROUP_SIZE,
                    rows.len() as int,
                ));
                assert(group@ == group_columns(rows, n, full as int));
                assert(data_bytes(rows, n, g) == data_bytes(rows, n, full) + bytes@);
            }
            if (bytes.len() as u64) > (u32::MAX - position) as u64 {
                return Err(PlankError::TooLarge);
            }
            offsets.push(position);
            position = position + bytes.len() as u32;
            groups = groups + 1;
            out = bytes;
        } else {
            assert(rows.subrange(full * ROWGROUP_SIZE, rows.len() as int).len() == 0);
            assert(g == full);
        }
        offsets.push(position);
        assert(offsets@ =~= offsets_of(rows, n));
        let footer = Footer::new(
            clone_schema(&self.schema),
            offsets,
            self.row_count,
            self.schema.len() as u32,
            groups,
        );
        assert(footer@ == file_footer(sv, rows));
        let tail = footer_and_trailer(&footer, position);
        let ghost before = out@;
        append_bytes(&mut out, tail.as_slice());
        proof {
            assert(emitted(sv, rows) + before =~= file_data(sv, rows));
            assert(emitted(sv, rows) + out@ =~= file_bytes(sv, rows));
        }
        self.closed = true;
        Ok(out)
    }
}

} // verus!