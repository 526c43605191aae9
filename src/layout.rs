//! The layout of a whole file: row groups back to back, the footer, then the
//! trailer that points at the footer.
use vstd::prelude::*;
use crate::bytes::{le_bytes, NL};
use crate::footer::{footer_bytes, FooterView, SchemaView};
use crate::rowgroup::rowgroup_bytes;
use crate::tags::{tag_of, Tag};

verus! {

/// The capacity of every row group but the last.
pub const ROWGROUP_SIZE: usize = 10;

/// The length of the trailer: its tag, four offset bytes and a newline.
pub const TRAILER_LEN: usize = 20;

/// A row as texts, and a sequence of rows.
pub type RowView = Seq<Seq<char>>;

/// The number of row groups that `n` rows fill.
pub open spec fn group_count(n: nat) -> nat {
    if n % (ROWGROUP_SIZE as nat) == 0 {
        n / (ROWGROUP_SIZE as nat)
    } else {
        n / (ROWGROUP_SIZE as nat) + 1
    }
}

/// The number of full row groups in `n` rows.
pub open spec fn full_groups(n: nat) -> nat {
    n / (ROWGROUP_SIZE as nat)
}

/// The rows of row group `g`: up to `ROWGROUP_SIZE` consecutive rows.
pub open spec fn group_rows(rows: Seq<RowView>, g: int) -> Seq<RowView> {
    let start = g * ROWGROUP_SIZE;
    let end = if (g + 1) * ROWGROUP_SIZE <= rows.len() {
        (g + 1) * ROWGROUP_SIZE
    } else {
        rows.len() as int
    };
    rows.subrange(start, end)
}

/// Rows turned column-major: column `j` holds the `j`-th field of every row.
pub open spec fn columns_of(rows: Seq<RowView>, ncols: nat) -> Seq<Seq<Seq<char>>> {
    Seq::new(ncols, |j: int| Seq::new(rows.len(), |i: int| rows[i][j]))
}

/// The columns of row group `g`.
pub open spec fn group_columns(rows: Seq<RowView>, ncols: nat, g: int) -> Seq<Seq<Seq<char>>> {
    columns_of(group_rows(rows, g), ncols)
}

/// The bytes of the first `k` row groups, back to back.
pub open spec fn data_bytes(rows: Seq<RowView>, ncols: nat, k: nat) -> Seq<u8>
    decreases k,
{
    if k == 0 {
        Seq::<u8>::empty()
    } else {
        data_bytes(rows, ncols, (k - 1) as nat) + rowgroup_bytes(
            group_columns(rows, ncols, k - 1),
        )
    }
}

/// The offset index: where each row group starts, then where the footer starts.
pub open spec fn offsets_of(rows: Seq<RowView>, ncols: nat) -> Seq<u32> {
    Seq::new(
        group_count(rows.len()) + 1,
        |i: int| data_bytes(rows, ncols, i as nat).len() as u32,
    )
}

/// Every row has one field per column of the schema.
pub open spec fn rows_match(schema: SchemaView, rows: Seq<RowView>) -> bool {
    forall|i: int| 0 <= i < rows.len() ==> (#[trigger] rows[i]).len() == schema.len()
}

/// The footer of the file that holds `rows` under `schema`.
pub open spec fn file_footer(schema: SchemaView, rows: Seq<RowView>) -> FooterView {
    FooterView {
        schema,
        offsets: offsets_of(rows, schema.len()),
        row_count: rows.len() as u32,
        col_count: schema.len() as u32,
        row_group_count: group_count(rows.len()) as u32,
    }
}

/// The trailer for a footer that starts at `footer_offset`.
pub open spec fn trailer_bytes(footer_offset: u32) -> Seq<u8> {
    tag_of(Tag::FooterOffset) + le_bytes(footer_offset) + seq![NL]
}

/// The row-group data of the file that holds `rows` under `schema`.
pub open spec fn file_data(schema: SchemaView, rows: Seq<RowView>) -> Seq<u8> {
    data_bytes(rows, schema.len(), group_count(rows.len()))
}

/// The bytes of the file that holds `rows` under `schema`.
pub open spec fn file_bytes(schema: SchemaView, rows: Seq<RowView>) -> Seq<u8> {
    file_data(schema, rows) + footer_bytes(file_footer(schema, rows)) + trailer_bytes(
        file_data(schema, rows).len() as u32,
    )
}

/// The sizes fit the format's 32-bit fields.
pub open spec fn fits(schema: SchemaView, rows: Seq<RowView>) -> bool {
    &&& schema.len() <= u32::MAX
    &&& rows.len() <= u32::MAX
    &&& file_data(schema, rows).len() <= u32::MAX
}

/// Row groups before `k` depend only on the rows they hold.
pub proof fn lemma_data_prefix(a: Seq<RowView>, b: Seq<RowView>, ncols: nat, k: nat)
    requires
        k * ROWGROUP_SIZE <= a.len(),
        k * ROWGROUP_SIZE <= b.len(),
        a.subrange(0, k * ROWGROUP_SIZE) == b.subrange(0, k * ROWGROUP_SIZE),
    ensures
        data_bytes(a, ncols, k) == data_bytes(b, ncols, k),
    decreases k,
{
    if k > 0 {
        let m = (k - 1) as nat;
        assert(m * ROWGROUP_SIZE <= k * ROWGROUP_SIZE) by (nonlinear_arith)
            requires m + 1 == k;
        assert(a.subrange(0, m * ROWGROUP_SIZE) =~= a.subrange(0, k * ROWGROUP_SIZE).subrange(
            0,
            m * ROWGROUP_SIZE,
        ));
        assert(b.subrange(0, m * ROWGROUP_SIZE) =~= b.subrange(0, k * ROWGROUP_SIZE).subrange(
            0,
            m * ROWGROUP_SIZE,
        ));
        lemma_data_prefix(a, b, ncols, m);
        assert(k * ROWGROUP_SIZE == m * ROWGROUP_SIZE + ROWGROUP_SIZE) by (nonlinear_arith)
            requires m + 1 == k;
        assert(group_rows(a, m as int) =~= a.subrange(0, k * ROWGROUP_SIZE).subrange(
            m * ROWGROUP_SIZE,
            k * ROWGROUP_SIZE,
        ));
        assert(group_rows(b, m as int) =~= b.subrange(0, k * ROWGROUP_SIZE).subrange(
            m * ROWGROUP_SIZE,
            k * ROWGROUP_SIZE,
        ));
    }
}

} // verus!
