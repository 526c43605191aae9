//! Properties that relate several operations of the format.
use vstd::prelude::*;
use crate::bytes::{le_bytes, le_value, lemma_le_roundtrip};
use crate::column::storable;
use crate::footer::{
    checksum_with, fields_bytes, footer_bytes, footer_consistent, lemma_footer_parts,
    lemma_footer_roundtrip, parse_footer, sha256_of,
    schema_storable, FooterView, SchemaView, DIGEST_LEN,
};
use crate::layout::{
    data_bytes, file_bytes, file_data, file_footer, fits, group_count, group_columns,
    group_rows, rows_match, trailer_bytes, RowView, ROWGROUP_SIZE, TRAILER_LEN,
};
use crate::reader::{offsets_valid, open_file, parse_located_footer, parse_trailer, read_group};
use crate::rowgroup::{
    all_storable, lemma_rowgroup_roundtrip, rowgroup_bytes, rows_of, uniform,
};
use crate::tags::{tag_of, Tag};

verus! {

/// The bytes of the first `i` row groups are never longer than those of the first `k`.
pub proof fn lemma_data_len_monotone(rows: Seq<RowView>, ncols: nat, i: nat, k: nat)
    requires
        i <= k,
    ensures
        data_bytes(rows, ncols, i).len() <= data_bytes(rows, ncols, k).len(),
    decreases k - i,
{
    if i < k {
        lemma_data_len_monotone(rows, ncols, i, (k - 1) as nat);
    }
}

/// Offset index: the gap between consecutive entries is the exact encoded
/// length of that row group, the first entry is zero, and the last entry is
/// where the footer starts.
pub proof fn law_offsets_match_row_groups(schema: SchemaView, rows: Seq<RowView>)
    requires
        fits(schema, rows),
    ensures
        ({
            let f = file_footer(schema, rows);
            let g = group_count(rows.len());
            &&& f.offsets.len() == g + 1
            &&& f.offsets[0] == 0
            &&& f.offsets[g as int] == file_data(schema, rows).len()
            &&& forall|i: int|
                0 <= i < g ==> f.offsets[i + 1] - f.offsets[i] == #[trigger] rowgroup_bytes(
                    group_columns(rows, schema.len(), i),
                ).len()
        }),
{
    let n = schema.len();
    let g = group_count(rows.len());
    let f = file_footer(schema, rows);
    assert forall|i: int| 0 <= i < g implies f.offsets[i + 1] - f.offsets[i] == #[trigger] rowgroup_bytes(
        group_columns(rows, n, i),
    ).len() by {
        lemma_data_len_monotone(rows, n, (i + 1) as nat, g);
        assert(data_bytes(rows, n, (i + 1) as nat) == data_bytes(rows, n, i as nat) + rowgroup_bytes(
            group_columns(rows, n, i),
        ));
    }
}

/// Row-group boundary: exactly `ROWGROUP_SIZE` rows make one full row group
/// and an offset index of two entries; one row more makes a second group
/// holding just that row.
pub proof fn law_rowgroup_boundary(schema: SchemaView, rows: Seq<RowView>)
    ensures
        rows.len() == ROWGROUP_SIZE ==> {
            &&& group_count(rows.len()) == 1
            &&& file_footer(schema, rows).offsets.len() == 2
            &&& group_rows(rows, 0) == rows
        },
        rows.len() == ROWGROUP_SIZE + 1 ==> {
            &&& group_count(rows.len()) == 2
            &&& file_footer(schema, rows).offsets.len() == 3
            &&& group_rows(rows, 0) == rows.subrange(0, ROWGROUP_SIZE as int)
            &&& group_rows(rows, 1) == seq![rows[ROWGROUP_SIZE as int]]
        },
{
    if rows.len() == ROWGROUP_SIZE {
        assert(group_rows(rows, 0) =~= rows);
    }
    if rows.len() == ROWGROUP_SIZE + 1 {
        assert(group_rows(rows, 1) =~= seq![rows[ROWGROUP_SIZE as int]]);
    }
}

/// Truncation: a file that ends in a well-formed trailer no longer opens once
/// its last byte is cut off.
pub proof fn law_truncated_file_rejected(f: Seq<u8>)
    requires
        parse_trailer(f) is Ok,
        f.len() > TRAILER_LEN,
    ensures
        open_file(f.drop_last()) is Err,
{
    let g = f.drop_last();
    let s = f.len() - TRAILER_LEN;
    let t = tag_of(Tag::FooterOffset);
    assert(f.subrange(s, s + 15) == t);
    assert(f[s + 13] == t[13]);
    assert(g.subrange(s - 1, s + 14)[14] == g[s + 13]);
    assert(g.subrange(s - 1, s + 14) != t);
    assert(parse_trailer(g) is Err);
}

/// Reads are a function of the bytes alone: two reads of the same bytes open
/// the same footer and decode the same row groups.
pub proof fn law_read_is_repeatable(f1: Seq<u8>, f2: Seq<u8>)
    requires
        f1 == f2,
    ensures
        open_file(f1) == open_file(f2),
        open_file(f1) matches Ok(ft) ==> forall|i: int|
            0 <= i < ft.row_group_count ==> #[trigger] read_group(ft, f1, i) == read_group(ft, f2, i),
{
}

/// Row data is outside the footer's protection: bytes changed anywhere before
/// the footer's start leave what `open` finds unchanged.
pub proof fn law_open_ignores_row_data(f: Seq<u8>, g: Seq<u8>)
    requires
        parse_trailer(f) is Ok,
        parse_trailer(f).unwrap() <= f.len() - TRAILER_LEN,
        g.len() == f.len(),
        g.subrange(parse_trailer(f).unwrap() as int, g.len() as int) == f.subrange(
            parse_trailer(f).unwrap() as int,
            f.len() as int,
        ),
    ensures
        open_file(g) == open_file(f),
{
    let fo = parse_trailer(f).unwrap() as int;
    let n = f.len() as int;
    let s = n - TRAILER_LEN;
    assert forall|k: int| fo <= k < n implies g[k] == f[k] by {
        assert(g.subrange(fo, n)[k - fo] == f.subrange(fo, n)[k - fo]);
    }
    assert(g.subrange(s, s + 15) =~= f.subrange(s, s + 15));
    assert(g.subrange(fo, n) =~= f.subrange(fo, n));
}

/// The first `k` row groups' bytes are a prefix of the first `g` groups' bytes.
pub proof fn lemma_data_prefix_of(rows: Seq<RowView>, ncols: nat, k: nat, g: nat)
    requires
        k <= g,
    ensures
        data_bytes(rows, ncols, k).len() <= data_bytes(rows, ncols, g).len(),
        data_bytes(rows, ncols, g).subrange(0, data_bytes(rows, ncols, k).len() as int)
            == data_bytes(rows, ncols, k),
    decreases g - k,
{
    if k == g {
        assert(data_bytes(rows, ncols, g).subrange(0, data_bytes(rows, ncols, k).len() as int)
            =~= data_bytes(rows, ncols, k));
    } else {
        let h = (g - 1) as nat;
        lemma_data_prefix_of(rows, ncols, k, h);
        let a = data_bytes(rows, ncols, h);
        let l = data_bytes(rows, ncols, k).len() as int;
        assert(data_bytes(rows, ncols, g).subrange(0, l) =~= a.subrange(0, l));
    }
}

/// Every cell of every row can be stored.
pub open spec fn cells_storable(rows: Seq<RowView>) -> bool {
    forall|i: int, j: int| 0 <= i < rows.len() && 0 <= j < rows[i].len() ==> storable(
        #[trigger] rows[i][j],
    )
}

proof fn lemma_group_count_bound(n: nat)
    ensures
        group_count(n) <= n,
        group_count(n) * ROWGROUP_SIZE >= n,
        n > 0 ==> (group_count(n) - 1) * ROWGROUP_SIZE < n,
{
}

proof fn lemma_trailer_at_end(x: Seq<u8>, v: u32)
    ensures
        parse_trailer(x + trailer_bytes(v)) == Ok::<u32, crate::error::PlankError>(v),
{
    let t = trailer_bytes(v);
    let f = x + t;
    let s = f.len() - TRAILER_LEN;
    assert(t.len() == 20);
    assert(f.subrange(s, s + 15) =~= t.subrange(0, 15));
    assert(t.subrange(0, 15) =~= tag_of(Tag::FooterOffset));
    assert(f[f.len() - 1] == t[19]);
    lemma_le_roundtrip(v);
    assert(le_value(f, s + 15) == le_value(le_bytes(v), 0)) by {
        assert(f[s + 15] == t[15]);
        assert(f[s + 16] == t[16]);
        assert(f[s + 17] == t[17]);
        assert(f[s + 18] == t[18]);
    }
}

proof fn lemma_open_parts(d: Seq<u8>, fb: Seq<u8>, ft: FooterView)
    requires
        d.len() <= u32::MAX,
        parse_located_footer(d.len() as u32, fb + trailer_bytes(d.len() as u32)) == Ok::<
            _,
            crate::error::PlankError,
        >(ft),
    ensures
        open_file(d + fb + trailer_bytes(d.len() as u32)) == Ok::<_, crate::error::PlankError>(ft),
{
    let t = trailer_bytes(d.len() as u32);
    let f = d + fb + t;
    assert(t.len() == TRAILER_LEN);
    lemma_trailer_at_end(d + fb, d.len() as u32);
    assert(f.subrange(d.len() as int, f.len() as int) =~= fb + t);
}

proof fn lemma_footer_of_file_valid(schema: SchemaView, rows: Seq<RowView>)
    requires
        fits(schema, rows),
        schema_storable(schema),
    ensures
        footer_consistent(file_footer(schema, rows)),
        offsets_valid(file_footer(schema, rows), file_data(schema, rows).len() as u32),
{
    let n = schema.len();
    let g = group_count(rows.len());
    let ft = file_footer(schema, rows);
    lemma_group_count_bound(rows.len());
    assert(ft.row_group_count == g);
    assert forall|i: int| 0 <= i < ft.offsets.len() - 1 implies #[trigger] ft.offsets[i]
        <= ft.offsets[i + 1] by {
        lemma_data_prefix_of(rows, n, i as nat, (i + 1) as nat);
        lemma_data_prefix_of(rows, n, (i + 1) as nat, g);
    }
}

proof fn lemma_group_of_file(schema: SchemaView, rows: Seq<RowView>, i: int)
    requires
        fits(schema, rows),
        rows_match(schema, rows),
        cells_storable(rows),
        0 <= i < group_count(rows.len()),
    ensures
        read_group(file_footer(schema, rows), file_bytes(schema, rows), i) == Ok::<
            Seq<Seq<Seq<char>>>,
            crate::error::PlankError,
        >(group_columns(rows, schema.len(), i)),
{
    let n = schema.len();
    let g = group_count(rows.len());
    let ft = file_footer(schema, rows);
    let f = file_bytes(schema, rows);
    let d = file_data(schema, rows);
    let cols = group_columns(rows, n, i);
    let grp = group_rows(rows, i);
    lemma_group_count_bound(rows.len());
    lemma_data_prefix_of(rows, n, i as nat, (i + 1) as nat);
    lemma_data_prefix_of(rows, n, (i + 1) as nat, g);
    let a = data_bytes(rows, n, i as nat);
    let a1 = data_bytes(rows, n, (i + 1) as nat);
    assert(a1 == a + rowgroup_bytes(cols));
    assert(ft.offsets[i] == a.len());
    assert(ft.offsets[i + 1] == a1.len());
    assert(f.subrange(a.len() as int, a1.len() as int) =~= d.subrange(0, a1.len() as int).subrange(
        a.len() as int,
        a1.len() as int,
    ));
    assert(f.subrange(a.len() as int, a1.len() as int) =~= rowgroup_bytes(cols));
    assert(i * ROWGROUP_SIZE < rows.len()) by (nonlinear_arith)
        requires
            i < g,
            (g - 1) * 10 < rows.len() || rows.len() == 0,
            g <= rows.len(),
    ;
    assert(uniform(cols));
    assert(grp.len() > 0);
    assert forall|c: int| 0 <= c < cols.len() implies (#[trigger] cols[c]).len() > 0 by {}
    assert(all_storable(cols)) by {
        assert forall|c: int, r: int| 0 <= c < cols.len() && 0 <= r < cols[c].len() implies storable(
            #[trigger] cols[c][r],
        ) by {
            assert(cols[c][r] == grp[r][c]);
            assert(grp[r] == rows[i * ROWGROUP_SIZE + r]);
        }
    }
    lemma_rowgroup_roundtrip(cols);
    let b = f.subrange(a.len() as int, a1.len() as int);
    assert(a1.len() <= d.len());
    assert(ft.offsets[i] as int == a.len());
    assert(ft.offsets[i + 1] as int == a1.len());
    assert(a1.len() <= f.len());
    assert(b.subrange(0, b.len() as int) =~= b);
    assert(cols.len() == n);
    assert(ft.col_count == n);
}

proof fn lemma_row_in_group(schema: SchemaView, rows: Seq<RowView>, r: int)
    requires
        schema.len() > 0,
        rows_match(schema, rows),
        0 <= r < rows.len(),
    ensures
        rows_of(group_columns(rows, schema.len(), r / ROWGROUP_SIZE as int))[r
            % ROWGROUP_SIZE as int] == rows[r],
{
    let n = schema.len();
    let gi = r / ROWGROUP_SIZE as int;
    let k = r % ROWGROUP_SIZE as int;
    let grp = group_rows(rows, gi);
    let cols = group_columns(rows, n, gi);
    assert(gi * 10 + k == r);
    assert(grp.len() > k);
    assert(grp[k] == rows[r]);
    assert(cols.len() == n);
    assert(cols[0].len() == grp.len());
    assert(rows[r].len() == n);
    assert(rows_of(cols)[k] =~= rows[r]);
}

proof fn lemma_open_of_file(schema: SchemaView, rows: Seq<RowView>)
    requires
        schema_storable(schema),
        fits(schema, rows),
        sha256_of(fields_bytes(file_footer(schema, rows))).len() == DIGEST_LEN,
    ensures
        open_file(file_bytes(schema, rows)) == Ok::<_, crate::error::PlankError>(
            file_footer(schema, rows),
        ),
{
    let ft = file_footer(schema, rows);
    let d = file_data(schema, rows);
    lemma_footer_of_file_valid(schema, rows);
    let fb = footer_bytes(ft);
    let t = trailer_bytes(d.len() as u32);
    lemma_footer_roundtrip(ft, t);
    assert(parse_located_footer(d.len() as u32, fb + t) == Ok::<_, crate::error::PlankError>(ft));
    lemma_open_parts(d, fb, ft);
}

/// Round trip: the file written for a schema and rows opens to the footer
/// that describes them, every row group reads back as the columns of its
/// rows, and every row comes back in its place.
pub proof fn law_round_trip(schema: SchemaView, rows: Seq<RowView>)
    requires
        schema.len() > 0,
        schema_storable(schema),
        rows_match(schema, rows),
        cells_storable(rows),
        fits(schema, rows),
        sha256_of(fields_bytes(file_footer(schema, rows))).len() == DIGEST_LEN,
    ensures
        open_file(file_bytes(schema, rows)) == Ok::<_, crate::error::PlankError>(
            file_footer(schema, rows),
        ),
        file_footer(schema, rows).schema == schema,
        file_footer(schema, rows).row_count == rows.len(),
        forall|i: int|
            0 <= i < group_count(rows.len()) ==> #[trigger] read_group(
                file_footer(schema, rows),
                file_bytes(schema, rows),
                i,
            ) == Ok::<_, crate::error::PlankError>(group_columns(rows, schema.len(), i)),
        forall|r: int|
            0 <= r < rows.len() ==> rows_of(
                group_columns(rows, schema.len(), r / ROWGROUP_SIZE as int),
            )[r % ROWGROUP_SIZE as int] == #[trigger] rows[r],
{
    let n = schema.len();
    lemma_open_of_file(schema, rows);
    assert forall|i: int| 0 <= i < group_count(rows.len()) implies #[trigger] read_group(
        file_footer(schema, rows),
        file_bytes(schema, rows),
        i,
    ) == Ok::<_, crate::error::PlankError>(group_columns(rows, n, i)) by {
        lemma_group_of_file(schema, rows, i);
    }
    assert forall|r: int| 0 <= r < rows.len() implies rows_of(
        group_columns(rows, n, r / ROWGROUP_SIZE as int),
    )[r % ROWGROUP_SIZE as int] == #[trigger] rows[r] by {
        lemma_row_in_group(schema, rows, r);
    }
}

/// A footer whose stored digest is not the SHA-256 digest of the fields it
/// covers is rejected with `ChecksumMismatch`, however well-formed the rest.
#[verifier::rlimit(100)]
pub proof fn law_checksum_mismatch_rejected(f: FooterView, d: Seq<u8>, rest: Seq<u8>)
    requires
        footer_consistent(f),
        d.len() == DIGEST_LEN,
        d != sha256_of(fields_bytes(f)),
    ensures
        parse_footer(fields_bytes(f) + checksum_with(d) + rest) == Err::<FooterView, crate::error::PlankError>(
            crate::error::PlankError::ChecksumMismatch,
        ),
{
    lemma_footer_parts(f, d, rest);
    assert(f.row_group_count + 1 == f.offsets.len());
    reveal(parse_footer);
}

} // verus!
