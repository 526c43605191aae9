use plank::codec::{Deserialize, Serialize};
use plank::column::Column;
use plank::error::PlankError;
use plank::file::SF2;
use plank::footer::Footer;
use plank::reader::{decode_trailer, SF2Reader};
use plank::rowgroup::RowGroup;
use plank::writer::PlankWriter;

fn s(x: &str) -> String {
    x.to_string()
}

fn schema2() -> Vec<(String, String)> {
    vec![(s("id"), s("str")), (s("name"), s("str"))]
}

fn row(a: &str, b: &str) -> Vec<String> {
    vec![s(a), s(b)]
}

/// Writes rows under the schema and returns the whole file.
fn write_file(schema: Vec<(String, String)>, rows: Vec<Vec<String>>) -> Vec<u8> {
    let mut w = PlankWriter::new(schema);
    let mut out = Vec::new();
    for r in rows {
        out.extend(w.append_row(r).unwrap());
    }
    out.extend(w.finish().unwrap());
    out
}

fn read_all(file: &[u8]) -> Vec<Vec<Vec<String>>> {
    let reader = SF2Reader::open(file).unwrap();
    let mut it = reader.iter();
    let mut groups = Vec::new();
    while let Some(g) = it.next(&reader, file) {
        groups.push(g.unwrap().rows());
    }
    groups
}

fn numbered_rows(n: usize) -> Vec<Vec<String>> {
    (0..n).map(|i| row(&i.to_string(), &format!("v{}", i))).collect()
}

#[test]
fn column_bytes_are_terminated() {
    let c = Column::new(vec![s("a"), s(""), s("bc")]);
    assert_eq!(c.to_bytes(), vec![b'a', 0x1F, 0x1F, b'b', b'c', 0x1F]);
}

#[test]
fn column_decodes_dropping_final_empty_piece() {
    let c = Column::from_bytes(&[b'a', 0x1F, 0x1F, b'b', b'c', 0x1F]).unwrap();
    assert_eq!(c.records(), &vec![s("a"), s(""), s("bc")]);
    let empty = Column::from_bytes(&[]).unwrap();
    assert!(empty.records().is_empty());
}

#[test]
fn column_rejects_unterminated_bytes() {
    assert_eq!(Column::from_bytes(b"ab").unwrap_err(), PlankError::CorruptRowGroup);
}

#[test]
fn column_rejects_invalid_utf8() {
    assert_eq!(Column::from_bytes(&[0xFF, 0x1F]).unwrap_err(), PlankError::CorruptRowGroup);
}

#[test]
fn column_round_trips_multibyte_text() {
    let c = Column::new(vec![s("é日"), s("")]);
    let b = c.to_bytes();
    assert_eq!(b.len(), "é日".len() + 2);
    assert_eq!(Column::from_bytes(&b).unwrap().records(), &vec![s("é日"), s("")]);
}

#[test]
fn rowgroup_bytes_are_newline_terminated() {
    let g = RowGroup::new(vec![
        Column::new(vec![s("1"), s("2")]),
        Column::new(vec![s("Ann"), s("Bo")]),
    ]);
    assert_eq!(g.to_bytes(), b"1\x1f2\x1f\nAnn\x1fBo\x1f\n".to_vec());
}

#[test]
fn rowgroup_round_trips_and_yields_rows() {
    let g = RowGroup::new(vec![
        Column::new(vec![s("1"), s("2")]),
        Column::new(vec![s("Ann"), s("")]),
    ]);
    let back = RowGroup::from_bytes(&g.to_bytes()).unwrap();
    assert_eq!(back.columns().len(), 2);
    assert_eq!(back.row_count(), 2);
    assert_eq!(back.rows(), vec![row("1", "Ann"), row("2", "")]);
    assert_eq!(back.row(1), row("2", ""));
}

#[test]
fn rowgroup_rejects_missing_final_newline() {
    assert_eq!(RowGroup::from_bytes(b"1\x1f\n2\x1f").unwrap_err(), PlankError::CorruptRowGroup);
}

#[test]
fn rowgroup_rejects_empty_lines() {
    assert_eq!(RowGroup::from_bytes(b"\n\n").unwrap_err(), PlankError::CorruptRowGroup);
    assert_eq!(RowGroup::from_bytes(b"1\x1f\n\n").unwrap_err(), PlankError::CorruptRowGroup);
}

#[test]
fn empty_line_group_is_corrupt_for_reader() {
    let mut file = b"\n\n".to_vec();
    let footer = Footer::new(schema2(), vec![0, 2], 0, 2, 1);
    file.extend(footer.to_bytes());
    file.extend_from_slice(b"!FOOTER_OFFSET=\x02\x00\x00\x00\n");
    let reader = SF2Reader::open(&file).unwrap();
    let mut it = reader.iter();
    assert_eq!(it.next(&reader, &file).unwrap().err(), Some(PlankError::CorruptRowGroup));
    assert!(it.next(&reader, &file).is_none());
}

#[test]
fn rowgroup_rejects_ragged_columns() {
    assert_eq!(
        RowGroup::from_bytes(b"1\x1f2\x1f\nAnn\x1f\n").unwrap_err(),
        PlankError::CorruptRowGroup
    );
}

fn sample_footer() -> Footer {
    Footer::new(schema2(), vec![0, 17, 40], 12, 2, 2)
}

#[test]
fn footer_layout_is_exact() {
    let b = sample_footer().to_bytes();
    let mut fields = Vec::new();
    fields.extend_from_slice(b"SCHEMA=id:str\x1fname:str\x1f\n");
    fields.extend_from_slice(b"ROW_COUNT=\x0c\x00\x00\x00\n");
    fields.extend_from_slice(b"COLUMN_COUNT=\x02\x00\x00\x00\n");
    fields.extend_from_slice(b"ROWGROUP_COUNT=\x02\x00\x00\x00\n");
    fields.extend_from_slice(b"ROWGROUP_OFFSETS=\x00\x00\x00\x00\x11\x00\x00\x00\x28\x00\x00\x00\n");
    let digest = <sha2::Sha256 as sha2::Digest>::digest(&fields).to_vec();
    let mut expected = fields.clone();
    expected.extend_from_slice(b"CHECKSUM=");
    expected.extend_from_slice(&digest);
    expected.push(b'\n');
    assert_eq!(b, expected);
    assert_eq!(&b[..7], b"SCHEMA=");
    assert_ne!(&b[fields.len() + 9..fields.len() + 41], &fields[..32]);
}

#[test]
fn footer_round_trips() {
    let f = Footer::from_bytes(&sample_footer().to_bytes()).unwrap();
    assert_eq!(f.schema(), &schema2());
    assert_eq!(f.offsets(), &vec![0, 17, 40]);
    assert_eq!(f.row_count(), 12);
    assert_eq!(f.col_count(), 2);
    assert_eq!(f.row_group_count(), 2);
}

#[test]
fn footer_decodes_span_to_end_of_file() {
    let file = write_file(schema2(), numbered_rows(13));
    let reader = SF2Reader::open(&file).unwrap();
    let fo = decode_trailer(&file[file.len() - 20..]).unwrap() as usize;
    let f = Footer::from_bytes(&file[fo..]).unwrap();
    assert_eq!(f.schema(), reader.get_schema());
    assert_eq!(f.offsets(), reader.footer().offsets());
    assert_eq!(f.row_count(), reader.row_count());
    assert_eq!(f.col_count(), reader.col_count());
    assert_eq!(f.row_group_count(), reader.row_group_count());
    let mut extra = sample_footer().to_bytes();
    extra.extend_from_slice(b"anything after the checksum");
    assert_eq!(Footer::from_bytes(&extra).unwrap().row_count(), 12);
}

#[test]
fn footer_rejects_wrong_tag() {
    let mut b = sample_footer().to_bytes();
    b[0] = b'X';
    assert_eq!(Footer::from_bytes(&b).unwrap_err(), PlankError::CorruptFooter);
}

#[test]
fn footer_rejects_short_bytes() {
    let b = sample_footer().to_bytes();
    assert_eq!(Footer::from_bytes(&b[..b.len() - 5]).unwrap_err(), PlankError::TruncatedFile);
}

#[test]
fn footer_detects_flipped_digest_byte() {
    let mut b = sample_footer().to_bytes();
    let n = b.len();
    b[n - 2] ^= 1;
    assert_eq!(Footer::from_bytes(&b).unwrap_err(), PlankError::ChecksumMismatch);
}

#[test]
fn footer_rejects_column_count_unlike_schema() {
    let f = Footer::new(schema2(), vec![0, 5], 1, 3, 1);
    assert_eq!(Footer::from_bytes(&f.to_bytes()).unwrap_err(), PlankError::CorruptFooter);
}

#[test]
fn trailer_gives_footer_offset() {
    let mut t = b"!FOOTER_OFFSET=".to_vec();
    t.extend_from_slice(&[0x34, 0x12, 0, 0, b'\n']);
    assert_eq!(decode_trailer(&t), Ok(0x1234));
    assert_eq!(decode_trailer(&t[1..]), Err(PlankError::TruncatedFile));
    t[0] = b'?';
    assert_eq!(decode_trailer(&t), Err(PlankError::CorruptFooter));
}

#[test]
fn two_rows_make_one_group() {
    let file = write_file(schema2(), vec![row("1", "Ann"), row("2", "Bo")]);
    let reader = SF2Reader::open(&file).unwrap();
    let data = b"1\x1f2\x1f\nAnn\x1fBo\x1f\n";
    assert_eq!(&file[..data.len()], data);
    assert_eq!(reader.row_group_count(), 1);
    assert_eq!(reader.footer().offsets(), &vec![0, data.len() as u32]);
    assert_eq!(reader.row_count(), 2);
    assert_eq!(reader.col_count(), 2);
    assert_eq!(reader.get_schema(), &schema2());
    let g = reader.read_row_group(&file, 0).unwrap();
    assert_eq!(g.columns()[0].records(), &vec![s("1"), s("2")]);
    assert_eq!(g.columns()[1].records(), &vec![s("Ann"), s("Bo")]);
    assert_eq!(read_all(&file), vec![vec![row("1", "Ann"), row("2", "Bo")]]);
}

#[test]
fn full_group_boundary() {
    let file = write_file(schema2(), numbered_rows(10));
    let reader = SF2Reader::open(&file).unwrap();
    assert_eq!(reader.row_group_count(), 1);
    assert_eq!(reader.footer().offsets().len(), 2);
    assert_eq!(read_all(&file)[0].len(), 10);
}

#[test]
fn one_row_past_boundary() {
    let rows = numbered_rows(11);
    let file = write_file(schema2(), rows.clone());
    let reader = SF2Reader::open(&file).unwrap();
    assert_eq!(reader.row_group_count(), 2);
    let groups = read_all(&file);
    assert_eq!(groups[0].len(), 10);
    assert_eq!(groups[1], vec![rows[10].clone()]);
}

#[test]
fn round_trip_with_empty_cells_and_partial_group() {
    let mut rows = numbered_rows(23);
    rows[4] = row("", "");
    rows[22] = row("last", "");
    let file = write_file(schema2(), rows.clone());
    let reader = SF2Reader::open(&file).unwrap();
    assert_eq!(reader.row_count(), 23);
    assert_eq!(reader.get_schema(), &schema2());
    let all: Vec<Vec<String>> = read_all(&file).into_iter().flatten().collect();
    assert_eq!(all, rows);
}

#[test]
fn offsets_are_group_lengths() {
    let rows = numbered_rows(25);
    let file = write_file(schema2(), rows);
    let reader = SF2Reader::open(&file).unwrap();
    let offs = reader.footer().offsets().clone();
    assert_eq!(offs.len(), 4);
    for i in 0..3u32 {
        let g = reader.read_row_group(&file, i).unwrap();
        assert_eq!(offs[i as usize + 1] - offs[i as usize], g.to_bytes().len() as u32);
        assert_eq!(reader.row_group_span(i), (offs[i as usize], offs[i as usize + 1] - offs[i as usize]));
    }
    let tail = &file[file.len() - 20..];
    assert_eq!(decode_trailer(tail), Ok(offs[3]));
}

#[test]
fn repeated_reads_agree() {
    let file = write_file(schema2(), numbered_rows(14));
    assert_eq!(read_all(&file), read_all(&file));
}

#[test]
fn truncated_file_does_not_open() {
    let file = write_file(schema2(), numbered_rows(3));
    assert!(SF2Reader::open(&file[..file.len() - 1]).is_err());
    assert_eq!(SF2Reader::open(&file[..10]).err(), Some(PlankError::TruncatedFile));
}

#[test]
fn flipped_footer_bit_is_checksum_mismatch() {
    let file = write_file(schema2(), numbered_rows(3));
    let reader = SF2Reader::open(&file).unwrap();
    let fo = reader.footer().offsets()[1] as usize;
    let mut bad = file.clone();
    // a bit inside the schema text
    bad[fo + 10] ^= 0x01;
    assert_eq!(SF2Reader::open(&bad).err(), Some(PlankError::ChecksumMismatch));
    let mut bad2 = file.clone();
    // a bit inside the row count
    bad2[fo + 37] ^= 0x04;
    assert_eq!(SF2Reader::open(&bad2).err(), Some(PlankError::ChecksumMismatch));
}

#[test]
fn flipped_row_data_bit_keeps_footer_valid() {
    let file = write_file(schema2(), numbered_rows(3));
    let mut bad = file.clone();
    bad[0] ^= 0x01;
    let reader = SF2Reader::open(&bad).unwrap();
    assert_eq!(reader.row_count(), 3);
}

#[test]
fn short_row_group_read_is_truncated() {
    let file = write_file(schema2(), numbered_rows(3));
    let reader = SF2Reader::open(&file).unwrap();
    assert_eq!(reader.decode_row_group(0, &file[..3]).err(), Some(PlankError::TruncatedFile));
}

#[test]
fn writer_rejects_wrong_arity() {
    let mut w = PlankWriter::new(schema2());
    assert_eq!(w.append_row(vec![s("1")]), Err(PlankError::SchemaMismatch));
    assert_eq!(w.append_row(row("1", "a")), Ok(vec![]));
}

#[test]
fn writer_hands_out_each_full_group() {
    let mut w = PlankWriter::new(schema2());
    for i in 0..9 {
        assert!(w.append_row(row(&i.to_string(), "x")).unwrap().is_empty());
    }
    let bytes = w.append_row(row("9", "x")).unwrap();
    assert_eq!(bytes, b"0\x1f1\x1f2\x1f3\x1f4\x1f5\x1f6\x1f7\x1f8\x1f9\x1f\nx\x1fx\x1fx\x1fx\x1fx\x1fx\x1fx\x1fx\x1fx\x1fx\x1f\n".to_vec());
}

#[test]
fn writer_is_closed_after_finish() {
    let mut w = PlankWriter::new(schema2());
    w.finish().unwrap();
    assert_eq!(w.append_row(row("1", "a")), Err(PlankError::WriterClosed));
    assert_eq!(w.finish(), Err(PlankError::WriterClosed));
}

#[test]
fn empty_file_opens_with_no_groups() {
    let file = write_file(schema2(), vec![]);
    let reader = SF2Reader::open(&file).unwrap();
    assert_eq!(reader.row_group_count(), 0);
    assert_eq!(reader.footer().offsets(), &vec![0]);
    assert!(read_all(&file).is_empty());
}

#[test]
fn in_memory_file_matches_writer_output() {
    let rows = vec![row("1", "Ann"), row("2", "Bo")];
    let file = write_file(schema2(), rows);
    let reader = SF2Reader::open(&file).unwrap();
    let g = reader.read_row_group(&file, 0).unwrap();
    let footer = Footer::from_bytes(&file[reader.footer().offsets()[1] as usize..]).unwrap();
    let sf = SF2::new(vec![g], footer);
    assert_eq!(sf.to_bytes().unwrap(), file);
}
