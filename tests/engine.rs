use tabdiff::column::Column;
use tabdiff::compare::{compare_tables, Comparison};
use tabdiff::keyed::KeyedTable;
use tabdiff::sym::{trim_field, Interner};
use tabdiff::table::{Table, TableError};

fn strings(v: &[&str]) -> Vec<String> {
    v.iter().map(|s| s.to_string()).collect()
}

fn build(
    headers: &[&str],
    rows: &[&[&str]],
    to_read: &[&str],
    keys: &[&str],
    interner: &mut Interner,
) -> KeyedTable {
    let read: Vec<usize> = to_read.iter().map(|s| interner.get_or_intern(s)).collect();
    let key_syms: Vec<usize> = keys.iter().map(|s| interner.get_or_intern(s)).collect();
    let mut t = Table::new(&strings(headers), &read, interner).unwrap();
    for r in rows {
        t.push_record(&strings(r), interner).unwrap();
    }
    t.flush();
    KeyedTable::new(t, &key_syms).unwrap()
}

fn column_text(t: &KeyedTable, key: bool, c: usize, interner: &Interner) -> Vec<String> {
    let cols = t.get_cols_mmaps(key);
    cols[c].iter().map(|&id| interner.resolve(id).unwrap().to_string()).collect()
}

fn bits(c: &Comparison, col: usize) -> Vec<bool> {
    let b = &c.tt[col];
    (0..b.len()).map(|i| b.get(i)).collect()
}

#[test]
fn column_round_trip() {
    let values = vec![5usize, 0, 7, 7, 3];
    let mut c = Column::new();
    for &v in &values {
        c.write(v);
    }
    c.flush();
    assert_eq!(c.len(), 5);
    assert_eq!(c.get_mmap(), &values[..]);
    let filled = Column::from_values(&values);
    assert_eq!(filled.get_mmap(), &values[..]);
}

#[test]
fn column_round_trip_empty() {
    let mut c = Column::new();
    c.flush();
    assert_eq!(c.len(), 0);
    assert!(c.get_mmap().is_empty());
}

#[test]
fn permute_identity_keeps_contents() {
    let mut c = Column::from_values(&[4, 8, 15, 16, 23, 42]);
    c.sort_by_indices(&[0, 1, 2, 3, 4, 5]);
    assert_eq!(c.get_mmap(), &[4, 8, 15, 16, 23, 42]);
}

#[test]
fn permute_gathers_by_order() {
    let mut c = Column::from_values(&[10, 20, 30, 40]);
    c.sort_by_indices(&[2, 0, 3, 1]);
    assert_eq!(c.get_mmap(), &[30, 10, 40, 20]);
}

#[test]
fn permute_several_cycles() {
    let old = [1usize, 2, 3, 4, 5, 6, 7];
    let order = [1usize, 0, 2, 6, 3, 4, 5];
    let mut c = Column::from_values(&old);
    c.sort_by_indices(&order);
    let expected: Vec<usize> = order.iter().map(|&o| old[o]).collect();
    assert_eq!(c.get_mmap(), &expected[..]);
}

#[test]
fn sort_keeps_rows_aligned() {
    let mut interner = Interner::new();
    let rows: Vec<Vec<String>> = vec![
        strings(&["c", "0", "p"]),
        strings(&["a", "1", "q"]),
        strings(&["b", "2", "r"]),
        strings(&["a", "3", "s"]),
    ];
    let row_refs: Vec<Vec<&str>> = rows.iter().map(|r| r.iter().map(|s| s.as_str()).collect()).collect();
    let row_slices: Vec<&[&str]> = row_refs.iter().map(|r| &r[..]).collect();
    let mut t = build(&["k", "n", "v"], &row_slices, &["k", "n", "v"], &["k"], &mut interner);
    t.sort_by_key_columns();
    let keys = column_text(&t, true, 0, &interner);
    let nums = column_text(&t, false, 0, &interner);
    let vals = column_text(&t, false, 1, &interner);
    for i in 0..4 {
        let src: usize = nums[i].parse().unwrap();
        assert_eq!(keys[i], rows[src][0]);
        assert_eq!(vals[i], rows[src][2]);
    }
    let ids = t.get_cols_mmaps(true);
    for i in 1..4 {
        assert!(ids[0][i - 1] <= ids[0][i]);
    }
}

#[test]
fn self_comparison_has_no_differences() {
    let mut interner = Interner::new();
    let rows: &[&[&str]] = &[&["1", "x"], &["2", "y"], &["2", "z"], &["3", "w"]];
    let mut l = build(&["key", "a"], rows, &["key", "a"], &["key"], &mut interner);
    let mut r = build(&["key", "a"], rows, &["key", "a"], &["key"], &mut interner);
    l.sort_by_key_columns();
    r.sort_by_key_columns();
    let c = compare_tables(&l, &r);
    assert_eq!(c.diff_row_count, 0);
    assert_eq!(c.match_row_count, 4);
    assert!(c.only_indices[0].is_empty());
    assert!(c.only_indices[1].is_empty());
    assert_eq!(c.match_cell_count, 8);
    assert_eq!(c.diff_cell_count, 0);
}

#[test]
fn merge_join_example() {
    let mut interner = Interner::new();
    let mut l = build(&["key", "a"], &[&["1", "x"], &["2", "y"]], &["key", "a"], &["key"], &mut interner);
    let mut r = build(&["key", "a"], &[&["1", "x"], &["3", "z"]], &["key", "a"], &["key"], &mut interner);
    l.sort_by_key_columns();
    r.sort_by_key_columns();
    let c = compare_tables(&l, &r);
    assert_eq!(c.only_indices[0].len(), 1);
    assert_eq!(column_text(&l, true, 0, &interner)[c.only_indices[0][0]], "2");
    assert_eq!(c.only_indices[1].len(), 1);
    assert_eq!(column_text(&r, true, 0, &interner)[c.only_indices[1][0]], "3");
    assert!(c.common_indices[0].is_empty());
    assert!(c.common_indices[1].is_empty());
    assert_eq!(c.match_row_count, 1);
    assert_eq!(c.diff_row_count, 0);
    assert_eq!(c.match_cell_count, 2);
    assert_eq!(c.diff_cell_count, 0);
}

#[test]
fn diff_example() {
    let mut interner = Interner::new();
    let mut l = build(&["key", "a"], &[&["1", "x"]], &["key", "a"], &["key"], &mut interner);
    let mut r = build(&["key", "a"], &[&["1", "y"]], &["key", "a"], &["key"], &mut interner);
    l.sort_by_key_columns();
    r.sort_by_key_columns();
    let c = compare_tables(&l, &r);
    assert_eq!(c.common_indices[0], vec![0]);
    assert_eq!(c.common_indices[1], vec![0]);
    assert_eq!(c.diff_row_count, 1);
    assert_eq!(c.match_row_count, 0);
    assert_eq!(c.tt.len(), 1);
    assert_eq!(bits(&c, 0), vec![false]);
    assert_eq!(c.diff_cell_count, 1);
    assert_eq!(c.match_cell_count, 1);
    assert!(c.only_indices[0].is_empty());
    assert!(c.only_indices[1].is_empty());
}

#[test]
fn duplicate_key_example() {
    let mut interner = Interner::new();
    let mut l = build(&["key", "a"], &[&["1", "x"], &["1", "y"]], &["key", "a"], &["key"], &mut interner);
    let mut r = build(&["key", "a"], &[&["1", "x"]], &["key", "a"], &["key"], &mut interner);
    l.sort_by_key_columns();
    r.sort_by_key_columns();
    let c = compare_tables(&l, &r);
    assert_eq!(c.match_row_count, 1);
    assert_eq!(c.diff_row_count, 0);
    assert_eq!(c.only_indices[0], vec![1]);
    assert!(c.only_indices[1].is_empty());
    assert_eq!(column_text(&l, false, 0, &interner)[1], "y");
    assert_eq!(c.match_cell_count, 2);
}

#[test]
fn truth_table_keeps_only_differing_rows() {
    let mut interner = Interner::new();
    let hdr = ["key", "a", "b"];
    let lrows: &[&[&str]] = &[&["1", "x", "p"], &["2", "y", "q"], &["3", "z", "r"]];
    let rrows: &[&[&str]] = &[&["1", "x", "p"], &["2", "y", "Q"], &["3", "Z", "R"]];
    let l = build(&hdr, lrows, &hdr, &["key"], &mut interner);
    let r = build(&hdr, rrows, &hdr, &["key"], &mut interner);
    let c = compare_tables(&l, &r);
    assert_eq!(c.match_row_count, 1);
    assert_eq!(c.diff_row_count, 2);
    assert_eq!(c.common_indices[0], vec![1, 2]);
    assert_eq!(c.common_indices[1], vec![1, 2]);
    assert_eq!(bits(&c, 0), vec![true, false]);
    assert_eq!(bits(&c, 1), vec![false, false]);
    assert_eq!(c.match_cell_count, 6);
    assert_eq!(c.diff_cell_count, 3);
}

#[test]
fn empty_tables_compare_to_nothing() {
    let mut interner = Interner::new();
    let l = build(&["key", "a"], &[], &["key", "a"], &["key"], &mut interner);
    let r = build(&["key", "a"], &[&["1", "x"]], &["key", "a"], &["key"], &mut interner);
    let c = compare_tables(&l, &r);
    assert!(c.only_indices[0].is_empty());
    assert_eq!(c.only_indices[1], vec![0]);
    assert_eq!(c.match_row_count, 0);
    assert_eq!(c.match_cell_count, 0);
}

#[test]
fn table_keeps_only_requested_columns_and_trims() {
    let mut interner = Interner::new();
    let t = build(
        &[" key ", "skip", "a "],
        &[&[" 1", "zz", " x "]],
        &["key", "a"],
        &["key"],
        &mut interner,
    );
    assert_eq!(t.len(), 1);
    assert_eq!(t.key_columns().len(), 1);
    assert_eq!(t.non_key_columns().len(), 1);
    assert_eq!(interner.resolve(t.non_key_columns()[0]), Some("a"));
    assert_eq!(column_text(&t, true, 0, &interner), vec!["1"]);
    assert_eq!(column_text(&t, false, 0, &interner), vec!["x"]);
    assert_eq!(trim_field("  a b \t"), "a b");
}

#[test]
fn record_of_wrong_length_is_refused() {
    let mut interner = Interner::new();
    let read = vec![interner.get_or_intern("k")];
    let mut t = Table::new(&strings(&["k", "v"]), &read, &mut interner).unwrap();
    assert_eq!(t.push_record(&strings(&["1"]), &mut interner), Err(TableError::RecordLength));
    assert_eq!(t.push_record(&strings(&["1", "2"]), &mut interner), Ok(()));
}

#[test]
fn missing_key_column_is_refused() {
    let mut interner = Interner::new();
    let read = vec![interner.get_or_intern("a")];
    let missing = vec![interner.get_or_intern("key")];
    let mut t = Table::new(&strings(&["a"]), &read, &mut interner).unwrap();
    t.flush();
    assert!(matches!(KeyedTable::new(t, &missing), Err(TableError::MissingKeyColumn)));
}

#[test]
fn interner_gives_dense_stable_ids() {
    let mut interner = Interner::new();
    assert_eq!(interner.get_or_intern("x"), 0);
    assert_eq!(interner.get_or_intern("y"), 1);
    assert_eq!(interner.get_or_intern("x"), 0);
    assert_eq!(interner.len(), 2);
    assert_eq!(interner.resolve(1), Some("y"));
    assert_eq!(interner.resolve(2), None);
}

#[test]
fn repeated_header_keeps_first_column() {
    let mut interner = Interner::new();
    let t = build(
        &["key", "a", "a"],
        &[&["1", "first", "second"]],
        &["key", "a"],
        &["key"],
        &mut interner,
    );
    assert_eq!(t.non_key_columns().len(), 1);
    assert_eq!(column_text(&t, false, 0, &interner), vec!["first"]);
}
