use r4::table::dump_table;

#[test]
fn table_pads_columns() {
    let rows = vec![
        vec![("a".to_string(), ' '), ("   ".to_string(), ' '), ("bbb".to_string(), ' ')],
        vec![("".to_string(), '-'), ("   ".to_string(), ' '), ("".to_string(), '-')],
        vec![("cc".to_string(), ' '), ("   ".to_string(), ' '), ("d".to_string(), ' ')],
    ];
    let lines = dump_table(&rows);
    assert_eq!(lines, vec!["a    bbb".to_string(), "--   ---".to_string(), "cc   d  ".to_string()]);
}

#[test]
fn table_width_in_bytes() {
    let rows = vec![vec![("é".to_string(), '.')], vec![("ab".to_string(), '.')]];
    let lines = dump_table(&rows);
    assert_eq!(lines, vec!["é".to_string(), "ab".to_string()]);
}

#[test]
fn table_ragged_rows() {
    let rows = vec![vec![("x".to_string(), ' ')], vec![("y".to_string(), ' '), ("zz".to_string(), '*')]];
    assert_eq!(dump_table(&rows), vec!["x".to_string(), "yzz".to_string()]);
}
