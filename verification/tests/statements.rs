use vostok_pdb_parser::statements::{
    collect_statements, sort_first_by_key, statement_starts, LineRecord,
};

fn line(rva: Option<u32>, line: u32) -> LineRecord {
    LineRecord { rva, line, file: None }
}

#[test]
fn statements_are_sorted_and_unique() {
    let lines = vec![
        line(Some(0x30), 3),
        line(None, 9),
        line(Some(0x10), 1),
        line(Some(0x30), 4),
        line(Some(0x20), 2),
    ];
    assert_eq!(collect_statements(&lines), vec![(0x10, 1), (0x20, 2), (0x30, 3)]);
}

#[test]
fn lines_without_an_address_make_no_statement() {
    assert_eq!(collect_statements(&vec![line(None, 1), line(None, 2)]), vec![]);
    assert_eq!(collect_statements(&vec![]), vec![]);
}

#[test]
fn the_first_of_equal_keys_stays() {
    assert_eq!(
        sort_first_by_key(&vec![(2, 20), (1, 10), (2, 21), (1, 11), (0, 0)]),
        vec![(0, 0), (1, 10), (2, 20)]
    );
}

#[test]
fn starts_are_offsets_in_the_function() {
    let stmts = vec![(0x0f, 1), (0x10, 2), (0x14, 3), (0x1f, 4), (0x20, 5)];
    assert_eq!(statement_starts(&stmts, 0x10, 0x10), vec![(0, 2), (4, 3), (15, 4)]);
}

#[test]
fn the_prologue_belongs_to_the_first_statement() {
    assert_eq!(statement_starts(&vec![(0x13, 7), (0x15, 8)], 0x10, 0x10), vec![(0, 7), (5, 8)]);
}

#[test]
fn a_function_without_statements_is_one() {
    assert_eq!(statement_starts(&vec![], 0x10, 0x10), vec![(0, 0)]);
    assert_eq!(statement_starts(&vec![(0x20, 9)], 0x10, 0x10), vec![(0, 0)]);
}

#[test]
fn sizes_add_up_to_the_function() {
    let size: u32 = 0x40;
    let starts = statement_starts(&vec![(0x1003, 1), (0x1010, 2), (0x103f, 3)], 0x1000, size);
    let mut sum: u32 = 0;
    for g in 0..starts.len() {
        let end = if g + 1 < starts.len() { starts[g + 1].0 } else { size };
        sum += end - starts[g].0;
    }
    assert_eq!(sum, size);
}
