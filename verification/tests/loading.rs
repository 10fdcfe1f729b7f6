use jar_remap::mapping::{load_table, parse_row, split_lines_exec, Mapping};

fn b(s: &str) -> Vec<u8> {
    s.as_bytes().to_vec()
}

#[test]
fn malformed_row_is_skipped_and_loading_goes_on() {
    let table = b("token,name\nfield_1a,alpha\nbroken\nfield_2b,beta\n");
    let m = load_table(&table);
    assert_eq!(m.get(&b("field_1a")), Some(&b("alpha")));
    assert_eq!(m.get(&b("field_2b")), Some(&b("beta")));
    assert_eq!(m.get(&b("broken")), None);
}

#[test]
fn first_line_is_a_header_and_is_skipped() {
    let table = b("field_9x,zeta\n");
    let m = load_table(&table);
    assert_eq!(m.get(&b("field_9x")), None);
}

#[test]
fn last_row_for_a_token_wins() {
    let table = b("token,name\na,1\na,2\n");
    let m = load_table(&table);
    assert_eq!(m.get(&b("a")), Some(&b("2")));
}

#[test]
fn carriage_returns_are_stripped() {
    let table = b("token,name\r\nfield_1a,alpha\r\n");
    let m = load_table(&table);
    assert_eq!(m.get(&b("field_1a")), Some(&b("alpha")));
}

#[test]
fn empty_second_field_still_counts_as_present() {
    let table = b("token,name\na,\n");
    let m = load_table(&table);
    assert_eq!(m.get(&b("a")), Some(&b("")));
}

#[test]
fn third_field_is_ignored() {
    let table = b("token,name,extra\na,b,c\n");
    let m = load_table(&table);
    assert_eq!(m.get(&b("a")), Some(&b("b")));
}

#[test]
fn empty_table_gives_empty_mapping() {
    let m = load_table(&b(""));
    assert_eq!(m.get(&b("anything")), None);
}

#[test]
fn mapping_insert_overrides() {
    let mut m = Mapping::new();
    m.insert(b("k"), b("old"));
    m.insert(b("k"), b("new"));
    assert_eq!(m.get(&b("k")), Some(&b("new")));
    assert_eq!(m.get(&b("absent")), None);
}

#[test]
fn split_lines_handles_final_line_without_newline() {
    let lines = split_lines_exec(&b("a\nb"));
    assert_eq!(lines, vec![b("a"), b("b")]);
}

#[test]
fn split_lines_trailing_newline_adds_no_empty_line() {
    let lines = split_lines_exec(&b("a\nb\n"));
    assert_eq!(lines, vec![b("a"), b("b")]);
}

#[test]
fn parse_row_needs_a_comma() {
    assert_eq!(parse_row(&b("no comma here")), None);
    assert_eq!(parse_row(&b("x,y")), Some((b("x"), b("y"))));
}
