use csv::reader::{new_reader, new_reader_readlen, RowReader};
use csv::source::{str_reader, StrReader};

fn read_all(r: &mut RowReader<StrReader>) -> Vec<Vec<String>> {
    let mut rows = Vec::new();
    loop {
        let row = match r.readrow() {
            Ok(row) => row,
            Err(_) => break,
        };
        let mut fields = Vec::new();
        let mut j = 0;
        while j < row.len() {
            fields.push(row.getstr(j));
            j += 1;
        }
        rows.push(fields);
    }
    rows
}

fn expect_rows(testdata: &str, expected: &[Vec<&str>], readlen: usize) {
    let mut r = new_reader_readlen(str_reader(testdata), ',', '"', readlen);
    let mut i = 0;
    loop {
        let row = match r.readrow() {
            Ok(row) => row,
            Err(_) => break,
        };
        assert!(i < expected.len());
        let expect = &expected[i];
        assert_eq!(row.len(), expect.len());
        let mut j = 0;
        while j < row.len() {
            assert_eq!(row.getstr(j), expect[j]);
            j += 1;
        }
        i += 1;
    }
    assert_eq!(i, expected.len());
}

fn expect_for_read_lengths(testdata: &str, expected: &[Vec<&str>]) {
    expect_rows(testdata, expected, 2);
    // continuations over read buffers
    let mut j = 1;
    while j < testdata.chars().count() {
        expect_rows(testdata, expected, j);
        j += 1;
    }
}

fn rowmatch(testdata: &str, expected: &[Vec<&str>]) {
    // the data must not end in a newline, so that the case without one is tested
    expect_for_read_lengths(testdata, expected);
    expect_for_read_lengths(&format!("{}\n", testdata), expected);
    expect_for_read_lengths(&testdata.replace("\n", "\r\n"), expected);
}

#[test]
fn test_simple() {
    rowmatch("a,b,c,d\n1,2,3,4", &[vec!["a", "b", "c", "d"], vec!["1", "2", "3", "4"]]);
}

#[test]
fn test_trailing_comma() {
    rowmatch("a,b,c,d\n1,2,3,4,", &[vec!["a", "b", "c", "d"], vec!["1", "2", "3", "4", ""]]);
}

#[test]
fn test_leading_comma() {
    rowmatch("a,b,c,d\n,1,2,3,4", &[vec!["a", "b", "c", "d"], vec!["", "1", "2", "3", "4"]]);
}

#[test]
fn test_quote_simple() {
    rowmatch(
        "\"Hello\",\"There\"\na,b,\"c\",d",
        &[vec!["Hello", "There"], vec!["a", "b", "c", "d"]],
    );
}

#[test]
fn test_quote_nested() {
    rowmatch(
        "\"Hello\",\"There is a \"\"fly\"\" in my soup\"\na,b,\"c\",d",
        &[vec!["Hello", "There is a \"fly\" in my soup"], vec!["a", "b", "c", "d"]],
    );
}

#[test]
fn test_quote_with_comma() {
    rowmatch("\"1,2\"", &[vec!["1,2"]]);
}

#[test]
fn test_quote_with_other_comma() {
    rowmatch("1,2,3,\"a,b,c\"", &[vec!["1", "2", "3", "a,b,c"]]);
}

#[test]
fn test_blank_line() {
    // every newline at the start of a row ends a row of no fields
    expect_for_read_lengths("\n\n", &[vec![], vec![]]);
    expect_for_read_lengths("\n\n\n", &[vec![], vec![], vec![]]);
    // a carriage return before the newline is a field of its own, with an empty value
    expect_for_read_lengths("\r\n\r\n", &[vec![""], vec![""]]);
}

#[test]
fn default_read_length() {
    let mut r = new_reader(str_reader("x;y\n'p;q';''''\n"), ';', '\'');
    assert_eq!(read_all(&mut r), vec![vec!["x", "y"], vec!["p;q", "'"]]);
}

#[test]
fn empty_input_is_one_empty_row() {
    let mut r = new_reader(str_reader(""), ',', '"');
    let row = r.readrow().ok().unwrap();
    assert_eq!(row.len(), 0);
    assert!(r.readrow().is_err());
    assert!(r.readrow().is_err());
}

#[test]
fn end_of_input_repeats() {
    let mut r = new_reader_readlen(str_reader("a\n"), ',', '"', 1);
    assert_eq!(read_all(&mut r), vec![vec!["a"]]);
    assert!(r.readrow().is_err());
    assert!(r.readrow().is_err());
}

#[test]
fn read_length_zero_sees_nothing() {
    let mut r = new_reader_readlen(str_reader("a,b\nc,d\n"), ',', '"', 0);
    let rows = read_all(&mut r);
    assert_eq!(rows, vec![Vec::<String>::new()]);
}

#[test]
fn unclosed_quote_gives_no_row() {
    for readlen in 1..8 {
        let mut r = new_reader_readlen(str_reader("a,b\n\"c,d\ne"), ',', '"', readlen);
        assert_eq!(read_all(&mut r), vec![vec!["a", "b"]]);
        assert!(r.readrow().is_err());
    }
}

#[test]
fn newline_inside_quotes_is_kept() {
    for readlen in 1..12 {
        let mut r = new_reader_readlen(str_reader("\"a\nb\",c\nd"), ',', '"', readlen);
        assert_eq!(read_all(&mut r), vec![vec!["a\nb", "c"], vec!["d"]]);
    }
}

#[test]
fn quote_inside_unquoted_field_is_kept() {
    let mut r = new_reader_readlen(str_reader("a\"b,c\n"), ',', '"', 3);
    assert_eq!(read_all(&mut r), vec![vec!["a\"b", "c"]]);
}

#[test]
fn characters_behind_closing_quote_are_dropped() {
    for readlen in 1..12 {
        let mut r = new_reader_readlen(str_reader("\"ab\" x,\"cd\"yz\n"), ',', '"', readlen);
        assert_eq!(read_all(&mut r), vec![vec!["ab", "cd"]]);
    }
}

#[test]
fn carriage_return_is_stripped_from_last_field_only() {
    let mut r = new_reader_readlen(str_reader("a\r,b\r\n\"c\r\"\n"), ',', '"', 4);
    assert_eq!(read_all(&mut r), vec![vec!["a\r", "b"], vec!["c"]]);
}

#[test]
fn only_one_carriage_return_is_stripped() {
    let mut r = new_reader(str_reader("a\r\r\n"), ',', '"');
    assert_eq!(read_all(&mut r), vec![vec!["a\r"]]);
}

#[test]
fn lone_quote_is_reported() {
    // a quote behind dropped characters reopens the field and leaves a quote unpaired
    let mut r = new_reader(str_reader("\"a\"x\"b\",c\n"), ',', '"');
    let row = r.readrow().ok().unwrap();
    assert_eq!(row.len(), 2);
    assert_eq!(row.try_getchars(0), None);
    assert_eq!(row.try_getchars(1), Some(vec!['c']));
    assert_eq!(row.try_getchars(2), None);
}

#[test]
fn getchars_and_getall_agree() {
    let mut r = new_reader_readlen(str_reader("one,\"t\"\"wo\",\n"), ',', '"', 5);
    let row = r.readrow().ok().unwrap();
    assert_eq!(row.len(), 3);
    assert_eq!(row.getchars(0), vec!['o', 'n', 'e']);
    assert_eq!(row.getchars(1), vec!['t', '"', 'w', 'o']);
    assert_eq!(row.getchars(2), Vec::<char>::new());
    assert_eq!(row.getall(), vec!["one", "t\"wo", ""]);
}

#[test]
fn map_visits_fields_in_order() {
    let mut r = new_reader(str_reader("x,y,z"), ',', '"');
    let row = r.readrow().ok().unwrap();
    let seen = std::cell::RefCell::new(Vec::new());
    row.map(|s| seen.borrow_mut().push(s));
    assert_eq!(seen.into_inner(), vec!["x", "y", "z"]);
}

#[test]
fn rows_do_not_depend_on_read_length() {
    let data = "id,\"na\"\"me\",note\r\n1,\"a,b\",\r\n\n2,\"multi\nline\",x";
    let mut first = new_reader_readlen(str_reader(data), ',', '"', 1);
    let expected = read_all(&mut first);
    assert_eq!(
        expected,
        vec![
            vec!["id", "na\"me", "note"],
            vec!["1", "a,b", ""],
            vec![],
            vec!["2", "multi\nline", "x"],
        ]
    );
    for readlen in 2..60 {
        let mut r = new_reader_readlen(str_reader(data), ',', '"', readlen);
        assert_eq!(read_all(&mut r), expected);
    }
}

#[test]
fn unquoted_line_is_split_on_the_delimiter() {
    let data = "alpha,,beta gamma,;x,";
    let expected: Vec<String> = data.split(',').map(String::from).collect();
    for readlen in 1..=data.len() {
        let mut r = new_reader_readlen(str_reader(data), ',', '"', readlen);
        assert_eq!(read_all(&mut r), vec![expected.clone()]);
    }
}
