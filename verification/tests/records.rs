use std::cell::RefCell;

use csv::reader::{new_reader, new_reader_readlen};
use csv::record::{
    hashmap_iter, hashmap_iter_cols, hashmap_iter_full, next_record, record_from_row,
    try_next_record, try_record_from_row, Record,
};
use csv::source::str_reader;

fn s(text: &str) -> String {
    String::from(text)
}

fn value(rec: &Record, key: &str) -> Option<String> {
    rec.get(&s(key)).cloned()
}

#[test]
fn record_keeps_first_place_of_a_label() {
    let mut rec = Record::new();
    assert_eq!(rec.len(), 0);
    rec.insert(s("a"), s("1"));
    rec.insert(s("b"), s("2"));
    rec.insert(s("a"), s("3"));
    assert_eq!(rec.len(), 2);
    assert_eq!(value(&rec, "a"), Some(s("3")));
    assert_eq!(value(&rec, "b"), Some(s("2")));
    assert_eq!(value(&rec, "c"), None);
}

#[test]
fn next_record_passes_over_rows_of_another_length() {
    let mut r = new_reader_readlen(str_reader("1,2,3\n4,5\n\n6,7\n8\n"), ',', '"', 3);
    let cols = vec![s("x"), s("y")];
    let first = next_record(&mut r, &cols).unwrap();
    assert_eq!(first.len(), 2);
    assert_eq!(value(&first, "x"), Some(s("4")));
    assert_eq!(value(&first, "y"), Some(s("5")));
    let second = next_record(&mut r, &cols).unwrap();
    assert_eq!(value(&second, "x"), Some(s("6")));
    assert_eq!(value(&second, "y"), Some(s("7")));
    assert!(next_record(&mut r, &cols).is_none());
    assert!(r.readrow().is_err());
}

#[test]
fn repeated_label_takes_the_last_value() {
    let mut r = new_reader(str_reader("1,2,3\n"), ',', '"');
    let cols = vec![s("k"), s("other"), s("k")];
    let rec = next_record(&mut r, &cols).unwrap();
    assert_eq!(rec.len(), 2);
    assert_eq!(value(&rec, "k"), Some(s("3")));
    assert_eq!(value(&rec, "other"), Some(s("2")));
}

#[test]
fn hashmap_iter_cols_calls_back_in_order() {
    let mut r = new_reader_readlen(str_reader("a,b\nc\nd,\"e,f\""), ',', '"', 2);
    let cols = vec![s("left"), s("right")];
    let seen = RefCell::new(Vec::new());
    hashmap_iter_cols(&mut r, &cols, |rec: Record| {
        seen.borrow_mut().push((value(&rec, "left").unwrap(), value(&rec, "right").unwrap()));
    });
    assert_eq!(seen.into_inner(), vec![(s("a"), s("b")), (s("d"), s("e,f"))]);
    assert!(r.readrow().is_err());
}

#[test]
fn hashmap_iter_takes_labels_from_the_first_row() {
    for readlen in 1..40 {
        let data = "name,age\r\nann,31\r\nbob\r\n\"cy, jr\",7\r\n";
        let mut r = new_reader_readlen(str_reader(data), ',', '"', readlen);
        let seen = RefCell::new(Vec::new());
        hashmap_iter(&mut r, |rec: Record| {
            assert_eq!(rec.len(), 2);
            seen.borrow_mut().push((value(&rec, "name").unwrap(), value(&rec, "age").unwrap()));
        });
        assert_eq!(seen.into_inner(), vec![(s("ann"), s("31")), (s("cy, jr"), s("7"))]);
    }
}

#[test]
fn hashmap_iter_without_rows_calls_nothing() {
    let mut r = new_reader(str_reader("only,labels\n"), ',', '"');
    let calls = RefCell::new(0);
    hashmap_iter(&mut r, |_rec: Record| {
        *calls.borrow_mut() += 1;
    });
    assert_eq!(calls.into_inner(), 0);
}

#[test]
fn hashmap_iter_full_renames_labels() {
    let mut r = new_reader(str_reader(" Name ,AGE\nann,31\n"), ',', '"');
    let shown = RefCell::new(Vec::new());
    let seen = RefCell::new(Vec::new());
    hashmap_iter_full(
        &mut r,
        |h: String| h.trim().to_lowercase(),
        |cols: &Vec<String>| {
            shown.borrow_mut().push(cols.clone());
            cols.len() == 2
        },
        |rec: Record| {
            seen.borrow_mut().push((value(&rec, "name").unwrap(), value(&rec, "age").unwrap()));
        },
    );
    assert_eq!(shown.into_inner(), vec![vec![s("name"), s("age")]]);
    assert_eq!(seen.into_inner(), vec![(s("ann"), s("31"))]);
    assert!(r.readrow().is_err());
}

#[test]
fn hashmap_iter_full_stops_where_labels_are_refused() {
    let mut r = new_reader(str_reader("a,b\n1,2\n3,4\n"), ',', '"');
    let calls = RefCell::new(0);
    hashmap_iter_full(
        &mut r,
        |h: String| h,
        |_cols: &Vec<String>| false,
        |_rec: Record| {
            *calls.borrow_mut() += 1;
        },
    );
    assert_eq!(calls.into_inner(), 0);
    // the rows behind the labels are still there
    let row = r.readrow().ok().unwrap();
    assert_eq!(row.getall(), vec!["1", "2"]);
}

#[test]
fn hashmap_iter_full_refused_labels_call_nothing() {
    let mut r = new_reader_readlen(str_reader("a,b\n1,2\n"), ',', '"', 1024);
    let asked = RefCell::new(Vec::new());
    let calls = RefCell::new(0);
    hashmap_iter_full(
        &mut r,
        |h: String| h,
        |cols: &Vec<String>| {
            asked.borrow_mut().push(cols.clone());
            false
        },
        |_rec: Record| {
            *calls.borrow_mut() += 1;
        },
    );
    assert_eq!(asked.into_inner(), vec![vec![s("a"), s("b")]]);
    assert_eq!(calls.into_inner(), 0);
    let row = r.readrow().ok().unwrap();
    assert_eq!(row.getall(), vec!["1", "2"]);
    assert!(r.readrow().is_err());
}

#[test]
fn hashmap_iter_full_keys_are_the_new_labels() {
    let mut r = new_reader_readlen(str_reader("a,b\n1,2\n"), ',', '"', 1024);
    let seen = RefCell::new(Vec::new());
    hashmap_iter_full(
        &mut r,
        |h: String| format!("col_{}", h),
        |_cols: &Vec<String>| true,
        |rec: Record| {
            seen.borrow_mut().push(rec);
        },
    );
    let seen = seen.into_inner();
    assert_eq!(seen.len(), 1);
    assert_eq!(seen[0].len(), 2);
    assert_eq!(value(&seen[0], "col_a"), Some(s("1")));
    assert_eq!(value(&seen[0], "col_b"), Some(s("2")));
    assert_eq!(value(&seen[0], "a"), None);
    assert!(r.readrow().is_err());
}

#[test]
fn hashmap_iter_full_without_a_row_calls_nothing() {
    let mut r = new_reader_readlen(str_reader("\"abc"), ',', '"', 1024);
    let renamed = RefCell::new(0);
    let asked = RefCell::new(0);
    let calls = RefCell::new(0);
    hashmap_iter_full(
        &mut r,
        |h: String| {
            *renamed.borrow_mut() += 1;
            h
        },
        |_cols: &Vec<String>| {
            *asked.borrow_mut() += 1;
            true
        },
        |_rec: Record| {
            *calls.borrow_mut() += 1;
        },
    );
    assert_eq!(renamed.into_inner(), 0);
    assert_eq!(asked.into_inner(), 0);
    assert_eq!(calls.into_inner(), 0);
    assert!(r.readrow().is_err());
}

#[test]
fn try_next_record_hands_back_the_row_with_a_lone_quote() {
    for readlen in 1..30 {
        let data = "1\n\"a\"x\"b\",c\n2,3\n";
        let mut r = new_reader_readlen(str_reader(data), ',', '"', readlen);
        let cols = vec![s("p"), s("q")];
        let bad = match try_next_record(&mut r, &cols) {
            Err(row) => row,
            Ok(_) => panic!("the row with the lone quote was given values"),
        };
        assert_eq!(bad.len(), 2);
        assert_eq!(bad.try_getchars(0), None);
        assert_eq!(bad.try_getchars(1), Some(vec!['c']));
        let rec = try_next_record(&mut r, &cols).ok().unwrap().unwrap();
        assert_eq!(value(&rec, "p"), Some(s("2")));
        assert_eq!(value(&rec, "q"), Some(s("3")));
        assert!(try_next_record(&mut r, &cols).ok().unwrap().is_none());
        assert!(r.readrow().is_err());
    }
}

#[test]
fn record_from_row_sets_each_label() {
    let mut r = new_reader(str_reader("x,\"y\"\"z\"\n\"a\"b\"c\",d\n"), ',', '"');
    let cols = vec![s("one"), s("two")];
    let row = r.readrow().ok().unwrap();
    let rec = record_from_row(&cols, &row);
    assert_eq!(rec.len(), 2);
    assert_eq!(value(&rec, "one"), Some(s("x")));
    assert_eq!(value(&rec, "two"), Some(s("y\"z")));
    let same = try_record_from_row(&cols, &row).unwrap();
    assert_eq!(value(&same, "two"), Some(s("y\"z")));
    let bad = r.readrow().ok().unwrap();
    assert!(try_record_from_row(&cols, &bad).is_none());
}
