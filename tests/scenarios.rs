use delim_view::filter::compiler::Filter;
use delim_view::{
    index_bytes, sniff_delimiter, sniff_has_header, Decoder, Histogram, NestedString,
};

fn record(input: &[u8], delimiter: u8) -> (NestedString, usize) {
    let mut dec = Decoder::new(delimiter);
    let mut rec = NestedString::new();
    let used = rec.read_from(&mut dec, input);
    (rec, used)
}

fn fields(rec: &NestedString) -> Vec<Vec<u8>> {
    (0..rec.len()).map(|i| rec.get_raw(i).to_vec()).collect()
}

/// Sniffs the delimiter and the header, then indexes the rest under `filter`.
fn index_file(input: &[u8], filter: &str) -> (bool, Vec<(u32, u64)>) {
    let delimiter = sniff_delimiter(input);
    let mut dec = Decoder::new(delimiter);
    let mut header = NestedString::new();
    let used = header.read_from(&mut dec, input);
    let mut first = NestedString::new();
    first.read_from(&mut dec, &input[used..]);
    let has_header = sniff_has_header(&header, &first);
    let (start, nb_col) = if has_header { (used, header.len()) } else { (0, first.len()) };
    let filter = Filter::new(filter, nb_col).expect("filter compiles");
    let b = index_bytes(&input[start..], delimiter, &filter, start as u64, nb_col);
    (has_header, b.entries_from(0))
}

#[test]
fn delimiter_sniff() {
    let input = b"a;b;c\n1;2;3\n";
    assert_eq!(sniff_delimiter(input), b';');
    let (h, used) = record(input, b';');
    let (r1, _) = record(&input[used..], b';');
    assert_eq!(fields(&h), vec![b"a".to_vec(), b"b".to_vec(), b"c".to_vec()]);
    assert!(sniff_has_header(&h, &r1));
}

#[test]
fn header_reject() {
    let input = b"1,2,3\n4,5,6\n";
    assert_eq!(sniff_delimiter(input), b',');
    let (h, used) = record(input, b',');
    let (r1, _) = record(&input[used..], b',');
    assert!(!sniff_has_header(&h, &r1));
}

#[test]
fn filter_on_number() {
    let (has_header, entries) = index_file(b"x\n1\n2\n3\n4\n", "0>2");
    assert!(has_header);
    assert_eq!(entries.len(), 2);
    assert_eq!(entries[0].0, 2);
    assert_eq!(entries[1].0, 3);
    assert_eq!(entries[0].1, 6);
    assert_eq!(entries[1].1, 8);
}

#[test]
fn filter_on_regex_any_all() {
    let (_, any) = index_file(b"s\nfoo\nfoobar\nbar\n", "0~any{\"^foo\",\"bar$\"}");
    assert_eq!(any.len(), 3);
    let (_, all) = index_file(b"s\nfoo\nfoobar\nbar\n", "0~all{\"^foo\",\"bar$\"}");
    assert_eq!(all.len(), 1);
    assert_eq!(all[0].0, 1);
}

#[test]
fn range_slice() {
    let (_, entries) = index_file(b"c\nabcdef\n", "0[1:4] == \"bcd\"");
    assert_eq!(entries.len(), 1);
}

#[test]
fn histogram_counts() {
    let mut h = Histogram::new();
    for v in [b"a", b"b", b"a", b"c", b"a"] {
        h.register(v);
    }
    let items = h.items();
    assert_eq!(
        items,
        vec![(b"a".to_vec(), 3), (b"b".to_vec(), 1), (b"c".to_vec(), 1)]
    );
    assert_eq!(h.len(), 3);
}

#[test]
fn empty_filter_indexes_every_record() {
    let (has_header, entries) = index_file(b"x\n1\n2\n3\n4\n", "");
    assert!(has_header);
    assert_eq!(entries.len(), 4);
    let ordinals: Vec<u32> = entries.iter().map(|e| e.0).collect();
    assert_eq!(ordinals, vec![0, 1, 2, 3]);
}

#[test]
fn trailing_delimiter_collapses() {
    let (with, _) = record(b"a,b,\n", b',');
    let (without, _) = record(b"a,b\n", b',');
    assert_eq!(with.len(), without.len());
    assert_eq!(with.len(), 2);
}

#[test]
fn record_with_no_field() {
    let (rec, used) = record(b"", b',');
    assert_eq!(used, 0);
    assert_eq!(rec.len(), 0);
    assert!(rec.get(0).is_none());
}

#[test]
fn record_with_one_empty_field() {
    let (rec, _) = record(b"\"\"\n", b',');
    assert_eq!(rec.len(), 1);
    assert_eq!(rec.get_raw(0), b"");
}

#[test]
fn record_fields_are_trimmed_on_get() {
    let (rec, used) = record(b" a , b\nnext\n", b',');
    assert_eq!(used, 7);
    assert_eq!(rec.get_raw(0), b" a ");
    assert_eq!(rec.get(0), Some(&b"a"[..]));
    assert_eq!(rec.get(1), Some(&b"b"[..]));
}

#[test]
fn long_record_grows_buffers() {
    let mut line = Vec::new();
    for i in 0..200 {
        line.extend_from_slice(format!("field{i:04}xxxxxxxxxxxxxxxxxxxxxxxxxxxxxxxxxxxxxxxxxxxxxxxxxx,").as_bytes());
    }
    line.extend_from_slice(b"end\n");
    let (rec, used) = record(&line, b',');
    assert_eq!(used, line.len());
    assert_eq!(rec.len(), 201);
    assert_eq!(rec.get_raw(200), b"end");
    assert_eq!(&rec.get_raw(3)[..9], b"field0003");
}

#[test]
fn histogram_ties_follow_the_rank_swaps() {
    let mut h = Histogram::new();
    for v in [b"a", b"b", b"c", b"b", b"a"] {
        h.register(v);
    }
    assert_eq!(
        h.items(),
        vec![(b"b".to_vec(), 2), (b"a".to_vec(), 2), (b"c".to_vec(), 1)]
    );
}
