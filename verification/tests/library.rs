use brc::generate::{add_measurement, batch_sizes, write_measurement};
use brc::measurements::{Measurements, NUM_BUCKETS};
use brc::output::{format_results, is_writable, mean, record_writable, write_n};
use brc::parse::{chunk_borders, fast_hash, line_ok_at, parse_chunk};
use brc::record::{record_le, Record};
use std::cmp::Ordering;

fn table_of(input: &[u8]) -> Measurements<'_> {
    parse_chunk(input, 0, input.len()).unwrap()
}

fn find<'a, 'b>(m: &'b Measurements<'a>, name: &str) -> Option<&'b Record<'a>> {
    m.0.iter().find(|r| r.name == name.as_bytes())
}

#[test]
fn new_table_is_all_free() {
    let m = Measurements::new();
    assert_eq!(m.0.len(), NUM_BUCKETS);
    assert_eq!(Measurements::num_buckets(), 15);
    assert!(m.0.iter().all(|r| r.is_empty() && *r == Record::empty()));
}

#[test]
fn record_empty_and_full() {
    let e = Record::empty();
    assert!(e.is_empty());
    assert!(!e.is_full());
    assert_eq!((e.min, e.max, e.sum, e.count), (i16::MAX, i16::MIN, 0, 0));
    let r = Record::new_with_initial(b"Oslo", -31);
    assert!(r.is_full());
    assert_eq!((r.min, r.max, r.sum, r.count), (-31, -31, -31, 1));
}

#[test]
fn record_process_and_merge_values() {
    let mut r = Record::new_with_initial(b"Oslo", 5);
    r.process(-20);
    r.process(40);
    assert_eq!((r.min, r.max, r.sum, r.count), (-20, 40, 25, 3));
    let mut q = Record::new_with_initial(b"Oslo", 5);
    q.merge_values(b"ignored", -20);
    q.merge_values(b"ignored", 40);
    assert_eq!(q, r);
}

#[test]
fn record_merge_takes_other_name() {
    let mut a = Record::new_with_initial(b"A", 10);
    let mut b = Record::new_with_initial(b"B", -7);
    b.process(3);
    a.merge(&b);
    assert_eq!(a.name, b"B");
    assert_eq!((a.min, a.max, a.sum, a.count), (-7, 10, 6, 3));
    let mut e = Record::empty();
    e.merge(&b);
    assert_eq!(e, b);
}

#[test]
fn process_matches_merge_of_single() {
    let mut by_process = Record::new_with_initial(b"X", 12);
    by_process.process(-4);
    let mut by_merge = Record::new_with_initial(b"X", 12);
    by_merge.merge(&Record::new_with_initial(b"X", -4));
    assert_eq!(by_process, by_merge);
}

#[test]
fn record_cmp_orders_names() {
    let a = Record::new_with_initial(b"abc", 1);
    let b = Record::new_with_initial(b"abd", 1);
    let c = Record::new_with_initial(b"ab", 9);
    assert_eq!(a.cmp(&b), Ordering::Less);
    assert_eq!(b.cmp(&a), Ordering::Greater);
    assert_eq!(c.cmp(&a), Ordering::Less);
    assert_eq!(a.cmp(&Record::new_with_initial(b"abc", 7)), Ordering::Equal);
    assert!(record_le(&a, &Record::new_with_initial(b"abc", 7)));
    assert!(!record_le(&Record::new_with_initial(b"abc", 7), &a));
}

#[test]
fn hash_uses_fnv1a_modulo_buckets() {
    let mut m = Measurements::new();
    // FNV-1a of "a" is 0xaf63dc4c8601ec8c, which is 1 modulo 15
    assert_eq!(m.hash(&Record::new_with_initial(b"a", 0)), 1);
    // FNV-1a of "Karauli" is 0xf1a7278a77067328, which is 10 modulo 15
    assert_eq!(m.hash(&Record::new_with_initial(b"Karauli", 0)), 10);
    let (idx, end) = m.hash_until_char(b"Karauli;1.0\n", 0, b';');
    assert_eq!((idx, end), (10, 7));
}

#[test]
fn hash_probes_past_other_names() {
    let mut m = Measurements::new();
    m.process_at(10, b"Other", 3);
    // "Karauli" starts at slot 10, which holds another name
    assert_eq!(m.hash(&Record::new_with_initial(b"Karauli", 0)), 11);
    m.process_at(11, b"Karauli", 4);
    assert_eq!(m.hash(&Record::new_with_initial(b"Karauli", 0)), 11);
    assert_eq!(m.find_slot(b"Karauli"), Some(11));
}

#[test]
fn fast_hash_reads_shapes() {
    let input = b"a;1.5\nb;-2.5\nc;12.5\nd;-99.9\n";
    let mut m = Measurements::new();
    let mut start = 0;
    let mut nexts = vec![];
    while start < input.len() {
        start = fast_hash(input, start, &mut m);
        nexts.push(start);
    }
    assert_eq!(nexts, vec![6, 13, 20, 28]);
    assert_eq!(find(&m, "a").unwrap().sum, 15);
    assert_eq!(find(&m, "b").unwrap().sum, -25);
    assert_eq!(find(&m, "c").unwrap().sum, 125);
    assert_eq!(find(&m, "d").unwrap().sum, -999);
}

#[test]
fn fast_hash_other_shape_gives_zero() {
    // neither X.Y nor XY.Z: the value is 0 and the next line is two bytes on
    let input = b"a;123.4\n";
    let mut m = Measurements::new();
    let next = fast_hash(input, 0, &mut m);
    assert_eq!(next, 4);
    assert_eq!(find(&m, "a").unwrap().sum, 0);
    assert_eq!(find(&m, "a").unwrap().count, 1);
}

#[test]
fn line_ok_detects_bad_lines() {
    assert!(line_ok_at(b"a;1.5\n", 0));
    assert!(!line_ok_at(b"a1.5\n", 0));
    assert!(!line_ok_at(b"a;1", 0));
    assert!(!line_ok_at(b"a;!.5\n", 0));
    assert!(!line_ok_at(b"a;1.5\n", 7));
}

#[test]
fn parse_chunk_aggregates() {
    let input = b"x;1.0\ny;2.0\nx;-3.0\n";
    let m = table_of(input);
    let x = find(&m, "x").unwrap();
    assert_eq!((x.min, x.max, x.sum, x.count), (-30, 10, -20, 2));
    let y = find(&m, "y").unwrap();
    assert_eq!((y.min, y.max, y.sum, y.count), (20, 20, 20, 1));
    assert_eq!(m.0.iter().filter(|r| r.is_full()).count(), 2);
}

#[test]
fn parse_chunk_refuses_bad_line_and_full_table() {
    assert!(parse_chunk(b"x;1.0\nbroken\n", 0, 13).is_none());
    let mut input = String::new();
    for i in 0..16 {
        input += &format!("s{};1.0\n", i);
    }
    assert!(parse_chunk(input.as_bytes(), 0, input.len()).is_none());
    let mut fifteen = String::new();
    for i in 0..15 {
        fifteen += &format!("s{};1.0\n", i);
    }
    assert!(parse_chunk(fifteen.as_bytes(), 0, fifteen.len()).is_some());
}

#[test]
fn split_chunks_merge_to_whole() {
    let input = b"x;1.0\ny;2.0\nx;-3.0\nz;4.5\ny;-0.5\n";
    let cut = 19; // start of "z;4.5"
    let whole = table_of(input);
    let mut first = parse_chunk(input, 0, cut).unwrap();
    let second = parse_chunk(input, cut, input.len()).unwrap();
    first.merge(second);
    assert_eq!(format_results(first), format_results(whole));
}

#[test]
fn merge_order_does_not_matter() {
    let a: &[u8] = b"x;1.0\ny;2.0\n";
    let b: &[u8] = b"y;-4.0\nz;0.1\n";
    let mut ab = table_of(a);
    ab.merge(table_of(b));
    let mut ba = table_of(b);
    ba.merge(table_of(a));
    assert_eq!(format_results(ab), format_results(ba));
}

#[test]
fn sorted_orders_by_name() {
    let m = table_of(b"pear;1.0\napple;2.0\nfig;3.0\napple;1.0\n");
    let names: Vec<&[u8]> = m.sorted().iter().map(|r| r.name).collect();
    assert_eq!(names, vec![&b"apple"[..], &b"fig"[..], &b"pear"[..]]);
}

#[test]
fn format_results_writes_sorted_records() {
    let m = table_of(b"pear;1.0\napple;2.0\nfig;-3.5\napple;1.0\n");
    let out = format_results(m).unwrap();
    assert_eq!(
        std::str::from_utf8(&out).unwrap(),
        "{apple=01.0/02.0/01.5,fig=-03.5/-03.5/-03.5,pear=01.0/01.0/01.0}"
    );
    assert_eq!(format_results(Measurements::new()).unwrap(), b"}".to_vec());
}

#[test]
fn format_results_refuses_unwritable() {
    let mut m = Measurements::new();
    m.process_at(0, b"hot", 21000);
    assert!(format_results(m).is_none());
}

#[test]
fn write_n_shapes() {
    let cases: [(i16, &str); 6] =
        [(0, "0.0"), (5, "0.5"), (-5, "-0.5"), (12, "01.2"), (123, "12.3"), (-999, "-99.9")];
    for (v, expected) in cases {
        let mut buff = vec![];
        write_n(&mut buff, v);
        assert_eq!(std::str::from_utf8(&buff).unwrap(), expected);
    }
    let mut buff = vec![];
    write_n(&mut buff, 1234);
    assert_eq!(buff, vec![b'0' + 12, b'3', b'.', b'4']);
    assert!(is_writable(20799));
    assert!(!is_writable(20800));
    assert!(!is_writable(i16::MIN));
}

#[test]
fn mean_rounds_toward_zero() {
    assert_eq!(mean(7, 2), 3);
    assert_eq!(mean(-7, 2), -3);
    assert_eq!(mean(7, -2), -3);
    assert_eq!(mean(-7, -2), 3);
    assert_eq!(mean(70000, 1), 70000i64 as i16);
    assert!(!record_writable(&Record::empty()));
}

#[test]
fn written_value_reads_back() {
    for v in [-999i16, -100, -10, -9, 0, 7, 10, 99, 456, 999] {
        let mut line = b"st;".to_vec();
        write_n(&mut line, v);
        line.push(b'\n');
        let mut m = Measurements::new();
        let next = fast_hash(&line, 0, &mut m);
        assert_eq!(next, line.len());
        assert_eq!(find(&m, "st").unwrap().sum, v as i64);
    }
}

#[test]
fn generated_line_reads_back() {
    for (neg, whole, dec) in [(false, 0u8, 0u8), (true, 5, 3), (false, 42, 9), (true, 98, 1)] {
        let mut line = vec![];
        write_measurement(&mut line, b"Lima", neg, whole, dec);
        let mut m = Measurements::new();
        let next = fast_hash(&line, 0, &mut m);
        assert_eq!(next, line.len());
        let magnitude = whole as i64 * 10 + dec as i64;
        assert_eq!(find(&m, "Lima").unwrap().sum, if neg { -magnitude } else { magnitude });
    }
    let mut buff = vec![];
    write_measurement(&mut buff, b"Lima", true, 42, 7);
    assert_eq!(buff, b"Lima;-42.7\n".to_vec());
}

#[test]
fn random_measurements_parse() {
    let mut rng = rand::thread_rng();
    let mut buff = vec![];
    let n = 500;
    for _ in 0..n {
        add_measurement(&mut buff, &mut rng, b"Rome");
    }
    let mut m = Measurements::new();
    let mut start = 0;
    let mut lines = 0;
    let mut magnitudes = std::collections::HashSet::new();
    while start < buff.len() {
        let before = m.0.iter().find(|r| r.name == b"Rome").map(|r| r.sum).unwrap_or(0);
        start = fast_hash(&buff, start, &mut m);
        let after = m.0.iter().find(|r| r.name == b"Rome").unwrap().sum;
        let v = after - before;
        assert!(v.abs() <= 989);
        magnitudes.insert(v.abs());
        lines += 1;
    }
    assert_eq!(lines, n);
    assert_eq!(find(&m, "Rome").unwrap().count, n as i64);
    assert!(magnitudes.len() > 10);
}

#[test]
fn chunk_borders_cut_at_lines() {
    let mut input = String::new();
    for i in 0..20 {
        input += &format!("station{};{}.5\n", i, i % 10);
    }
    let bytes = input.as_bytes();
    let borders = chunk_borders(bytes).unwrap();
    assert_eq!(borders.len(), 4);
    assert_eq!(borders[0].0, 0);
    assert_eq!(borders[3].1, bytes.len());
    for k in 0..3 {
        assert_eq!(borders[k].1, borders[k + 1].0);
        assert_eq!(bytes[borders[k].1 - 1], b'\n');
        let cut = (k + 1) * (bytes.len() / 4);
        let nl = cut + bytes[cut..].iter().position(|b| *b == b'\n').unwrap();
        assert_eq!(borders[k].1, nl + 1);
    }
    assert!(chunk_borders(b"short;1.0\n").is_none());
    let no_newline = vec![b'a'; 200];
    assert!(chunk_borders(&no_newline).is_none());
}

#[test]
fn batch_sizes_share_lines() {
    assert_eq!(batch_sizes(10, 6), vec![1, 1, 1, 1, 1, 5]);
    assert_eq!(batch_sizes(12, 6), vec![2, 2, 2, 2, 2, 2]);
    assert_eq!(batch_sizes(7, 1), vec![7]);
    assert_eq!(batch_sizes(3, 6).iter().sum::<usize>(), 3);
}

#[test]
fn can_merge_detects_overflowing_tables() {
    let mut a = String::new();
    for i in 0..10 {
        a += &format!("a{};1.0\n", i);
    }
    let mut b = String::new();
    for i in 0..10 {
        b += &format!("b{};1.0\n", i);
    }
    let ta = table_of(a.as_bytes());
    let tb = table_of(b.as_bytes());
    assert!(!ta.can_merge(&tb));
    let tc = table_of(b"a1;2.0\nc;3.0\n");
    assert!(ta.can_merge(&tc));
    let mut merged = table_of(a.as_bytes());
    merged.merge(tc);
    assert_eq!(find(&merged, "a1").unwrap().count, 2);
    assert_eq!(find(&merged, "c").unwrap().sum, 30);
}

#[test]
fn find_slot_none_when_full() {
    let mut s = String::new();
    for i in 0..15 {
        s += &format!("n{};1.0\n", i);
    }
    let m = table_of(s.as_bytes());
    assert_eq!(m.find_slot(b"other"), None);
    assert!(m.find_slot(b"n3").is_some());
    assert!(!m.can_take(b"other", 1));
    assert!(m.can_take(b"n3", 1));
}

#[test]
fn merge_one_adds_statistics() {
    let mut m = table_of(b"x;1.0\n");
    let mut r = Record::new_with_initial(b"x", -50);
    r.process(70);
    m.merge_one(&r);
    let x = find(&m, "x").unwrap();
    assert_eq!((x.min, x.max, x.sum, x.count), (-50, 70, 30, 3));
}

#[test]
fn empty_name_line_is_read() {
    let mut m = Measurements::new();
    let next = fast_hash(b";1.0\n", 0, &mut m);
    assert_eq!(next, 5);
    let r = m.0.iter().find(|r| r.count == 1).unwrap();
    assert!(r.is_empty());
    assert_eq!(r.sum, 10);
}

#[test]
fn empty_name_statistics_pass_to_the_next_name() {
    // The empty name and "q" both start their search at slot 2.
    let m = table_of(b";1.0\nq;2.0\n");
    let q = find(&m, "q").unwrap();
    assert_eq!((q.min, q.max, q.sum, q.count), (10, 20, 30, 2));
}

#[test]
fn chunks_merged_in_program_order_give_whole() {
    let mut input = String::new();
    for i in 0..40 {
        input += &format!("st{};{}.{}\n", i % 7, i % 13, i % 10);
    }
    let bytes = input.as_bytes();
    let borders = chunk_borders(bytes).unwrap();
    let mut tables: Vec<Measurements> =
        borders.iter().map(|&(s, e)| parse_chunk(bytes, s, e).unwrap()).collect();
    let mut merged = tables.pop().unwrap();
    for t in tables {
        assert!(merged.can_merge(&t));
        merged.merge(t);
    }
    assert_eq!(format_results(merged), format_results(table_of(bytes)));
}
