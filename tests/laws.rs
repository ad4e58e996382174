use proconio::compose::{Marker, Sequence};
use proconio::read::{ReadError, Readable, I16, I32, I64, I8, Isize, U16, U32, U64, U8, Usize};
use proconio::source::{AutoSource, LineSource, OnceSource, Source};
use proconio::types::{Bytes, Char, Chars, Isize1, Str, Usize1};

#[derive(Debug, PartialEq)]
struct Edge {
    from: usize,
    to: usize,
    weight: Marker,
    cost: i32,
}

#[test]
fn scenario_three_integers() {
    let mut source = AutoSource::from("32 54 -23");
    let t = (U8, U32, I32).read(&mut source).unwrap();
    assert_eq!(t, (32, 54, -23));
    assert!(source.is_empty());
}

#[test]
fn scenario_text_kinds() {
    let mut source = AutoSource::from("  string   chars\nbytes");
    let (s, c, b) = (Str, Chars, Bytes).read(&mut source).unwrap();
    assert_eq!(s, "string");
    assert_eq!(c, vec!['c', 'h', 'a', 'r', 's']);
    assert_eq!(b, b"bytes".to_vec());
}

#[test]
fn scenario_one_based_edges() {
    let mut source = AutoSource::from("4 1 3 3 4 6 1 5 3");
    let n = Usize.read(&mut source).unwrap();
    let edges = Sequence { kind: (Usize1, Usize1), len: n }.read(&mut source).unwrap();
    assert_eq!(n, 4);
    assert_eq!(edges, vec![(0, 2), (2, 3), (5, 0), (4, 2)]);
}

#[test]
fn scenario_aggregate_with_marker() {
    let mut source = AutoSource::from("12 32 35");
    let (from, to, weight, cost) = (Usize, Usize1, Marker, I32).read(&mut source).unwrap();
    let edge = Edge { from, to, weight, cost };
    assert_eq!(edge, Edge { from: 12, to: 31, weight: Marker, cost: 35 });
}

#[test]
fn one_based_index_decrements() {
    let mut source = AutoSource::from("1 0");
    assert_eq!(Usize1.read(&mut source), Ok(0));
    assert_eq!(Usize1.read(&mut source), Err(ReadError::Underflow));
    let mut source = AutoSource::from("1 -5 -9223372036854775808");
    assert_eq!(Isize1.read(&mut source), Ok(0));
    assert_eq!(Isize1.read(&mut source), Ok(-6));
    if isize::MIN as i64 == i64::MIN {
        assert_eq!(Isize1.read(&mut source), Err(ReadError::Underflow));
    }
}

#[test]
fn decimal_round_trip() {
    for v in [0u64, 7, 10, 99, 1000, 12345678901234, u64::MAX] {
        let text = v.to_string();
        let mut source = OnceSource::from(text.as_str());
        assert_eq!(U64.read(&mut source), Ok(v));
    }
    let mut source = OnceSource::from("255 65535 127 32767 2147483647");
    assert_eq!(U8.read(&mut source), Ok(255));
    assert_eq!(U16.read(&mut source), Ok(65535));
    assert_eq!(I8.read(&mut source), Ok(127));
    assert_eq!(I16.read(&mut source), Ok(32767));
    assert_eq!(I32.read(&mut source), Ok(2147483647));
}

#[test]
fn whitespace_runs_collapse() {
    let mut spaced = OnceSource::from("ab cd ef");
    let mut mixed = OnceSource::from("\t\r\n ab\t\t cd\r\n\r\nef \n");
    for _ in 0..3 {
        assert_eq!(spaced.next_token(), mixed.next_token());
    }
    assert_eq!(spaced.next_token(), None);
    assert_eq!(mixed.next_token(), None);
    assert!(mixed.is_empty());
}

#[test]
fn count_then_values() {
    let mut source = OnceSource::from("3 10 20 30 40");
    let n = Usize.read(&mut source).unwrap();
    let v = Sequence { kind: I64, len: n }.read(&mut source).unwrap();
    assert_eq!(v, vec![10, 20, 30]);
    assert_eq!(source.next_token(), Some(b"40".to_vec()));
}

#[test]
fn empty_sequence_takes_nothing() {
    let mut source = OnceSource::from("7");
    let v = Sequence { kind: I32, len: 0 }.read(&mut source).unwrap();
    assert!(v.is_empty());
    assert_eq!(I32.read(&mut source), Ok(7));
}

#[test]
fn requests_resume_mid_line() {
    let mut source = AutoSource::from("1 2 3\n4 5");
    assert_eq!((I32, I32).read(&mut source), Ok((1, 2)));
    assert_eq!((I32, I32, I32).read(&mut source), Ok((3, 4, 5)));
    assert_eq!(I32.read(&mut source), Err(ReadError::Exhausted));
}

#[test]
fn line_source_resumes_across_lines() {
    let mut source = LineSource::new();
    assert!(source.is_empty());
    source.push_line(b"1 2 3\n".to_vec());
    assert_eq!(I32.read(&mut source), Ok(1));
    source.push_line(b"4\n".to_vec());
    assert_eq!(Sequence { kind: I32, len: 3 }.read(&mut source), Ok(vec![2, 3, 4]));
    assert_eq!(I32.read(&mut source), Err(ReadError::Exhausted));
    source.push_line(b"5".to_vec());
    let mut auto = AutoSource::Line(source);
    assert_eq!(I32.read(&mut auto), Ok(5));
}

#[test]
fn matrix_is_row_major() {
    let mut source = OnceSource::from("0 1 2 10 11 12");
    let a = Sequence { kind: Sequence { kind: Isize, len: 3 }, len: 2 }
        .read(&mut source)
        .unwrap();
    assert_eq!(a, vec![vec![0, 1, 2], vec![10, 11, 12]]);
}

#[test]
fn nested_tuple_and_sequence() {
    let mut source = AutoSource::from("4 3 1 1 1 1 2 2 2 2 3 3 3 3 4 4 4 4 5 5 5 5");
    let n = Usize.read(&mut source).unwrap();
    let m = Usize.read(&mut source).unwrap();
    let t = Sequence { kind: (Sequence { kind: U32, len: m }, I32), len: n }
        .read(&mut source)
        .unwrap();
    assert_eq!(
        t,
        vec![(vec![1, 1, 1], 1), (vec![2, 2, 2], 2), (vec![3, 3, 3], 3), (vec![4, 4, 4], 4)]
    );
}

#[test]
fn malformed_tokens() {
    let mut source = OnceSource::from("abc 256 -1 +7 - + 12a");
    assert_eq!(I32.read(&mut source), Err(ReadError::Malformed));
    assert_eq!(U8.read(&mut source), Err(ReadError::Malformed));
    assert_eq!(U32.read(&mut source), Err(ReadError::Malformed));
    assert_eq!(U32.read(&mut source), Ok(7));
    assert_eq!(I64.read(&mut source), Err(ReadError::Malformed));
    assert_eq!(I64.read(&mut source), Err(ReadError::Malformed));
    assert_eq!(Usize.read(&mut source), Err(ReadError::Malformed));
    assert_eq!(Usize.read(&mut source), Err(ReadError::Exhausted));
}

#[test]
fn integer_limits() {
    let mut source = OnceSource::from("-128 -129 18446744073709551615 18446744073709551616");
    assert_eq!(I8.read(&mut source), Ok(-128));
    assert_eq!(I8.read(&mut source), Err(ReadError::Malformed));
    assert_eq!(U64.read(&mut source), Ok(u64::MAX));
    assert_eq!(U64.read(&mut source), Err(ReadError::Malformed));
}

#[test]
fn characters() {
    let mut source = OnceSource::from("x ab \u{e9}");
    assert_eq!(Char.read(&mut source), Ok('x'));
    assert_eq!(Char.read(&mut source), Err(ReadError::Malformed));
    assert_eq!(Char.read(&mut source), Ok('\u{e9}'));
    assert_eq!(Char.read(&mut source), Err(ReadError::Exhausted));
}

#[test]
fn invalid_utf8() {
    let mut source = OnceSource::from_bytes(vec![0x61, 0xff, 0x20, 0xc3, 0xa9, 0x20, 0xfe]);
    assert_eq!(Str.read(&mut source), Err(ReadError::Malformed));
    assert_eq!(Chars.read(&mut source), Ok(vec!['\u{e9}']));
    assert_eq!(Bytes.read(&mut source), Ok(vec![0xfe]));
}

#[test]
fn marker_reads_nothing() {
    let mut source = OnceSource::from("");
    assert_eq!(Marker.read(&mut source), Ok(Marker));
    assert_eq!(Bytes.read(&mut source), Err(ReadError::Exhausted));
    assert!(source.is_empty());
}
