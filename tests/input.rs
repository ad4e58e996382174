use proconio::compose::Sequence;
use proconio::read::{Readable, I32, U32, U8, Usize};
use proconio::source::AutoSource;
use proconio::types::{Bytes, Chars, Str, Usize1};

#[test]
fn input_number() {
    let mut source = AutoSource::from("    32   54 -23\r\r\n\nfalse");
    let n = U8.read(&mut source).unwrap();
    let m = U32.read(&mut source).unwrap();
    let l = I32.read(&mut source).unwrap();

    assert_eq!(n, 32);
    assert_eq!(m, 54);
    assert_eq!(l, -23);
}

#[test]
fn input_str() {
    let mut source = AutoSource::from("  string   chars\nbytes");
    let string = Str.read(&mut source).unwrap();
    let chars = Chars.read(&mut source).unwrap();
    let bytes = Bytes.read(&mut source).unwrap();

    assert_eq!(string, "string");
    assert_eq!(chars, ['c', 'h', 'a', 'r', 's']);
    assert_eq!(bytes, b"bytes");
}

#[test]
fn input_array() {
    let mut source = AutoSource::from("5 4 1 2 3 4 5 1 2 3 4 5 1 2 3 4 5 1 2 3 4 5");
    let n = Usize.read(&mut source).unwrap();
    let m = Usize.read(&mut source).unwrap();
    let a = Sequence { kind: Sequence { kind: I32, len: n }, len: m }
        .read(&mut source)
        .unwrap();

    assert_eq!(
        a,
        [
            [1, 2, 3, 4, 5],
            [1, 2, 3, 4, 5],
            [1, 2, 3, 4, 5],
            [1, 2, 3, 4, 5]
        ]
    );
}

#[test]
fn input_tuple() {
    let mut source = AutoSource::from("4 1 2 3 4 5 1 2 3 4 5 1 2 3 4 5 1 2 3 4 5");
    let n = Usize.read(&mut source).unwrap();
    let t = Sequence { kind: (I32, I32, I32, I32, I32), len: n }
        .read(&mut source)
        .unwrap();

    assert_eq!(
        t,
        [
            (1, 2, 3, 4, 5),
            (1, 2, 3, 4, 5),
            (1, 2, 3, 4, 5),
            (1, 2, 3, 4, 5)
        ]
    );
}

#[test]
fn input_multiple_times() {
    let mut source = AutoSource::from("4 1 2 3 4\n1 2\r\n\r\r\n3 4");
    let n = Usize.read(&mut source).unwrap();

    for i in 0..n {
        let j = I32.read(&mut source).unwrap();
        let k = I32.read(&mut source).unwrap();

        assert_eq!(j, if i % 2 == 0 { 1 } else { 3 });
        assert_eq!(k, if i % 2 == 0 { 2 } else { 4 });
    }
}

#[test]
fn input_iusize1() {
    let mut source = AutoSource::from("4 1 2 3 4 5 6 7 8");
    let n = Usize.read(&mut source).unwrap();

    for i in 0..n {
        let from = Usize1.read(&mut source).unwrap();
        let to = Usize1.read(&mut source).unwrap();

        assert_eq!(from, i * 2);
        assert_eq!(to, i * 2 + 1);
    }
}

#[test]
fn input_mut() {
    let mut source = AutoSource::from("8 1 2 3 4 5 6 7 8");
    let mut n = Usize.read(&mut source).unwrap();

    let mut sum = 0;
    while n > 0 {
        let x = U32.read(&mut source).unwrap();
        sum += x;
        n -= 1;
    }
    assert_eq!(sum, 36);
}
