use pita::buffer::{Piece, PtBuffer, WithBuffer};
use unicode_segmentation::UnicodeSegmentation;

fn collect_bytes(buf: &PtBuffer<u8>) -> Vec<u8> {
    let mut it = buf.iter();
    let mut out: Vec<u8> = Vec::new();
    while let Some(b) = it.next(buf) {
        out.push(*b);
    }
    out
}

fn collect_rev_bytes(buf: &PtBuffer<u8>) -> Vec<u8> {
    let mut it = buf.rev_iter();
    let mut out: Vec<u8> = Vec::new();
    while let Some(b) = it.next(buf) {
        out.push(*b);
    }
    out
}

fn collect_range(buf: &PtBuffer<u8>, from: usize, to: usize) -> Vec<u8> {
    let mut it = buf.range(from, to);
    let mut out: Vec<u8> = Vec::new();
    while let Some(b) = it.next(buf) {
        out.push(*b);
    }
    out
}

fn collect_rev_range(buf: &PtBuffer<u8>, from: usize, to: usize) -> Vec<u8> {
    let mut it = buf.rev_range(from, to);
    let mut out: Vec<u8> = Vec::new();
    while let Some(b) = it.next(buf) {
        out.push(*b);
    }
    out
}

fn insert_str_at(buf: &mut PtBuffer<u8>, idx: usize, s: &str) {
    for (i, char) in s.bytes().enumerate() {
        buf.insert(idx + i, char)
    }
}

fn assert_buf_str(buf: &PtBuffer<u8>, s: &str) {
    let string: Vec<u8> = collect_bytes(buf);
    assert_eq!(s, String::from_utf8_lossy(&string));
}

fn orig(start: usize, length: usize) -> Piece {
    Piece { with_buffer: WithBuffer::Original, start, length }
}

fn add(start: usize, length: usize) -> Piece {
    Piece { with_buffer: WithBuffer::Add, start, length }
}

#[test]
fn should_create_a_pt_buffer() {
    let _buf = PtBuffer::new(b"Hello world".to_vec());
}

#[test]
fn should_insert_at_buffer_end() {
    let mut buf = PtBuffer::new(b"Hello ".to_vec());
    buf.insert(6, b'w');

    assert_eq!(buf.pieces().as_slice(), &[orig(0, 6), add(0, 1)]);
}

#[test]
fn should_repeatedly_insert_at_buffer_end() {
    let mut buf = PtBuffer::new(b"Hello ".to_vec());
    insert_str_at(&mut buf, 6, "world");
    assert_buf_str(&buf, "Hello world")
}

#[test]
fn should_insert_at_buffer_start() {
    let mut buf = PtBuffer::new(b"Hello ".to_vec());
    buf.insert(0, b'o');
    assert_eq!(buf.pieces().as_slice(), &[add(0, 1), orig(0, 6)]);
}

#[test]
fn should_insert_anywhere_in_buffer() {
    let mut buf = PtBuffer::new(b"Hello ".to_vec());
    buf.insert(3, b'o');
    assert_eq!(buf.pieces().as_slice(), &[orig(0, 3), add(0, 1), orig(3, 3)]);
}

#[test]
fn should_remove_at_buffer_start() {
    let mut buf = PtBuffer::new(b"Hello world".to_vec());
    buf.remove(0);
    buf.remove(0);
    buf.remove(0);
    assert_eq!(buf.pieces().as_slice(), &[orig(3, 8)]);
}

#[test]
fn should_remove_at_buffer_end() {
    let mut buf = PtBuffer::new(b"Hello world".to_vec());
    buf.remove(10);
    buf.remove(9);
    buf.remove(8);
    assert_eq!(buf.pieces().as_slice(), &[orig(0, 8)]);
}

#[test]
fn should_remove_anywhere_in_buffer() {
    let mut buf = PtBuffer::new(b"Hello world".to_vec());
    buf.remove(3);

    assert_eq!(buf.pieces().as_slice(), &[orig(0, 3), orig(4, 7)]);
}

#[test]
fn should_push_to_buffer() {
    let mut buf = PtBuffer::new(b"Hello".to_vec());
    buf.push(b' ');
    buf.push(b'w');
    buf.push(b'o');
    buf.push(b'r');
    buf.push(b'd');

    assert_eq!(buf.pieces().as_slice(), &[orig(0, 5), add(0, 5)]);
}

#[test]
fn should_repeatedly_remove_at_buffer_end() {
    let mut buf = PtBuffer::new(b"Hello world".to_vec());
    buf.remove(10);
    buf.remove(9);
    buf.remove(8);
    buf.remove(7);
    buf.remove(6);
    buf.remove(5);
    assert_buf_str(&buf, "Hello")
}

#[test]
fn scattered_edits() {
    let mut buf = PtBuffer::new(b"Hello world".to_vec());
    buf.remove(1);
    insert_str_at(&mut buf, 1, "3");
    buf.remove(4);
    insert_str_at(&mut buf, 4, "0");
    assert_buf_str(&buf, "H3ll0 world");
    insert_str_at(&mut buf, 8, "$");
    buf.remove(7);
    assert_buf_str(&buf, "H3ll0 w$rld");
}

#[test]
fn mhh() {
    let strs: Vec<String> = "Hello world".graphemes(true).map(|s| s.to_string()).collect();
    let mut buf = PtBuffer::new(strs);
    buf.insert(8, "$".to_string());
    buf.remove(7);
    let mut it = buf.iter();
    let mut x: Vec<String> = Vec::new();
    while let Some(g) = it.next(&buf) {
        x.push(g.clone());
    }
    let string = x.join("");
    assert_eq!("Hello w$rld", string);
}

#[test]
fn should_iter_piece_table() {
    let mut buf = PtBuffer::new(b"Hello ".to_vec());
    buf.insert(buf.len(), b'w');
    buf.insert(buf.len(), b'o');
    buf.insert(buf.len(), b'r');
    buf.insert(buf.len(), b'l');
    buf.insert(buf.len(), b'd');

    let bytes: Vec<u8> = collect_bytes(&buf);
    let cow = String::from_utf8_lossy(&bytes);
    assert_eq!("Hello world", cow);
}

#[test]
fn should_get_pt_range() {
    let buf = PtBuffer::new(b"Hello boys and girls".to_vec());
    let bytes: Vec<u8> = collect_range(&buf, 6, buf.len());
    let cow = String::from_utf8_lossy(&bytes);
    assert_eq!("boys and girls", cow);
}

#[test]
fn should_get_pt_range2() {
    let buf = PtBuffer::new(b"Hello boys and girls".to_vec());
    let bytes: Vec<u8> = collect_range(&buf, 0, 6);
    let cow = String::from_utf8_lossy(&bytes);
    assert_eq!("Hello ", cow);
}

#[test]
fn should_get_pt_range_2() {
    let buf = PtBuffer::new(b"Helo".to_vec());
    let b1: Vec<u8> = collect_range(&buf, 0, 2);
    let c1 = String::from_utf8_lossy(&b1);

    let b2: Vec<u8> = collect_range(&buf, 2, 4);
    let c2 = String::from_utf8_lossy(&b2);

    assert_eq!(c1, "He");
    assert_eq!(c2, "lo");
}

#[test]
fn should_iter_pt() {
    let mut buf = PtBuffer::new(b"Helo".to_vec());
    buf.insert(0, b'b');
    buf.insert(0, b'a');
    buf.insert(0, b'c');
    buf.insert(4, b' ');

    let b1: Vec<u8> = collect_bytes(&buf);
    let c1 = String::from_utf8_lossy(&b1);

    assert_eq!(c1, "cabH elo");
}

#[test]
fn should_rev_iter_pt_rev() {
    let mut buf = PtBuffer::new(b"Helo".to_vec());
    buf.insert(0, b'b');
    buf.insert(0, b'a');
    buf.insert(0, b'c');
    buf.insert(4, b' ');

    let b0: Vec<u8> = collect_bytes(&buf);
    let c0 = String::from_utf8_lossy(&b0);
    assert_eq!(c0, "cabH elo");

    let b1: Vec<u8> = collect_rev_bytes(&buf);
    let c1 = String::from_utf8_lossy(&b1);

    assert_eq!(c1, "ole Hbac");
}

#[test]
fn should_rev_iter_range_pt_rev() {
    // A reverse range walks its slice from the back: indices hi - 1 down
    // to lo, the reverse of the forward range over the same slice.
    let buf = PtBuffer::new(b"abcd".to_vec());

    let b1: Vec<u8> = collect_rev_range(&buf, 0, 3);
    let c1 = String::from_utf8_lossy(&b1);

    assert_eq!(c1, "cba");

    let buf = PtBuffer::new(b"abcd".to_vec());

    let b1: Vec<u8> = collect_rev_range(&buf, 0, 2);
    let c1 = String::from_utf8_lossy(&b1);

    assert_eq!(c1, "ba");

    let b1: Vec<u8> = collect_rev_range(&buf, 2, 4);
    let c1 = String::from_utf8_lossy(&b1);

    assert_eq!(c1, "dc");

    let b1: Vec<u8> = collect_rev_range(&buf, 1, 4);
    let c1 = String::from_utf8_lossy(&b1);

    assert_eq!(c1, "dcb");
}

#[test]
fn round_trip_preserves_any_source() {
    for s in ["", "x", "Hello world", "line one\nline two\n"] {
        let buf = PtBuffer::new(s.as_bytes().to_vec());
        assert_buf_str(&buf, s);
    }
}

#[test]
fn edits_track_reference_vector() {
    // The same script of push/insert/remove edits, applied to the buffer
    // and to a plain vector; the traversal must match after every step.
    let mut buf: PtBuffer<u8> = PtBuffer::new(Vec::new());
    let mut reference: Vec<u8> = Vec::new();
    let script: Vec<(u8, usize, u8)> = vec![
        (0, 0, b'a'),
        (0, 0, b'b'),
        (1, 1, b'c'),
        (1, 2, b'd'),
        (0, 4, b'e'),
        (2, 1, 0),
        (1, 0, b'f'),
        (2, 3, 0),
        (0, 0, b'g'),
        (1, 2, b'h'),
        (2, 0, 0),
        (2, 0, 0),
    ];
    for (op, at, val) in script {
        match op {
            0 => {
                buf.push(val);
                reference.push(val);
            }
            1 => {
                buf.insert(at, val);
                reference.insert(at, val);
            }
            _ => {
                buf.remove(at);
                reference.remove(at);
            }
        }
        assert_eq!(collect_bytes(&buf), reference);
        assert_eq!(buf.len(), reference.len());
    }
}

#[test]
fn forward_cursor_matches_index() {
    let mut buf = PtBuffer::new(b"Hello world".to_vec());
    buf.insert(5, b'!');
    buf.remove(0);
    let elems = collect_bytes(&buf);
    for (i, e) in elems.iter().enumerate() {
        assert_eq!(buf.index(i), e);
    }
}

#[test]
fn range_yields_reference_slice() {
    let mut buf = PtBuffer::new(b"abcdef".to_vec());
    buf.insert(3, b'X');
    let reference: Vec<u8> = collect_bytes(&buf);
    for lo in 0..=reference.len() {
        for hi in lo..=reference.len() {
            assert_eq!(collect_range(&buf, lo, hi), &reference[lo..hi]);
        }
    }
}

#[test]
fn rev_range_mirrors_range_on_every_slice() {
    let mut buf = PtBuffer::new(b"abcdef".to_vec());
    buf.insert(2, b'Y');
    let len = buf.len();
    for lo in 0..=len {
        for hi in lo..=len {
            let mut fwd = collect_range(&buf, lo, hi);
            fwd.reverse();
            assert_eq!(collect_rev_range(&buf, lo, hi), fwd);
        }
    }
}

#[test]
fn pieces_stay_nonempty_and_sum_to_length() {
    let mut buf = PtBuffer::new(b"Hello world".to_vec());
    let edits: Vec<(bool, usize, u8)> = vec![
        (true, 3, b'x'),
        (false, 0, 0),
        (true, 0, b'y'),
        (false, 5, 0),
        (true, 11, b'z'),
        (false, 2, 0),
    ];
    for (is_insert, at, val) in edits {
        if is_insert {
            buf.insert(at, val);
        } else {
            buf.remove(at);
        }
        let mut total = 0usize;
        for p in buf.pieces().iter() {
            assert!(p.length >= 1);
            total += p.length;
        }
        assert_eq!(total, buf.len());
    }
}

#[test]
fn remove_everything_then_insert_again() {
    let mut buf = PtBuffer::new(b"ab".to_vec());
    buf.remove(0);
    buf.remove(0);
    assert_eq!(buf.len(), 0);
    assert_eq!(collect_bytes(&buf), Vec::<u8>::new());
    buf.insert(0, b'z');
    assert_buf_str(&buf, "z");
}

#[test]
fn line_column_lookup_over_bytes() {
    let buf = PtBuffer::new(b"ab\ncde\n\nf".to_vec());
    assert_eq!(buf.line_column_to_idx(0, 0), 0);
    assert_eq!(buf.line_column_to_idx(2, 0), 2); // the newline itself
    assert_eq!(buf.line_column_to_idx(0, 1), 3);
    assert_eq!(buf.line_column_to_idx(2, 1), 5);
    assert_eq!(buf.line_column_to_idx(0, 2), 7);
    assert_eq!(buf.line_column_to_idx(0, 3), 8);
}

#[test]
fn insert_run_coalesces_into_one_piece() {
    let mut buf = PtBuffer::new(b"Hello ".to_vec());
    buf.insert(6, b'w');
    buf.insert(7, b'o');
    buf.insert(8, b'r');
    buf.insert(9, b'l');
    buf.insert(10, b'd');
    assert_buf_str(&buf, "Hello world");
    // The reuse hint coalesced the appended run into a single piece.
    assert_eq!(buf.pieces().as_slice(), &[orig(0, 6), add(0, 5)]);
}
