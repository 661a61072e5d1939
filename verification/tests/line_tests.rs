use teledildo_core::line::{LineBuffer, Push};

#[test]
fn assembles_lines_across_chunks() {
    let mut lb = LineBuffer::<16>::new();
    let mut lines: Vec<Vec<u8>> = Vec::new();
    lb.push_all(b"L05", |_| unreachable!());
    lb.push_all(b"00\nV0999", |l| lines.push(l.to_vec()));
    lb.push_all(b"9\n\n", |l| lines.push(l.to_vec()));
    assert_eq!(lines, vec![b"L0500".to_vec(), b"V09999".to_vec(), Vec::new()]);
    assert_eq!(lb.dropped_lines(), 0);
}

#[test]
fn overflow_discards_whole_line_and_recovers() {
    let mut lb = LineBuffer::<4>::new();
    let mut lines: Vec<Vec<u8>> = Vec::new();
    lb.push_all(b"L0500I100\nD0\n", |l| lines.push(l.to_vec()));
    assert_eq!(lines, vec![b"D0".to_vec()]);
    assert_eq!(lb.dropped_lines(), 1);
    // Exactly N bytes then newline fits.
    lines.clear();
    lb.push_all(b"ABCD\n", |l| lines.push(l.to_vec()));
    assert_eq!(lines, vec![b"ABCD".to_vec()]);
}

#[test]
fn ready_line_is_replaced_on_next_push() {
    let mut lb = LineBuffer::<8>::new();
    assert_eq!(lb.push(b'A'), Push::Pending);
    assert_eq!(lb.push(b'\n'), Push::Complete);
    assert!(lb.is_ready());
    assert_eq!(lb.line(), b"A");
    assert_eq!(lb.push(b'B'), Push::Pending);
    assert!(!lb.is_ready());
    assert_eq!(lb.line(), b"B");
}

#[test]
fn long_lines_are_dropped_whole_and_counted() {
    let mut lb = LineBuffer::<3>::new();
    let mut lines: Vec<Vec<u8>> = Vec::new();
    lb.push_all(b"abcd\nxyz\n12345678\n\nq", |l| lines.push(l.to_vec()));
    // Every newline-terminated line that fits, in order, unchanged.
    assert_eq!(lines, vec![b"xyz".to_vec(), Vec::new()]);
    assert_eq!(lb.dropped_lines(), 2);
    // The unterminated tail is still pending.
    assert_eq!(lb.line(), b"q");
    assert!(!lb.is_ready());
}

#[test]
fn overflow_is_reported_until_the_newline() {
    let mut lb = LineBuffer::<2>::new();
    assert_eq!(lb.push(b'a'), Push::Pending);
    assert_eq!(lb.push(b'b'), Push::Pending);
    assert_eq!(lb.push(b'c'), Push::Overflow);
    assert_eq!(lb.line(), b"");
    assert_eq!(lb.push(b'd'), Push::Overflow);
    assert_eq!(lb.push(b'\n'), Push::Overflow);
    assert_eq!(lb.dropped_lines(), 1);
    assert_eq!(lb.push(b'e'), Push::Pending);
    assert_eq!(lb.line(), b"e");
}

#[test]
fn clear_discards_the_current_line() {
    let mut lb: LineBuffer<8> = LineBuffer::default();
    lb.push(b'x');
    lb.push(b'\n');
    assert!(lb.is_ready());
    lb.clear();
    assert!(!lb.is_ready());
    assert_eq!(lb.line(), b"");
    assert_eq!(lb.dropped_lines(), 0);
}

#[test]
fn an_over_long_line_is_reported_byte_by_byte() {
    let mut lb = LineBuffer::<3>::new();
    let got: Vec<Push> = b"abcde\n".iter().map(|b| lb.push(*b)).collect();
    assert_eq!(
        got,
        vec![Push::Pending, Push::Pending, Push::Pending, Push::Overflow, Push::Overflow, Push::Overflow]
    );
    assert_eq!(lb.dropped_lines(), 1);
    let got: Vec<Push> = b"abc\n".iter().map(|b| lb.push(*b)).collect();
    assert_eq!(got, vec![Push::Pending, Push::Pending, Push::Pending, Push::Complete]);
    assert_eq!(lb.line(), b"abc");
    assert_eq!(lb.dropped_lines(), 1);
}
