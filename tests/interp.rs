use bfi::interp::{EofMode, Error, Interpreter, Io, Overflow, OverflowOptions, Status};
use bfi::parser;

fn new(script: &[u8], input: &[u8], overflow: OverflowOptions, eof: EofMode) -> Interpreter {
    Interpreter::new(
        parser::ops(script).unwrap(),
        Io {
            input: input.to_vec(),
            output: Vec::new(),
        },
        overflow,
        eof,
        0,
        0,
    )
}

/// Runs to the end, treating input that has not arrived as the end of input.
fn finish(i: &mut Interpreter) -> Result<(), Error> {
    loop {
        match i.eval()? {
            Status::Halted => return Ok(()),
            Status::Output => {}
            Status::NeedInput => i.close_input(),
        }
    }
}

/// What a sink of `N` bytes, zeroed at first, holds after the run.
fn sink<const N: usize>(out: &[u8]) -> [u8; N] {
    let mut buf = [0u8; N];
    let n = out.len().min(N);
    buf[..n].copy_from_slice(&out[..n]);
    buf
}

const ROT13: &[u8] = b"-,+[-[>>++++[>++++++++<-]<+<-[>+>+>-[>>>]<[[>+<-]>>+>]<<<<<-]]>>>[-]+>--[-[<->+++[-]]]<[++++++++++++<[>-[>+>>]>[+[<+>-]>+>>]<<<<<-]>>[<+>-]>[-[-<<[-]>>]<<[<<->>-]>>]<<[<<+>>-]]<[-]<.[-]<-,+]";

const HEAD: &[u8] = b"++++++++++[>>>+[<<,.[>+>>+<<<-]>>>[<<<+>>>-]<<---------->-<[>+<[-]]>]<<<-]";

#[test]
fn eof_set_zero() {
    let script = b">,>+++++++++,>+++++++++++[<++++++<++++++<+>>>-]<<.>.<<-.>.>.<<.";
    let mut i = new(script, b"\n", OverflowOptions::default(), EofMode::Set0);
    finish(&mut i).unwrap();

    let expected = b"LB\nLB\n\0\0\0\0\0\0\0\0\0\0";
    assert_eq!(expected, &sink::<16>(i.output()));
}

#[test]
fn eof_noop() {
    let script = b">,>+++++++++,>+++++++++++[<++++++<++++++<+>>>-]<<.>.<<-.>.>.<<.";
    let mut i = new(script, b"\n", OverflowOptions::default(), EofMode::Noop);
    finish(&mut i).unwrap();

    let expected = b"LK\nLK\n\0\0\0\0\0\0\0\0\0\0";
    assert_eq!(expected, &sink::<16>(i.output()));
}

#[test]
fn cell_30k() {
    let script = b"++++[>++++++<-]>[>+++++>+++++++<<-]>>++++<[[>[[>>+
	<<-]<]>>>-]>-[>+>+<<-]>]+++++[>+++++++<<++>-]>.<<.";
    let mut i = new(script, b"", OverflowOptions::default(), EofMode::Set0);
    finish(&mut i).unwrap();

    assert_eq!(b"#\n\0\0", &sink::<4>(i.output()));
}

#[test]
fn rot13() {
    let input = b"~mlk zyx";
    let expected = b"~zyx mlk\0\0";
    let mut i = new(ROT13, input, OverflowOptions::default(), EofMode::Noop);
    finish(&mut i).unwrap();

    assert_eq!(expected, &sink::<10>(i.output()));
}

#[test]
fn head() {
    let input = b"1\n2\n3\n4\n5\n6\n7\n8\n9\n10\n11\n12n";
    let expected = b"1\n2\n3\n4\n5\n6\n7\n8\n9\n10\n";
    let mut i = new(HEAD, input, OverflowOptions::default(), EofMode::Noop);
    finish(&mut i).unwrap();

    let got = sink::<32>(i.output());
    assert_eq!(expected, &got[..expected.len()]);
    assert!(got[expected.len()..].iter().all(|&b| b == 0));
}

#[test]
fn hello_prefix() {
    let script = b"++++++++[>++++[>++>+++>+++>+<<<<-]>+>+>->>+[<]<-]>>.>---.+++++++..+++.";
    let mut i = new(script, b"", OverflowOptions::default(), EofMode::Noop);
    finish(&mut i).unwrap();
    assert_eq!(i.output().as_slice(), b"Hello");
}

#[test]
fn read_then_write_echoes() {
    let mut i = new(b",.", b"A", OverflowOptions::default(), EofMode::Noop);
    finish(&mut i).unwrap();
    assert_eq!(i.output().as_slice(), b"A");
}

#[test]
fn read_after_exhausted_input_keeps_cell() {
    let ops = parser::ops(b",.").unwrap();
    let mut first = Interpreter::new(
        ops.clone(),
        Io { input: b"A".to_vec(), output: Vec::new() },
        OverflowOptions::default(),
        EofMode::Noop,
        0,
        0,
    );
    finish(&mut first).unwrap();
    assert_eq!(first.output().as_slice(), b"A");

    let mut i = new(b",.,.", b"A", OverflowOptions::default(), EofMode::Noop);
    finish(&mut i).unwrap();
    assert_eq!(i.output().as_slice(), b"AA");
    assert_eq!(i.cell(0), b'A');
}

fn plus(n: usize) -> Vec<u8> {
    vec![b'+'; n]
}

#[test]
fn three_hundred_increments_wrap() {
    let mut i = new(&plus(300), b"", OverflowOptions { cell: Overflow::Wrap, ptr: Overflow::Check }, EofMode::Noop);
    finish(&mut i).unwrap();
    assert_eq!(i.cell(0), 44);
}

#[test]
fn three_hundred_increments_saturate() {
    let mut i = new(&plus(300), b"", OverflowOptions { cell: Overflow::Saturate, ptr: Overflow::Check }, EofMode::Noop);
    finish(&mut i).unwrap();
    assert_eq!(i.cell(0), 255);
}

#[test]
fn three_hundred_increments_check() {
    let mut script = plus(300);
    script.push(b'.');
    let mut i = new(&script, b"", OverflowOptions { cell: Overflow::Check, ptr: Overflow::Check }, EofMode::Noop);
    assert_eq!(finish(&mut i), Err(Error::AddOverflow { mem: 0, value: 300 }));
    assert!(i.output().is_empty());
}

#[test]
fn increments_below_the_boundary() {
    for mode in [Overflow::Wrap, Overflow::Saturate, Overflow::Check] {
        let mut i = new(&plus(255), b"", OverflowOptions { cell: mode, ptr: Overflow::Check }, EofMode::Noop);
        finish(&mut i).unwrap();
        assert_eq!(i.cell(0), 255);
    }
    let mut i = new(&plus(256), b"", OverflowOptions { cell: Overflow::Check, ptr: Overflow::Check }, EofMode::Noop);
    assert_eq!(finish(&mut i), Err(Error::AddOverflow { mem: 0, value: 256 }));
}

#[test]
fn checked_add_overflows_on_a_full_cell() {
    let mut i = new(b"+++++++++++++++[>+++++++++++++++++<-]>+", b"", OverflowOptions { cell: Overflow::Check, ptr: Overflow::Check }, EofMode::Noop);
    assert_eq!(finish(&mut i), Err(Error::AddOverflow { mem: 255, value: 1 }));
}

#[test]
fn decrement_policies() {
    let mut i = new(b"+++-----", b"", OverflowOptions { cell: Overflow::Wrap, ptr: Overflow::Check }, EofMode::Noop);
    finish(&mut i).unwrap();
    assert_eq!(i.cell(0), 254);

    let mut i = new(b"+++-----", b"", OverflowOptions { cell: Overflow::Saturate, ptr: Overflow::Check }, EofMode::Noop);
    finish(&mut i).unwrap();
    assert_eq!(i.cell(0), 0);

    let mut i = new(b"+++--", b"", OverflowOptions { cell: Overflow::Saturate, ptr: Overflow::Check }, EofMode::Noop);
    finish(&mut i).unwrap();
    assert_eq!(i.cell(0), 1);

    let mut i = new(b"+++-----", b"", OverflowOptions { cell: Overflow::Check, ptr: Overflow::Check }, EofMode::Noop);
    assert_eq!(finish(&mut i), Err(Error::SubOverflow { mem: 3, value: 5 }));
}

#[test]
fn left_pointer_policies() {
    let mut i = new(b"><<", b"", OverflowOptions { cell: Overflow::Wrap, ptr: Overflow::Check }, EofMode::Noop);
    assert_eq!(finish(&mut i), Err(Error::LeftDpOverflow { from: 1, amount: 2 }));

    let mut i = new(b"><<", b"", OverflowOptions { cell: Overflow::Wrap, ptr: Overflow::Saturate }, EofMode::Noop);
    finish(&mut i).unwrap();
    assert_eq!(i.data_pointer(), 0);

    let mut i = new(b"><<<", b"", OverflowOptions { cell: Overflow::Wrap, ptr: Overflow::Wrap }, EofMode::Noop);
    finish(&mut i).unwrap();
    assert_eq!(i.data_pointer(), 32768 - 2);
}

#[test]
fn memory_limit() {
    let mut script = vec![b'>'; 32768];
    script.push(b'+');
    let mut i = new(&script, b"", OverflowOptions::default(), EofMode::Noop);
    assert_eq!(finish(&mut i), Err(Error::Oom { have: 32768, want: 32768 }));

    let mut script = vec![b'>'; 40000];
    script.extend_from_slice(b"+.");
    let mut i = Interpreter::new(
        parser::ops(&script).unwrap(),
        Io { input: Vec::new(), output: Vec::new() },
        OverflowOptions::default(),
        EofMode::Noop,
        50000,
        0,
    );
    finish(&mut i).unwrap();
    assert_eq!(i.output().as_slice(), &[1u8]);
    assert_eq!(i.cell(40000), 1);
}

#[test]
fn writes_past_the_tape_read_zero() {
    let mut script = vec![b'>'; 40000];
    script.extend_from_slice(b"...[+]");
    let mut i = new(&script, b"", OverflowOptions::default(), EofMode::Noop);
    finish(&mut i).unwrap();
    assert_eq!(i.output().as_slice(), &[0u8, 0, 0]);
}

#[test]
fn eof_policies_after_exhaustion() {
    let mut i = new(b"+++,,.,.", b"", OverflowOptions::default(), EofMode::Noop);
    finish(&mut i).unwrap();
    assert_eq!(i.output().as_slice(), &[3u8, 3]);

    let mut i = new(b"+++,.+,.", b"", OverflowOptions::default(), EofMode::Set0);
    finish(&mut i).unwrap();
    assert_eq!(i.output().as_slice(), &[0u8, 0]);

    let mut i = new(b"+++.,.", b"", OverflowOptions::default(), EofMode::Terminate);
    assert_eq!(finish(&mut i), Err(Error::UnexpectedEof));
    assert_eq!(i.output().as_slice(), &[3u8]);
}

#[test]
fn collapsed_reads_keep_the_last_byte() {
    let mut i = new(b",,,.", b"xyz!", OverflowOptions::default(), EofMode::Noop);
    finish(&mut i).unwrap();
    assert_eq!(i.output().as_slice(), b"z");

    let mut i = new(b",,,.", b"xy", OverflowOptions::default(), EofMode::Noop);
    finish(&mut i).unwrap();
    assert_eq!(i.output().as_slice(), b"y");

    let mut i = new(b",,,.", b"xy", OverflowOptions::default(), EofMode::Set0);
    finish(&mut i).unwrap();
    assert_eq!(i.output().as_slice(), &[0u8]);
}

#[test]
fn limits_are_raised_to_their_least_values() {
    let i = new(b"", b"", OverflowOptions::default(), EofMode::Noop);
    assert_eq!(i.max_io(), 4);
    assert!(i.is_halted());
    let d = OverflowOptions::default();
    assert_eq!(d.cell, Overflow::Wrap);
    assert_eq!(d.ptr, Overflow::Check);
}

#[test]
fn streamed_input_waits_for_bytes() {
    let mut i = new(b",.,.,.", b"", OverflowOptions::default(), EofMode::Noop);
    i.open_input();
    assert_eq!(i.eval(), Ok(Status::NeedInput));
    assert!(i.is_blocked());
    assert_eq!(i.take_output(), Vec::<u8>::new());

    i.feed(b"a");
    assert_eq!(i.eval(), Ok(Status::Output));
    assert_eq!(i.take_output(), b"a".to_vec());
    assert_eq!(i.eval(), Ok(Status::NeedInput));

    i.feed(b"b");
    assert_eq!(i.eval(), Ok(Status::Output));
    assert_eq!(i.take_output(), b"b".to_vec());
    assert!(i.output().is_empty());
    assert_eq!(i.eval(), Ok(Status::NeedInput));

    i.close_input();
    assert!(!i.is_blocked());
    assert_eq!(i.eval(), Ok(Status::Output));
    assert_eq!(i.take_output(), b"b".to_vec());
    assert_eq!(i.eval(), Ok(Status::Halted));
}

#[test]
fn collapsed_read_waits_for_the_whole_run() {
    let mut i = new(b",,,.", b"", OverflowOptions::default(), EofMode::Noop);
    i.open_input();
    i.feed(b"xy");
    assert_eq!(i.eval(), Ok(Status::NeedInput));
    i.feed(b"z");
    assert_eq!(i.eval(), Ok(Status::Output));
    assert_eq!(i.output().as_slice(), b"z");
    assert_eq!(i.eval(), Ok(Status::Halted));
}

#[test]
fn endless_output_is_handed_back_write_by_write() {
    let mut i = new(b"+[.]", b"", OverflowOptions::default(), EofMode::Noop);
    for _ in 0..1000 {
        assert_eq!(i.eval(), Ok(Status::Output));
        assert_eq!(i.take_output(), vec![1u8]);
    }
}

#[test]
fn feeding_forgets_input_already_read() {
    let mut i = new(b",.,.", b"", OverflowOptions::default(), EofMode::Noop);
    i.open_input();
    i.feed(b"pq");
    assert_eq!(i.eval(), Ok(Status::Output));
    i.feed(b"r");
    assert_eq!(i.eval(), Ok(Status::Output));
    assert_eq!(i.take_output(), b"pq".to_vec());
    assert_eq!(i.eval(), Ok(Status::Halted));
}

#[test]
fn failed_read_at_end_of_input_writes_nothing_more() {
    let mut i = new(b"+.,,.", b"a", OverflowOptions::default(), EofMode::Terminate);
    assert_eq!(finish(&mut i), Err(Error::UnexpectedEof));
    assert_eq!(i.output().as_slice(), &[1u8]);
}

#[test]
fn cell_arithmetic_by_policy() {
    assert_eq!(Interpreter::add(Overflow::Wrap, 200, 300), Ok(244));
    assert_eq!(Interpreter::add(Overflow::Saturate, 200, 30), Ok(230));
    assert_eq!(Interpreter::add(Overflow::Saturate, 200, 300), Ok(255));
    assert_eq!(Interpreter::add(Overflow::Check, 200, 55), Ok(255));
    assert_eq!(Interpreter::add(Overflow::Check, 200, 56), Err(Error::AddOverflow { mem: 200, value: 56 }));
    assert_eq!(Interpreter::sub(Overflow::Wrap, 2, 259), Ok(255));
    assert_eq!(Interpreter::sub(Overflow::Saturate, 2, 3), Ok(0));
    assert_eq!(Interpreter::sub(Overflow::Check, 2, 3), Err(Error::SubOverflow { mem: 2, value: 3 }));
    assert_eq!(Interpreter::left(Overflow::Wrap, 1, 5, 10), Ok(6));
    assert_eq!(Interpreter::left(Overflow::Wrap, 1, 11, 10), Ok(0));
    assert_eq!(Interpreter::left(Overflow::Saturate, 1, 5, 10), Ok(0));
    assert_eq!(Interpreter::left(Overflow::Check, 1, 5, 10), Err(Error::LeftDpOverflow { from: 1, amount: 5 }));
}
