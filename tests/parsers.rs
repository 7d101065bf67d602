use whitespace_jit::command::{Command, IMP};
use whitespace_jit::label::Label;
use whitespace_jit::parser::{
    arithmetic, command, flow, heap, imp, io, literal_char, number, program, stack, ParseError,
    ParseFailure,
};

const NP: &str = "string not parsed";

#[test]
fn test_literal_char() {
    assert_eq!(literal_char(b"\t"), Some(true), "tab not recognized");
    assert_eq!(literal_char(b" "), Some(false), "space not recognized");

    assert!(literal_char(b"\n").is_none(), "newline mistakenly recognized");
}

#[test]
fn test_number() {
    assert_eq!(number(b" \t  \n").map(|r| r.0), Ok(4), "{}", NP);
    assert_eq!(number(b" \t \t\n").map(|r| r.0), Ok(5), "{}", NP);
    assert_eq!(number(b"\t\t \t \t \n").map(|r| r.0), Ok(-42), "{}", NP);

    assert!(number(b"\n \n").is_err(), "newline literal mistakenly recognized");
}

#[test]
fn test_imp() {
    assert_eq!(imp(b"   \t\n").map(|r| r.0), Ok(IMP::Stack), "{}", NP);
    assert_eq!(imp(b"\n\n\n").map(|r| r.0), Ok(IMP::Flow), "{}", NP);
    assert_eq!(imp(b"\t   ").map(|r| r.0), Ok(IMP::Arithmetic), "{}", NP);
    assert_eq!(imp(b"\t\t  \t\n").map(|r| r.0), Ok(IMP::Heap), "{}", NP);
    assert_eq!(imp(b"\t\n  ").map(|r| r.0), Ok(IMP::IO), "{}", NP);
}

#[test]
fn test_stack() {
    assert_eq!(stack(b"  \t \t \t \n").map(|r| r.0), Ok(Command::Push(42)), "{}", NP);
    assert_eq!(stack(b"\n ").map(|r| r.0), Ok(Command::Duplicate), "{}", NP);
    assert_eq!(stack(b"\n\t").map(|r| r.0), Ok(Command::Swap), "{}", NP);
    assert_eq!(stack(b"\n\n").map(|r| r.0), Ok(Command::Pop), "{}", NP);

    assert!(stack(b" \t ").is_err(), "\" \\t\" mistakenly identified as stack");
}

#[test]
fn test_arithmetic() {
    assert_eq!(arithmetic(b"  ").map(|r| r.0), Ok(Command::Add), "{}", NP);
    assert_eq!(arithmetic(b" \t").map(|r| r.0), Ok(Command::Subtract), "{}", NP);
    assert_eq!(arithmetic(b" \n").map(|r| r.0), Ok(Command::Multiply), "{}", NP);
    assert_eq!(arithmetic(b"\t ").map(|r| r.0), Ok(Command::Divide), "{}", NP);
    assert_eq!(arithmetic(b"\t\t").map(|r| r.0), Ok(Command::Modulus), "{}", NP);

    assert!(arithmetic(b"\t\n").is_err(), "\"\\t\\n\" mistakenly identified as arithmetic");
}

#[test]
fn test_heap() {
    assert_eq!(heap(b" ").map(|r| r.0), Ok(Command::Store), "{}", NP);
    assert_eq!(heap(b"\t").map(|r| r.0), Ok(Command::Retrieve), "{}", NP);

    assert!(heap(b"\n").is_err(), "\"\\n\" mistakenly identified as heap");
}

#[test]
fn test_flow() {
    let name = || Label::Name(vec![false, true]);
    assert_eq!(flow(b"   \t\n").map(|r| r.0), Ok(Command::Mark(name())), "{}", NP);
    assert_eq!(flow(b" \t \t\n").map(|r| r.0), Ok(Command::Call(name())), "{}", NP);
    assert_eq!(flow(b" \n \t\n").map(|r| r.0), Ok(Command::Jump(name())), "{}", NP);
    assert_eq!(flow(b"\t  \t\n").map(|r| r.0), Ok(Command::JumpZero(name())), "{}", NP);
    assert_eq!(flow(b"\t\t \t\n").map(|r| r.0), Ok(Command::JumpNegative(name())), "{}", NP);
    assert_eq!(flow(b"\t\n").map(|r| r.0), Ok(Command::Return), "{}", NP);
    assert_eq!(flow(b"\n\n").map(|r| r.0), Ok(Command::Exit), "{}", NP);

    assert!(flow(b"\n ").is_err(), "\"\\n \" mistakenly identified as flow");
}

#[test]
fn test_io() {
    assert_eq!(io(b"  ").map(|r| r.0), Ok(Command::OutputChar), "{}", NP);
    assert_eq!(io(b" \t").map(|r| r.0), Ok(Command::OutputNum), "{}", NP);
    assert_eq!(io(b"\t ").map(|r| r.0), Ok(Command::ReadChar), "{}", NP);
    assert_eq!(io(b"\t\t").map(|r| r.0), Ok(Command::ReadNum), "{}", NP);

    assert!(io(b"\n\n").is_err(), "\"\\n\\n\" mistakenly identified as io");
}

#[test]
fn test_command() {
    assert_eq!(command(b"\n\n\n").map(|r| r.0), Ok(Command::Exit), "{}", NP);
    assert_eq!(command(b"\t  \t").map(|r| r.0), Ok(Command::Subtract), "{}", NP);
    assert_eq!(command(b"   \t \t \n").map(|r| r.0), Ok(Command::Push(10)), "{}", NP);
    assert_eq!(
        command(b"\n   \t    \t\t\n").map(|r| r.0),
        Ok(Command::Mark(Label::Name(vec![false, true, false, false, false, false, true, true]))),
        "{}",
        NP
    );
    assert_eq!(
        command(b"\n\t  \t   \t \t\n").map(|r| r.0),
        Ok(Command::JumpZero(Label::Name(vec![
            false, true, false, false, false, true, false, true
        ]))),
        "{}",
        NP
    );

    assert!(command(b"\t\n \n").is_err(), "\"\\t\\n \\t\" mistakenly identified as command");
}

#[test]
fn test_program() {
    assert_eq!(
        program(b"   \t\n\n   \t    \t\t\n \n  \n\n\n\n\n"),
        Ok(vec![
            Command::Push(1),
            Command::Mark(Label::Name(vec![false, true, false, false, false, false, true, true])),
            Command::Duplicate,
            Command::Pop,
            Command::Exit,
        ]),
        "{}",
        NP
    );

    assert_eq!(
        program(b"\t\n \t   \t \t \n\t\n     \t\n\t   "),
        Ok(vec![
            Command::OutputNum,
            Command::Push(10),
            Command::OutputChar,
            Command::Push(1),
            Command::Add,
        ]),
        "{}",
        NP
    );
}

#[test]
fn comments_are_skipped() {
    assert_eq!(
        program(b"push1:[ ][ ][ ][\t]\n,dup:[ \n ]"),
        Ok(vec![Command::Push(1), Command::Duplicate])
    );
    assert_eq!(program(b""), Ok(vec![]));
    assert_eq!(program(b"only_a_comment"), Ok(vec![]));
}

#[test]
fn consumed_counts() {
    assert_eq!(number(b" \t  \n"), Ok((4, 5)));
    assert_eq!(number(b"x \ty\n"), Ok((1, 3)));
    assert_eq!(command(b"   \t\n  "), Ok((Command::Push(1), 5)));
}

#[test]
fn zero_and_empty_operands() {
    // a sign with no magnitude bits is zero
    assert_eq!(number(b" \n").map(|r| r.0), Ok(0));
    assert_eq!(number(b"\t\n").map(|r| r.0), Ok(0));
    // an empty label is a label
    assert_eq!(flow(b"  \n").map(|r| r.0), Ok(Command::Mark(Label::Name(vec![]))));
}

#[test]
fn number_range() {
    let mut max = vec![b' '];
    max.extend(std::iter::repeat(b'\t').take(63));
    max.push(b'\n');
    assert_eq!(number(&max).map(|r| r.0), Ok(i64::MAX));

    let mut min = vec![b'\t', b'\t'];
    min.extend(std::iter::repeat(b' ').take(63));
    min.push(b'\n');
    assert_eq!(number(&min).map(|r| r.0), Ok(i64::MIN));

    let mut over = vec![b' ', b'\t'];
    over.extend(std::iter::repeat(b' ').take(63));
    over.push(b'\n');
    assert_eq!(number(&over), Err(ParseFailure::NumberOutOfRange));

    // leading zero bits do not count against the range
    let mut padded = vec![b' '];
    padded.extend(std::iter::repeat(b' ').take(100));
    padded.extend(b"\t \t\n");
    assert_eq!(number(&padded).map(|r| r.0), Ok(5));
}

#[test]
fn parse_failures() {
    assert_eq!(number(b"\n"), Err(ParseFailure::MissingSign));
    assert_eq!(number(b" \t\t"), Err(ParseFailure::Truncated));
    assert_eq!(
        program(b"   \t\n\t"),
        Err(ParseError { offset: 5, reason: ParseFailure::Truncated })
    );
    assert_eq!(
        program(b"ab   \t\n\n\t "),
        Err(ParseError { offset: 7, reason: ParseFailure::Truncated })
    );
    assert_eq!(
        program(b"ab   \t\n\n\n "),
        Err(ParseError { offset: 7, reason: ParseFailure::UnknownOpcode })
    );
    assert_eq!(
        program(b"   \t\n \t\t"),
        Err(ParseError { offset: 5, reason: ParseFailure::UnknownOpcode })
    );
    assert_eq!(
        program(b"  \n"),
        Err(ParseError { offset: 0, reason: ParseFailure::MissingSign })
    );
}
