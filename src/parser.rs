//! The Whitespace grammar: from source bytes to instructions.
//!
//! Only space, tab and newline carry meaning; every other byte is a comment
//! and is dropped before parsing. Each parser below reads a sequence of
//! those whitespace tokens from its start and says how many it consumed.

use vstd::prelude::*;
use crate::command::{Command, CommandView, IMP};
use crate::label::{Label, LabelView, Number};

verus! {

/// Space: a zero bit, a plus sign.
pub const SP: u8 = 0x20;
/// Tab: a one bit, a minus sign.
pub const TB: u8 = 0x09;
/// Newline: ends numbers and labels.
pub const LF: u8 = 0x0a;

/// Why a parse failed.
#[derive(Clone, Copy, Debug, PartialEq, Eq, Structural)]
pub enum ParseFailure {
    /// The input ended inside an instruction.
    Truncated,
    /// The tokens after an IMP name no instruction.
    UnknownOpcode,
    /// A number starts with a newline, where its sign belongs.
    MissingSign,
    /// A number's value lies outside the range of a signed 64-bit integer.
    NumberOutOfRange,
}

/// A failed parse of a program: the byte offset in the source at which the
/// malformed instruction starts, and why it is malformed.
#[derive(Clone, Copy, Debug, PartialEq, Eq, Structural)]
pub struct ParseError {
    pub offset: usize,
    pub reason: ParseFailure,
}

pub open spec fn is_ws(b: u8) -> bool {
    b == SP || b == TB || b == LF
}

/// The whitespace tokens of a source, in order.
pub open spec fn tokens(s: Seq<u8>) -> Seq<u8>
    decreases s.len(),
{
    if s.len() == 0 {
        Seq::empty()
    } else if is_ws(s.last()) {
        tokens(s.drop_last()).push(s.last())
    } else {
        tokens(s.drop_last())
    }
}

/// The byte offset in the source of each whitespace token.
pub open spec fn token_offsets(s: Seq<u8>) -> Seq<int>
    decreases s.len(),
{
    if s.len() == 0 {
        Seq::empty()
    } else if is_ws(s.last()) {
        token_offsets(s.drop_last()).push(s.len() - 1)
    } else {
        token_offsets(s.drop_last())
    }
}

/// The bits that tokens stand for: tab is one, anything else zero.
pub open spec fn bits_of(t: Seq<u8>) -> Seq<bool> {
    t.map_values(|b: u8| b == TB)
}

/// The value of a bit-string read most significant bit first.
pub open spec fn bits_value(b: Seq<bool>) -> nat
    decreases b.len(),
{
    if b.len() == 0 {
        0
    } else {
        2 * bits_value(b.drop_last()) + (if b.last() { 1nat } else { 0nat })
    }
}

/// The index of the first newline, or the length where there is none.
pub open spec fn first_lf(t: Seq<u8>) -> nat
    decreases t.len(),
{
    if t.len() == 0 {
        0
    } else if t[0] == LF {
        0
    } else {
        1 + first_lf(t.subrange(1, t.len() as int))
    }
}

/// One bit: space or tab.
pub open spec fn literal_char_spec(t: Seq<u8>) -> Option<bool> {
    if t.len() > 0 && t[0] != LF {
        Some(t[0] == TB)
    } else {
        None
    }
}

/// A label: bits up to a newline, which is consumed too.
pub open spec fn label_spec(t: Seq<u8>) -> Result<(Seq<bool>, nat), ParseFailure> {
    let j = first_lf(t);
    if j >= t.len() {
        Err(ParseFailure::Truncated)
    } else {
        Ok((bits_of(t.subrange(0, j as int)), j + 1))
    }
}

/// A number: a sign (space plus, tab minus), then the magnitude's bits, most
/// significant first, up to a newline.
pub open spec fn number_spec(t: Seq<u8>) -> Result<(Number, nat), ParseFailure> {
    if t.len() == 0 {
        Err(ParseFailure::Truncated)
    } else if t[0] == LF {
        Err(ParseFailure::MissingSign)
    } else {
        let rest = t.subrange(1, t.len() as int);
        let j = first_lf(rest);
        if j >= rest.len() {
            Err(ParseFailure::Truncated)
        } else {
            let mag = bits_value(bits_of(rest.subrange(0, j as int)));
            let v: int = if t[0] == TB { -mag } else { mag as int };
            if i64::MIN <= v <= i64::MAX {
                Ok((v as Number, j + 2))
            } else {
                Err(ParseFailure::NumberOutOfRange)
            }
        }
    }
}

/// An IMP: space, tab-space, tab-tab, newline or tab-newline.
pub open spec fn imp_spec(t: Seq<u8>) -> Result<(IMP, nat), ParseFailure> {
    if t.len() == 0 {
        Err(ParseFailure::Truncated)
    } else if t[0] == LF {
        Ok((IMP::Flow, 1))
    } else if t[0] != TB {
        Ok((IMP::Stack, 1))
    } else if t.len() < 2 {
        Err(ParseFailure::Truncated)
    } else if t[1] == LF {
        Ok((IMP::IO, 2))
    } else if t[1] == TB {
        Ok((IMP::Heap, 2))
    } else {
        Ok((IMP::Arithmetic, 2))
    }
}

/// The tokens after the first `k`.
pub open spec fn after(t: Seq<u8>, k: int) -> Seq<u8> {
    t.subrange(k, t.len() as int)
}

/// An instruction whose number operand follows the first `k` tokens.
pub open spec fn with_number(
    t: Seq<u8>,
    k: nat,
    make: spec_fn(Number) -> CommandView,
) -> Result<(CommandView, nat), ParseFailure> {
    match number_spec(after(t, k as int)) {
        Ok((n, m)) => Ok((make(n), k + m)),
        Err(f) => Err(f),
    }
}

/// An instruction whose label operand follows the first `k` tokens.
pub open spec fn with_label(
    t: Seq<u8>,
    k: nat,
    make: spec_fn(LabelView) -> CommandView,
) -> Result<(CommandView, nat), ParseFailure> {
    match label_spec(after(t, k as int)) {
        Ok((l, m)) => Ok((make(LabelView::Name(l)), k + m)),
        Err(f) => Err(f),
    }
}

/// A stack instruction, after its IMP.
pub open spec fn stack_spec(t: Seq<u8>) -> Result<(CommandView, nat), ParseFailure> {
    if t.len() == 0 {
        Err(ParseFailure::Truncated)
    } else if t[0] != TB && t[0] != LF {
        with_number(t, 1, |n: Number| CommandView::Push(n))
    } else if t.len() < 2 {
        Err(ParseFailure::Truncated)
    } else if t[0] == LF {
        if t[1] == LF {
            Ok((CommandView::Pop, 2))
        } else if t[1] == TB {
            Ok((CommandView::Swap, 2))
        } else {
            Ok((CommandView::Duplicate, 2))
        }
    } else if t[1] == LF {
        with_number(t, 2, |n: Number| CommandView::Slide(n))
    } else if t[1] == TB {
        Err(ParseFailure::UnknownOpcode)
    } else {
        with_number(t, 2, |n: Number| CommandView::Copy(n))
    }
}

/// An arithmetic instruction, after its IMP.
pub open spec fn arithmetic_spec(t: Seq<u8>) -> Result<(CommandView, nat), ParseFailure> {
    if t.len() == 0 {
        Err(ParseFailure::Truncated)
    } else if t[0] == LF {
        Err(ParseFailure::UnknownOpcode)
    } else if t.len() < 2 {
        Err(ParseFailure::Truncated)
    } else if t[0] == TB {
        if t[1] == LF {
            Err(ParseFailure::UnknownOpcode)
        } else if t[1] == TB {
            Ok((CommandView::Modulus, 2))
        } else {
            Ok((CommandView::Divide, 2))
        }
    } else if t[1] == LF {
        Ok((CommandView::Multiply, 2))
    } else if t[1] == TB {
        Ok((CommandView::Subtract, 2))
    } else {
        Ok((CommandView::Add, 2))
    }
}

/// A heap instruction, after its IMP.
pub open spec fn heap_spec(t: Seq<u8>) -> Result<(CommandView, nat), ParseFailure> {
    if t.len() == 0 {
        Err(ParseFailure::Truncated)
    } else if t[0] == LF {
        Err(ParseFailure::UnknownOpcode)
    } else if t[0] == TB {
        Ok((CommandView::Retrieve, 1))
    } else {
        Ok((CommandView::Store, 1))
    }
}

/// A flow control instruction, after its IMP.
pub open spec fn flow_spec(t: Seq<u8>) -> Result<(CommandView, nat), ParseFailure> {
    if t.len() < 2 {
        Err(ParseFailure::Truncated)
    } else if t[0] == LF {
        if t[1] == LF {
            Ok((CommandView::Exit, 2))
        } else {
            Err(ParseFailure::UnknownOpcode)
        }
    } else if t[0] == TB {
        if t[1] == LF {
            Ok((CommandView::Return, 2))
        } else if t[1] == TB {
            with_label(t, 2, |l: LabelView| CommandView::JumpNegative(l))
        } else {
            with_label(t, 2, |l: LabelView| CommandView::JumpZero(l))
        }
    } else if t[1] == LF {
        with_label(t, 2, |l: LabelView| CommandView::Jump(l))
    } else if t[1] == TB {
        with_label(t, 2, |l: LabelView| CommandView::Call(l))
    } else {
        with_label(t, 2, |l: LabelView| CommandView::Mark(l))
    }
}

/// An I/O instruction, after its IMP.
pub open spec fn io_spec(t: Seq<u8>) -> Result<(CommandView, nat), ParseFailure> {
    if t.len() == 0 {
        Err(ParseFailure::Truncated)
    } else if t[0] == LF {
        Err(ParseFailure::UnknownOpcode)
    } else if t.len() < 2 {
        Err(ParseFailure::Truncated)
    } else if t[1] == LF {
        Err(ParseFailure::UnknownOpcode)
    } else if t[0] == TB {
        if t[1] == TB {
            Ok((CommandView::ReadNum, 2))
        } else {
            Ok((CommandView::ReadChar, 2))
        }
    } else if t[1] == TB {
        Ok((CommandView::OutputNum, 2))
    } else {
        Ok((CommandView::OutputChar, 2))
    }
}

/// The instruction of the given family after its IMP.
pub open spec fn opcode_spec(imp: IMP, t: Seq<u8>) -> Result<(CommandView, nat), ParseFailure> {
    match imp {
        IMP::Stack => stack_spec(t),
        IMP::Arithmetic => arithmetic_spec(t),
        IMP::Heap => heap_spec(t),
        IMP::Flow => flow_spec(t),
        IMP::IO => io_spec(t),
    }
}

/// One whole instruction: an IMP, an opcode, and an operand where the
/// opcode takes one.
pub open spec fn command_spec(t: Seq<u8>) -> Result<(CommandView, nat), ParseFailure> {
    match imp_spec(t) {
        Ok((imp, k)) => match opcode_spec(imp, after(t, k as int)) {
            Ok((c, m)) => Ok((c, k + m)),
            Err(f) => Err(f),
        },
        Err(f) => Err(f),
    }
}

/// Instructions one after another up to the end of the tokens. A failure
/// carries the index of the token at which the malformed instruction starts.
pub open spec fn program_spec(t: Seq<u8>) -> Result<Seq<CommandView>, (int, ParseFailure)>
    decreases t.len(),
{
    if t.len() == 0 {
        Ok(Seq::empty())
    } else {
        match command_spec(t) {
            Ok((c, k)) => if 0 < k <= t.len() {
                match program_spec(after(t, k as int)) {
                    Ok(cs) => Ok(seq![c] + cs),
                    Err((i, f)) => Err((i + k, f)),
                }
            } else {
                Err((0, ParseFailure::Truncated))
            },
            Err(f) => Err((0, f)),
        }
    }
}

/// A whole source: its instructions, or the byte offset at which the first
/// malformed instruction starts and why it is malformed.
pub open spec fn parse_spec(s: Seq<u8>) -> Result<Seq<CommandView>, (int, ParseFailure)> {
    match program_spec(tokens(s)) {
        Ok(cs) => Ok(cs),
        Err((i, f)) => Err((token_offsets(s)[i], f)),
    }
}

/// The models of a sequence of instructions.
pub open spec fn views(cs: Seq<Command>) -> Seq<CommandView> {
    cs.map_values(|c: Command| c@)
}

/// The whitespace tokens of `input` and the byte offset of each.
pub fn tokenize(input: &[u8]) -> (r: (Vec<u8>, Vec<usize>))
    ensures
        r.0@ == tokens(input@),
        r.1@.len() == token_offsets(input@).len(),
        forall|k: int| 0 <= k < r.1@.len() ==> r.1@[k] as int == token_offsets(input@)[k],
{
    let mut t: Vec<u8> = Vec::new();
    let mut offs: Vec<usize> = Vec::new();
    let mut i: usize = 0;
    while i < input.len()
        invariant
            i <= input@.len(),
            t@ == tokens(input@.subrange(0, i as int)),
            offs@.len() == token_offsets(input@.subrange(0, i as int)).len(),
            forall|k: int|
                0 <= k < offs@.len() ==> offs@[k] as int == token_offsets(
                    input@.subrange(0, i as int),
                )[k],
        decreases input@.len() - i,
    {
        let b = input[i];
        let ghost prefix = input@.subrange(0, i as int + 1);
        assert(prefix.drop_last() =~= input@.subrange(0, i as int));
        if b == SP || b == TB || b == LF {
            t.push(b);
            offs.push(i);
        }
        i = i + 1;
    }
    assert(input@.subrange(0, input@.len() as int) =~= input@);
    (t, offs)
}

/// The index of the first newline at or after `i`, or the length.
fn find_lf(t: &Vec<u8>, i: usize) -> (j: usize)
    requires
        i <= t@.len(),
    ensures
        j == i + first_lf(after(t@, i as int)),
        i <= j <= t@.len(),
{
    let mut j: usize = i;
    while j < t.len() && t[j] != LF
        invariant
            i <= j <= t@.len(),
            i + first_lf(after(t@, i as int)) == j + first_lf(after(t@, j as int)),
        decreases t@.len() - j,
    {
        assert(after(after(t@, j as int), 1) =~= after(t@, j as int + 1));
        j = j + 1;
    }
    j
}

/// The bits of the tokens from `a` to `b`.
fn bits_between(t: &Vec<u8>, a: usize, b: usize) -> (r: Vec<bool>)
    requires
        a <= b <= t@.len(),
    ensures
        r@ == bits_of(t@.subrange(a as int, b as int)),
{
    let mut r: Vec<bool> = Vec::new();
    let mut k: usize = a;
    while k < b
        invariant
            a <= k <= b <= t@.len(),
            r@ == bits_of(t@.subrange(a as int, k as int)),
        decreases b - k,
    {
        r.push(t[k] == TB);
        k = k + 1;
        assert(r@ =~= bits_of(t@.subrange(a as int, k as int)));
    }
    r
}

/// The magnitude of the bits from `a` to `b`: `None` when it exceeds 2^63.
fn magnitude(t: &Vec<u8>, a: usize, b: usize) -> (r: Option<u64>)
    requires
        a <= b <= t@.len(),
    ensures
        match r {
            Some(m) => m == bits_value(bits_of(t@.subrange(a as int, b as int))) && m
                <= 0x8000_0000_0000_0000u64,
            None => bits_value(bits_of(t@.subrange(a as int, b as int)))
                > 0x8000_0000_0000_0000u64,
        },
{
    let mut mag: u64 = 0;
    let mut big = false;
    let mut k: usize = a;
    while k < b
        invariant
            a <= k <= b <= t@.len(),
            big ==> bits_value(bits_of(t@.subrange(a as int, k as int)))
                > 0x8000_0000_0000_0000u64,
            !big ==> mag == bits_value(bits_of(t@.subrange(a as int, k as int))) && mag
                <= 0x8000_0000_0000_0000u64,
        decreases b - k,
    {
        let bit: u64 = if t[k] == TB {
            1
        } else {
            0
        };
        proof {
            let bs = bits_of(t@.subrange(a as int, k as int + 1));
            assert(bs.drop_last() =~= bits_of(t@.subrange(a as int, k as int)));
            assert(bits_value(bs) == 2 * bits_value(bs.drop_last()) + bit);
        }
        if !big {
            if mag > 0x4000_0000_0000_0000 {
                big = true;
            } else {
                mag = mag * 2 + bit;
                if mag > 0x8000_0000_0000_0000 {
                    big = true;
                }
            }
        }
        k = k + 1;
    }
    if big {
        None
    } else {
        Some(mag)
    }
}

/// Parses a label at token `i`; the count is of the tokens consumed.
fn label_at(t: &Vec<u8>, i: usize) -> (r: Result<(Vec<bool>, usize), ParseFailure>)
    requires
        i <= t@.len(),
    ensures
        match r {
            Ok((l, k)) => label_spec(after(t@, i as int)) == Ok::<(Seq<bool>, nat), ParseFailure>(
                (l@, k as nat),
            ) && 0 < k <= t@.len() - i,
            Err(f) => label_spec(after(t@, i as int)) == Err::<(Seq<bool>, nat), ParseFailure>(
                f,
            ),
        },
{
    let j = find_lf(t, i);
    if j >= t.len() {
        return Err(ParseFailure::Truncated);
    }
    let bits = bits_between(t, i, j);
    assert(after(t@, i as int).subrange(0, j - i) =~= t@.subrange(i as int, j as int));
    Ok((bits, j - i + 1))
}

/// Parses a number at token `i`; the count is of the tokens consumed.
fn number_at(t: &Vec<u8>, i: usize) -> (r: Result<(Number, usize), ParseFailure>)
    requires
        i <= t@.len(),
    ensures
        match r {
            Ok((n, k)) => number_spec(after(t@, i as int)) == Ok::<(Number, nat), ParseFailure>(
                (n, k as nat),
            ) && 0 < k <= t@.len() - i,
            Err(f) => number_spec(after(t@, i as int)) == Err::<(Number, nat), ParseFailure>(f),
        },
{
    if i >= t.len() {
        return Err(ParseFailure::Truncated);
    }
    let sign = t[i];
    if sign == LF {
        return Err(ParseFailure::MissingSign);
    }
    let j = find_lf(t, i + 1);
    assert(after(after(t@, i as int), 1) =~= after(t@, i as int + 1));
    if j >= t.len() {
        return Err(ParseFailure::Truncated);
    }
    assert(after(after(t@, i as int), 1).subrange(0, j - i - 1) =~= t@.subrange(
        i as int + 1,
        j as int,
    ));
    match magnitude(t, i + 1, j) {
        None => Err(ParseFailure::NumberOutOfRange),
        Some(m) => {
            if sign == TB {
                if m == 0x8000_0000_0000_0000 {
                    Ok((i64::MIN, j - i + 1))
                } else {
                    Ok((-(m as i64), j - i + 1))
                }
            } else if m > 0x7fff_ffff_ffff_ffff {
                Err(ParseFailure::NumberOutOfRange)
            } else {
                Ok((m as i64, j - i + 1))
            }
        },
    }
}

/// Parses an IMP at token `i`.
fn imp_at(t: &Vec<u8>, i: usize) -> (r: Result<(IMP, usize), ParseFailure>)
    requires
        i <= t@.len(),
    ensures
        match r {
            Ok((m, k)) => imp_spec(after(t@, i as int)) == Ok::<(IMP, nat), ParseFailure>(
                (m, k as nat),
            ) && 0 < k <= t@.len() - i,
            Err(f) => imp_spec(after(t@, i as int)) == Err::<(IMP, nat), ParseFailure>(f),
        },
{
    if i >= t.len() {
        Err(ParseFailure::Truncated)
    } else if t[i] == LF {
        Ok((IMP::Flow, 1))
    } else if t[i] != TB {
        Ok((IMP::Stack, 1))
    } else if t.len() - i < 2 {
        Err(ParseFailure::Truncated)
    } else if t[i + 1] == LF {
        Ok((IMP::IO, 2))
    } else if t[i + 1] == TB {
        Ok((IMP::Heap, 2))
    } else {
        Ok((IMP::Arithmetic, 2))
    }
}

/// Whether an executable parse result is the one that the grammar gives.
pub open spec fn command_result(
    r: Result<(Command, usize), ParseFailure>,
    s: Result<(CommandView, nat), ParseFailure>,
    room: int,
) -> bool {
    match r {
        Ok((c, k)) => s == Ok::<(CommandView, nat), ParseFailure>((c@, k as nat)) && 0 < k
            <= room,
        Err(f) => s == Err::<(CommandView, nat), ParseFailure>(f),
    }
}

/// Parses the operand of an instruction that takes a number.
fn number_operand(t: &Vec<u8>, i: usize, k: usize, which: u8) -> (r: Result<
    (Command, usize),
    ParseFailure,
>)
    requires
        i + k <= t.len(),
        which < 3,
    ensures
        command_result(
            r,
            with_number(
                after(t@, i as int),
                k as nat,
                |n: Number|
                    if which == 0 {
                        CommandView::Push(n)
                    } else if which == 1 {
                        CommandView::Copy(n)
                    } else {
                        CommandView::Slide(n)
                    },
            ),
            t@.len() - i,
        ),
{
    assert(after(after(t@, i as int), k as int) =~= after(t@, (i + k) as int));
    match number_at(t, i + k) {
        Ok((n, m)) => {
            let c = if which == 0 {
                Command::Push(n)
            } else if which == 1 {
                Command::Copy(n)
            } else {
                Command::Slide(n)
            };
            Ok((c, k + m))
        },
        Err(f) => Err(f),
    }
}

/// Parses the operand of an instruction that takes a label.
fn label_operand(t: &Vec<u8>, i: usize, k: usize, which: u8) -> (r: Result<
    (Command, usize),
    ParseFailure,
>)
    requires
        i + k <= t.len(),
        which < 5,
    ensures
        command_result(
            r,
            with_label(
                after(t@, i as int),
                k as nat,
                |l: LabelView|
                    if which == 0 {
                        CommandView::Mark(l)
                    } else if which == 1 {
                        CommandView::Call(l)
                    } else if which == 2 {
                        CommandView::Jump(l)
                    } else if which == 3 {
                        CommandView::JumpZero(l)
                    } else {
                        CommandView::JumpNegative(l)
                    },
            ),
            t@.len() - i,
        ),
{
    assert(after(after(t@, i as int), k as int) =~= after(t@, (i + k) as int));
    match label_at(t, i + k) {
        Ok((bits, m)) => {
            let l = Label::Name(bits);
            let c = if which == 0 {
                Command::Mark(l)
            } else if which == 1 {
                Command::Call(l)
            } else if which == 2 {
                Command::Jump(l)
            } else if which == 3 {
                Command::JumpZero(l)
            } else {
                Command::JumpNegative(l)
            };
            Ok((c, k + m))
        },
        Err(f) => Err(f),
    }
}

/// Parses a stack instruction at token `i`.
fn stack_at(t: &Vec<u8>, i: usize) -> (r: Result<(Command, usize), ParseFailure>)
    requires
        i <= t@.len(),
    ensures
        command_result(r, stack_spec(after(t@, i as int)), t@.len() - i),
{
    if i >= t.len() {
        Err(ParseFailure::Truncated)
    } else if t[i] != TB && t[i] != LF {
        number_operand(t, i, 1, 0)
    } else if t.len() - i < 2 {
        Err(ParseFailure::Truncated)
    } else if t[i] == LF {
        if t[i + 1] == LF {
            Ok((Command::Pop, 2))
        } else if t[i + 1] == TB {
            Ok((Command::Swap, 2))
        } else {
            Ok((Command::Duplicate, 2))
        }
    } else if t[i + 1] == LF {
        number_operand(t, i, 2, 2)
    } else if t[i + 1] == TB {
        Err(ParseFailure::UnknownOpcode)
    } else {
        number_operand(t, i, 2, 1)
    }
}

/// Parses an arithmetic instruction at token `i`.
fn arithmetic_at(t: &Vec<u8>, i: usize) -> (r: Result<(Command, usize), ParseFailure>)
    requires
        i <= t@.len(),
    ensures
        command_result(r, arithmetic_spec(after(t@, i as int)), t@.len() - i),
{
    if i >= t.len() {
        Err(ParseFailure::Truncated)
    } else if t[i] == LF {
        Err(ParseFailure::UnknownOpcode)
    } else if t.len() - i < 2 {
        Err(ParseFailure::Truncated)
    } else if t[i] == TB {
        if t[i + 1] == LF {
            Err(ParseFailure::UnknownOpcode)
        } else if t[i + 1] == TB {
            Ok((Command::Modulus, 2))
        } else {
            Ok((Command::Divide, 2))
        }
    } else if t[i + 1] == LF {
        Ok((Command::Multiply, 2))
    } else if t[i + 1] == TB {
        Ok((Command::Subtract, 2))
    } else {
        Ok((Command::Add, 2))
    }
}

/// Parses a heap instruction at token `i`.
fn heap_at(t: &Vec<u8>, i: usize) -> (r: Result<(Command, usize), ParseFailure>)
    requires
        i <= t@.len(),
    ensures
        command_result(r, heap_spec(after(t@, i as int)), t@.len() - i),
{
    if i >= t.len() {
        Err(ParseFailure::Truncated)
    } else if t[i] == LF {
        Err(ParseFailure::UnknownOpcode)
    } else if t[i] == TB {
        Ok((Command::Retrieve, 1))
    } else {
        Ok((Command::Store, 1))
    }
}

/// Parses a flow control instruction at token `i`.
fn flow_at(t: &Vec<u8>, i: usize) -> (r: Result<(Command, usize), ParseFailure>)
    requires
        i <= t@.len(),
    ensures
        command_result(r, flow_spec(after(t@, i as int)), t@.len() - i),
{
    if t.len() - i < 2 {
        Err(ParseFailure::Truncated)
    } else if t[i] == LF {
        if t[i + 1] == LF {
            Ok((Command::Exit, 2))
        } else {
            Err(ParseFailure::UnknownOpcode)
        }
    } else if t[i] == TB {
        if t[i + 1] == LF {
            Ok((Command::Return, 2))
        } else if t[i + 1] == TB {
            label_operand(t, i, 2, 4)
        } else {
            label_operand(t, i, 2, 3)
        }
    } else if t[i + 1] == LF {
        label_operand(t, i, 2, 2)
    } else if t[i + 1] == TB {
        label_operand(t, i, 2, 1)
    } else {
        label_operand(t, i, 2, 0)
    }
}

/// Parses an I/O instruction at token `i`.
fn io_at(t: &Vec<u8>, i: usize) -> (r: Result<(Command, usize), ParseFailure>)
    requires
        i <= t@.len(),
    ensures
        command_result(r, io_spec(after(t@, i as int)), t@.len() - i),
{
    if i >= t.len() {
        Err(ParseFailure::Truncated)
    } else if t[i] == LF {
        Err(ParseFailure::UnknownOpcode)
    } else if t.len() - i < 2 {
        Err(ParseFailure::Truncated)
    } else if t[i + 1] == LF {
        Err(ParseFailure::UnknownOpcode)
    } else if t[i] == TB {
        if t[i + 1] == TB {
            Ok((Command::ReadNum, 2))
        } else {
            Ok((Command::ReadChar, 2))
        }
    } else if t[i + 1] == TB {
        Ok((Command::OutputNum, 2))
    } else {
        Ok((Command::OutputChar, 2))
    }
}

/// Parses one whole instruction at token `i`.
fn command_at(t: &Vec<u8>, i: usize) -> (r: Result<(Command, usize), ParseFailure>)
    requires
        i <= t@.len(),
    ensures
        command_result(r, command_spec(after(t@, i as int)), t@.len() - i),
{
    let n = t.len();
    match imp_at(t, i) {
        Err(f) => Err(f),
        Ok((imp, k)) => {
            assert(after(after(t@, i as int), k as int) =~= after(t@, (i + k) as int));
            let r = match imp {
                IMP::Stack => stack_at(t, i + k),
                IMP::Arithmetic => arithmetic_at(t, i + k),
                IMP::Heap => heap_at(t, i + k),
                IMP::Flow => flow_at(t, i + k),
                IMP::IO => io_at(t, i + k),
            };
            match r {
                Ok((c, m)) => Ok((c, k + m)),
                Err(f) => Err(f),
            }
        },
    }
}

/// Reads one bit (space or tab) from the start of `input`'s whitespace.
pub fn literal_char(input: &[u8]) -> (r: Option<bool>)
    ensures
        r == literal_char_spec(tokens(input@)),
{
    let (t, _) = tokenize(input);
    if t.len() > 0 && t[0] != LF {
        Some(t[0] == TB)
    } else {
        None
    }
}

/// Reads a number from the start of `input`'s whitespace; the count is of
/// the whitespace characters consumed.
pub fn number(input: &[u8]) -> (r: Result<(Number, usize), ParseFailure>)
    ensures
        match r {
            Ok((n, k)) => number_spec(tokens(input@)) == Ok::<(Number, nat), ParseFailure>(
                (n, k as nat),
            ),
            Err(f) => number_spec(tokens(input@)) == Err::<(Number, nat), ParseFailure>(f),
        },
{
    let (t, _) = tokenize(input);
    assert(after(t@, 0) =~= t@);
    number_at(&t, 0)
}

/// Reads a label from the start of `input`'s whitespace.
pub fn label(input: &[u8]) -> (r: Result<(Label, usize), ParseFailure>)
    ensures
        match r {
            Ok((l, k)) => label_spec(tokens(input@)) == Ok::<(Seq<bool>, nat), ParseFailure>(
                (l@->Name_0, k as nat),
            ) && l is Name,
            Err(f) => label_spec(tokens(input@)) == Err::<(Seq<bool>, nat), ParseFailure>(f),
        },
{
    let (t, _) = tokenize(input);
    assert(after(t@, 0) =~= t@);
    match label_at(&t, 0) {
        Ok((bits, k)) => Ok((Label::Name(bits), k)),
        Err(f) => Err(f),
    }
}

/// Reads an IMP from the start of `input`'s whitespace.
pub fn imp(input: &[u8]) -> (r: Result<(IMP, usize), ParseFailure>)
    ensures
        match r {
            Ok((m, k)) => imp_spec(tokens(input@)) == Ok::<(IMP, nat), ParseFailure>(
                (m, k as nat),
            ),
            Err(f) => imp_spec(tokens(input@)) == Err::<(IMP, nat), ParseFailure>(f),
        },
{
    let (t, _) = tokenize(input);
    assert(after(t@, 0) =~= t@);
    imp_at(&t, 0)
}

/// Reads a stack instruction, after its IMP, from `input`'s whitespace.
pub fn stack(input: &[u8]) -> (r: Result<(Command, usize), ParseFailure>)
    ensures
        command_result(r, stack_spec(tokens(input@)), tokens(input@).len() as int),
{
    let (t, _) = tokenize(input);
    assert(after(t@, 0) =~= t@);
    stack_at(&t, 0)
}

/// Reads an arithmetic instruction, after its IMP, from `input`'s whitespace.
pub fn arithmetic(input: &[u8]) -> (r: Result<(Command, usize), ParseFailure>)
    ensures
        command_result(r, arithmetic_spec(tokens(input@)), tokens(input@).len() as int),
{
    let (t, _) = tokenize(input);
    assert(after(t@, 0) =~= t@);
    arithmetic_at(&t, 0)
}

/// Reads a heap instruction, after its IMP, from `input`'s whitespace.
pub fn heap(input: &[u8]) -> (r: Result<(Command, usize), ParseFailure>)
    ensures
        command_result(r, heap_spec(tokens(input@)), tokens(input@).len() as int),
{
    let (t, _) = tokenize(input);
    assert(after(t@, 0) =~= t@);
    heap_at(&t, 0)
}

/// Reads a flow control instruction, after its IMP, from `input`'s whitespace.
pub fn flow(input: &[u8]) -> (r: Result<(Command, usize), ParseFailure>)
    ensures
        command_result(r, flow_spec(tokens(input@)), tokens(input@).len() as int),
{
    let (t, _) = tokenize(input);
    assert(after(t@, 0) =~= t@);
    flow_at(&t, 0)
}

/// Reads an I/O instruction, after its IMP, from `input`'s whitespace.
pub fn io(input: &[u8]) -> (r: Result<(Command, usize), ParseFailure>)
    ensures
        command_result(r, io_spec(tokens(input@)), tokens(input@).len() as int),
{
    let (t, _) = tokenize(input);
    assert(after(t@, 0) =~= t@);
    io_at(&t, 0)
}

/// Reads one whole instruction from the start of `input`'s whitespace.
pub fn command(input: &[u8]) -> (r: Result<(Command, usize), ParseFailure>)
    ensures
        command_result(r, command_spec(tokens(input@)), tokens(input@).len() as int),
{
    let (t, _) = tokenize(input);
    assert(after(t@, 0) =~= t@);
    command_at(&t, 0)
}

/// The result of parsing the tokens after a prefix of `k` tokens that
/// parsed to `done`.
pub open spec fn resume(
    done: Seq<CommandView>,
    k: int,
    rest: Result<Seq<CommandView>, (int, ParseFailure)>,
) -> Result<Seq<CommandView>, (int, ParseFailure)> {
    match rest {
        Ok(cs) => Ok(done + cs),
        Err((i, f)) => Err((i + k, f)),
    }
}

proof fn lemma_offsets_len(s: Seq<u8>)
    ensures
        token_offsets(s).len() == tokens(s).len(),
    decreases s.len(),
{
    if s.len() > 0 {
        lemma_offsets_len(s.drop_last());
    }
}

proof fn lemma_program_step(t: Seq<u8>, done: Seq<CommandView>, i: int)
    requires
        0 <= i < t.len(),
    ensures
        match command_spec(after(t, i)) {
            Ok((c, k)) => 0 < k <= t.len() - i ==> resume(done, i, program_spec(after(t, i)))
                == resume(done + seq![c], i + k, program_spec(after(t, i + k))),
            Err(f) => resume(done, i, program_spec(after(t, i))) == Err::<
                Seq<CommandView>,
                (int, ParseFailure),
            >((i, f)),
        },
{
    let rest = after(t, i);
    match command_spec(rest) {
        Ok((c, k)) => {
            if 0 < k <= t.len() - i {
                assert(after(rest, k as int) =~= after(t, i + k));
                match program_spec(after(t, i + k)) {
                    Ok(cs) => {
                        assert(done + (seq![c] + cs) =~= done + seq![c] + cs);
                    },
                    Err(_) => {},
                }
            }
        },
        Err(f) => {},
    }
}

/// Parses a whole source into its instructions.
pub fn program(input: &[u8]) -> (r: Result<Vec<Command>, ParseError>)
    ensures
        match r {
            Ok(cs) => parse_spec(input@) == Ok::<Seq<CommandView>, (int, ParseFailure)>(
                views(cs@),
            ),
            Err(e) => parse_spec(input@) == Err::<Seq<CommandView>, (int, ParseFailure)>(
                (e.offset as int, e.reason),
            ),
        },
{
    let (t, offs) = tokenize(input);
    proof {
        lemma_offsets_len(input@);
    }
    let mut out: Vec<Command> = Vec::new();
    let mut i: usize = 0;
    assert(after(t@, 0) =~= t@);
    while i < t.len()
        invariant
            i <= t@.len(),
            t@ == tokens(input@),
            offs@.len() == t@.len(),
            forall|k: int| 0 <= k < offs@.len() ==> offs@[k] as int == token_offsets(input@)[k],
            program_spec(t@) == resume(views(out@), i as int, program_spec(after(t@, i as int))),
        decreases t@.len() - i,
    {
        proof {
            lemma_program_step(t@, views(out@), i as int);
        }
        match command_at(&t, i) {
            Ok((c, k)) => {
                let ghost done = views(out@);
                out.push(c);
                assert(views(out@) =~= done + seq![c@]);
                i = i + k;
            },
            Err(f) => {
                return Err(ParseError { offset: offs[i], reason: f });
            },
        }
    }
    assert(program_spec(after(t@, i as int)) == Ok::<Seq<CommandView>, (int, ParseFailure)>(
        Seq::empty(),
    ));
    assert(views(out@) + Seq::<CommandView>::empty() =~= views(out@));
    Ok(out)
}

} // verus!
