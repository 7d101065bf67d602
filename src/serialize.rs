//! The canonical Whitespace text of an instruction list, and the law that
//! parsing it gives the instructions back.

use vstd::prelude::*;
use crate::command::{Command, CommandView, IMP};
use crate::label::{Label, LabelView, Number};
use crate::parser::{
    after, bits_of, bits_value, command_spec, first_lf, imp_spec, is_ws, label_spec, number_spec,
    parse_spec, program_spec, tokens, views, ParseFailure, LF, SP, TB,
};

verus! {

/// Tokens for bits: tab for one, space for zero.
pub open spec fn ser_bits(b: Seq<bool>) -> Seq<u8> {
    b.map_values(|x: bool| if x { TB } else { SP })
}

/// The shortest bit-string, most significant bit first, whose value is `m`.
pub open spec fn to_bits(m: nat) -> Seq<bool>
    decreases m,
{
    if m == 0 {
        Seq::empty()
    } else {
        to_bits(m / 2).push(m % 2 == 1)
    }
}

pub open spec fn magnitude_of(n: Number) -> nat {
    (if n < 0 { -n } else { n as int }) as nat
}

/// A number: its sign, its magnitude's shortest bits, a newline.
pub open spec fn ser_number(n: Number) -> Seq<u8> {
    seq![if n < 0 { TB } else { SP }] + ser_bits(to_bits(magnitude_of(n))) + seq![LF]
}

/// A label name followed by a newline.
pub open spec fn ser_label(l: LabelView) -> Seq<u8> {
    match l {
        LabelView::Name(b) => ser_bits(b) + seq![LF],
        LabelView::Translated(_) => seq![LF],
    }
}

/// Whether an instruction has a text form: it is not one of the two that
/// the emitter adds, and its label, if any, is a name.
pub open spec fn is_source(c: CommandView) -> bool {
    match c {
        CommandView::Initialize | CommandView::Deinitialize => false,
        CommandView::Mark(l) | CommandView::Call(l) | CommandView::Jump(l)
        | CommandView::JumpZero(l) | CommandView::JumpNegative(l) => l is Name,
        _ => true,
    }
}

/// The text of one instruction.
pub open spec fn ser_command(c: CommandView) -> Seq<u8> {
    match c {
        CommandView::Push(n) => seq![SP, SP] + ser_number(n),
        CommandView::Duplicate => seq![SP, LF, SP],
        CommandView::Copy(n) => seq![SP, TB, SP] + ser_number(n),
        CommandView::Swap => seq![SP, LF, TB],
        CommandView::Pop => seq![SP, LF, LF],
        CommandView::Slide(n) => seq![SP, TB, LF] + ser_number(n),
        CommandView::Add => seq![TB, SP, SP, SP],
        CommandView::Subtract => seq![TB, SP, SP, TB],
        CommandView::Multiply => seq![TB, SP, SP, LF],
        CommandView::Divide => seq![TB, SP, TB, SP],
        CommandView::Modulus => seq![TB, SP, TB, TB],
        CommandView::Store => seq![TB, TB, SP],
        CommandView::Retrieve => seq![TB, TB, TB],
        CommandView::Mark(l) => seq![LF, SP, SP] + ser_label(l),
        CommandView::Call(l) => seq![LF, SP, TB] + ser_label(l),
        CommandView::Jump(l) => seq![LF, SP, LF] + ser_label(l),
        CommandView::JumpZero(l) => seq![LF, TB, SP] + ser_label(l),
        CommandView::JumpNegative(l) => seq![LF, TB, TB] + ser_label(l),
        CommandView::Return => seq![LF, TB, LF],
        CommandView::Exit => seq![LF, LF, LF],
        CommandView::OutputChar => seq![TB, LF, SP, SP],
        CommandView::OutputNum => seq![TB, LF, SP, TB],
        CommandView::ReadChar => seq![TB, LF, TB, SP],
        CommandView::ReadNum => seq![TB, LF, TB, TB],
        CommandView::Initialize | CommandView::Deinitialize => Seq::empty(),
    }
}

/// The text of an instruction list.
pub open spec fn ser_program(cs: Seq<CommandView>) -> Seq<u8>
    decreases cs.len(),
{
    if cs.len() == 0 {
        Seq::empty()
    } else {
        ser_command(cs[0]) + ser_program(cs.drop_first())
    }
}

proof fn lemma_to_bits_value(m: nat)
    ensures
        bits_value(to_bits(m)) == m,
    decreases m,
{
    if m > 0 {
        lemma_to_bits_value(m / 2);
        assert(to_bits(m).drop_last() =~= to_bits(m / 2));
    }
}

proof fn lemma_first_lf(b: Seq<bool>, q: Seq<u8>)
    ensures
        first_lf(ser_bits(b) + seq![LF] + q) == b.len(),
    decreases b.len(),
{
    let t = ser_bits(b) + seq![LF] + q;
    if b.len() > 0 {
        assert(t.subrange(1, t.len() as int) =~= ser_bits(b.drop_first()) + seq![LF] + q);
        lemma_first_lf(b.drop_first(), q);
    }
}

proof fn lemma_label(b: Seq<bool>, q: Seq<u8>)
    ensures
        label_spec(ser_bits(b) + seq![LF] + q) == Ok::<(Seq<bool>, nat), ParseFailure>(
            (b, b.len() + 1),
        ),
{
    let t = ser_bits(b) + seq![LF] + q;
    lemma_first_lf(b, q);
    assert(bits_of(t.subrange(0, b.len() as int)) =~= b);
}

proof fn lemma_number(n: Number, q: Seq<u8>)
    ensures
        number_spec(ser_number(n) + q) == Ok::<(Number, nat), ParseFailure>(
            (n, ser_number(n).len()),
        ),
{
    let b = to_bits(magnitude_of(n));
    let t = ser_number(n) + q;
    let rest = t.subrange(1, t.len() as int);
    assert(rest =~= ser_bits(b) + seq![LF] + q);
    lemma_first_lf(b, q);
    assert(bits_of(rest.subrange(0, b.len() as int)) =~= b);
    lemma_to_bits_value(magnitude_of(n));
}

proof fn lemma_command_number(c: CommandView, q: Seq<u8>)
    requires
        c is Push || c is Copy || c is Slide,
    ensures
        command_spec(ser_command(c) + q) == Ok::<(CommandView, nat), ParseFailure>(
            (c, ser_command(c).len()),
        ),
{
    let t = ser_command(c) + q;
    assert(t[0] == SP);
    assert(imp_spec(t) == Ok::<(IMP, nat), ParseFailure>((IMP::Stack, 1)));
    match c {
        CommandView::Push(n) => {
            assert(after(after(t, 1), 1) =~= ser_number(n) + q);
            lemma_number(n, q);
        },
        CommandView::Copy(n) | CommandView::Slide(n) => {
            assert(after(after(t, 1), 2) =~= ser_number(n) + q);
            lemma_number(n, q);
        },
        _ => {},
    }
}

proof fn lemma_command_label(c: CommandView, q: Seq<u8>)
    requires
        is_source(c),
        c is Mark || c is Call || c is Jump || c is JumpZero || c is JumpNegative,
    ensures
        command_spec(ser_command(c) + q) == Ok::<(CommandView, nat), ParseFailure>(
            (c, ser_command(c).len()),
        ),
{
    let t = ser_command(c) + q;
    assert(t[0] == LF);
    assert(imp_spec(t) == Ok::<(IMP, nat), ParseFailure>((IMP::Flow, 1)));
    match c {
        CommandView::Mark(l) | CommandView::Call(l) | CommandView::Jump(l)
        | CommandView::JumpZero(l) | CommandView::JumpNegative(l) => {
            let b = l->Name_0;
            assert(ser_label(l) == ser_bits(b) + seq![LF]);
            assert(after(after(t, 1), 2) =~= ser_bits(b) + seq![LF] + q);
            lemma_label(b, q);
        },
        _ => {},
    }
}

proof fn lemma_command_plain(c: CommandView, q: Seq<u8>)
    requires
        is_source(c),
        !(c is Push || c is Copy || c is Slide),
        !(c is Mark || c is Call || c is Jump || c is JumpZero || c is JumpNegative),
    ensures
        command_spec(ser_command(c) + q) == Ok::<(CommandView, nat), ParseFailure>(
            (c, ser_command(c).len()),
        ),
{
    let t = ser_command(c) + q;
    let w = ser_command(c);
    assert(t.subrange(0, w.len() as int) =~= w);
    if w[0] == TB {
        assert(after(t, 2)[0] == t[2]);
        if w.len() == 4 {
            assert(after(t, 2)[1] == t[3]);
        }
    } else {
        assert(after(t, 1)[0] == t[1]);
        assert(after(t, 1)[1] == t[2]);
    }
}

proof fn lemma_command(c: CommandView, q: Seq<u8>)
    requires
        is_source(c),
    ensures
        command_spec(ser_command(c) + q) == Ok::<(CommandView, nat), ParseFailure>(
            (c, ser_command(c).len()),
        ),
{
    if c is Push || c is Copy || c is Slide {
        lemma_command_number(c, q);
    } else if c is Mark || c is Call || c is Jump || c is JumpZero || c is JumpNegative {
        lemma_command_label(c, q);
    } else {
        lemma_command_plain(c, q);
    }
}

proof fn lemma_program(cs: Seq<CommandView>)
    requires
        forall|i: int| 0 <= i < cs.len() ==> is_source(#[trigger] cs[i]),
    ensures
        program_spec(ser_program(cs)) == Ok::<Seq<CommandView>, (int, ParseFailure)>(cs),
    decreases cs.len(),
{
    if cs.len() > 0 {
        let c = cs[0];
        let t = ser_program(cs);
        lemma_command(c, ser_program(cs.drop_first()));
        assert(ser_command(c).len() > 0);
        assert(after(t, ser_command(c).len() as int) =~= ser_program(cs.drop_first()));
        assert forall|i: int| 0 <= i < cs.drop_first().len() implies is_source(
            #[trigger] cs.drop_first()[i],
        ) by {
            assert(cs.drop_first()[i] == cs[i + 1]);
        }
        lemma_program(cs.drop_first());
        assert(seq![c] + cs.drop_first() =~= cs);
    } else {
        assert(cs =~= Seq::<CommandView>::empty());
    }
}

proof fn lemma_ser_bits_ws(b: Seq<bool>)
    ensures
        forall|i: int| 0 <= i < ser_bits(b).len() ==> is_ws(#[trigger] ser_bits(b)[i]),
{
}

proof fn lemma_ser_program_ws(cs: Seq<CommandView>)
    ensures
        forall|i: int| 0 <= i < ser_program(cs).len() ==> is_ws(#[trigger] ser_program(cs)[i]),
    decreases cs.len(),
{
    if cs.len() > 0 {
        lemma_ser_program_ws(cs.drop_first());
        let c = ser_command(cs[0]);
        let rest = ser_program(cs.drop_first());
        assert forall|i: int| 0 <= i < c.len() implies is_ws(#[trigger] c[i]) by {
            match cs[0] {
                CommandView::Push(n) | CommandView::Copy(n) | CommandView::Slide(n) => {
                    lemma_ser_bits_ws(to_bits(magnitude_of(n)));
                },
                CommandView::Mark(l) | CommandView::Call(l) | CommandView::Jump(l)
                | CommandView::JumpZero(l) | CommandView::JumpNegative(l) => {
                    match l {
                        LabelView::Name(b) => lemma_ser_bits_ws(b),
                        _ => {},
                    }
                },
                _ => {},
            }
        }
        assert forall|i: int| 0 <= i < ser_program(cs).len() implies is_ws(
            #[trigger] ser_program(cs)[i],
        ) by {
            if i >= c.len() {
                assert(ser_program(cs)[i] == rest[i - c.len()]);
            } else {
                assert(ser_program(cs)[i] == c[i]);
            }
        }
    }
}

proof fn lemma_tokens_of_ws(s: Seq<u8>)
    requires
        forall|i: int| 0 <= i < s.len() ==> is_ws(#[trigger] s[i]),
    ensures
        tokens(s) == s,
    decreases s.len(),
{
    if s.len() > 0 {
        lemma_tokens_of_ws(s.drop_last());
        assert(s.drop_last().push(s.last()) =~= s);
    }
}

proof fn lemma_parsed_are_source(t: Seq<u8>)
    requires
        program_spec(t) is Ok,
    ensures
        forall|i: int|
            0 <= i < program_spec(t)->Ok_0.len() ==> is_source(#[trigger] program_spec(t)->Ok_0[i]),
    decreases t.len(),
{
    if t.len() > 0 {
        let (c, k) = command_spec(t)->Ok_0;
        let rest = after(t, k as int);
        lemma_parsed_are_source(rest);
        let cs = program_spec(t)->Ok_0;
        assert(is_source(c));
        assert forall|i: int| 0 <= i < cs.len() implies is_source(#[trigger] cs[i]) by {
            if i > 0 {
                assert(cs[i] == program_spec(rest)->Ok_0[i - 1]);
            }
        }
    }
}

/// Round trip: whatever parses, written out again in canonical form,
/// parses to the same instructions.
pub proof fn lemma_round_trip(s: Seq<u8>)
    requires
        parse_spec(s) is Ok,
    ensures
        parse_spec(ser_program(parse_spec(s)->Ok_0)) == parse_spec(s),
{
    let cs = parse_spec(s)->Ok_0;
    lemma_parsed_are_source(tokens(s));
    lemma_program(cs);
    lemma_ser_program_ws(cs);
    lemma_tokens_of_ws(ser_program(cs));
}

proof fn lemma_ser_program_push(cs: Seq<CommandView>, c: CommandView)
    ensures
        ser_program(cs.push(c)) == ser_program(cs) + ser_command(c),
    decreases cs.len(),
{
    if cs.len() == 0 {
        assert(cs.push(c).drop_first() =~= Seq::<CommandView>::empty());
        assert(cs.push(c)[0] == c);
        assert(ser_program(Seq::<CommandView>::empty()) == Seq::<u8>::empty());
        assert(ser_program(cs.push(c)) =~= ser_command(c) + Seq::<u8>::empty());
        assert(ser_program(cs.push(c)) =~= ser_program(cs) + ser_command(c));
    } else {
        assert(cs.push(c).drop_first() =~= cs.drop_first().push(c));
        lemma_ser_program_push(cs.drop_first(), c);
        assert(ser_program(cs.push(c)) =~= ser_program(cs) + ser_command(c));
    }
}

/// Appends the shortest bits of `m`, most significant first.
fn push_bits(out: &mut Vec<u8>, m: u64)
    ensures
        final(out)@ == old(out)@ + ser_bits(to_bits(m as nat)),
    decreases m,
{
    if m == 0 {
        assert(old(out)@ + ser_bits(to_bits(0)) =~= old(out)@);
        return;
    }
    push_bits(out, m / 2);
    out.push(if m % 2 == 1 { TB } else { SP });
    assert(ser_bits(to_bits(m as nat)) =~= ser_bits(to_bits((m / 2) as nat)) + seq![
        if m % 2 == 1 { TB } else { SP },
    ]);
    assert(final(out)@ =~= old(out)@ + ser_bits(to_bits(m as nat)));
}

/// Appends the text of a number.
fn push_number(out: &mut Vec<u8>, n: Number)
    ensures
        final(out)@ == old(out)@ + ser_number(n),
{
    let ghost start = out@;
    let mag: u64 = if n >= 0 {
        n as u64
    } else if n == i64::MIN {
        0x8000_0000_0000_0000
    } else {
        (-n) as u64
    };
    out.push(if n < 0 { TB } else { SP });
    push_bits(out, mag);
    out.push(LF);
    assert(out@ =~= start + ser_number(n));
}

/// Appends the text of a label name.
fn push_label(out: &mut Vec<u8>, l: &Label)
    requires
        l is Name,
    ensures
        final(out)@ == old(out)@ + ser_label(l@),
{
    let ghost start = out@;
    if let Label::Name(bits) = l {
        let mut i: usize = 0;
        while i < bits.len()
            invariant
                i <= bits@.len(),
                out@ == start + ser_bits(bits@.subrange(0, i as int)),
            decreases bits@.len() - i,
        {
            out.push(if bits[i] { TB } else { SP });
            i = i + 1;
            assert(out@ =~= start + ser_bits(bits@.subrange(0, i as int)));
        }
        out.push(LF);
        assert(bits@.subrange(0, bits@.len() as int) =~= bits@);
        assert(out@ =~= start + ser_label(l@));
    }
}

/// Appends the three or four tokens of an instruction's opcode.
fn push_tokens(out: &mut Vec<u8>, w: &[u8])
    ensures
        final(out)@ == old(out)@ + w@,
{
    let mut i: usize = 0;
    while i < w.len()
        invariant
            i <= w@.len(),
            out@ == old(out)@ + w@.subrange(0, i as int),
        decreases w@.len() - i,
    {
        out.push(w[i]);
        i = i + 1;
        assert(out@ =~= old(out)@ + w@.subrange(0, i as int));
    }
    assert(w@.subrange(0, w@.len() as int) =~= w@);
}

/// Appends the text of one instruction.
fn push_command(out: &mut Vec<u8>, c: &Command)
    requires
        is_source(c@),
    ensures
        final(out)@ == old(out)@ + ser_command(c@),
{
    let ghost start = out@;
    match c {
        Command::Push(n) => {
            push_tokens(out, &[SP, SP]);
            push_number(out, *n);
        },
        Command::Duplicate => push_tokens(out, &[SP, LF, SP]),
        Command::Copy(n) => {
            push_tokens(out, &[SP, TB, SP]);
            push_number(out, *n);
        },
        Command::Swap => push_tokens(out, &[SP, LF, TB]),
        Command::Pop => push_tokens(out, &[SP, LF, LF]),
        Command::Slide(n) => {
            push_tokens(out, &[SP, TB, LF]);
            push_number(out, *n);
        },
        Command::Add => push_tokens(out, &[TB, SP, SP, SP]),
        Command::Subtract => push_tokens(out, &[TB, SP, SP, TB]),
        Command::Multiply => push_tokens(out, &[TB, SP, SP, LF]),
        Command::Divide => push_tokens(out, &[TB, SP, TB, SP]),
        Command::Modulus => push_tokens(out, &[TB, SP, TB, TB]),
        Command::Store => push_tokens(out, &[TB, TB, SP]),
        Command::Retrieve => push_tokens(out, &[TB, TB, TB]),
        Command::Mark(l) => {
            push_tokens(out, &[LF, SP, SP]);
            push_label(out, l);
        },
        Command::Call(l) => {
            push_tokens(out, &[LF, SP, TB]);
            push_label(out, l);
        },
        Command::Jump(l) => {
            push_tokens(out, &[LF, SP, LF]);
            push_label(out, l);
        },
        Command::JumpZero(l) => {
            push_tokens(out, &[LF, TB, SP]);
            push_label(out, l);
        },
        Command::JumpNegative(l) => {
            push_tokens(out, &[LF, TB, TB]);
            push_label(out, l);
        },
        Command::Return => push_tokens(out, &[LF, TB, LF]),
        Command::Exit => push_tokens(out, &[LF, LF, LF]),
        Command::OutputChar => push_tokens(out, &[TB, LF, SP, SP]),
        Command::OutputNum => push_tokens(out, &[TB, LF, SP, TB]),
        Command::ReadChar => push_tokens(out, &[TB, LF, TB, SP]),
        Command::ReadNum => push_tokens(out, &[TB, LF, TB, TB]),
        Command::Initialize | Command::Deinitialize => {},
    }
    assert(out@ =~= start + ser_command(c@));
}

/// The canonical text of an instruction list.
pub fn serialize(program: &Vec<Command>) -> (r: Vec<u8>)
    requires
        forall|i: int| 0 <= i < program@.len() ==> is_source(#[trigger] program@[i]@),
    ensures
        r@ == ser_program(views(program@)),
{
    let mut out: Vec<u8> = Vec::new();
    let mut i: usize = 0;
    assert(views(program@).subrange(0, 0) =~= Seq::<CommandView>::empty());
    while i < program.len()
        invariant
            i <= program@.len(),
            forall|k: int| 0 <= k < program@.len() ==> is_source(#[trigger] program@[k]@),
            out@ == ser_program(views(program@).subrange(0, i as int)),
        decreases program@.len() - i,
    {
        push_command(&mut out, &program[i]);
        proof {
            let before = views(program@).subrange(0, i as int);
            assert(views(program@).subrange(0, i as int + 1) =~= before.push(program@[i as int]@));
            lemma_ser_program_push(before, program@[i as int]@);
        }
        i = i + 1;
    }
    assert(views(program@).subrange(0, program@.len() as int) =~= views(program@));
    out
}

} // verus!
