//! The instruction model and the machine-code template of each instruction.

use vstd::prelude::*;
use crate::label::{Label, LabelView, Number};

verus! {

/// The instruction families, selected by the first token of an instruction.
#[derive(Clone, Copy, Debug, PartialEq, Eq)]
pub enum IMP {
    Stack,
    Arithmetic,
    Heap,
    Flow,
    IO,
}

/// One instruction. `Initialize` and `Deinitialize` are never parsed: the
/// emitter places them around a program as its prologue and epilogue.
#[derive(Clone, Debug, PartialEq, Eq)]
pub enum Command {
    Initialize,
    Deinitialize,
    Push(Number),
    Duplicate,
    Copy(Number),
    Swap,
    Pop,
    Slide(Number),
    Add,
    Subtract,
    Multiply,
    Divide,
    Modulus,
    Store,
    Retrieve,
    Mark(Label),
    Call(Label),
    Jump(Label),
    JumpZero(Label),
    JumpNegative(Label),
    Return,
    Exit,
    OutputChar,
    OutputNum,
    ReadChar,
    ReadNum,
}

/// The mathematical model of a [`Command`].
pub ghost enum CommandView {
    Initialize,
    Deinitialize,
    Push(Number),
    Duplicate,
    Copy(Number),
    Swap,
    Pop,
    Slide(Number),
    Add,
    Subtract,
    Multiply,
    Divide,
    Modulus,
    Store,
    Retrieve,
    Mark(LabelView),
    Call(LabelView),
    Jump(LabelView),
    JumpZero(LabelView),
    JumpNegative(LabelView),
    Return,
    Exit,
    OutputChar,
    OutputNum,
    ReadChar,
    ReadNum,
}

impl View for Command {
    type V = CommandView;

    open spec fn view(&self) -> CommandView {
        match self {
            Command::Initialize => CommandView::Initialize,
            Command::Deinitialize => CommandView::Deinitialize,
            Command::Push(n) => CommandView::Push(*n),
            Command::Duplicate => CommandView::Duplicate,
            Command::Copy(n) => CommandView::Copy(*n),
            Command::Swap => CommandView::Swap,
            Command::Pop => CommandView::Pop,
            Command::Slide(n) => CommandView::Slide(*n),
            Command::Add => CommandView::Add,
            Command::Subtract => CommandView::Subtract,
            Command::Multiply => CommandView::Multiply,
            Command::Divide => CommandView::Divide,
            Command::Modulus => CommandView::Modulus,
            Command::Store => CommandView::Store,
            Command::Retrieve => CommandView::Retrieve,
            Command::Mark(l) => CommandView::Mark(l@),
            Command::Call(l) => CommandView::Call(l@),
            Command::Jump(l) => CommandView::Jump(l@),
            Command::JumpZero(l) => CommandView::JumpZero(l@),
            Command::JumpNegative(l) => CommandView::JumpNegative(l@),
            Command::Return => CommandView::Return,
            Command::Exit => CommandView::Exit,
            Command::OutputChar => CommandView::OutputChar,
            Command::OutputNum => CommandView::OutputNum,
            Command::ReadChar => CommandView::ReadChar,
            Command::ReadNum => CommandView::ReadNum,
        }
    }
}

/// The absolute addresses that emitted code calls through: the runtime
/// context, passed in RDI, and each helper entry point, called through RCX.
#[derive(Clone, Copy, Debug, PartialEq, Eq)]
pub struct Runtime {
    pub context: u64,
    pub push_stack: u64,
    pub pop_stack: u64,
    pub peek_stack: u64,
    pub slide: u64,
    pub store: u64,
    pub retrieve: u64,
    pub print: u64,
    pub read: u64,
}

/// Opcode byte of `mov r64, imm64` for RCX.
pub const RCX: u8 = 0xb9;
/// Opcode byte of `mov r64, imm64` for RSI.
pub const RSI: u8 = 0xbe;
/// Opcode byte of `mov r64, imm64` for RDI.
pub const RDI: u8 = 0xbf;

/// The `count` low bytes of `n`, least significant first.
pub open spec fn le_bytes(n: nat, count: nat) -> Seq<u8>
    decreases count,
{
    if count == 0 {
        Seq::empty()
    } else {
        seq![(n % 256) as u8] + le_bytes(n / 256, (count - 1) as nat)
    }
}

/// `mov reg, imm64`, ten bytes.
pub open spec fn mov_imm(reg: u8, n: u64) -> Seq<u8> {
    seq![0x48u8, reg] + le_bytes(n as nat, 8)
}

/// A call of `helper` with the context in RDI; `arg` is what sets RSI
/// (empty where the helper takes no second argument).
pub open spec fn helper_call(rt: Runtime, helper: u64, arg: Seq<u8>) -> Seq<u8> {
    mov_imm(RDI, rt.context) + arg + mov_imm(RCX, helper) + seq![0xffu8, 0xd1u8]
}

/// `mov rsi, rax`
pub open spec fn rsi_from_rax() -> Seq<u8> {
    seq![0x48u8, 0x89u8, 0xc6u8]
}

/// The register-level operation of each arithmetic instruction, applied
/// to RAX (second from top) and R12 (top), leaving the result in RAX.
pub open spec fn arith_op(c: CommandView) -> Seq<u8> {
    match c {
        // add rax, r12
        CommandView::Add => seq![0x4cu8, 0x01u8, 0xe0u8],
        // sub rax, r12
        CommandView::Subtract => seq![0x4cu8, 0x29u8, 0xe0u8],
        // imul r12
        CommandView::Multiply => seq![0x49u8, 0xf7u8, 0xecu8],
        // cqo; idiv r12
        CommandView::Divide => seq![0x48u8, 0x99u8, 0x49u8, 0xf7u8, 0xfcu8],
        // cqo; idiv r12; mov rax, rdx
        _ => seq![0x48u8, 0x99u8, 0x49u8, 0xf7u8, 0xfcu8, 0x48u8, 0x89u8, 0xd0u8],
    }
}

/// Pops two operands, applies `op`, pushes the result.
pub open spec fn arith_template(rt: Runtime, op: Seq<u8>) -> Seq<u8> {
    helper_call(rt, rt.pop_stack, Seq::empty())
        // mov r12, rax
        + seq![0x49u8, 0x89u8, 0xc4u8]
        + helper_call(rt, rt.pop_stack, Seq::empty())
        + op
        + helper_call(rt, rt.push_stack, rsi_from_rax())
}

/// Pops the top and jumps, through a 32-bit displacement, when the flags
/// of `test rax, rax` meet `cc` (0x84: zero, 0x88: sign).
pub open spec fn cond_jump_template(rt: Runtime, cc: u8) -> Seq<u8> {
    helper_call(rt, rt.pop_stack, Seq::empty())
        + seq![0x48u8, 0x85u8, 0xc0u8, 0x0fu8, cc, 0u8, 0u8, 0u8, 0u8]
}

/// The function prologue: `push rbp; mov rbp, rsp; push rbx; push r12`.
pub open spec fn prologue() -> Seq<u8> {
    seq![0x55u8, 0x48u8, 0x89u8, 0xe5u8, 0x53u8, 0x41u8, 0x54u8]
}

/// The function epilogue: `pop r12; pop rbx; mov rsp, rbp; pop rbp; ret`.
pub open spec fn epilogue() -> Seq<u8> {
    seq![0x41u8, 0x5cu8, 0x5bu8, 0x48u8, 0x89u8, 0xecu8, 0x5du8, 0xc3u8]
}

/// The machine code of one instruction. Control transfers to a label carry
/// a zero displacement that the linker fills in.
pub open spec fn template(c: CommandView, rt: Runtime) -> Seq<u8> {
    match c {
        CommandView::Initialize => prologue(),
        CommandView::Deinitialize | CommandView::Exit => epilogue(),
        CommandView::Push(n) => helper_call(rt, rt.push_stack, mov_imm(RSI, n as u64)),
        CommandView::Duplicate => helper_call(rt, rt.peek_stack, mov_imm(RSI, 0))
            + helper_call(rt, rt.push_stack, rsi_from_rax()),
        CommandView::Copy(n) => helper_call(rt, rt.peek_stack, mov_imm(RSI, n as u64))
            + helper_call(rt, rt.push_stack, rsi_from_rax()),
        CommandView::Swap => helper_call(rt, rt.pop_stack, Seq::empty())
            // mov rbx, rax
            + seq![0x48u8, 0x89u8, 0xc3u8]
            + helper_call(rt, rt.pop_stack, Seq::empty())
            // mov r12, rax
            + seq![0x49u8, 0x89u8, 0xc4u8]
            // mov rsi, rbx
            + helper_call(rt, rt.push_stack, seq![0x48u8, 0x89u8, 0xdeu8])
            // mov rsi, r12
            + helper_call(rt, rt.push_stack, seq![0x4cu8, 0x89u8, 0xe6u8]),
        CommandView::Pop => helper_call(rt, rt.pop_stack, Seq::empty()),
        CommandView::Slide(n) => helper_call(rt, rt.slide, mov_imm(RSI, n as u64)),
        CommandView::Add | CommandView::Subtract | CommandView::Multiply
        | CommandView::Divide | CommandView::Modulus => arith_template(rt, arith_op(c)),
        CommandView::Store => helper_call(rt, rt.store, Seq::empty()),
        CommandView::Retrieve => helper_call(rt, rt.retrieve, Seq::empty()),
        CommandView::Mark(_) => Seq::empty(),
        // call rel32
        CommandView::Call(_) => seq![0xe8u8, 0u8, 0u8, 0u8, 0u8],
        // jmp rel32
        CommandView::Jump(_) => seq![0xe9u8, 0u8, 0u8, 0u8, 0u8],
        // je rel32
        CommandView::JumpZero(_) => cond_jump_template(rt, 0x84),
        // js rel32
        CommandView::JumpNegative(_) => cond_jump_template(rt, 0x88),
        // ret
        CommandView::Return => seq![0xc3u8],
        CommandView::OutputChar => helper_call(rt, rt.print, mov_imm(RSI, 1)),
        CommandView::OutputNum => helper_call(rt, rt.print, mov_imm(RSI, 0)),
        CommandView::ReadChar => helper_call(rt, rt.read, mov_imm(RSI, 1)),
        CommandView::ReadNum => helper_call(rt, rt.read, mov_imm(RSI, 0)),
    }
}

/// Appends the `count` low bytes of `n`, least significant first.
pub fn push_le(out: &mut Vec<u8>, n: u64, count: usize)
    ensures
        final(out)@ == old(out)@ + le_bytes(n as nat, count as nat),
{
    let mut x: u64 = n;
    let mut i: usize = 0;
    while i < count
        invariant
            i <= count,
            out@ + le_bytes(x as nat, (count - i) as nat) == old(out)@ + le_bytes(
                n as nat,
                count as nat,
            ),
        decreases count - i,
    {
        let ghost before = out@;
        out.push((x % 256) as u8);
        proof {
            assert(le_bytes(x as nat, (count - i) as nat) =~= seq![(x % 256) as u8] + le_bytes(
                (x / 256) as nat,
                (count - i - 1) as nat,
            ));
            assert(out@ + le_bytes((x / 256) as nat, (count - i - 1) as nat) =~= before
                + le_bytes(x as nat, (count - i) as nat));
        }
        x = x / 256;
        i = i + 1;
    }
    assert(out@ + le_bytes(x as nat, 0) =~= out@);
}

/// Appends `mov reg, imm64`.
fn push_mov(out: &mut Vec<u8>, reg: u8, n: u64)
    ensures
        final(out)@ == old(out)@ + mov_imm(reg, n),
{
    out.push(0x48);
    out.push(reg);
    push_le(out, n, 8);
    assert(final(out)@ =~= old(out)@ + mov_imm(reg, n));
}

/// Appends bytes given as a sequence literal.
fn push_all(out: &mut Vec<u8>, bytes: &[u8])
    ensures
        final(out)@ == old(out)@ + bytes@,
{
    let mut i: usize = 0;
    while i < bytes.len()
        invariant
            i <= bytes@.len(),
            out@ == old(out)@ + bytes@.subrange(0, i as int),
        decreases bytes@.len() - i,
    {
        out.push(bytes[i]);
        i = i + 1;
        assert(out@ =~= old(out)@ + bytes@.subrange(0, i as int));
    }
    assert(bytes@.subrange(0, bytes@.len() as int) =~= bytes@);
}

/// The ways a helper call sets RSI.
enum Arg {
    NoArg,
    Imm(u64),
    Reg(u8, u8, u8),
}

spec fn arg_bytes(a: Arg) -> Seq<u8> {
    match a {
        Arg::NoArg => Seq::empty(),
        Arg::Imm(n) => mov_imm(RSI, n),
        Arg::Reg(x, y, z) => seq![x, y, z],
    }
}

/// Appends a call of `helper` with the context in RDI.
fn push_call(out: &mut Vec<u8>, rt: &Runtime, helper: u64, arg: Arg)
    ensures
        final(out)@ == old(out)@ + helper_call(*rt, helper, arg_bytes(arg)),
{
    push_mov(out, RDI, rt.context);
    match arg {
        Arg::NoArg => {},
        Arg::Imm(n) => push_mov(out, RSI, n),
        Arg::Reg(x, y, z) => {
            out.push(x);
            out.push(y);
            out.push(z);
        },
    }
    push_mov(out, RCX, helper);
    out.push(0xff);
    out.push(0xd1);
    assert(final(out)@ =~= old(out)@ + helper_call(*rt, helper, arg_bytes(arg)));
}

impl Command {
    /// Appends this instruction's machine code to `out`.
    pub fn assemble_into(&self, rt: &Runtime, out: &mut Vec<u8>)
        ensures
            final(out)@ == old(out)@ + template(self@, *rt),
    {
        let ghost start = out@;
        match self {
            Command::Initialize => {
                push_all(out, &[0x55, 0x48, 0x89, 0xe5, 0x53, 0x41, 0x54]);
                assert(out@ =~= start + prologue());
            },
            Command::Deinitialize | Command::Exit => {
                push_all(out, &[0x41, 0x5c, 0x5b, 0x48, 0x89, 0xec, 0x5d, 0xc3]);
                assert(out@ =~= start + epilogue());
            },
            Command::Push(n) => {
                push_call(out, rt, rt.push_stack, Arg::Imm(*n as u64));
            },
            Command::Duplicate => {
                push_call(out, rt, rt.peek_stack, Arg::Imm(0));
                push_call(out, rt, rt.push_stack, Arg::Reg(0x48, 0x89, 0xc6));
                assert(out@ =~= start + template(self@, *rt));
            },
            Command::Copy(n) => {
                push_call(out, rt, rt.peek_stack, Arg::Imm(*n as u64));
                push_call(out, rt, rt.push_stack, Arg::Reg(0x48, 0x89, 0xc6));
                assert(out@ =~= start + template(self@, *rt));
            },
            Command::Swap => {
                push_call(out, rt, rt.pop_stack, Arg::NoArg);
                push_all(out, &[0x48, 0x89, 0xc3]);
                push_call(out, rt, rt.pop_stack, Arg::NoArg);
                push_all(out, &[0x49, 0x89, 0xc4]);
                push_call(out, rt, rt.push_stack, Arg::Reg(0x48, 0x89, 0xde));
                push_call(out, rt, rt.push_stack, Arg::Reg(0x4c, 0x89, 0xe6));
                assert(out@ =~= start + template(self@, *rt));
            },
            Command::Pop => {
                push_call(out, rt, rt.pop_stack, Arg::NoArg);
                assert(out@ =~= start + template(self@, *rt));
            },
            Command::Slide(n) => {
                push_call(out, rt, rt.slide, Arg::Imm(*n as u64));
            },
            Command::Add | Command::Subtract | Command::Multiply | Command::Divide
            | Command::Modulus => {
                push_call(out, rt, rt.pop_stack, Arg::NoArg);
                push_all(out, &[0x49, 0x89, 0xc4]);
                push_call(out, rt, rt.pop_stack, Arg::NoArg);
                match self {
                    Command::Add => push_all(out, &[0x4c, 0x01, 0xe0]),
                    Command::Subtract => push_all(out, &[0x4c, 0x29, 0xe0]),
                    Command::Multiply => push_all(out, &[0x49, 0xf7, 0xec]),
                    Command::Divide => push_all(out, &[0x48, 0x99, 0x49, 0xf7, 0xfc]),
                    _ => push_all(out, &[0x48, 0x99, 0x49, 0xf7, 0xfc, 0x48, 0x89, 0xd0]),
                }
                push_call(out, rt, rt.push_stack, Arg::Reg(0x48, 0x89, 0xc6));
                assert(out@ =~= start + template(self@, *rt));
            },
            Command::Store => {
                push_call(out, rt, rt.store, Arg::NoArg);
                assert(out@ =~= start + template(self@, *rt));
            },
            Command::Retrieve => {
                push_call(out, rt, rt.retrieve, Arg::NoArg);
                assert(out@ =~= start + template(self@, *rt));
            },
            Command::Mark(_) => {
                assert(out@ =~= start + template(self@, *rt));
            },
            Command::Call(_) => {
                push_all(out, &[0xe8, 0, 0, 0, 0]);
                assert(out@ =~= start + template(self@, *rt));
            },
            Command::Jump(_) => {
                push_all(out, &[0xe9, 0, 0, 0, 0]);
                assert(out@ =~= start + template(self@, *rt));
            },
            Command::JumpZero(_) => {
                push_call(out, rt, rt.pop_stack, Arg::NoArg);
                push_all(out, &[0x48, 0x85, 0xc0, 0x0f, 0x84, 0, 0, 0, 0]);
                assert(out@ =~= start + template(self@, *rt));
            },
            Command::JumpNegative(_) => {
                push_call(out, rt, rt.pop_stack, Arg::NoArg);
                push_all(out, &[0x48, 0x85, 0xc0, 0x0f, 0x88, 0, 0, 0, 0]);
                assert(out@ =~= start + template(self@, *rt));
            },
            Command::Return => {
                out.push(0xc3);
                assert(out@ =~= start + template(self@, *rt));
            },
            Command::OutputChar => {
                push_call(out, rt, rt.print, Arg::Imm(1));
            },
            Command::OutputNum => {
                push_call(out, rt, rt.print, Arg::Imm(0));
            },
            Command::ReadChar => {
                push_call(out, rt, rt.read, Arg::Imm(1));
            },
            Command::ReadNum => {
                push_call(out, rt, rt.read, Arg::Imm(0));
            },
        }
    }

    /// This instruction's machine code.
    pub fn assemble(self, rt: &Runtime) -> (r: Vec<u8>)
        ensures
            r@ == template(self@, *rt),
    {
        let mut out: Vec<u8> = Vec::new();
        self.assemble_into(rt, &mut out);
        assert(out@ =~= template(self@, *rt));
        out
    }
}

} // verus!
