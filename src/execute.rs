//! What emitted code does, instruction by instruction, in terms of the
//! runtime helpers it calls; and an interpreter that runs a program on a
//! context in that way, without native code.

use vstd::prelude::*;
use crate::command::{Command, CommandView};
use crate::context::{
    peek_spec, pop_spec, print_spec, push_spec, read_spec, retrieve_spec, slide_spec, store_spec,
    Context, ContextView,
};
use crate::emit::{copy_label, reloc_site, target_of};
use crate::label::{bits_equal, Label, LabelView, Number};
use crate::parser::views;

verus! {

/// Where control goes after an instruction.
pub enum Control {
    Next,
    Halt,
    Jump(Label),
    Call(Label),
    Return,
    /// The processor faults: division by zero or a quotient out of range.
    Trap,
}

/// The mathematical model of a [`Control`].
pub ghost enum ControlView {
    Next,
    Halt,
    Jump(LabelView),
    Call(LabelView),
    Return,
    Trap,
}

impl View for Control {
    type V = ControlView;

    open spec fn view(&self) -> ControlView {
        match self {
            Control::Next => ControlView::Next,
            Control::Halt => ControlView::Halt,
            Control::Jump(l) => ControlView::Jump(l@),
            Control::Call(l) => ControlView::Call(l@),
            Control::Return => ControlView::Return,
            Control::Trap => ControlView::Trap,
        }
    }
}

/// How a run ends.
#[derive(Clone, Copy, Debug, PartialEq, Eq, Structural)]
pub enum Outcome {
    /// It reached `Exit` or the end of the program.
    Finished,
    /// The processor faulted.
    Trapped,
    /// A jump or call named a label that no `Mark` defines, or `Return`
    /// found no call to return to.
    BadTransfer,
    /// It ran out of steps.
    OutOfFuel,
}

pub open spec fn abs(a: int) -> nat {
    (if a < 0 { -a } else { a }) as nat
}

/// Division truncated toward zero, as `idiv` computes it.
pub open spec fn trunc_div(a: int, b: int) -> int {
    let q = abs(a) / abs(b);
    if (a < 0) != (b < 0) {
        -q
    } else {
        q as int
    }
}

/// The remainder of [`trunc_div`], with the sign of the dividend.
pub open spec fn trunc_rem(a: int, b: int) -> int {
    let r = abs(a) % abs(b);
    if a < 0 {
        -r
    } else {
        r as int
    }
}

/// The result of an arithmetic instruction on second-from-top `a` and top
/// `b`; `None` where `idiv` faults.
pub open spec fn arith_spec(c: CommandView, a: Number, b: Number) -> Option<Number> {
    match c {
        CommandView::Add => Some(a.wrapping_add(b)),
        CommandView::Subtract => Some(a.wrapping_sub(b)),
        CommandView::Multiply => Some(a.wrapping_mul(b)),
        _ => if b == 0 || (a == i64::MIN && b == -1) {
            None
        } else if c is Divide {
            Some(trunc_div(a as int, b as int) as Number)
        } else {
            Some(trunc_rem(a as int, b as int) as Number)
        },
    }
}

/// The effect of one instruction's code on the context, and where control
/// goes next.
pub open spec fn step(m: ContextView, c: CommandView) -> (ContextView, ControlView) {
    match c {
        CommandView::Initialize | CommandView::Mark(_) => (m, ControlView::Next),
        CommandView::Deinitialize | CommandView::Exit => (m, ControlView::Halt),
        CommandView::Push(n) => (push_spec(m, n), ControlView::Next),
        CommandView::Duplicate => {
            let (m1, v) = peek_spec(m, 0);
            (push_spec(m1, v), ControlView::Next)
        },
        CommandView::Copy(n) => {
            let (m1, v) = peek_spec(m, n);
            (push_spec(m1, v), ControlView::Next)
        },
        CommandView::Swap => {
            let (m1, x) = pop_spec(m);
            let (m2, y) = pop_spec(m1);
            (push_spec(push_spec(m2, x), y), ControlView::Next)
        },
        CommandView::Pop => (pop_spec(m).0, ControlView::Next),
        CommandView::Slide(n) => (slide_spec(m, n), ControlView::Next),
        CommandView::Add | CommandView::Subtract | CommandView::Multiply
        | CommandView::Divide | CommandView::Modulus => {
            let (m1, b) = pop_spec(m);
            let (m2, a) = pop_spec(m1);
            match arith_spec(c, a, b) {
                Some(v) => (push_spec(m2, v), ControlView::Next),
                None => (m2, ControlView::Trap),
            }
        },
        CommandView::Store => (store_spec(m), ControlView::Next),
        CommandView::Retrieve => (retrieve_spec(m).0, ControlView::Next),
        CommandView::Call(l) => (m, ControlView::Call(l)),
        CommandView::Jump(l) => (m, ControlView::Jump(l)),
        CommandView::JumpZero(l) => {
            let (m1, v) = pop_spec(m);
            (m1, if v == 0 { ControlView::Jump(l) } else { ControlView::Next })
        },
        CommandView::JumpNegative(l) => {
            let (m1, v) = pop_spec(m);
            (m1, if v < 0 { ControlView::Jump(l) } else { ControlView::Next })
        },
        CommandView::Return => (m, ControlView::Return),
        CommandView::OutputChar => (print_spec(m, true), ControlView::Next),
        CommandView::OutputNum => (print_spec(m, false), ControlView::Next),
        CommandView::ReadChar => (read_spec(m, true), ControlView::Next),
        CommandView::ReadNum => (read_spec(m, false), ControlView::Next),
    }
}

/// The first index, from `i` on, at which `l` is marked.
pub open spec fn mark_from(prog: Seq<CommandView>, l: LabelView, i: int) -> Option<int>
    decreases prog.len() - i,
{
    if i < 0 || i >= prog.len() {
        None
    } else if prog[i] == CommandView::Mark(l) {
        Some(i)
    } else {
        mark_from(prog, l, i + 1)
    }
}

/// Runs `prog` from instruction `pc`, with return points `calls`, for at
/// most `fuel` instructions.
pub open spec fn run(
    m: ContextView,
    prog: Seq<CommandView>,
    pc: int,
    calls: Seq<int>,
    fuel: nat,
) -> (ContextView, Outcome)
    decreases fuel,
{
    if pc < 0 || pc >= prog.len() {
        (m, Outcome::Finished)
    } else if fuel == 0 {
        (m, Outcome::OutOfFuel)
    } else {
        let (m1, ctl) = step(m, prog[pc]);
        let f = (fuel - 1) as nat;
        match ctl {
            ControlView::Next => run(m1, prog, pc + 1, calls, f),
            ControlView::Halt => (m1, Outcome::Finished),
            ControlView::Trap => (m1, Outcome::Trapped),
            ControlView::Jump(l) => match mark_from(prog, l, 0) {
                Some(i) => run(m1, prog, i, calls, f),
                None => (m1, Outcome::BadTransfer),
            },
            ControlView::Call(l) => match mark_from(prog, l, 0) {
                Some(i) => run(m1, prog, i, calls.push(pc + 1), f),
                None => (m1, Outcome::BadTransfer),
            },
            ControlView::Return => if calls.len() == 0 {
                (m1, Outcome::BadTransfer)
            } else {
                run(m1, prog, calls.last(), calls.drop_last(), f)
            },
        }
    }
}

/// Whether two labels are equal.
fn labels_equal(a: &Label, b: &Label) -> (r: bool)
    ensures
        r == (a@ == b@),
{
    match (a, b) {
        (Label::Name(x), Label::Name(y)) => bits_equal(x, y),
        (Label::Translated(x), Label::Translated(y)) => *x == *y,
        _ => false,
    }
}

/// The index at which `l` is first marked in `program`.
fn find_mark(program: &Vec<Command>, l: &Label) -> (r: Option<usize>)
    ensures
        match r {
            Some(i) => mark_from(views(program@), l@, 0) == Some(i as int) && i < program@.len(),
            None => mark_from(views(program@), l@, 0) is None,
        },
{
    let ghost prog = views(program@);
    let mut i: usize = 0;
    while i < program.len()
        invariant
            i <= program@.len(),
            prog == views(program@),
            mark_from(prog, l@, 0) == mark_from(prog, l@, i as int),
        decreases program@.len() - i,
    {
        if let Command::Mark(m) = &program[i] {
            if labels_equal(m, l) {
                return Some(i);
            }
        }
        assert(prog[i as int] == program@[i as int]@);
        i = i + 1;
    }
    None
}

/// Truncating division, as `idiv` computes it.
fn divide(a: Number, b: Number, quotient: bool) -> (r: Number)
    requires
        b != 0,
        !(a == i64::MIN && b == -1),
    ensures
        r == (if quotient {
            trunc_div(a as int, b as int)
        } else {
            trunc_rem(a as int, b as int)
        }),
{
    let ua: u64 = if a >= 0 {
        a as u64
    } else if a == i64::MIN {
        0x8000_0000_0000_0000
    } else {
        (-a) as u64
    };
    let ub: u64 = if b >= 0 {
        b as u64
    } else if b == i64::MIN {
        0x8000_0000_0000_0000
    } else {
        (-b) as u64
    };
    if quotient {
        let q = ua / ub;
        proof {
            if ub == 1 {
                assert(q == ua) by (nonlinear_arith)
                    requires
                        ub == 1,
                        q == ua / ub,
                ;
            } else {
                assert(q <= ua / 2) by (nonlinear_arith)
                    requires
                        ub >= 2,
                        q == ua / ub,
                ;
            }
        }
        if (a < 0) != (b < 0) {
            if q == 0x8000_0000_0000_0000 {
                i64::MIN
            } else {
                -(q as i64)
            }
        } else {
            q as i64
        }
    } else {
        let r = ua % ub;
        if a < 0 {
            if r == 0x8000_0000_0000_0000 {
                i64::MIN
            } else {
                -(r as i64)
            }
        } else {
            r as i64
        }
    }
}

pub open spec fn int_views(calls: Seq<usize>) -> Seq<int> {
    calls.map_values(|x: usize| x as int)
}

impl Context {
    /// Performs one instruction: calls the helpers that its code calls, in
    /// the same order and with the same arguments, and says where control
    /// goes next.
    pub fn perform(&mut self, c: &Command) -> (r: Control)
        requires
            old(self).wf(),
        ensures
            old(self).keeps(final(self)),
            (final(self)@, r@) == step(old(self)@, c@),
    {
        match c {
            Command::Initialize | Command::Mark(_) => Control::Next,
            Command::Deinitialize | Command::Exit => Control::Halt,
            Command::Push(n) => {
                self.push_stack(*n);
                Control::Next
            },
            Command::Duplicate => {
                let v = self.peek_stack(0);
                self.push_stack(v);
                Control::Next
            },
            Command::Copy(n) => {
                let v = self.peek_stack(*n);
                self.push_stack(v);
                Control::Next
            },
            Command::Swap => {
                let x = self.pop_stack();
                let y = self.pop_stack();
                self.push_stack(x);
                self.push_stack(y);
                Control::Next
            },
            Command::Pop => {
                self.pop_stack();
                Control::Next
            },
            Command::Slide(n) => {
                self.slide(*n);
                Control::Next
            },
            Command::Add | Command::Subtract | Command::Multiply | Command::Divide
            | Command::Modulus => {
                let b = self.pop_stack();
                let a = self.pop_stack();
                let v = match c {
                    Command::Add => a.wrapping_add(b),
                    Command::Subtract => a.wrapping_sub(b),
                    Command::Multiply => a.wrapping_mul(b),
                    _ => {
                        if b == 0 || (a == i64::MIN && b == -1) {
                            return Control::Trap;
                        }
                        divide(a, b, matches!(c, Command::Divide))
                    },
                };
                self.push_stack(v);
                Control::Next
            },
            Command::Store => {
                self.store();
                Control::Next
            },
            Command::Retrieve => {
                self.retrieve();
                Control::Next
            },
            Command::Call(l) => Control::Call(copy_label(l)),
            Command::Jump(l) => Control::Jump(copy_label(l)),
            Command::JumpZero(l) => {
                let v = self.pop_stack();
                if v == 0 {
                    Control::Jump(copy_label(l))
                } else {
                    Control::Next
                }
            },
            Command::JumpNegative(l) => {
                let v = self.pop_stack();
                if v < 0 {
                    Control::Jump(copy_label(l))
                } else {
                    Control::Next
                }
            },
            Command::Return => Control::Return,
            Command::OutputChar => {
                self.print(true);
                Control::Next
            },
            Command::OutputNum => {
                self.print(false);
                Control::Next
            },
            Command::ReadChar => {
                self.read(true);
                Control::Next
            },
            Command::ReadNum => {
                self.read(false);
                Control::Next
            },
        }
    }
}

impl Context {
    /// Runs `program` from its first instruction for at most `fuel`
    /// instructions, as its emitted code would run, and says how the run
    /// ended.
    pub fn execute(&mut self, program: &Vec<Command>, fuel: usize) -> (r: Outcome)
        requires
            old(self).wf(),
        ensures
            old(self).keeps(final(self)),
            (final(self)@, r) == run(old(self)@, views(program@), 0, Seq::empty(), fuel as nat),
    {
        let ghost prog = views(program@);
        let mut pc: usize = 0;
        let mut calls: Vec<usize> = Vec::new();
        let mut left: usize = fuel;
        assert(int_views(calls@) =~= Seq::<int>::empty());
        loop
            invariant
                prog == views(program@),
                old(self).keeps(self),
                pc <= program@.len(),
                forall|k: int| 0 <= k < calls@.len() ==> #[trigger] calls@[k] <= program@.len(),
                run(old(self)@, prog, 0, Seq::empty(), fuel as nat) == run(
                    self@,
                    prog,
                    pc as int,
                    int_views(calls@),
                    left as nat,
                ),
            decreases left,
        {
            if pc >= program.len() {
                return Outcome::Finished;
            }
            if left == 0 {
                return Outcome::OutOfFuel;
            }
            let ghost cv = int_views(calls@);
            assert(prog[pc as int] == program@[pc as int]@);
            let ctl = self.perform(&program[pc]);
            left = left - 1;
            match ctl {
                Control::Next => {
                    pc = pc + 1;
                },
                Control::Halt => {
                    return Outcome::Finished;
                },
                Control::Trap => {
                    return Outcome::Trapped;
                },
                Control::Jump(l) => match find_mark(program, &l) {
                    Some(i) => {
                        pc = i;
                    },
                    None => {
                        return Outcome::BadTransfer;
                    },
                },
                Control::Call(l) => match find_mark(program, &l) {
                    Some(i) => {
                        calls.push(pc + 1);
                        assert(int_views(calls@) =~= cv.push(pc + 1));
                        pc = i;
                    },
                    None => {
                        return Outcome::BadTransfer;
                    },
                },
                Control::Return => match calls.pop() {
                    Some(back) => {
                        assert(int_views(calls@) =~= cv.drop_last());
                        pc = back;
                    },
                    None => {
                        return Outcome::BadTransfer;
                    },
                },
            }
        }
    }
}

/// A program that pushes each of `ks` in turn.
pub open spec fn pushes(ks: Seq<Number>) -> Seq<CommandView> {
    ks.map_values(|k: Number| CommandView::Push(k))
}

proof fn lemma_pushes_from(m: ContextView, ks: Seq<Number>, i: int, calls: Seq<int>, fuel: nat)
    requires
        0 <= i <= ks.len(),
        fuel >= ks.len() - i,
    ensures
        run(m, pushes(ks), i, calls, fuel) == (
            ContextView { stack: m.stack + ks.subrange(i, ks.len() as int), ..m },
            Outcome::Finished,
        ),
    decreases ks.len() - i,
{
    if i == ks.len() {
        assert(m.stack + ks.subrange(i, ks.len() as int) =~= m.stack);
    } else {
        let m1 = push_spec(m, ks[i]);
        lemma_pushes_from(m1, ks, i + 1, calls, (fuel - 1) as nat);
        assert(m1.stack + ks.subrange(i + 1, ks.len() as int) =~= m.stack + ks.subrange(
            i,
            ks.len() as int,
        ));
    }
}

/// Stack semantics: a program of pushes alone, given a step for each, ends
/// with its numbers on top of the stack, in order, the last on top.
pub proof fn lemma_pushes(m: ContextView, ks: Seq<Number>)
    ensures
        run(m, pushes(ks), 0, Seq::empty(), ks.len()) == (
            ContextView { stack: m.stack + ks, ..m },
            Outcome::Finished,
        ),
{
    lemma_pushes_from(m, ks, 0, Seq::empty(), ks.len());
    assert(ks.subrange(0, ks.len() as int) =~= ks);
}

proof fn lemma_two_pushes_then(m: ContextView, a: Number, b: Number, c: CommandView)
    requires
        c is Add || c is Subtract || c is Multiply || c is Divide || c is Modulus,
        arith_spec(c, a, b) is Some,
    ensures
        run(m, seq![CommandView::Push(a), CommandView::Push(b), c], 0, Seq::empty(), 3) == (
            push_spec(m, arith_spec(c, a, b)->Some_0),
            Outcome::Finished,
        ),
{
    reveal_with_fuel(run, 4);
    let prog = seq![CommandView::Push(a), CommandView::Push(b), c];
    let m2 = push_spec(push_spec(m, a), b);
    assert(m2.stack.drop_last() =~= m.stack.push(a));
    assert(m.stack.push(a).drop_last() =~= m.stack);
    assert(pop_spec(m2) == (push_spec(m, a), b));
    assert(pop_spec(push_spec(m, a)) == (m, a));
}

/// Arithmetic identities: after `Push(a); Push(b)`, `Add`, `Subtract` and
/// `Multiply` leave `a+b`, `a-b` and `a*b` on top, wrapped to 64 bits, and
/// exactly so where the exact value fits.
pub proof fn lemma_arithmetic(m: ContextView, a: Number, b: Number)
    ensures
        run(
            m,
            seq![CommandView::Push(a), CommandView::Push(b), CommandView::Add],
            0,
            Seq::empty(),
            3,
        ) == (push_spec(m, a.wrapping_add(b)), Outcome::Finished),
        run(
            m,
            seq![CommandView::Push(a), CommandView::Push(b), CommandView::Subtract],
            0,
            Seq::empty(),
            3,
        ) == (push_spec(m, a.wrapping_sub(b)), Outcome::Finished),
        run(
            m,
            seq![CommandView::Push(a), CommandView::Push(b), CommandView::Multiply],
            0,
            Seq::empty(),
            3,
        ) == (push_spec(m, a.wrapping_mul(b)), Outcome::Finished),
        i64::MIN <= a + b <= i64::MAX ==> a.wrapping_add(b) == a + b,
        i64::MIN <= a - b <= i64::MAX ==> a.wrapping_sub(b) == a - b,
        i64::MIN <= a * b <= i64::MAX ==> a.wrapping_mul(b) == a * b,
{
    lemma_two_pushes_then(m, a, b, CommandView::Add);
    lemma_two_pushes_then(m, a, b, CommandView::Subtract);
    lemma_two_pushes_then(m, a, b, CommandView::Multiply);
    if i64::MIN <= a * b <= i64::MAX {
        let p = a * b;
        assert(p % 0x1_0000_0000_0000_0000 == if p >= 0 {
            p
        } else {
            p + 0x1_0000_0000_0000_0000
        }) by {
            if p < 0 {
                vstd::arithmetic::div_mod::lemma_fundamental_div_mod(p, 0x1_0000_0000_0000_0000);
                assert(p / 0x1_0000_0000_0000_0000 == -1) by {
                    vstd::arithmetic::div_mod::lemma_div_multiples_vanish_fancy(
                        -1,
                        p + 0x1_0000_0000_0000_0000,
                        0x1_0000_0000_0000_0000,
                    );
                }
            } else {
                vstd::arithmetic::div_mod::lemma_small_mod(p as nat, 0x1_0000_0000_0000_0000);
            }
        }
    }
}

/// Division rounded toward negative infinity.
pub open spec fn floor_div(a: int, b: int) -> int {
    if b > 0 {
        a / b
    } else {
        (-a) / (-b)
    }
}

/// The modulus that goes with [`floor_div`]: it has the divisor's sign.
pub open spec fn floor_mod(a: int, b: int) -> int {
    a - b * floor_div(a, b)
}

/// Division identities: after `Push(a); Push(b)`, `Divide` leaves the
/// quotient rounded toward negative infinity and `Modulus` the remainder
/// with the divisor's sign. The emitted `idiv` rounds toward zero, so this
/// holds where the two roundings agree: the operands do not have opposite
/// signs, or the division is exact. A zero divisor, and `i64::MIN / -1`,
/// fault the processor instead.
pub proof fn lemma_division(m: ContextView, a: Number, b: Number)
    requires
        b != 0,
        !(a == i64::MIN && b == -1),
        (a >= 0 && b > 0) || (a <= 0 && b < 0) || abs(a as int) % abs(b as int) == 0,
    ensures
        run(
            m,
            seq![CommandView::Push(a), CommandView::Push(b), CommandView::Divide],
            0,
            Seq::empty(),
            3,
        ) == (push_spec(m, floor_div(a as int, b as int) as Number), Outcome::Finished),
        run(
            m,
            seq![CommandView::Push(a), CommandView::Push(b), CommandView::Modulus],
            0,
            Seq::empty(),
            3,
        ) == (push_spec(m, floor_mod(a as int, b as int) as Number), Outcome::Finished),
{
    lemma_two_pushes_then(m, a, b, CommandView::Divide);
    lemma_two_pushes_then(m, a, b, CommandView::Modulus);
    let x = a as int;
    let y = b as int;
    let ax = abs(x) as int;
    let ay = abs(y) as int;
    vstd::arithmetic::div_mod::lemma_fundamental_div_mod(ax, ay);
    let q = ax / ay;
    let r = ax % ay;
    if x >= 0 && y > 0 {
        assert(trunc_div(x, y) == floor_div(x, y));
        assert(trunc_rem(x, y) == floor_mod(x, y)) by (nonlinear_arith)
            requires
                ax == x,
                ay == y,
                ax == ay * q + r,
                trunc_rem(x, y) == r,
                floor_mod(x, y) == x - y * q,
        ;
    } else if x <= 0 && y < 0 {
        assert(trunc_div(x, y) == floor_div(x, y));
        assert(trunc_rem(x, y) == floor_mod(x, y)) by (nonlinear_arith)
            requires
                ax == -x,
                ay == -y,
                ax == ay * q + r,
                trunc_rem(x, y) == -r,
                floor_mod(x, y) == x - y * q,
        ;
    } else {
        assert(r == 0);
        if x > 0 {
            assert(-x == ay * (-q)) by (nonlinear_arith)
                requires
                    ax == x,
                    ax == ay * q,
            ;
            vstd::arithmetic::div_mod::lemma_div_multiples_vanish(-q, ay);
            assert(floor_div(x, y) == -q);
            assert(floor_mod(x, y) == 0) by (nonlinear_arith)
                requires
                    floor_mod(x, y) == x - y * (-q),
                    ay == -y,
                    x == ay * q,
            ;
        } else {
            assert(x == ay * (-q)) by (nonlinear_arith)
                requires
                    ax == -x,
                    ax == ay * q,
            ;
            vstd::arithmetic::div_mod::lemma_div_multiples_vanish(-q, ay);
            assert(floor_div(x, y) == -q);
            assert(floor_mod(x, y) == 0) by (nonlinear_arith)
                requires
                    floor_mod(x, y) == x - y * (-q),
                    ay == y,
                    x == ay * (-q),
            ;
        }
    }
}

/// No control transfer in `p` names a label that is marked in `q`.
pub open spec fn transfers_avoid(p: Seq<CommandView>, q: Seq<CommandView>) -> bool {
    forall|i: int, j: int|
        0 <= i < p.len() && 0 <= j < q.len() && #[trigger] reloc_site(p[i]) is Some ==> #[trigger] q[j]
            != CommandView::Mark(target_of(p[i]))
}

proof fn lemma_mark_range(prog: Seq<CommandView>, l: LabelView, k: int)
    requires
        0 <= k,
    ensures
        mark_from(prog, l, k) matches Some(i) ==> k <= i < prog.len(),
    decreases prog.len() - k,
{
    if k < prog.len() {
        lemma_mark_range(prog, l, k + 1);
    }
}

proof fn lemma_no_mark_after(prog: Seq<CommandView>, l: LabelView, k: int)
    requires
        0 <= k,
        forall|j: int| k <= j < prog.len() ==> prog[j] != CommandView::Mark(l),
    ensures
        mark_from(prog, l, k) is None,
    decreases prog.len() - k,
{
    if k < prog.len() {
        lemma_no_mark_after(prog, l, k + 1);
    }
}

proof fn lemma_mark_same(p: Seq<CommandView>, q: Seq<CommandView>, l: LabelView, k: int)
    requires
        0 <= k <= p.len() + 1,
        forall|j: int| 0 <= j < q.len() ==> q[j] != CommandView::Mark(l),
    ensures
        mark_from(p + seq![CommandView::Exit] + q, l, k) == mark_from(
            p + seq![CommandView::Exit],
            l,
            k,
        ),
    decreases p.len() + 1 - k,
{
    let long = p + seq![CommandView::Exit] + q;
    let short = p + seq![CommandView::Exit];
    if k == p.len() + 1 {
        assert forall|j: int| k <= j < long.len() implies long[j] != CommandView::Mark(l) by {
            assert(long[j] == q[j - k]);
        }
        lemma_no_mark_after(long, l, k);
    } else {
        assert(long[k] == short[k]);
        lemma_mark_same(p, q, l, k + 1);
    }
}

proof fn lemma_step_transfer(m: ContextView, c: CommandView)
    ensures
        step(m, c).1 matches ControlView::Jump(l) ==> reloc_site(c) is Some && l == target_of(c),
        step(m, c).1 matches ControlView::Call(l) ==> reloc_site(c) is Some && l == target_of(c),
        c is Exit ==> step(m, c).1 is Halt,
{
}

proof fn lemma_exit_from(
    m: ContextView,
    p: Seq<CommandView>,
    q: Seq<CommandView>,
    pc: int,
    calls: Seq<int>,
    fuel: nat,
)
    requires
        transfers_avoid(p, q),
        0 <= pc <= p.len(),
        forall|k: int| 0 <= k < calls.len() ==> 0 <= #[trigger] calls[k] <= p.len(),
    ensures
        run(m, p + seq![CommandView::Exit] + q, pc, calls, fuel) == run(
            m,
            p + seq![CommandView::Exit],
            pc,
            calls,
            fuel,
        ),
    decreases fuel,
{
    let long = p + seq![CommandView::Exit] + q;
    let short = p + seq![CommandView::Exit];
    assert(long[pc] == short[pc]);
    if fuel > 0 {
        let c = short[pc];
        let (m1, ctl) = step(m, c);
        let f = (fuel - 1) as nat;
        lemma_step_transfer(m, c);
        if pc == p.len() {
            assert(c == CommandView::Exit);
        } else {
            assert(c == p[pc]);
            match ctl {
                ControlView::Next => {
                    lemma_exit_from(m1, p, q, pc + 1, calls, f);
                },
                ControlView::Jump(l) => {
                    assert forall|j: int| 0 <= j < q.len() implies q[j] != CommandView::Mark(l) by {
                        assert(reloc_site(p[pc]) is Some);
                    }
                    lemma_mark_same(p, q, l, 0);
                    lemma_mark_range(short, l, 0);
                    if let Some(i) = mark_from(short, l, 0) {
                        lemma_exit_from(m1, p, q, i, calls, f);
                    }
                },
                ControlView::Call(l) => {
                    assert forall|j: int| 0 <= j < q.len() implies q[j] != CommandView::Mark(l) by {
                        assert(reloc_site(p[pc]) is Some);
                    }
                    lemma_mark_same(p, q, l, 0);
                    lemma_mark_range(short, l, 0);
                    if let Some(i) = mark_from(short, l, 0) {
                        let pushed = calls.push(pc + 1);
                        assert forall|k: int| 0 <= k < pushed.len() implies 0 <= #[trigger] pushed[k]
                            <= p.len() by {
                            if k < calls.len() {
                                assert(pushed[k] == calls[k]);
                            }
                        }
                        lemma_exit_from(m1, p, q, i, pushed, f);
                    }
                },
                ControlView::Return => {
                    if calls.len() > 0 {
                        let rest = calls.drop_last();
                        assert forall|k: int| 0 <= k < rest.len() implies 0 <= #[trigger] rest[k]
                            <= p.len() by {
                            assert(rest[k] == calls[k]);
                        }
                        assert(0 <= calls[calls.len() - 1] <= p.len());
                        lemma_exit_from(m1, p, q, calls.last(), rest, f);
                    }
                },
                _ => {},
            }
        }
    }
}

/// Exit halts: whatever follows an `Exit` never runs, so long as nothing
/// before it jumps to or calls a label marked after it.
pub proof fn lemma_exit_halts(
    m: ContextView,
    p: Seq<CommandView>,
    q: Seq<CommandView>,
    fuel: nat,
)
    requires
        transfers_avoid(p, q),
    ensures
        run(m, p + seq![CommandView::Exit] + q, 0, Seq::empty(), fuel) == run(
            m,
            p + seq![CommandView::Exit],
            0,
            Seq::empty(),
            fuel,
        ),
{
    lemma_exit_from(m, p, q, 0, Seq::empty(), fuel);
}

} // verus!
