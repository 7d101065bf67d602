//! The runtime context of a running program: operand stack, heap, labels,
//! input and output, and the helpers that emitted code calls into.

use vstd::prelude::*;
use std::collections::HashMap;
use crate::label::{LabelTable, Number};

verus! {

broadcast use vstd::std_specs::hash::group_hash_axioms;

/// A runtime fault. Helpers record it and go on with a zero in place of
/// the value that was missing.
#[derive(Clone, Copy, Debug, PartialEq, Eq, Structural)]
pub enum Fault {
    /// A value was wanted from a stack that did not hold it.
    StackUnderflow,
    /// A heap address was read that was never stored to.
    HeapMiss,
    /// A read found no input, or a line that does not hold what was asked.
    IoFailure,
}

/// The state of a running program.
pub struct Context {
    /// The operand stack, top at the end.
    pub stack: Vec<Number>,
    /// The heap, from address to value.
    pub heap: HashMap<Number, Number>,
    /// The offset in the code at which each label is marked.
    pub labels: LabelTable,
    /// What the program has written and the caller has not yet taken.
    pub stdout: Vec<u8>,
    /// The faults recorded so far, in order.
    pub faults: Vec<Fault>,
    /// The input; what lies before `stdin_pos` has been read.
    pub stdin: Vec<u8>,
    pub stdin_pos: usize,
    /// Whether the input is a fixed byte source that nothing adds to.
    pub stdin_fixed: bool,
    /// Whether output is kept for the caller rather than handed on to the
    /// process's standard output.
    pub captured: bool,
}

/// The mathematical model of a [`Context`]: what the program can observe.
pub ghost struct ContextView {
    pub stack: Seq<Number>,
    pub heap: Map<Number, Number>,
    /// The input not read yet.
    pub input: Seq<u8>,
    pub output: Seq<u8>,
    pub faults: Seq<Fault>,
}

impl View for Context {
    type V = ContextView;

    open spec fn view(&self) -> ContextView {
        ContextView {
            stack: self.stack@,
            heap: self.heap@,
            input: self.stdin@.subrange(self.stdin_pos as int, self.stdin@.len() as int),
            output: self.stdout@,
            faults: self.faults@,
        }
    }
}

/// `m` with fault `f` recorded.
pub open spec fn with_fault(m: ContextView, f: Fault) -> ContextView {
    ContextView { faults: m.faults.push(f), ..m }
}

/// Pushes `n`.
pub open spec fn push_spec(m: ContextView, n: Number) -> ContextView {
    ContextView { stack: m.stack.push(n), ..m }
}

/// Pops the top; an empty stack gives zero and a fault.
pub open spec fn pop_spec(m: ContextView) -> (ContextView, Number) {
    if m.stack.len() == 0 {
        (with_fault(m, Fault::StackUnderflow), 0)
    } else {
        (ContextView { stack: m.stack.drop_last(), ..m }, m.stack.last())
    }
}

/// Reads the element `k` places below the top (0 is the top); a missing
/// one gives zero and a fault.
pub open spec fn peek_spec(m: ContextView, k: Number) -> (ContextView, Number) {
    if 0 <= k < m.stack.len() {
        (m, m.stack[m.stack.len() - 1 - k])
    } else {
        (with_fault(m, Fault::StackUnderflow), 0)
    }
}

/// Pops a value, then an address, and stores the value at the address.
pub open spec fn store_spec(m: ContextView) -> ContextView {
    let (m1, v) = pop_spec(m);
    let (m2, a) = pop_spec(m1);
    ContextView { heap: m2.heap.insert(a, v), ..m2 }
}

/// Pops an address and pushes the value stored there; an address never
/// stored to gives zero and a fault.
pub open spec fn retrieve_spec(m: ContextView) -> (ContextView, Number) {
    let (m1, a) = pop_spec(m);
    if m1.heap.contains_key(a) {
        (push_spec(m1, m1.heap[a]), m1.heap[a])
    } else {
        (push_spec(with_fault(m1, Fault::HeapMiss), 0), 0)
    }
}

/// Pops the top, drops the `n` values below it, pushes the top again.
/// Where fewer than `n` remain, all of them go and a fault is recorded.
pub open spec fn slide_spec(m: ContextView, n: Number) -> ContextView {
    let (m1, t) = pop_spec(m);
    let len = m1.stack.len();
    if n <= 0 {
        push_spec(m1, t)
    } else if n <= len {
        push_spec(ContextView { stack: m1.stack.subrange(0, len - n), ..m1 }, t)
    } else {
        push_spec(with_fault(ContextView { stack: Seq::empty(), ..m1 }, Fault::StackUnderflow), t)
    }
}

/// The decimal digits of `m`, most significant first.
pub open spec fn digits(m: nat) -> Seq<u8>
    decreases m,
{
    if m < 10 {
        seq![(48 + m) as u8]
    } else {
        digits(m / 10) + seq![(48 + m % 10) as u8]
    }
}

/// The decimal text of `v`: a minus sign for negatives, no leading zeros.
pub open spec fn decimal(v: Number) -> Seq<u8> {
    if v < 0 {
        seq![45u8] + digits((-v) as nat)
    } else {
        digits(v as nat)
    }
}

pub open spec fn is_digit(b: u8) -> bool {
    48 <= b <= 57
}

/// The value of a string of decimal digits.
pub open spec fn digits_value(s: Seq<u8>) -> nat
    decreases s.len(),
{
    if s.len() == 0 {
        0
    } else {
        10 * digits_value(s.drop_last()) + (s.last() - 48) as nat
    }
}

pub open spec fn all_digits(b: Seq<u8>) -> bool {
    forall|i: int| 0 <= i < b.len() ==> is_digit(#[trigger] b[i])
}

/// A base-10 signed integer: an optional `+` or `-`, then one or more
/// digits, with a value that fits in 64 bits.
pub open spec fn decimal_value(s: Seq<u8>) -> Option<Number> {
    let signed = s.len() > 0 && (s[0] == 45 || s[0] == 43);
    let body = if signed { s.subrange(1, s.len() as int) } else { s };
    if body.len() == 0 || !all_digits(body) {
        None
    } else {
        let v: int = if signed && s[0] == 45 { -digits_value(body) } else { digits_value(body) as int };
        if i64::MIN <= v <= i64::MAX {
            Some(v as Number)
        } else {
            None
        }
    }
}

/// The length of the first line of `s`, without its newline.
pub open spec fn line_len(s: Seq<u8>) -> nat
    decreases s.len(),
{
    if s.len() == 0 || s[0] == 10 {
        0
    } else {
        1 + line_len(s.subrange(1, s.len() as int))
    }
}

/// What is left of `s` after its first line and that line's newline.
pub open spec fn after_line(s: Seq<u8>) -> Seq<u8> {
    let e = line_len(s);
    if e < s.len() {
        s.subrange(e + 1int, s.len() as int)
    } else {
        Seq::empty()
    }
}

/// Writes the top of the stack, which stays: as one byte, or in decimal.
pub open spec fn print_spec(m: ContextView, is_char: bool) -> ContextView {
    let (m1, v) = peek_spec(m, 0);
    ContextView {
        output: m1.output + (if is_char {
            seq![#[verifier::truncate] (v as u8)]
        } else {
            decimal(v)
        }),
        ..m1
    }
}

/// Reads a line and stores, at the address on top of the stack (which
/// stays), its first byte or its decimal value. No input, or a line that
/// does not hold what was asked, records a fault and stores zero.
pub open spec fn read_spec(m: ContextView, is_char: bool) -> ContextView {
    let (m1, a) = peek_spec(m, 0);
    if m1.input.len() == 0 {
        failed_read(m1, a)
    } else {
        let line = m1.input.subrange(0, line_len(m1.input) as int);
        let m2 = ContextView { input: after_line(m1.input), ..m1 };
        if is_char {
            if line.len() > 0 {
                ContextView { heap: m2.heap.insert(a, line[0] as Number), ..m2 }
            } else {
                failed_read(m2, a)
            }
        } else {
            match decimal_value(line) {
                Some(v) => ContextView { heap: m2.heap.insert(a, v), ..m2 },
                None => failed_read(m2, a),
            }
        }
    }
}

/// A read that failed: the fault is recorded and zero is stored at `a`.
pub open spec fn failed_read(m: ContextView, a: Number) -> ContextView {
    ContextView { heap: m.heap.insert(a, 0), ..with_fault(m, Fault::IoFailure) }
}

/// Appends the decimal digits of `m`.
fn push_digits(out: &mut Vec<u8>, m: u64)
    ensures
        final(out)@ == old(out)@ + digits(m as nat),
    decreases m,
{
    if m >= 10 {
        push_digits(out, m / 10);
    }
    out.push((48 + m % 10) as u8);
    assert(final(out)@ =~= old(out)@ + digits(m as nat));
}

/// The decimal text of `v`.
pub fn format_decimal(v: Number) -> (r: Vec<u8>)
    ensures
        r@ == decimal(v),
{
    let mut out: Vec<u8> = Vec::new();
    if v < 0 {
        out.push(45);
        let m: u64 = if v == i64::MIN {
            0x8000_0000_0000_0000
        } else {
            (-v) as u64
        };
        push_digits(&mut out, m);
        assert(out@ =~= decimal(v));
    } else {
        push_digits(&mut out, v as u64);
        assert(out@ =~= decimal(v));
    }
    out
}

/// Parses a base-10 signed integer.
pub fn parse_decimal(s: &[u8]) -> (r: Option<Number>)
    ensures
        r == decimal_value(s@),
{
    let signed = s.len() > 0 && (s[0] == 45 || s[0] == 43);
    let start: usize = if signed {
        1
    } else {
        0
    };
    let ghost body = if signed { s@.subrange(1, s@.len() as int) } else { s@ };
    assert(body =~= s@.subrange(start as int, s@.len() as int));
    if start >= s.len() {
        return None;
    }
    let mut mag: u64 = 0;
    let mut big = false;
    let mut k: usize = start;
    while k < s.len()
        invariant
            start <= k <= s@.len(),
            signed == (s@.len() > 0 && (s@[0] == 45 || s@[0] == 43)),
            start == (if signed { 1int } else { 0int }),
            body == (if signed { s@.subrange(1, s@.len() as int) } else { s@ }),
            body =~= s@.subrange(start as int, s@.len() as int),
            forall|i: int| start <= i < k ==> is_digit(#[trigger] s@[i]),
            big ==> digits_value(s@.subrange(start as int, k as int)) > 0x8000_0000_0000_0000u64,
            !big ==> mag == digits_value(s@.subrange(start as int, k as int)) && mag
                <= 0x8000_0000_0000_0000u64,
        decreases s@.len() - k,
    {
        let b = s[k];
        if b < 48 || b > 57 {
            assert(!is_digit(body[k - start]));
            assert(!all_digits(body));
            return None;
        }
        let d: u64 = (b - 48) as u64;
        proof {
            let ds = s@.subrange(start as int, k as int + 1);
            assert(ds.drop_last() =~= s@.subrange(start as int, k as int));
            assert(digits_value(ds) == 10 * digits_value(ds.drop_last()) + d);
        }
        if !big {
            if mag > 922_337_203_685_477_580 {
                big = true;
            } else {
                mag = mag * 10 + d;
                if mag > 0x8000_0000_0000_0000 {
                    big = true;
                }
            }
        }
        k = k + 1;
    }
    assert forall|i: int| 0 <= i < body.len() implies is_digit(#[trigger] body[i]) by {
        assert(body[i] == s@[start + i]);
    }
    assert(all_digits(body));
    assert(s@.subrange(start as int, s@.len() as int) == body);
    if big {
        return None;
    }
    if signed && s[0] == 45 {
        if mag == 0x8000_0000_0000_0000 {
            Some(i64::MIN)
        } else {
            Some(-(mag as i64))
        }
    } else if mag > 0x7fff_ffff_ffff_ffff {
        None
    } else {
        Some(mag as i64)
    }
}

/// Appends all of `bytes`.
fn append(out: &mut Vec<u8>, bytes: &Vec<u8>)
    ensures
        final(out)@ == old(out)@ + bytes@,
{
    let mut i: usize = 0;
    while i < bytes.len()
        invariant
            i <= bytes@.len(),
            out@ == old(out)@ + bytes@.subrange(0, i as int),
        decreases bytes@.len() - i,
    {
        out.push(bytes[i]);
        i = i + 1;
        assert(out@ =~= old(out)@ + bytes@.subrange(0, i as int));
    }
    assert(bytes@.subrange(0, bytes@.len() as int) =~= bytes@);
}

impl Context {
    /// The read position lies within the input, and the label table is
    /// well formed.
    pub open spec fn wf(&self) -> bool {
        self.stdin_pos <= self.stdin@.len() && self.labels.wf()
    }

    /// Whether output is kept for the caller rather than handed on to the
    /// process's standard output.
    pub open spec fn is_captured(&self) -> bool {
        self.captured
    }

    /// Whether the input is a fixed byte source that nothing adds to.
    pub open spec fn is_input_fixed(&self) -> bool {
        self.stdin_fixed
    }

    /// What a helper keeps: well-formedness, the labels and the settings
    /// of input and output.
    pub open spec fn keeps(&self, other: &Context) -> bool {
        &&& other.wf()
        &&& other.labels@ == self.labels@
        &&& other.is_captured() == self.is_captured()
        &&& other.is_input_fixed() == self.is_input_fixed()
    }

    /// A context with an empty stack, heap, label table, input and output.
    pub fn new() -> (r: Context)
        ensures
            r.wf(),
            r@ == (ContextView {
                stack: Seq::empty(),
                heap: Map::empty(),
                input: Seq::empty(),
                output: Seq::empty(),
                faults: Seq::empty(),
            }),
            r.labels@ == Map::<Seq<bool>, usize>::empty(),
            !r.is_captured(),
            !r.is_input_fixed(),
    {
        let r = Context {
            stack: Vec::new(),
            heap: HashMap::new(),
            labels: LabelTable::new(),
            stdout: Vec::new(),
            faults: Vec::new(),
            stdin: Vec::new(),
            stdin_pos: 0,
            stdin_fixed: false,
            captured: false,
        };
        assert(r@.input =~= Seq::<u8>::empty());
        r
    }

    /// Keeps what the program writes in `stdout` for the caller to read,
    /// instead of handing it on to the process's standard output.
    pub fn capture_stdout(&mut self)
        requires
            old(self).wf(),
        ensures
            final(self).wf(),
            final(self)@ == old(self)@,
            final(self).labels@ == old(self).labels@,
            final(self).is_captured(),
            final(self).is_input_fixed() == old(self).is_input_fixed(),
    {
        self.captured = true;
    }

    /// Replaces the input with the fixed byte source `input`.
    pub fn provide_stdin(&mut self, input: &[u8])
        requires
            old(self).wf(),
        ensures
            final(self).wf(),
            final(self)@ == (ContextView { input: input@, ..old(self)@ }),
            final(self).labels@ == old(self).labels@,
            final(self).is_captured() == old(self).is_captured(),
            final(self).is_input_fixed(),
    {
        let mut v: Vec<u8> = Vec::new();
        let mut i: usize = 0;
        while i < input.len()
            invariant
                i <= input@.len(),
                v@ == input@.subrange(0, i as int),
            decreases input@.len() - i,
        {
            v.push(input[i]);
            i = i + 1;
            assert(v@ =~= input@.subrange(0, i as int));
        }
        assert(input@.subrange(0, input@.len() as int) =~= input@);
        self.stdin = v;
        self.stdin_pos = 0;
        self.stdin_fixed = true;
        assert(self@.input =~= input@);
    }

    /// Adds `bytes` at the end of the input not read yet.
    pub fn feed_stdin(&mut self, bytes: &Vec<u8>)
        requires
            old(self).wf(),
        ensures
            old(self).keeps(final(self)),
            final(self)@ == (ContextView { input: old(self)@.input + bytes@, ..old(self)@ }),
    {
        append(&mut self.stdin, bytes);
        assert(self@.input =~= old(self)@.input + bytes@);
    }

    /// Whether a read would want more input than there is: the input is
    /// not fixed and holds no whole line.
    pub fn needs_input(&self) -> (r: bool)
        requires
            self.wf(),
        ensures
            r == (!self.is_input_fixed() && line_len(self@.input) == self@.input.len()),
    {
        if self.stdin_fixed {
            return false;
        }
        let e = self.line_end();
        e == self.stdin.len()
    }

    /// The index in `stdin` at which the first line of the input ends.
    fn line_end(&self) -> (e: usize)
        requires
            self.wf(),
        ensures
            e == self.stdin_pos + line_len(self@.input),
            e <= self.stdin@.len(),
    {
        let mut j: usize = self.stdin_pos;
        while j < self.stdin.len() && self.stdin[j] != 10
            invariant
                self.stdin_pos <= j <= self.stdin@.len(),
                self.stdin_pos + line_len(self@.input) == j + line_len(
                    self.stdin@.subrange(j as int, self.stdin@.len() as int),
                ),
            decreases self.stdin@.len() - j,
        {
            let ghost sub = self.stdin@.subrange(j as int, self.stdin@.len() as int);
            assert(sub.subrange(1, sub.len() as int) =~= self.stdin@.subrange(
                j as int + 1,
                self.stdin@.len() as int,
            ));
            j = j + 1;
        }
        j
    }

    /// Hands over what the program has written, leaving the output empty.
    pub fn take_output(&mut self) -> (r: Vec<u8>)
        requires
            old(self).wf(),
        ensures
            old(self).keeps(final(self)),
            r@ == old(self)@.output,
            final(self)@ == (ContextView { output: Seq::empty(), ..old(self)@ }),
    {
        let mut r: Vec<u8> = Vec::new();
        std::mem::swap(&mut r, &mut self.stdout);
        assert(self@.output =~= Seq::<u8>::empty());
        r
    }

    /// Pushes `arg` and returns it.
    pub fn push_stack(&mut self, arg: Number) -> (r: Number)
        requires
            old(self).wf(),
        ensures
            old(self).keeps(final(self)),
            final(self)@ == push_spec(old(self)@, arg),
            r == arg,
    {
        self.stack.push(arg);
        arg
    }

    /// Pops the top; zero, with a fault recorded, when the stack is empty.
    pub fn pop_stack(&mut self) -> (r: Number)
        requires
            old(self).wf(),
        ensures
            old(self).keeps(final(self)),
            (final(self)@, r) == pop_spec(old(self)@),
    {
        match self.stack.pop() {
            Some(v) => v,
            None => {
                self.faults.push(Fault::StackUnderflow);
                0
            },
        }
    }

    /// Reads the element `arg` places below the top (0 is the top); zero,
    /// with a fault recorded, when there is none.
    pub fn peek_stack(&mut self, arg: Number) -> (r: Number)
        requires
            old(self).wf(),
        ensures
            old(self).keeps(final(self)),
            (final(self)@, r) == peek_spec(old(self)@, arg),
    {
        let len = self.stack.len();
        if arg >= 0 && (arg as u64) < (len as u64) {
            self.stack[len - 1 - arg as usize]
        } else {
            self.faults.push(Fault::StackUnderflow);
            0
        }
    }

    /// Pops a value, then an address, and stores the value there.
    pub fn store(&mut self)
        requires
            old(self).wf(),
        ensures
            old(self).keeps(final(self)),
            final(self)@ == store_spec(old(self)@),
    {
        let value = self.pop_stack();
        let address = self.pop_stack();
        self.heap.insert(address, value);
    }

    /// Pops an address, pushes the value stored there and returns it; zero,
    /// with a fault recorded, for an address never stored to.
    pub fn retrieve(&mut self) -> (r: Number)
        requires
            old(self).wf(),
        ensures
            old(self).keeps(final(self)),
            (final(self)@, r) == retrieve_spec(old(self)@),
    {
        let address = self.pop_stack();
        let v = match self.heap.get(&address) {
            Some(v) => *v,
            None => {
                self.faults.push(Fault::HeapMiss);
                0
            },
        };
        self.push_stack(v)
    }

    /// Keeps the top and drops the `arg` values below it.
    pub fn slide(&mut self, arg: Number)
        requires
            old(self).wf(),
        ensures
            old(self).keeps(final(self)),
            final(self)@ == slide_spec(old(self)@, arg),
    {
        let top = self.pop_stack();
        let ghost m1 = self@;
        let len = self.stack.len();
        if arg <= 0 {
        } else if (arg as u64) <= (len as u64) {
            self.stack.truncate(len - arg as usize);
        } else {
            self.stack.truncate(0);
            self.faults.push(Fault::StackUnderflow);
        }
        proof {
            if arg > 0 && arg <= len {
                assert(self.stack@ =~= m1.stack.subrange(0, len - arg));
            } else if arg > len {
                assert(self.stack@ =~= Seq::<Number>::empty());
            }
        }
        self.push_stack(top);
    }

    /// Writes the top of the stack, which stays: as one byte when `is_char`,
    /// else in decimal.
    pub fn print(&mut self, is_char: bool)
        requires
            old(self).wf(),
        ensures
            old(self).keeps(final(self)),
            final(self)@ == print_spec(old(self)@, is_char),
    {
        let v = self.peek_stack(0);
        let ghost m1 = self@;
        if is_char {
            self.stdout.push(#[verifier::truncate] (v as u8));
        } else {
            let text = format_decimal(v);
            append(&mut self.stdout, &text);
        }
        assert(self@.output =~= m1.output + (if is_char {
            seq![#[verifier::truncate] (v as u8)]
        } else {
            decimal(v)
        }));
    }

    /// Reads a line and stores, at the address on top of the stack, its
    /// first byte when `is_char`, else its decimal value.
    pub fn read(&mut self, is_char: bool)
        requires
            old(self).wf(),
        ensures
            old(self).keeps(final(self)),
            final(self)@ == read_spec(old(self)@, is_char),
    {
        let address = self.peek_stack(0);
        let ghost m1 = self@;
        if self.stdin_pos >= self.stdin.len() {
            self.faults.push(Fault::IoFailure);
            self.heap.insert(address, 0);
            assert(self@ =~= read_spec(old(self)@, is_char));
            return;
        }
        let start = self.stdin_pos;
        let e = self.line_end();
        let mut line: Vec<u8> = Vec::new();
        let mut k: usize = start;
        while k < e
            invariant
                start <= k <= e <= self.stdin@.len(),
                line@ == self.stdin@.subrange(start as int, k as int),
            decreases e - k,
        {
            line.push(self.stdin[k]);
            k = k + 1;
            assert(line@ =~= self.stdin@.subrange(start as int, k as int));
        }
        assert(line@ =~= m1.input.subrange(0, line_len(m1.input) as int));
        self.stdin_pos = if e < self.stdin.len() {
            e + 1
        } else {
            e
        };
        assert(self@.input =~= after_line(m1.input));
        if is_char {
            if line.len() > 0 {
                self.heap.insert(address, line[0] as Number);
            } else {
                self.faults.push(Fault::IoFailure);
                self.heap.insert(address, 0);
            }
        } else {
            match parse_decimal(line.as_slice()) {
                Some(v) => {
                    self.heap.insert(address, v);
                },
                None => {
                    self.faults.push(Fault::IoFailure);
                    self.heap.insert(address, 0);
                },
            }
        }
        assert(self@ =~= read_spec(old(self)@, is_char));
    }
}

} // verus!
