use std::collections::HashMap;

use whitespace_jit::context::{Context, Fault};
use whitespace_jit::execute::Outcome;
use whitespace_jit::parser::program;

struct Observed {
    outcome: Outcome,
    /// top first
    stack: Vec<i64>,
    heap: HashMap<i64, i64>,
    stdout: String,
    faults: Vec<Fault>,
}

fn run(source: &str, stdin: Option<&str>) -> Observed {
    let prog = program(source.as_bytes()).expect("Parsing failed!");
    let mut context = Context::new();
    context.capture_stdout();
    context.provide_stdin(stdin.unwrap_or("").as_bytes());
    let outcome = context.execute(&prog, 10_000);
    let mut stack = context.stack.clone();
    stack.reverse();
    Observed {
        outcome,
        stack,
        heap: context.heap.clone(),
        stdout: String::from_utf8(context.take_output()).unwrap(),
        faults: context.faults.clone(),
    }
}

fn heap_of(pairs: &[(i64, i64)]) -> HashMap<i64, i64> {
    pairs.iter().cloned().collect()
}

#[test]
fn scenario_push_one() {
    let o = run("    \t\n", None);
    assert_eq!(o.outcome, Outcome::Finished);
    assert_eq!(o.stack, vec![1]);
    assert_eq!(o.heap, heap_of(&[]));
    assert_eq!(o.stdout, "");
}

#[test]
fn scenario_duplicate() {
    assert_eq!(run("    \t\n \n ", None).stack, vec![1, 1]);
}

#[test]
fn scenario_swap() {
    assert_eq!(run("    \t\n    \n \n\t", None).stack, vec![1, 0]);
}

#[test]
fn scenario_copy_index_one() {
    assert_eq!(run("   \n    \t\n \t   \t\n", None).stack, vec![0, 1, 0]);
}

#[test]
fn scenario_add_one_three() {
    assert_eq!(run("   \t\n   \t\t\n\t   ", None).stack, vec![4]);
}

#[test]
fn scenario_output_num() {
    let o = run("   \t     \t\n\t\n \t", None);
    assert_eq!(o.stdout, "65");
    // printing does not pop
    assert_eq!(o.stack, vec![65]);
}

#[test]
fn scenario_exit_mid_program() {
    let o = run("   \t\n\n\n\n   \t \n", None);
    assert_eq!(o.outcome, Outcome::Finished);
    assert_eq!(o.stack, vec![1]);
}

#[test]
fn pop_drops_top() {
    assert_eq!(run("   \t \n    \t\n \n\n", None).stack, vec![2]);
}

#[test]
fn store_pops_value_then_address() {
    // push 1, push 5, store
    let o = run("   \t\n   \t \t\n\t\t ", None);
    assert_eq!(o.stack, Vec::<i64>::new());
    assert_eq!(o.heap, heap_of(&[(1, 5)]));
}

#[test]
fn store_then_retrieve() {
    // push 5, push 3, store, push 5, retrieve
    let o = run("   \t \t\n   \t\t\n\t\t    \t \t\n\t\t\t", None);
    assert_eq!(o.stack, vec![3]);
    assert_eq!(o.heap, heap_of(&[(5, 3)]));
    assert!(o.faults.is_empty());
}

#[test]
fn retrieve_missing_address() {
    // push 7, retrieve
    let o = run("   \t\t\t\n\t\t\t", None);
    assert_eq!(o.stack, vec![0]);
    assert_eq!(o.faults, vec![Fault::HeapMiss]);
}

#[test]
fn char_out() {
    let o = run("   \t     \t\n\t\n  ", None);
    assert_eq!(o.stdout, "A");
    assert_eq!(o.stack, vec![65]);
}

#[test]
fn negative_num_out() {
    // push -42, out_num
    assert_eq!(run("  \t\t \t \t \n\t\n \t", None).stdout, "-42");
}

#[test]
fn char_in() {
    let o = run("   \t \t\n\t\n\t ", Some("A\n"));
    assert_eq!(o.stack, vec![5]);
    assert_eq!(o.heap, heap_of(&[(5, 65)]));
}

#[test]
fn int_in() {
    let o = run("   \t \t\n\t\n\t\t", Some("65"));
    assert_eq!(o.stack, vec![5]);
    assert_eq!(o.heap, heap_of(&[(5, 65)]));
}

#[test]
fn int_in_reads_one_line_at_a_time() {
    // push 1, read_num, push 2, read_num
    let o = run("   \t\n\t\n\t\t   \t \n\t\n\t\t", Some("-12\n34\n"));
    assert_eq!(o.heap, heap_of(&[(1, -12), (2, 34)]));
}

#[test]
fn read_without_input() {
    let o = run("   \t\n\t\n\t\t", Some(""));
    assert_eq!(o.heap, heap_of(&[(1, 0)]));
    assert_eq!(o.faults, vec![Fault::IoFailure]);
}

#[test]
fn read_bad_number() {
    let o = run("   \t\n\t\n\t\t", Some("4x\n"));
    assert_eq!(o.heap, heap_of(&[(1, 0)]));
    assert_eq!(o.faults, vec![Fault::IoFailure]);
}

#[test]
fn arithmetic_cases() {
    let cases: &[(&str, i64)] = &[
        ("  \t\t\n   \t\t\n\t   ", 2),
        ("   \t\t\n   \t\n\t  \t", 2),
        ("   \t\n   \t\t\n\t  \t", -2),
        ("   \t \n   \t\t\n\t  \n", 6),
        ("  \t\t \n   \t\t\n\t  \n", -6),
        ("  \t\t \n  \t\t\t\n\t  \n", 6),
        ("   \t  \n   \t \n\t \t ", 2),
        ("   \t \t\n   \t \n\t \t ", 2),
        ("  \t\t  \n   \t \n\t \t ", -2),
        ("  \t\t  \n  \t\t \n\t \t ", 2),
        ("   \t \t\n   \t \n\t \t\t", 1),
        ("   \t \n   \t \t\n\t \t\t", 2),
    ];
    for (source, top) in cases {
        assert_eq!(run(source, None).stack, vec![*top], "{:?}", source);
    }
}

#[test]
fn division_truncates_toward_zero() {
    // push -5, push 2, divide: idiv gives -2
    assert_eq!(run("  \t\t \t\n   \t \n\t \t ", None).stack, vec![-2]);
    // push -5, push 2, modulus: the remainder has the dividend's sign
    assert_eq!(run("  \t\t \t\n   \t \n\t \t\t", None).stack, vec![-1]);
}

#[test]
fn addition_wraps() {
    let mut src = String::from("   ");
    src.push_str(&"\t".repeat(63));
    src.push_str("\n   \t\n\t   ");
    assert_eq!(run(&src, None).stack, vec![i64::MIN]);
}

#[test]
fn divide_by_zero_traps() {
    let o = run("   \t\n   \n\t \t ", None);
    assert_eq!(o.outcome, Outcome::Trapped);
    assert_eq!(o.stack, Vec::<i64>::new());
}

#[test]
fn slide_keeps_top() {
    // push 1, push 2, push 3, slide 2
    let o = run("   \t\n   \t \n   \t\t\n \t\n \t \n", None);
    assert_eq!(o.stack, vec![3]);
    assert!(o.faults.is_empty());
}

#[test]
fn pop_empty_stack() {
    let o = run(" \n\n", None);
    assert_eq!(o.stack, Vec::<i64>::new());
    assert_eq!(o.faults, vec![Fault::StackUnderflow]);
}

#[test]
fn loop_with_conditional_jump() {
    // push 3; mark L; push 1; subtract; dup; jz E; jump L; mark E
    let src = "   \t\t\n\n  \t\n   \t\n\t  \t \n \n\t \t\t\n\n \n\t\n\n  \t\t\n";
    let o = run(src, None);
    assert_eq!(o.outcome, Outcome::Finished);
    assert_eq!(o.stack, vec![0]);
}

#[test]
fn call_and_return() {
    // call S; exit; mark S; push 7; return
    let src = "\n \t\t\n\n\n\n\n  \t\n   \t\t\t\n\n\t\n";
    let o = run(src, None);
    assert_eq!(o.outcome, Outcome::Finished);
    assert_eq!(o.stack, vec![7]);
}

#[test]
fn return_without_call() {
    assert_eq!(run("\n\t\n", None).outcome, Outcome::BadTransfer);
}

#[test]
fn jump_to_unmarked_label() {
    assert_eq!(run("\n \n\t\n", None).outcome, Outcome::BadTransfer);
}

#[test]
fn endless_loop_runs_out_of_fuel() {
    assert_eq!(run("\n  \n\n \n\n", None).outcome, Outcome::OutOfFuel);
}

#[test]
fn many_pushes_keep_their_order() {
    let ks: Vec<i64> = vec![3, -1, 0, 42, i64::MAX, i64::MIN, 7];
    let prog: Vec<whitespace_jit::command::Command> =
        ks.iter().map(|k| whitespace_jit::command::Command::Push(*k)).collect();
    let mut context = Context::new();
    assert_eq!(context.execute(&prog, ks.len()), Outcome::Finished);
    assert_eq!(context.stack, ks);
}

#[test]
fn read_char_from_empty_line() {
    // push 2, read_char, push 3, read_char
    let o = run("   \t \n\t\n\t    \t\t\n\t\n\t ", Some("\nB\n"));
    assert_eq!(o.heap, heap_of(&[(2, 0), (3, 66)]));
    assert_eq!(o.faults, vec![Fault::IoFailure]);
}

#[test]
fn nothing_after_exit_runs() {
    // push 1; mark L; push 2; exit | push 3; out_num; mark L
    let p = "   \t\n\n  \t\n   \t \n";
    let q = "   \t\t\n\t\n \t\n  \t\n";
    let with_tail = run(&format!("{}\n\n\n{}", p, q), None);
    let without = run(&format!("{}\n\n\n", p), None);
    assert_eq!(with_tail.stack, without.stack);
    assert_eq!(with_tail.stack, vec![2, 1]);
    assert_eq!(with_tail.heap, without.heap);
    assert_eq!(with_tail.stdout, without.stdout);
    assert_eq!(with_tail.outcome, Outcome::Finished);
}
