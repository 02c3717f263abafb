//! What a compilation decides before any code is generated: which stages
//! run, what is left to compile, and what the result is called.

use vstd::prelude::*;
use vstd::string::*;
use crate::bfir::{Instr, Instruction, program_view};
use crate::bounds::{checked_highest_cell_index, highest_index, tape_fits};
use crate::execution::{
    ExecutionState, MAX_STEPS, Snapshot, execute, execute_spec, initial_snapshot, initial_state,
};
use crate::parser::{characters, error_message, parse, parse_spec};
use crate::equivalence::{lemma_machine_equal, lemma_optimized_backward, lemma_optimized_forward};
use crate::peephole::{optimize, optimized};
use crate::residual::{lemma_execute_residual, machine_of};
use crate::semantics::{run, zeroed_machine};

verus! {

/// `std::io::Error`, carried through as it is: nothing is known of what is
/// in it.
#[verifier::external_type_specification]
#[verifier::external_body]
pub struct ExIoError(std::io::Error);

/// The index of the last `.` of `s`, or -1 if it has none.
pub open spec fn last_dot(s: Seq<char>) -> int
    decreases s.len(),
{
    if s.len() == 0 {
        -1
    } else if s.last() == '.' {
        s.len() - 1
    } else {
        last_dot(s.drop_last())
    }
}

/// The name of the executable for a source file of this name: the name up
/// to its last `.`, or all of it where it has none.
pub open spec fn executable_name_spec(s: Seq<char>) -> Seq<char> {
    if last_dot(s) < 0 {
        s
    } else {
        s.take(last_dot(s))
    }
}

/// The last dot is a dot, nothing behind it is one, and without a dot there
/// is no last one.
pub proof fn lemma_last_dot(s: Seq<char>)
    ensures
        -1 <= last_dot(s) < s.len(),
        last_dot(s) >= 0 ==> s[last_dot(s)] == '.',
        forall|i: int| last_dot(s) < i < s.len() ==> s[i] != '.',
    decreases s.len(),
{
    if s.len() > 0 && s.last() != '.' {
        lemma_last_dot(s.drop_last());
        assert forall|i: int| last_dot(s) < i < s.len() implies s[i] != '.' by {
            if i < s.len() - 1 {
                assert(s.drop_last()[i] == s[i]);
            }
        }
    }
}

/// Converts `foo.bf` to `foo`.
pub fn executable_name(bf_file_name: &str) -> (r: String)
    ensures
        r@ == executable_name_spec(bf_file_name@),
{
    let chars = characters(bf_file_name);
    let mut k: usize = chars.len();
    assert(chars@.take(k as int) =~= chars@);
    while k > 0
        invariant
            k <= chars.len(),
            chars@ == bf_file_name@,
            last_dot(chars@) == last_dot(chars@.take(k as int)),
        decreases k,
    {
        proof {
            assert(chars@.take(k as int).drop_last() =~= chars@.take(k - 1));
        }
        if chars[k - 1] == '.' {
            return String::from_str(bf_file_name.substring_char(0, k - 1));
        }
        k -= 1;
    }
    assert(chars@.take(0) =~= Seq::<char>::empty());
    String::from_str(bf_file_name)
}

/// The text of an input or output error, as `Display` for `std::io::Error`
/// gives it. The text depends on the error and on the system: nothing is
/// claimed of it.
#[verifier::external_body]
fn io_error_text(e: &std::io::Error) -> String {
    format!("{}", e)
}

/// Turns an input or output error into its text, and leaves a success as
/// it is.
pub fn convert_io_error<T>(result: Result<T, std::io::Error>) -> (r: Result<T, String>)
    ensures
        result is Ok <==> r is Ok,
        result matches Ok(v) ==> r == Ok::<T, String>(v),
{
    match result {
        Ok(value) => Ok(value),
        Err(e) => Err(io_error_text(&e)),
    }
}

/// Whether two texts are the same.
pub fn same_text(a: &str, b: &str) -> (r: bool)
    ensures
        r == (a@ == b@),
{
    let left = characters(a);
    let right = characters(b);
    if left.len() != right.len() {
        return false;
    }
    let mut k: usize = 0;
    while k < left.len()
        invariant
            k <= left.len(),
            left.len() == right.len(),
            left@ == a@,
            right@ == b@,
            forall|i: int| 0 <= i < k ==> left[i] == right[i],
        decreases left.len() - k,
    {
        if left[k] != right[k] {
            return false;
        }
        k += 1;
    }
    assert(left@ =~= right@);
    true
}

/// The optimiser runs at every level but `0`.
pub open spec fn wants_optimizing(level: Seq<char>) -> bool {
    level != "0"@
}

/// Compile-time execution runs at level `2` only.
pub open spec fn wants_speculation(level: Seq<char>) -> bool {
    level == "2"@
}

/// The program that a compilation at this level goes on with.
pub open spec fn staged(tree: Seq<Instr>, level: Seq<char>) -> Seq<Instr> {
    if wants_optimizing(level) {
        optimized(tree)
    } else {
        tree
    }
}

/// The tape that `p` needs can be had on this machine.
pub open spec fn tape_allocatable(p: Seq<Instr>) -> bool {
    tape_fits(p) && highest_index(p) < isize::MAX
}

/// The machine that the compiled program starts on: what compile-time
/// execution left, or a zeroed tape where it does not run.
pub open spec fn start_state(p: Seq<Instr>, level: Seq<char>) -> Snapshot {
    if wants_speculation(level) {
        execute_spec(p, MAX_STEPS as nat)
    } else {
        initial_snapshot(p)
    }
}

/// What a program is refused with when its tape cannot be had.
pub open spec fn tape_message() -> Seq<char> {
    "The program needs more cells than this machine can address."@
}

/// The instructions of `instrs` from index `from` on.
pub fn remaining_instrs(instrs: &Vec<Instruction>, from: usize) -> (r: Vec<Instruction>)
    requires
        from <= instrs.len(),
    ensures
        program_view(r@) == program_view(instrs@).skip(from as int),
{
    let mut rest: Vec<Instruction> = Vec::new();
    let mut k: usize = from;
    while k < instrs.len()
        invariant
            from <= k <= instrs.len(),
            rest.len() == k - from,
            forall|j: int| 0 <= j < rest.len() ==> rest[j]@ == instrs[from + j]@,
        decreases instrs.len() - k,
    {
        let i = instrs[k].clone();
        rest.push(i);
        k += 1;
    }
    assert(program_view(rest@) =~= program_view(instrs@).skip(from as int));
    rest
}

/// The front end of a compilation behind the parser: optimises `tree`
/// unless the level is `0`, and at level `2` runs it at compile time as far
/// as that goes. Gives the instructions that are left to compile and the
/// machine that they start on; refuses a program whose tape cannot be had
/// on this machine.
pub fn compile_program(tree: Vec<Instruction>, opt_level: &str) -> (r: Result<
    (Vec<Instruction>, ExecutionState),
    String,
>)
    ensures
        match r {
            Ok((rest, state)) => state@.well_formed() && ({
                let p = staged(program_view(tree@), opt_level@);
                &&& tape_allocatable(p)
                &&& state@ == start_state(p, opt_level@)
                &&& state.instr_ptr <= p.len()
                &&& program_view(rest@) == p.skip(state.instr_ptr as int)
            }),
            Err(msg) => !tape_allocatable(staged(program_view(tree@), opt_level@)) && msg@
                == tape_message(),
        },
{
    let instrs = if same_text(opt_level, "0") {
        tree
    } else {
        optimize(tree)
    };
    let fits = match checked_highest_cell_index(&instrs) {
        Some(h) => h < isize::MAX as usize,
        None => false,
    };
    if !fits {
        return Err(String::from_str("The program needs more cells than this machine can address."));
    }
    let state = if same_text(opt_level, "2") {
        execute(&instrs, MAX_STEPS)
    } else {
        initial_state(&instrs)
    };
    let rest = remaining_instrs(&instrs, state.instr_ptr);
    Ok((rest, state))
}

/// The front end of a compilation: parses `src` and goes on as
/// `compile_program` does. Gives the instructions that are left to compile
/// and the machine that they start on, or the diagnostic to show.
pub fn compile_source(src: &str, opt_level: &str) -> (r: Result<
    (Vec<Instruction>, ExecutionState),
    String,
>)
    ensures
        match r {
            Ok((rest, state)) => parse_spec(src@) is Ok && state@.well_formed() && ({
                let p = staged(parse_spec(src@)->Ok_0, opt_level@);
                &&& tape_allocatable(p)
                &&& state@ == start_state(p, opt_level@)
                &&& state.instr_ptr <= p.len()
                &&& program_view(rest@) == p.skip(state.instr_ptr as int)
            }),
            Err(msg) => match parse_spec(src@) {
                Err(e) => msg@ == error_message(e),
                Ok(tree) => !tape_allocatable(staged(tree, opt_level@)) && msg@ == tape_message(),
            },
        },
{
    match parse(src) {
        Ok(tree) => compile_program(tree, opt_level),
        Err(msg) => Err(msg),
    }
}

/// The front end keeps what a program does, at every level. What it leaves
/// to compile, started on the machine it gives, comes to an end exactly if
/// the program itself does, started on a zeroed machine; and then both
/// leave the same tape, the same pointer and the same output, whatever the
/// input.
pub proof fn lemma_front_end_sound(
    tree: Seq<Instr>,
    level: Seq<char>,
    input: spec_fn(nat) -> u8,
    fuel: nat,
)
    ensures
        ({
            let p = staged(tree, level);
            let state = start_state(p, level);
            let whole = run(tree, zeroed_machine(input), fuel);
            let left = run(p.skip(state.instr_ptr), machine_of(state, input), fuel);
            &&& 0 <= state.instr_ptr <= p.len()
            &&& whole is Some ==> left == whole
            &&& left is Some ==> exists|more: nat|
                more >= fuel && #[trigger] run(tree, zeroed_machine(input), more) == left
        }),
{
    let p = staged(tree, level);
    let state = start_state(p, level);
    let zero = zeroed_machine(input);
    let whole = run(tree, zero, fuel);
    let left = run(p.skip(state.instr_ptr), machine_of(state, input), fuel);
    lemma_machine_equal(machine_of(initial_snapshot(p), input), zero);
    lemma_execute_residual(p, MAX_STEPS as nat, input, fuel);
    assert(p.skip(0) =~= p);
    if whole is Some {
        if wants_optimizing(level) {
            lemma_optimized_forward(tree, zero, fuel);
        }
    }
    if left is Some {
        let enough = if wants_speculation(level) {
            (fuel + MAX_STEPS) as nat
        } else {
            fuel
        };
        assert(run(p, zero, enough) == left);
        if wants_optimizing(level) {
            let more = lemma_optimized_backward(tree, zero, enough);
            assert(run(tree, zero, more) == left);
        } else {
            assert(run(tree, zero, enough) == left);
        }
    }
}

} // verus!
