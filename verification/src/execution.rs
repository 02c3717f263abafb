//! Compile-time execution: runs a program as far as its effects are known.

use vstd::prelude::*;
use std::collections::HashMap;
use crate::bfir::{
    Cell, Instr, Instruction, add_cells, cell_add, cell_mul, multiply_cells, offsets_view,
    program_view, table_entries,
};
use crate::bounds::{highest_cell_index, highest_index, lemma_highest_index_nonnegative, tape_fits};

verus! {

/// The step budget that a compilation gives to compile-time execution.
pub const MAX_STEPS: u64 = 10000000;

/// How far execution got, and the machine it left behind.
#[derive(Debug, PartialEq, Eq)]
pub struct ExecutionState {
    /// Index of the next instruction of the program.
    pub instr_ptr: usize,
    /// The tape.
    pub cells: Vec<u8>,
    /// Index of the current cell.
    pub cell_ptr: isize,
    /// The bytes written so far, in order.
    pub outputs: Vec<u8>,
}

/// The mathematical form of an `ExecutionState`.
pub ghost struct Snapshot {
    pub instr_ptr: int,
    pub cells: Seq<u8>,
    pub cell_ptr: int,
    pub outputs: Seq<u8>,
}

impl View for ExecutionState {
    type V = Snapshot;

    open spec fn view(&self) -> Snapshot {
        Snapshot {
            instr_ptr: self.instr_ptr as int,
            cells: self.cells@,
            cell_ptr: self.cell_ptr as int,
            outputs: self.outputs@,
        }
    }
}

impl Clone for ExecutionState {
    fn clone(&self) -> (r: Self)
        ensures
            r@ == self@,
    {
        let cells = self.cells.clone();
        let outputs = self.outputs.clone();
        assert(cells@ =~= self.cells@);
        assert(outputs@ =~= self.outputs@);
        ExecutionState { instr_ptr: self.instr_ptr, cells, cell_ptr: self.cell_ptr, outputs }
    }
}

/// Why a run of a program stopped.
#[derive(Debug, Clone, Copy, PartialEq, Eq, Structural)]
pub enum Outcome {
    /// The program ran to its end, with this many steps left.
    Completed(u64),
    /// The next instruction reads input, which is not known yet.
    ReachedRuntimeValue,
    /// The next instruction would move the pointer off the tape.
    RuntimeError,
    /// The step budget is used up.
    OutOfSteps,
}

impl Snapshot {
    /// The current cell lies on the tape.
    pub open spec fn well_formed(self) -> bool {
        0 <= self.cell_ptr < self.cells.len()
    }

    /// The value of the current cell.
    pub open spec fn current(self) -> u8 {
        self.cells[self.cell_ptr]
    }

    /// The same machine with the current cell set to `v` and the
    /// instruction pointer moved on by one.
    pub open spec fn stored(self, v: u8) -> Snapshot {
        Snapshot {
            instr_ptr: self.instr_ptr + 1,
            cells: self.cells.update(self.cell_ptr, v),
            ..self
        }
    }

    /// The same machine with the instruction pointer moved on by one.
    pub open spec fn advanced(self) -> Snapshot {
        Snapshot { instr_ptr: self.instr_ptr + 1, ..self }
    }

    /// The machine that a loop body starts on.
    pub open spec fn entering(self) -> Snapshot {
        Snapshot { instr_ptr: 0, ..self }
    }

    /// The same position in the program, with the tape, the pointer and
    /// the output that a finished loop body left in `after`.
    pub open spec fn committed(self, after: Snapshot) -> Snapshot {
        Snapshot { instr_ptr: self.instr_ptr, ..after }
    }
}

/// Every offset of `t` leads from `ptr` to a cell of a tape of length `len`.
pub open spec fn table_in_range(t: Map<int, u8>, ptr: int, len: int) -> bool {
    forall|k: int| t.contains_key(k) ==> 0 <= ptr + k < len
}

/// The tape after a multiply-move with table `t` at `ptr`: each cell at an
/// offset of the table gains the current cell times the factor there, and
/// the current cell becomes zero.
pub open spec fn table_applied(cells: Seq<u8>, ptr: int, t: Map<int, u8>) -> Seq<u8> {
    Seq::new(
        cells.len(),
        |i: int|
            if i == ptr {
                0u8
            } else if t.contains_key(i - ptr) {
                cell_add(cells[i], cell_mul(cells[ptr], t[i - ptr]))
            } else {
                cells[i]
            },
    )
}

/// Runs `instrs` on `st` for at most `steps` steps. Gives the machine
/// where the run stopped and why it stopped. Each instruction takes one
/// step, and so does each turn of a loop, besides the steps of its body. A
/// loop body that cannot be run to its end leaves no trace: the run stops
/// before the loop, with the turns before that one done.
///
/// A body that ran to its end has left at least one of the steps it was
/// given (`lemma_speculate_bounds`); the test for that below only serves to
/// show that the recursion ends.
pub open spec fn speculate(instrs: Seq<Instr>, st: Snapshot, steps: nat) -> (Snapshot, Outcome)
    decreases steps, instrs,
{
    if steps == 0 {
        (st, Outcome::OutOfSteps)
    } else if !(0 <= st.instr_ptr < instrs.len()) {
        (st, Outcome::Completed(steps as u64))
    } else {
        match instrs[st.instr_ptr] {
            Instr::Increment(amount) => speculate(
                instrs,
                st.stored(cell_add(st.current(), amount)),
                (steps - 1) as nat,
            ),
            Instr::SetCell(amount) => speculate(instrs, st.stored(amount), (steps - 1) as nat),
            Instr::PointerIncrement(amount) => {
                let target = st.cell_ptr + amount;
                if 0 <= target < st.cells.len() {
                    speculate(
                        instrs,
                        Snapshot { cell_ptr: target, ..st.advanced() },
                        (steps - 1) as nat,
                    )
                } else {
                    (st, Outcome::RuntimeError)
                }
            },
            Instr::Write => speculate(
                instrs,
                Snapshot { outputs: st.outputs.push(st.current()), ..st.advanced() },
                (steps - 1) as nat,
            ),
            Instr::Read => (st, Outcome::ReachedRuntimeValue),
            Instr::MultiplyMove(t) => {
                if table_in_range(t, st.cell_ptr, st.cells.len() as int) {
                    speculate(
                        instrs,
                        Snapshot {
                            cells: table_applied(st.cells, st.cell_ptr, t),
                            ..st.advanced()
                        },
                        (steps - 1) as nat,
                    )
                } else {
                    (st, Outcome::RuntimeError)
                }
            },
            Instr::Loop(body) => {
                if st.current() == 0 {
                    speculate(instrs, st.advanced(), (steps - 1) as nat)
                } else {
                    let (after, outcome) = speculate(body, st.entering(), steps);
                    match outcome {
                        Outcome::Completed(left) => {
                            if 0 < left <= steps {
                                speculate(instrs, st.committed(after), (left - 1) as nat)
                            } else {
                                (st, Outcome::OutOfSteps)
                            }
                        },
                        _ => (st, outcome),
                    }
                }
            },
        }
    }
}

/// What `execute` returns: the run of `p` from a zeroed tape of the size
/// that `p` needs, with the pointer on the first cell.
pub open spec fn execute_spec(p: Seq<Instr>, steps: nat) -> Snapshot {
    speculate(p, initial_snapshot(p), steps).0
}

/// The machine before anything ran: a zeroed tape one longer than the
/// highest index of `p`, the pointer on its first cell, nothing written.
pub open spec fn initial_snapshot(p: Seq<Instr>) -> Snapshot {
    Snapshot {
        instr_ptr: 0,
        cells: Seq::new((highest_index(p) + 1) as nat, |i: int| 0u8),
        cell_ptr: 0,
        outputs: Seq::empty(),
    }
}

/// A run keeps the tape's length and the pointer on the tape, never moves
/// the instruction pointer back, leaves it within the program if it was,
/// and reports completion only at the program's end with steps to spare.
pub proof fn lemma_speculate_bounds(instrs: Seq<Instr>, st: Snapshot, steps: nat)
    requires
        st.well_formed(),
        steps <= u64::MAX,
    ensures
        ({
            let (after, outcome) = speculate(instrs, st, steps);
            &&& after.well_formed()
            &&& after.cells.len() == st.cells.len()
            &&& after.instr_ptr >= st.instr_ptr
            &&& st.outputs.is_prefix_of(after.outputs)
            &&& 0 <= st.instr_ptr <= instrs.len() ==> after.instr_ptr <= instrs.len()
            &&& outcome matches Outcome::Completed(left) ==> 0 < left <= steps && !(0
                <= after.instr_ptr < instrs.len())
        }),
    decreases steps, instrs,
{
    if steps == 0 {
    } else if !(0 <= st.instr_ptr < instrs.len()) {
    } else {
        match instrs[st.instr_ptr] {
            Instr::Increment(amount) => {
                lemma_speculate_bounds(
                    instrs,
                    st.stored(cell_add(st.current(), amount)),
                    (steps - 1) as nat,
                );
            },
            Instr::SetCell(amount) => {
                lemma_speculate_bounds(instrs, st.stored(amount), (steps - 1) as nat);
            },
            Instr::PointerIncrement(amount) => {
                let target = st.cell_ptr + amount;
                if 0 <= target < st.cells.len() {
                    lemma_speculate_bounds(
                        instrs,
                        Snapshot { cell_ptr: target, ..st.advanced() },
                        (steps - 1) as nat,
                    );
                }
            },
            Instr::Write => {
                lemma_speculate_bounds(
                    instrs,
                    Snapshot { outputs: st.outputs.push(st.current()), ..st.advanced() },
                    (steps - 1) as nat,
                );
            },
            Instr::Read => {},
            Instr::MultiplyMove(t) => {
                if table_in_range(t, st.cell_ptr, st.cells.len() as int) {
                    lemma_speculate_bounds(
                        instrs,
                        Snapshot {
                            cells: table_applied(st.cells, st.cell_ptr, t),
                            ..st.advanced()
                        },
                        (steps - 1) as nat,
                    );
                }
            },
            Instr::Loop(body) => {
                if st.current() == 0 {
                    lemma_speculate_bounds(instrs, st.advanced(), (steps - 1) as nat);
                } else {
                    lemma_speculate_bounds(body, st.entering(), steps);
                    let (after, outcome) = speculate(body, st.entering(), steps);
                    if let Outcome::Completed(left) = outcome {
                        if 0 < left <= steps {
                            lemma_speculate_bounds(
                                instrs,
                                st.committed(after),
                                (left - 1) as nat,
                            );
                        }
                    }
                }
            },
        }
    }
}

/// The cell at `i` once the first `k` entries of a table have been applied.
pub open spec fn entry_applied(
    cells: Seq<u8>,
    ptr: int,
    m: Map<isize, Cell>,
    entries: Seq<(isize, Cell)>,
    k: int,
    i: int,
) -> u8 {
    if i != ptr && exists|j: int| 0 <= j < k && (#[trigger] entries[j]).0 == i - ptr {
        cell_add(cells[i], cell_mul(cells[ptr], m[(i - ptr) as isize]))
    } else {
        cells[i]
    }
}

/// Performs a multiply-move at `ptr`, unless one of its offsets leads off
/// the tape: then the tape stays as it is and the result is `false`.
pub fn multiply_move(cells: &mut Vec<u8>, ptr: usize, m: &HashMap<isize, Cell>) -> (done: bool)
    requires
        ptr < old(cells).len(),
    ensures
        done == table_in_range(offsets_view(m@), ptr as int, old(cells).len() as int),
        done ==> final(cells)@ == table_applied(old(cells)@, ptr as int, offsets_view(m@)),
        !done ==> final(cells)@ == old(cells)@,
{
    let entries = table_entries(m);
    let ghost t = offsets_view(m@);
    let ghost before = cells@;
    let len = cells.len();
    let mut k: usize = 0;
    while k < entries.len()
        invariant
            k <= entries.len(),
            len == cells.len(),
            ptr < len,
            forall|j: int| 0 <= j < k ==> 0 <= ptr + (#[trigger] entries[j]).0 < len,
            forall|i: int|
                0 <= i < entries.len() ==> m@.contains_key((#[trigger] entries[i]).0),
            t == offsets_view(m@),
        decreases entries.len() - k,
    {
        let dest: i128 = ptr as i128 + entries[k].0 as i128;
        if dest < 0 || dest >= len as i128 {
            proof {
                assert(t.contains_key(entries[k as int].0 as int));
            }
            return false;
        }
        k += 1;
    }
    assert(table_in_range(t, ptr as int, len as int)) by {
        assert forall|o: int| t.contains_key(o) implies 0 <= ptr + o < len by {
            let j = choose|j: int| 0 <= j < entries.len() && entries[j].0 == o as isize;
            assert(0 <= ptr + entries[j].0 < len);
        }
    }
    let current = cells[ptr];
    k = 0;
    while k < entries.len()
        invariant
            k <= entries.len(),
            len == cells.len(),
            len == before.len(),
            ptr < len,
            current == before[ptr as int],
            forall|j: int| 0 <= j < entries.len() ==> 0 <= ptr + (#[trigger] entries[j]).0 < len,
            forall|i: int|
                0 <= i < entries.len() ==> m@.contains_key((#[trigger] entries[i]).0) && m@[entries[i].0]
                    == entries[i].1,
            forall|i: int, j: int| 0 <= i < j < entries.len() ==> entries[i].0 != entries[j].0,
            forall|i: int|
                0 <= i < len ==> #[trigger] cells[i] == entry_applied(
                    before,
                    ptr as int,
                    m@,
                    entries@,
                    k as int,
                    i,
                ),
        decreases entries.len() - k,
    {
        let offset = entries[k].0;
        let factor = entries[k].1;
        let dest: usize = (ptr as i128 + offset as i128) as usize;
        if dest != ptr {
            let ghost mid = cells@;
            let sum = add_cells(cells[dest], multiply_cells(current, factor));
            proof {
                assert(mid[dest as int] == before[dest as int]) by {
                    if exists|j: int| 0 <= j < k && (#[trigger] entries[j]).0 == dest - ptr {
                        let j = choose|j: int| 0 <= j < k && (#[trigger] entries[j]).0 == dest - ptr;
                        assert(entries[j].0 == entries[k as int].0);
                    }
                }
            }
            cells.set(dest, sum);
            proof {
                assert forall|i: int| 0 <= i < len implies #[trigger] cells[i] == entry_applied(
                    before,
                    ptr as int,
                    m@,
                    entries@,
                    k + 1,
                    i,
                ) by {
                    if i == dest {
                        assert(entries[k as int].0 == i - ptr);
                    } else {
                        assert(cells[i] == mid[i]);
                        if exists|j: int| 0 <= j < k + 1 && (#[trigger] entries[j]).0 == i - ptr {
                            let j = choose|j: int|
                                0 <= j < k + 1 && (#[trigger] entries[j]).0 == i - ptr;
                            assert(j != k);
                        }
                    }
                }
            }
        } else {
            proof {
                assert forall|i: int| 0 <= i < len implies #[trigger] cells[i] == entry_applied(
                    before,
                    ptr as int,
                    m@,
                    entries@,
                    k + 1,
                    i,
                ) by {
                    if i != ptr && exists|j: int|
                        0 <= j < k + 1 && (#[trigger] entries[j]).0 == i - ptr {
                        let j = choose|j: int|
                            0 <= j < k + 1 && (#[trigger] entries[j]).0 == i - ptr;
                        assert(j != k);
                    }
                }
            }
        }
        k += 1;
    }
    cells.set(ptr, 0);
    proof {
        assert forall|i: int| 0 <= i < len implies cells[i] == table_applied(
            before,
            ptr as int,
            t,
        )[i] by {
            if i != ptr {
                if t.contains_key(i - ptr) {
                    let j = choose|j: int|
                        0 <= j < entries.len() && entries[j].0 == (i - ptr) as isize;
                    assert(entries[j].0 == i - ptr);
                } else if exists|j: int|
                    0 <= j < entries.len() && (#[trigger] entries[j]).0 == i - ptr {
                    let j = choose|j: int|
                        0 <= j < entries.len() && (#[trigger] entries[j]).0 == i - ptr;
                    assert(m@.contains_key(entries[j].0));
                    assert(t.contains_key(entries[j].0 as int));
                }
            }
        }
        assert(cells@ =~= table_applied(before, ptr as int, t));
    }
    true
}

/// Runs `instrs` on `state` for at most `steps` steps, and says why it
/// stopped. On anything but completion, a loop body that was under way is
/// undone.
pub fn execute_inner(instrs: &Vec<Instruction>, state: ExecutionState, steps: u64) -> (r: (
    ExecutionState,
    Outcome,
))
    requires
        state@.well_formed(),
        state.cells.len() <= isize::MAX,
    ensures
        (r.0@, r.1) == speculate(program_view(instrs@), state@, steps as nat),
    decreases steps, instrs,
{
    let ghost p = program_view(instrs@);
    let mut steps_left = steps;
    let mut now = state;
    while now.instr_ptr < instrs.len() && steps_left > 0
        invariant
            p == program_view(instrs@),
            now@.well_formed(),
            now.cells.len() <= isize::MAX,
            steps_left <= steps,
            speculate(p, state@, steps as nat) == speculate(p, now@, steps_left as nat),
        decreases steps_left,
    {
        let ghost here = now@;
        assert(p[now.instr_ptr as int] == instrs[now.instr_ptr as int]@);
        let cell_ptr = now.cell_ptr as usize;
        match &instrs[now.instr_ptr] {
            Instruction::Increment(amount) => {
                let v = add_cells(now.cells[cell_ptr], *amount);
                now.cells.set(cell_ptr, v);
                now.instr_ptr += 1;
            },
            Instruction::SetCell(amount) => {
                now.cells.set(cell_ptr, *amount);
                now.instr_ptr += 1;
            },
            Instruction::PointerIncrement(amount) => {
                let target: i128 = now.cell_ptr as i128 + *amount as i128;
                if target < 0 || target >= now.cells.len() as i128 {
                    return (now, Outcome::RuntimeError);
                } else {
                    now.cell_ptr = target as isize;
                    now.instr_ptr += 1;
                }
            },
            Instruction::Write => {
                let cell_value = now.cells[cell_ptr];
                now.outputs.push(cell_value);
                now.instr_ptr += 1;
            },
            Instruction::Read => {
                return (now, Outcome::ReachedRuntimeValue);
            },
            Instruction::MultiplyMove(table) => {
                if multiply_move(&mut now.cells, cell_ptr, table) {
                    now.instr_ptr += 1;
                } else {
                    return (now, Outcome::RuntimeError);
                }
            },
            Instruction::Loop(body) => {
                if now.cells[cell_ptr] == 0 {
                    now.instr_ptr += 1;
                } else {
                    let mut loop_body_state = now.clone();
                    loop_body_state.instr_ptr = 0;
                    proof {
                        vstd::std_specs::vec::axiom_vec_index_decreases(
                            *instrs,
                            now.instr_ptr as int,
                        );
                        lemma_speculate_bounds(
                            program_view(body@),
                            here.entering(),
                            steps_left as nat,
                        );
                    }
                    let (state_after, loop_outcome) = execute_inner(
                        body,
                        loop_body_state,
                        steps_left,
                    );
                    match loop_outcome {
                        Outcome::Completed(remaining_steps) => {
                            now.cells = state_after.cells;
                            now.outputs = state_after.outputs;
                            now.cell_ptr = state_after.cell_ptr;
                            steps_left = remaining_steps;
                        },
                        _ => {
                            return (now, loop_outcome);
                        },
                    }
                }
            },
        }
        steps_left -= 1;
    }
    if steps_left == 0 {
        (now, Outcome::OutOfSteps)
    } else {
        (now, Outcome::Completed(steps_left))
    }
}

/// The machine before anything ran: a zeroed tape of the size that
/// `instrs` needs, the pointer on its first cell, nothing written.
pub fn initial_state(instrs: &Vec<Instruction>) -> (r: ExecutionState)
    requires
        tape_fits(program_view(instrs@)),
        highest_index(program_view(instrs@)) < isize::MAX,
    ensures
        r@ == initial_snapshot(program_view(instrs@)),
        r@.well_formed(),
        r.cells.len() <= isize::MAX,
{
    let ghost p = program_view(instrs@);
    proof {
        lemma_highest_index_nonnegative(p);
    }
    let size = highest_cell_index(instrs) + 1;
    let mut cells: Vec<u8> = Vec::new();
    let mut k: usize = 0;
    while k < size
        invariant
            k <= size,
            cells.len() == k,
            forall|i: int| 0 <= i < k ==> cells[i] == 0u8,
        decreases size - k,
    {
        cells.push(0u8);
        k += 1;
    }
    let state = ExecutionState { instr_ptr: 0, cells, cell_ptr: 0, outputs: Vec::new() };
    proof {
        assert(state.cells@ =~= initial_snapshot(p).cells);
        assert(state.outputs@ =~= initial_snapshot(p).outputs);
    }
    state
}

/// Runs `instrs` at compile time for at most `steps` steps, on a zeroed
/// tape of the size the program needs. Returns the tape, the output so
/// far and the index of the first instruction that is left to run.
pub fn execute(instrs: &Vec<Instruction>, steps: u64) -> (r: ExecutionState)
    requires
        tape_fits(program_view(instrs@)),
        highest_index(program_view(instrs@)) < isize::MAX,
    ensures
        r@ == execute_spec(program_view(instrs@), steps as nat),
        r.instr_ptr <= instrs.len(),
        r.cells.len() == highest_index(program_view(instrs@)) + 1,
        0 <= r.cell_ptr < r.cells.len(),
{
    let ghost p = program_view(instrs@);
    proof {
        lemma_highest_index_nonnegative(p);
    }
    let state = initial_state(instrs);
    proof {
        lemma_speculate_bounds(p, state@, steps as nat);
    }
    let (final_state, _) = execute_inner(instrs, state, steps);
    final_state
}

} // verus!
