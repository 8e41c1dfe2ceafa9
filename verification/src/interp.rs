//! The executor: big-step semantics of a program, and a verified
//! interpreter that follows them exactly.
//!
//! Every operation of the machine is total — the pointer and the cells
//! wrap, and reading exhausted input leaves the cell untouched — so a
//! run can fail in one way only: by not finishing within the caller's
//! iteration budget.  The budget makes every run terminate; the
//! semantics below spell out exactly which runs finish within it.

use vstd::prelude::*;

use crate::ast::lemma_view_body_index;
use crate::ast::lemma_view_body_len;
use crate::ast::view_body;
use crate::ast::Instruction;
use crate::ast::Program;
use crate::ast::SpecInstr;
use crate::machine::cell;
use crate::machine::evolves;
use crate::machine::inc8;
use crate::machine::init_state;
use crate::machine::lemma_evolves_refl;
use crate::machine::lemma_evolves_trans;
use crate::machine::st_wf;
use crate::machine::step_dec;
use crate::machine::step_in;
use crate::machine::step_inc;
use crate::machine::step_left;
use crate::machine::step_out;
use crate::machine::step_right;
use crate::machine::MState;
use crate::TAPE_LEN;

verus! {

/// The one way a run can fail.
#[derive(Clone, Copy, Debug, PartialEq, Eq, Structural)]
pub enum ExecError {
    /// The run did not finish within the caller's iteration budget.
    ExecutionLimitExceeded,
}

/// The result of one instruction on a state, given a budget: the state
/// after it, or `None` when the budget does not cover it.
///
/// A loop whose cell is zero ends at once and costs nothing; otherwise
/// each round of its body costs one unit of the budget.
pub open spec fn run_instr(i: SpecInstr, st: MState, fuel: nat) -> Option<MState>
    decreases fuel, i,
{
    match i {
        SpecInstr::MoveRight => Some(step_right(st)),
        SpecInstr::MoveLeft => Some(step_left(st)),
        SpecInstr::Increment => Some(step_inc(st)),
        SpecInstr::Decrement => Some(step_dec(st)),
        SpecInstr::Output => Some(step_out(st)),
        SpecInstr::Input => Some(step_in(st)),
        SpecInstr::Loop(body) => {
            if cell(st) == 0 {
                Some(st)
            } else if fuel == 0 {
                None
            } else {
                match run_body(body, st, fuel) {
                    Some(st1) => run_instr(SpecInstr::Loop(body), st1, (fuel - 1) as nat),
                    None => None,
                }
            }
        },
    }
}

/// The result of an instruction sequence on a state, instruction after
/// instruction, under one shared budget.
pub open spec fn run_body(p: Seq<SpecInstr>, st: MState, fuel: nat) -> Option<MState>
    decreases fuel, p,
{
    if p.len() == 0 {
        Some(st)
    } else {
        match run_instr(p[0], st, fuel) {
            Some(st1) => run_body(p.drop_first(), st1, fuel),
            None => None,
        }
    }
}

/// What a program emits on the given input under the given budget:
/// the whole output, or `None` when the budget does not cover the run.
pub open spec fn spec_run(p: Seq<SpecInstr>, input: Seq<u8>, fuel: nat) -> Option<Seq<u8>> {
    match run_body(p, init_state(input), fuel) {
        Some(st) => Some(st.out),
        None => None,
    }
}

/// Moving left with the pointer on the first cell wraps it to the last.
pub proof fn lemma_pointer_wrap_left(st: MState, fuel: nat)
    requires
        st.ptr == 0,
    ensures
        run_instr(SpecInstr::MoveLeft, st, fuel) == Some(MState { ptr: TAPE_LEN - 1, ..st }),
{
}

/// Moving right with the pointer on the last cell wraps it to the first.
pub proof fn lemma_pointer_wrap_right(st: MState, fuel: nat)
    requires
        st.ptr == TAPE_LEN - 1,
    ensures
        run_instr(SpecInstr::MoveRight, st, fuel) == Some(MState { ptr: 0, ..st }),
{
    assert((TAPE_LEN as int) % (TAPE_LEN as int) == 0);
}

/// A loop over a zero cell runs no iteration at all: whatever its body,
/// it leaves the whole state — cells, pointer, input and output — as it
/// was, and costs no budget.
pub proof fn lemma_loop_zero_iterations(body: Seq<SpecInstr>, st: MState, fuel: nat)
    requires
        cell(st) == 0,
    ensures
        run_instr(SpecInstr::Loop(body), st, fuel) == Some(st),
{
}

/// The same instruction `n` times over.
pub open spec fn repeated(i: SpecInstr, n: nat) -> Seq<SpecInstr> {
    Seq::new(n, |k: int| i)
}

/// Running `n` increments adds `n` to the cell under the pointer,
/// modulo 256, and changes nothing else.
pub proof fn lemma_increments_add(st: MState, n: nat, fuel: nat)
    requires
        st_wf(st),
    ensures
        run_body(repeated(SpecInstr::Increment, n), st, fuel) == Some(
            MState { tape: st.tape.update(st.ptr, ((cell(st) + n) % 256) as u8), ..st },
        ),
    decreases n,
{
    let c = cell(st) as int;
    if n == 0 {
        assert(repeated(SpecInstr::Increment, n) =~= Seq::<SpecInstr>::empty());
        assert(run_body(repeated(SpecInstr::Increment, n), st, fuel) == Some(st));
        assert(st.tape.update(st.ptr, ((c + 0) % 256) as u8) =~= st.tape);
        assert(MState { tape: st.tape.update(st.ptr, ((c + 0) % 256) as u8), ..st } =~= st);
    } else {
        let st1 = step_inc(st);
        assert(repeated(SpecInstr::Increment, n)[0] == SpecInstr::Increment);
        assert(repeated(SpecInstr::Increment, n).drop_first() =~= repeated(
            SpecInstr::Increment,
            (n - 1) as nat,
        ));
        assert(st_wf(st1));
        assert(cell(st1) == inc8(cell(st)));
        assert(inc8(cell(st)) as int == (c + 1) % 256);
        assert(run_instr(SpecInstr::Increment, st, fuel) == Some(st1));
        assert(run_body(repeated(SpecInstr::Increment, n), st, fuel) == run_body(
            repeated(SpecInstr::Increment, (n - 1) as nat),
            st1,
            fuel,
        ));
        lemma_increments_add(st1, (n - 1) as nat, fuel);
        assert(((c + 1) % 256) % 256 == (c + 1) % 256);
        vstd::arithmetic::div_mod::lemma_add_mod_noop((c + 1) % 256, n - 1, 256);
        vstd::arithmetic::div_mod::lemma_add_mod_noop(c + 1, n - 1, 256);
        assert((cell(st1) + (n - 1)) % 256 == (c + n) % 256);
        assert(st1.tape.update(st.ptr, ((c + n) % 256) as u8) =~= st.tape.update(
            st.ptr,
            ((c + n) % 256) as u8,
        ));
        assert(MState { tape: st1.tape.update(st1.ptr, ((cell(st1) + (n - 1)) % 256) as u8), ..st1 }
            =~= MState { tape: st.tape.update(st.ptr, ((c + n) % 256) as u8), ..st });
    }
}

/// Adding 256 to a cell returns it to its value: 256 increments in a
/// row leave the whole state as it was.
pub proof fn lemma_cell_wrap_increments(st: MState, fuel: nat)
    requires
        st_wf(st),
    ensures
        run_body(repeated(SpecInstr::Increment, 256), st, fuel) == Some(st),
{
    lemma_increments_add(st, 256, fuel);
    assert(((cell(st) + 256) % 256) as u8 == cell(st));
    assert(st.tape.update(st.ptr, cell(st)) =~= st.tape);
    assert(MState { tape: st.tape.update(st.ptr, cell(st)), ..st } =~= st);
}

/// One decrement on a zero cell wraps it to 255.
pub proof fn lemma_cell_wrap_decrement(st: MState, fuel: nat)
    requires
        st_wf(st),
        cell(st) == 0,
    ensures
        run_instr(SpecInstr::Decrement, st, fuel) == Some(
            MState { tape: st.tape.update(st.ptr, 255u8), ..st },
        ),
{
}

/// A budget that covers one instruction stays enough when raised: the
/// result is the same state, never a different one.
pub proof fn lemma_instr_budget_monotonic(i: SpecInstr, st: MState, f1: nat, f2: nat)
    requires
        f1 <= f2,
        run_instr(i, st, f1) is Some,
    ensures
        run_instr(i, st, f2) == run_instr(i, st, f1),
    decreases f1, i,
{
    match i {
        SpecInstr::Loop(body) => {
            if cell(st) != 0 {
                let st1 = run_body(body, st, f1).unwrap();
                lemma_body_budget_monotonic(body, st, f1, f2);
                lemma_instr_budget_monotonic(i, st1, (f1 - 1) as nat, (f2 - 1) as nat);
            }
        },
        _ => {},
    }
}

/// A budget that covers an instruction sequence stays enough when
/// raised, with the same resulting state.
pub proof fn lemma_body_budget_monotonic(p: Seq<SpecInstr>, st: MState, f1: nat, f2: nat)
    requires
        f1 <= f2,
        run_body(p, st, f1) is Some,
    ensures
        run_body(p, st, f2) == run_body(p, st, f1),
    decreases f1, p,
{
    if p.len() > 0 {
        let st1 = run_instr(p[0], st, f1).unwrap();
        lemma_instr_budget_monotonic(p[0], st, f1, f2);
        lemma_body_budget_monotonic(p.drop_first(), st1, f1, f2);
    }
}

/// Raising a sufficient budget never changes what a program emits.
pub proof fn lemma_run_budget_monotonic(p: Seq<SpecInstr>, input: Seq<u8>, f1: nat, f2: nat)
    requires
        f1 <= f2,
        spec_run(p, input, f1) is Some,
    ensures
        spec_run(p, input, f2) == spec_run(p, input, f1),
{
    lemma_body_budget_monotonic(p, init_state(input), f1, f2);
}

/// What a program emits is a function of the program and the input
/// alone: any two budgets that cover the run give the same output.
pub proof fn lemma_run_output_unique(
    p: Seq<SpecInstr>,
    input: Seq<u8>,
    f1: nat,
    f2: nat,
    o1: Seq<u8>,
    o2: Seq<u8>,
)
    requires
        spec_run(p, input, f1) == Some(o1),
        spec_run(p, input, f2) == Some(o2),
    ensures
        o1 == o2,
{
    if f1 <= f2 {
        lemma_run_budget_monotonic(p, input, f1, f2);
    } else {
        lemma_run_budget_monotonic(p, input, f2, f1);
    }
}

/// One instruction only evolves the state: it keeps the tape and the
/// pointer well formed, appends to the output without rewriting it, and
/// consumes input from the front without rewriting it.
pub proof fn lemma_instr_evolves(i: SpecInstr, st: MState, fuel: nat)
    requires
        st_wf(st),
        run_instr(i, st, fuel) is Some,
    ensures
        evolves(st, run_instr(i, st, fuel).unwrap()),
    decreases fuel, i,
{
    match i {
        SpecInstr::Loop(body) => {
            if cell(st) == 0 {
                lemma_evolves_refl(st);
            } else {
                let st1 = run_body(body, st, fuel).unwrap();
                lemma_body_evolves(body, st, fuel);
                lemma_instr_evolves(i, st1, (fuel - 1) as nat);
                lemma_evolves_trans(st, st1, run_instr(i, st1, (fuel - 1) as nat).unwrap());
            }
        },
        SpecInstr::Input => {
            let b = step_in(st);
            assert(b.out.take(st.out.len() as int) =~= st.out);
            if st.inp.len() > 0 {
                assert(st.inp.drop_first() =~= st.inp.skip(1));
                assert(0 <= 1 <= st.inp.len() && b.inp == st.inp.skip(1));
            } else {
                assert(st.inp.skip(0) =~= st.inp);
                assert(0 <= 0 <= st.inp.len() && b.inp == st.inp.skip(0));
            }
        },
        _ => {
            let b = run_instr(i, st, fuel).unwrap();
            assert(b.out.take(st.out.len() as int) =~= st.out);
            assert(st.inp.skip(0) =~= st.inp);
            assert(0 <= 0 <= st.inp.len() && b.inp == st.inp.skip(0));
        },
    }
}

/// An instruction sequence only evolves the state, instruction after
/// instruction.
pub proof fn lemma_body_evolves(p: Seq<SpecInstr>, st: MState, fuel: nat)
    requires
        st_wf(st),
        run_body(p, st, fuel) is Some,
    ensures
        evolves(st, run_body(p, st, fuel).unwrap()),
    decreases fuel, p,
{
    if p.len() == 0 {
        lemma_evolves_refl(st);
    } else {
        let st1 = run_instr(p[0], st, fuel).unwrap();
        lemma_instr_evolves(p[0], st, fuel);
        lemma_body_evolves(p.drop_first(), st1, fuel);
        lemma_evolves_trans(st, st1, run_body(p.drop_first(), st1, fuel).unwrap());
    }
}

/// The running state of the interpreter: the tape cells, the pointer,
/// how much of the input is consumed, and the output so far.
struct Machine {
    cells: Vec<u8>,
    ptr: usize,
    cursor: usize,
    out: Vec<u8>,
}

impl Machine {
    /// The tape has its fixed length, the pointer is on it, and the
    /// cursor is within the input.
    spec fn inv(self, input: Seq<u8>) -> bool {
        &&& self.cells@.len() == TAPE_LEN
        &&& self.ptr < TAPE_LEN
        &&& self.cursor <= input.len()
    }

    /// The mathematical state this machine is in, against the given input.
    spec fn mview(self, input: Seq<u8>) -> MState {
        MState {
            tape: self.cells@,
            ptr: self.ptr as int,
            inp: input.skip(self.cursor as int),
            out: self.out@,
        }
    }
}

/// Runs one instruction, following `run_instr` exactly.
#[verifier::loop_isolation(false)]
fn exec_instr(i: &Instruction, m: &mut Machine, input: &[u8], fuel: u64) -> (r: Result<
    (),
    ExecError,
>)
    requires
        old(m).inv(input@),
    ensures
        final(m).inv(input@),
        match r {
            Ok(()) => run_instr(i@, old(m).mview(input@), fuel as nat) == Some(
                final(m).mview(input@),
            ),
            Err(e) => {
                &&& run_instr(i@, old(m).mview(input@), fuel as nat) is None
                &&& e == ExecError::ExecutionLimitExceeded
            },
        },
    decreases i,
{
    match i {
        Instruction::MoveRight => {
            m.ptr = (m.ptr + 1) % TAPE_LEN;
            proof {
                assert(m.mview(input@) =~= step_right(old(m).mview(input@)));
            }
            Ok(())
        },
        Instruction::MoveLeft => {
            m.ptr = if m.ptr == 0 {
                TAPE_LEN - 1
            } else {
                m.ptr - 1
            };
            proof {
                assert(m.mview(input@) =~= step_left(old(m).mview(input@)));
            }
            Ok(())
        },
        Instruction::Increment => {
            let c = m.cells[m.ptr];
            m.cells[m.ptr] = c.wrapping_add(1);
            proof {
                assert(m.mview(input@) =~= step_inc(old(m).mview(input@)));
            }
            Ok(())
        },
        Instruction::Decrement => {
            let c = m.cells[m.ptr];
            m.cells[m.ptr] = c.wrapping_sub(1);
            proof {
                assert(m.mview(input@) =~= step_dec(old(m).mview(input@)));
            }
            Ok(())
        },
        Instruction::Output => {
            let c = m.cells[m.ptr];
            m.out.push(c);
            proof {
                assert(m.mview(input@) =~= step_out(old(m).mview(input@)));
            }
            Ok(())
        },
        Instruction::Input => {
            if m.cursor < input.len() {
                m.cells[m.ptr] = input[m.cursor];
                m.cursor = m.cursor + 1;
                proof {
                    assert(input@.skip(old(m).cursor as int).drop_first() =~= input@.skip(
                        m.cursor as int,
                    ));
                    assert(m.mview(input@) =~= step_in(old(m).mview(input@)));
                }
            } else {
                proof {
                    assert(m.mview(input@) =~= step_in(old(m).mview(input@)));
                }
            }
            Ok(())
        },
        Instruction::Loop(body) => {
            let ghost iv = SpecInstr::Loop(view_body(body@));
            let ghost st0 = m.mview(input@);
            let mut fl = fuel;
            while m.cells[m.ptr] != 0
                invariant
                    m.inv(input@),
                    fl <= fuel,
                    run_instr(iv, st0, fuel as nat) == run_instr(iv, m.mview(input@), fl as nat),
                decreases fl,
            {
                let ghost prev = m.mview(input@);
                if fl == 0 {
                    proof {
                        assert(run_instr(iv, prev, 0) is None);
                    }
                    return Err(ExecError::ExecutionLimitExceeded);
                }
                let r = exec_body(body, m, input, fl);
                match r {
                    Ok(()) => {
                        fl = fl - 1;
                        proof {
                            assert(run_instr(iv, prev, (fl + 1) as nat) == run_instr(
                                iv,
                                m.mview(input@),
                                fl as nat,
                            ));
                        }
                    },
                    Err(e) => {
                        proof {
                            assert(run_instr(iv, prev, fl as nat) is None);
                        }
                        return Err(e);
                    },
                }
            }
            proof {
                assert(run_instr(iv, m.mview(input@), fl as nat) == Some(m.mview(input@)));
            }
            Ok(())
        },
    }
}

/// Runs an instruction sequence in order, following `run_body` exactly.
#[verifier::loop_isolation(false)]
fn exec_body(instrs: &Vec<Instruction>, m: &mut Machine, input: &[u8], fuel: u64) -> (r: Result<
    (),
    ExecError,
>)
    requires
        old(m).inv(input@),
    ensures
        final(m).inv(input@),
        match r {
            Ok(()) => run_body(view_body(instrs@), old(m).mview(input@), fuel as nat) == Some(
                final(m).mview(input@),
            ),
            Err(e) => {
                &&& run_body(view_body(instrs@), old(m).mview(input@), fuel as nat) is None
                &&& e == ExecError::ExecutionLimitExceeded
            },
        },
    decreases instrs,
{
    let ghost pv = view_body(instrs@);
    let ghost st0 = m.mview(input@);
    proof {
        lemma_view_body_len(instrs@);
        assert(pv.skip(0) =~= pv);
    }
    let mut idx: usize = 0;
    while idx < instrs.len()
        invariant
            idx <= instrs.len(),
            m.inv(input@),
            pv == view_body(instrs@),
            pv.len() == instrs@.len(),
            run_body(pv, st0, fuel as nat) == run_body(
                pv.skip(idx as int),
                m.mview(input@),
                fuel as nat,
            ),
        decreases instrs.len() - idx,
    {
        let ghost prev = m.mview(input@);
        let r = exec_instr(&instrs[idx], m, input, fuel);
        proof {
            lemma_view_body_index(instrs@, idx as int);
            assert(pv.skip(idx as int)[0] == pv[idx as int]);
        }
        match r {
            Ok(()) => {
                proof {
                    assert(pv.skip(idx as int).drop_first() =~= pv.skip(idx as int + 1));
                    assert(run_body(pv.skip(idx as int), prev, fuel as nat) == run_body(
                        pv.skip(idx as int + 1),
                        m.mview(input@),
                        fuel as nat,
                    ));
                }
                idx = idx + 1;
            },
            Err(e) => {
                proof {
                    assert(run_body(pv.skip(idx as int), prev, fuel as nat) is None);
                }
                return Err(e);
            },
        }
    }
    proof {
        assert(pv.skip(instrs@.len() as int) =~= Seq::<SpecInstr>::empty());
        assert(run_body(pv.skip(instrs@.len() as int), m.mview(input@), fuel as nat) == Some(
            m.mview(input@),
        ));
    }
    Ok(())
}

/// Runs a program against the given input on a fresh tape machine and
/// returns everything it emitted, under an iteration budget: a loop
/// entered with some budget ends within that many rounds, each round
/// leaving one unit less to the rounds after it and to the loops inside
/// them.  A run the budget does not cover fails with
/// [`ExecError::ExecutionLimitExceeded`]; raising the limit can only
/// turn that failure into the run's one output, never change the output
/// — see `lemma_run_output_unique`.
///
/// The result is exactly what the semantics `spec_run` give for the
/// program, the input and the budget.
pub fn run(program: &Program, input: &[u8], limit: u64) -> (r: Result<Vec<u8>, ExecError>)
    ensures
        match r {
            Ok(out) => spec_run(program@, input@, limit as nat) == Some(out@),
            Err(e) => {
                &&& spec_run(program@, input@, limit as nat) is None
                &&& e == ExecError::ExecutionLimitExceeded
            },
        },
{
    let mut m = Machine { cells: vec![0u8; TAPE_LEN], ptr: 0, cursor: 0, out: Vec::new() };
    proof {
        assert(m.cells@ =~= Seq::new(TAPE_LEN as nat, |k: int| 0u8));
        assert(input@.skip(0) =~= input@);
        assert(m.mview(input@) =~= init_state(input@));
    }
    match exec_body(&program.instrs, &mut m, input, limit) {
        Ok(()) => Ok(m.out),
        Err(e) => Err(e),
    }
}

} // verus!
