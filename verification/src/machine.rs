//! The tape machine's mathematical state and its single-step transitions.

use vstd::prelude::*;

use crate::TAPE_LEN;

verus! {

/// The mathematical state of one execution: the tape, the pointer, the
/// input bytes not yet consumed, and the output emitted so far.
#[verifier::ext_equal]
pub struct MState {
    /// The cells of the tape, always `TAPE_LEN` of them.
    pub tape: Seq<u8>,
    /// The index of the cell under the pointer.
    pub ptr: int,
    /// The input bytes not yet consumed.
    pub inp: Seq<u8>,
    /// The output bytes emitted so far, oldest first.
    pub out: Seq<u8>,
}

/// Well-formedness: the tape has its fixed length and the pointer is on it.
pub open spec fn st_wf(st: MState) -> bool {
    &&& st.tape.len() == TAPE_LEN
    &&& 0 <= st.ptr < TAPE_LEN
}

/// The state every execution starts from: all cells zero, pointer at the
/// first cell, the whole input ahead, no output yet.
pub open spec fn init_state(input: Seq<u8>) -> MState {
    MState {
        tape: Seq::new(TAPE_LEN as nat, |k: int| 0u8),
        ptr: 0,
        inp: input,
        out: Seq::empty(),
    }
}

/// The value of the cell under the pointer.
pub open spec fn cell(st: MState) -> u8 {
    st.tape[st.ptr]
}

/// One more than `c`, wrapping modulo 256.
pub open spec fn inc8(c: u8) -> u8 {
    if c == 255 {
        0
    } else {
        (c + 1) as u8
    }
}

/// One less than `c`, wrapping modulo 256.
pub open spec fn dec8(c: u8) -> u8 {
    if c == 0 {
        255
    } else {
        (c - 1) as u8
    }
}

/// Pointer one cell to the right, wrapping from the last cell to the first.
pub open spec fn step_right(st: MState) -> MState {
    MState { ptr: (st.ptr + 1) % (TAPE_LEN as int), ..st }
}

/// Pointer one cell to the left, wrapping from the first cell to the last.
pub open spec fn step_left(st: MState) -> MState {
    MState { ptr: if st.ptr == 0 { TAPE_LEN - 1 } else { st.ptr - 1 }, ..st }
}

/// The cell under the pointer, plus one modulo 256.
pub open spec fn step_inc(st: MState) -> MState {
    MState { tape: st.tape.update(st.ptr, inc8(cell(st))), ..st }
}

/// The cell under the pointer, minus one modulo 256.
pub open spec fn step_dec(st: MState) -> MState {
    MState { tape: st.tape.update(st.ptr, dec8(cell(st))), ..st }
}

/// The cell under the pointer appended to the output.
pub open spec fn step_out(st: MState) -> MState {
    MState { out: st.out.push(cell(st)), ..st }
}

/// The next input byte written into the cell under the pointer and
/// consumed; with the input exhausted, the state is left unchanged.
pub open spec fn step_in(st: MState) -> MState {
    if st.inp.len() > 0 {
        MState { tape: st.tape.update(st.ptr, st.inp[0]), inp: st.inp.drop_first(), ..st }
    } else {
        st
    }
}

/// How execution may carry one state into another: well-formedness is
/// kept, the output only grows at its end, and the input is only
/// consumed from its front — never rewritten.
pub open spec fn evolves(a: MState, b: MState) -> bool {
    &&& st_wf(b)
    &&& a.out.len() <= b.out.len()
    &&& b.out.take(a.out.len() as int) == a.out
    &&& exists|k: int| 0 <= k <= a.inp.len() && b.inp == a.inp.skip(k)
}

/// No step at all evolves a state into itself.
pub proof fn lemma_evolves_refl(a: MState)
    requires
        st_wf(a),
    ensures
        evolves(a, a),
{
    assert(a.out.take(a.out.len() as int) =~= a.out);
    assert(a.inp.skip(0) =~= a.inp);
    assert(0 <= 0 <= a.inp.len() && a.inp == a.inp.skip(0));
}

/// Steps compose: what evolves from an evolved state evolves from the
/// original.
pub proof fn lemma_evolves_trans(a: MState, b: MState, c: MState)
    requires
        evolves(a, b),
        evolves(b, c),
    ensures
        evolves(a, c),
{
    assert(c.out.take(a.out.len() as int) =~= a.out) by {
        assert(forall|j: int|
            0 <= j < a.out.len() ==> c.out[j] == b.out[j] && b.out[j] == a.out[j]);
    }
    let k1 = choose|k: int| 0 <= k <= a.inp.len() && b.inp == a.inp.skip(k);
    let k2 = choose|k: int| 0 <= k <= b.inp.len() && c.inp == b.inp.skip(k);
    assert(a.inp.skip(k1).skip(k2) =~= a.inp.skip(k1 + k2));
    assert(0 <= k1 + k2 <= a.inp.len() && c.inp == a.inp.skip(k1 + k2));
}

} // verus!
