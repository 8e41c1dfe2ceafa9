//! A verified compiler core for the classic eight-command tape language.
//!
//! `build` turns raw source text into a validated instruction tree,
//! rejecting unmatched brackets; `run` executes such a tree against a
//! fresh tape machine, producing the machine's output bytes.

use vstd::prelude::*;

mod ast;
mod builder;
mod gate;
mod interp;
mod machine;

pub use ast::instr_size;
pub use ast::lemma_view_body_index;
pub use ast::lemma_view_body_len;
pub use ast::seq_size;
pub use ast::view_body;
pub use ast::BuildError;
pub use ast::Instruction;
pub use ast::Program;
pub use ast::SpecInstr;
pub use builder::balanced;
pub use builder::build;
pub use builder::close_count;
pub use builder::command_count;
pub use builder::drops_below;
pub use builder::end_depth;
pub use builder::is_command;
pub use builder::is_leaf;
pub use builder::leaf_of;
pub use builder::lemma_build_deterministic;
pub use builder::lemma_build_node_count;
pub use builder::lemma_build_ok_iff_balanced;
pub use builder::lemma_build_unmatched_closing;
pub use builder::lemma_build_unmatched_opening;
pub use builder::lemma_build_without_brackets;
pub use builder::node_count;
pub use builder::scan;
pub use builder::spec_build;
pub use builder::CMD_CLOSE;
pub use builder::CMD_DEC;
pub use builder::CMD_IN;
pub use builder::CMD_INC;
pub use builder::CMD_LEFT;
pub use builder::CMD_OPEN;
pub use builder::CMD_OUT;
pub use builder::CMD_RIGHT;
pub use gate::all_digits;
pub use gate::clock_minutes;
pub use gate::counter_verdict;
pub use gate::current_minutes;
pub use gate::digits_val;
pub use gate::is_digit;
pub use gate::parse_clock;
pub use gate::parse_number;
pub use gate::positions_of;
pub use gate::spec_clock_from;
pub use gate::spec_number;
pub use gate::spec_parse_clock;
pub use gate::window_allows;
pub use gate::ClockSpec;
pub use gate::SEP_COLON;
pub use gate::SEP_DASH;
pub use gate::SEP_SPACE;
pub use interp::lemma_body_budget_monotonic;
pub use interp::lemma_cell_wrap_decrement;
pub use interp::lemma_cell_wrap_increments;
pub use interp::lemma_increments_add;
pub use interp::lemma_instr_budget_monotonic;
pub use interp::lemma_loop_zero_iterations;
pub use interp::lemma_pointer_wrap_left;
pub use interp::lemma_pointer_wrap_right;
pub use interp::lemma_run_budget_monotonic;
pub use interp::lemma_run_output_unique;
pub use interp::repeated;
pub use interp::run;
pub use interp::run_body;
pub use interp::run_instr;
pub use interp::spec_run;
pub use interp::ExecError;
pub use interp::lemma_body_evolves;
pub use interp::lemma_instr_evolves;
pub use machine::cell;
pub use machine::evolves;
pub use machine::lemma_evolves_refl;
pub use machine::lemma_evolves_trans;
pub use machine::dec8;
pub use machine::inc8;
pub use machine::init_state;
pub use machine::st_wf;
pub use machine::step_dec;
pub use machine::step_in;
pub use machine::step_inc;
pub use machine::step_left;
pub use machine::step_out;
pub use machine::step_right;
pub use machine::MState;

verus! {

/// Number of cells on the tape of the machine; pointer arithmetic wraps
/// modulo this length in both directions.
pub const TAPE_LEN: usize = 30000;

} // verus!
