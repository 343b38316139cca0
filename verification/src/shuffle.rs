//! Shuffle algorithms and stepped shuffle animators.

mod constrained;
mod cycles;
mod fisher_yates;
mod inside_out;
mod interleave;
mod laws;
mod overhand;
mod overhand_animator;
mod partial;
mod permutation;
mod riffle;
mod riffle_animator;
mod sattolo;

pub use constrained::{
    candidates_from, categorized, constrained_outcome, constrained_shuffle, effective_max,
    first_violation, first_violation_from, lemma_no_violation_bounds_runs, repair, repairs,
    run_left, run_length, run_right, valid_at,
};
pub use cycles::{cyclic_along, is_cyclic_rotation, lists_positions};
pub use fisher_yates::{fisher_yates, fisher_yates_from, fisher_yates_result};
pub use inside_out::{
    inside_out_from, inside_out_indices, inside_out_order, reservoir_shuffle, shuffle_copy,
};
pub use interleave::{
    interleave, interleave_order, interleave_source, lemma_interleave_ends,
    lemma_interleave_is_permutation,
};
pub use laws::{
    left_drops, lemma_fisher_yates_recursion, lemma_fisher_yates_small,
    lemma_overhand_first_chunk, lemma_overhand_passes_compose, lemma_partial_first,
    lemma_partial_recursion, lemma_riffle_drop_rule, lemma_sattolo_recursion,
};
pub use overhand::{
    chunk_size, lemma_chunk_size_bounds, lemma_overhand_chunks, lemma_overhand_is_permutation,
    lemma_overhand_unfold, next_chunk_size, overhand_chunk_sizes, overhand_chunks, overhand_from,
    overhand_once, overhand_once_result, overhand_order, overhand_passes, overhand_shuffle,
    overhand_shuffle_result,
};
pub use overhand_animator::{index_range, OverhandAnimator, OverhandState};
pub use partial::{partial_from, partial_result, partial_shuffle};
pub use permutation::{
    apply_permutation, gathered, is_index_permutation, lemma_swap_same_elements, same_elements,
    swapped,
};
pub use riffle::{
    is_riffle_of, lemma_riffle_cut_in_middle, riffle_cut, riffle_drop_order, riffle_from,
    riffle_once, riffle_once_result, riffle_order, riffle_passes, riffle_shuffle,
    riffle_shuffle_result,
};
pub use riffle_animator::{
    lemma_riffle_decisions_len, riffle_decisions, riffle_drops, riffle_pass_order, riffle_pass_plan,
    RiffleAnimator, RiffleState,
};
pub use sattolo::{sattolo, sattolo_from, sattolo_result};
