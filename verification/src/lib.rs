mod engine;
mod enumerate;
mod perm;
mod random;
mod rank;
mod stats;

pub use engine::GaleShapley;
pub use engine::Man;
pub use engine::MatchState;
pub use engine::Woman;
pub use engine::appears_as_proposer;
pub use engine::lemma_man_prefers_input;
pub use engine::lemma_query_agrees;
pub use engine::lemma_quiescent_total;
pub use engine::lemma_result_stable;
pub use engine::lemma_solve_deterministic;
pub use engine::lemma_solve_props;
pub use engine::man_prefers;
pub use engine::rows_of;
pub use engine::solve;
pub use engine::stable_matching;
pub use enumerate::all_perms;
pub use enumerate::all_possible_individual_preferences;
pub use enumerate::all_possible_preferences;
pub use enumerate::all_pref_matrices;
pub use enumerate::identity_perm;
pub use enumerate::lemma_all_perms_complete;
pub use enumerate::lemma_all_perms_sound;
pub use enumerate::lemma_all_pref_matrices_complete;
pub use enumerate::lemma_all_pref_matrices_sound;
pub use enumerate::mats_of;
pub use enumerate::valid_pref_matrix;
pub use perm::is_inverse_of;
pub use perm::is_perm;
pub use perm::lemma_inverse_involution;
pub use perm::lemma_inverse_of_perm;
pub use rank::make_men_preferences;
pub use rank::make_rank_matrix;
pub use stats::Stats;
pub use stats::count_rank;
pub use stats::lemma_add_problem_gains_size;
pub use stats::lemma_add_problem_totals;
pub use stats::lemma_rank_counts_total;
pub use stats::men_ranks;
pub use stats::sum_int;
pub use stats::sum_usize;
pub use stats::women_ranks;
