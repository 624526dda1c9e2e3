//! Counterfactual-regret solving on flattened poker trees.
//!
//! Every engine here is generic over the arithmetic it runs on
//! ([`scalar::Scalar`]): contracts fix which operations are applied, to which
//! cells, in which order, and leave the rounding of each single operation to
//! the number type.
pub mod answers;
pub mod bank;
pub mod best_response;
pub mod bucket_lift;
pub mod bucketed_flop_cfr;
pub mod bucketed_search;
pub mod bucketed_showdown;
pub mod buckets;
pub mod card;
pub mod chance_table;
pub mod chance_laws;
pub mod chip_laws;
pub mod choice_laws;
pub mod class_equity_laws;
pub mod cluster_laws;
pub mod cluster_mass;
pub mod cross_tree;
pub mod deal_laws;
pub mod deal_sums;
pub mod deck;
pub mod discount_laws;
pub mod even_pots;
pub mod exact;
pub mod exploit_laws;
pub mod flop_access;
pub mod flop_laws;
pub mod flop_pairs;
pub mod flop_repeat;
pub mod flop_response_laws;
pub mod flop_run;
pub mod flop_search;
pub mod flop_sources;
pub mod flop_start_game;
pub mod flop_start_vector_cfr;
pub mod flop_storage;
pub mod flop_values;
pub mod four_laws;
pub mod gain_laws;
pub mod game;
pub mod grid;
pub mod harmonic_laws;
pub mod jam_laws;
pub mod knot_laws;
pub mod known_showdowns;
pub mod layout;
pub mod layout_laws;
pub mod learn;
pub mod lift;
pub mod many_sums;
pub mod mccfr;
pub mod mccfr_steps;
pub mod mccfr_walk;
pub mod mccfr_continuations;
pub mod mccfr_laws;
pub mod mccfr_par;
pub mod mccfr_run;
pub mod note_laws;
pub mod one_bucket;
pub mod one_variant;
pub mod opponent_order;
pub mod own_buckets;
pub mod parallel;
pub mod play_laws;
pub mod poker_game;
pub mod postflop_oracle;
pub mod preflop_allin_equity;
pub mod preflop_best_laws;
pub mod preflop_cfr;
pub mod preflop_class;
pub mod preflop_folds;
pub mod preflop_iterations;
pub mod preflop_jam_game;
pub mod preflop_laws;
pub mod preflop_reach;
pub mod preflop_regret_laws;
pub mod preflop_run;
pub mod preflop_share_laws;
pub mod preflop_walk;
pub mod pseudo_harmonic;
pub mod ranks;
pub mod rake_laws;
pub mod response_laws;
pub mod river_files;
pub mod rows;
pub mod run_laws;
pub mod runout;
pub mod sampled_laws;
pub mod sampled_worths;
pub mod scalar;
pub mod showdown_laws;
pub mod sure_showdowns;
pub mod sweep;
pub mod tally_laws;
pub mod terminal;
pub mod three_laws;
pub mod tree;
pub mod tree_check;
pub mod variants;
pub mod weight_laws;
pub mod whole_chips;
pub mod worth_laws;
pub mod zone_pass;
pub mod zones;
