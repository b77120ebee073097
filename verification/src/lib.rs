//! Heads-up no-limit hold'em postflop solving and a multiway preflop lab:
//! the verified core.

pub mod aim_laws;
pub mod amount_laws;
pub mod batch;
pub mod betting;
pub mod budget;
pub mod budget_laws;
pub mod canonical;
pub mod cards;
pub mod cfr;
pub mod chip_laws;
pub mod classes;
pub mod discount;
pub mod engine;
pub mod course_laws;
pub mod deal_laws;
pub mod depth_laws;
pub mod edit_laws;
pub mod equity_laws;
pub mod evaluator;
pub mod exploit;
pub mod field_laws;
pub mod fold_laws;
pub mod framing;
pub mod gain_laws;
pub mod game;
pub mod game_laws;
pub mod growth_laws;
pub mod inspect;
pub mod lead_laws;
pub mod learn_laws;
pub mod lesson_laws;
pub mod load_laws;
pub mod lock_laws;
pub mod locks;
pub mod mean_laws;
pub mod messages;
pub mod mirror;
pub mod model_laws;
pub mod names;
pub mod nano;
pub mod num;
pub mod pace_laws;
pub mod path;
pub mod play_laws;
pub mod pot_laws;
pub mod preflop;
pub mod preflop_build;
pub mod preflop_export;
pub mod preflop_laws;
pub mod preflop_play;
pub mod preflop_save;
pub mod preflop_seats;
pub mod preflop_session;
pub mod preflop_solver;
pub mod preflop_tree;
pub mod preflop_values;
pub mod preflop_view;
pub mod profile;
pub mod profile_laws;
pub mod profile_lock;
pub mod rake;
pub mod rake_laws;
pub mod range;
pub mod range_laws;
pub mod rank_laws;
pub mod realization;
pub mod removal_laws;
pub mod report;
pub mod request;
pub mod response_laws;
pub mod round_laws;
pub mod runout_laws;
pub mod runouts;
pub mod save;
pub mod seat_laws;
pub mod seat_models;
pub mod seats;
pub mod session;
pub mod share_laws;
pub mod sizing;
pub mod sizing_laws;
pub mod solve;
pub mod sort;
pub mod spot;
pub mod store;
pub mod store_laws;
pub mod strategy;
pub mod symmetry_laws;
pub mod table;
pub mod target_laws;
pub mod terminal;
pub mod text;
pub mod tree;
pub mod tree_laws;
pub mod value_laws;
pub mod values;
pub mod vetting;
pub mod view;
pub mod view_laws;
pub mod walk_laws;
pub mod weigh_laws;
pub mod zero_sum_laws;
