pub mod bits;
pub mod coordinates;
pub mod count_notes;
pub mod grid;
pub mod hidden_sets;
pub mod notes_manager;
pub mod pointing_sets;
pub mod solver;
