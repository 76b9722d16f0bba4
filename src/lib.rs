//! Bookkeeping for learning automata over infinite words: the observation
//! table of active learning, and the parameter derivation and labelling of
//! randomly drawn passive learning tasks.
pub mod observation_table;
pub mod random_task;
