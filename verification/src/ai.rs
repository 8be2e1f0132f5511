//! Conversations with a language model, kept as commits: one round of question and answer is one
//! commit, and the tree of a commit holds every message up to that round.
use vstd::prelude::*;

pub mod chat_laws;
pub mod cli;
pub mod graph_laws;
pub mod history;
pub mod llm;
pub mod merge;
pub mod messages;
pub mod reachable;

verus! {

} // verus!
