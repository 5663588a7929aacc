use vstd::prelude::*;

verus! {

/// The domain a command targets.
#[derive(Debug, Clone)]
pub enum Scope {
    Node { name: String },
    Cluster,
    Session { id: String },
    Codex,
}

} // verus!
