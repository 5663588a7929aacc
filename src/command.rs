use vstd::prelude::*;
use crate::role::Role;
use crate::scope::Scope;
use uuid::Uuid;

verus! {

/// What a command asks the backend to do.
#[derive(Debug, Clone, Copy, PartialEq, Eq, Structural)]
pub enum CommandKind {
    NeuralCachePurge,
    ContextExpand { amount: usize },
    SessionArchive,
    SessionSnapshot,
    SessionRecover,
    CodexValidate,
    CodexCompress,
    NodeRebalance,
    QueryTrace,
    QueryOptimize,
}

impl CommandKind {
    /// The least role that may issue this kind.
    pub open spec fn spec_required_role(self) -> Role {
        match self {
            CommandKind::NeuralCachePurge
            | CommandKind::SessionArchive
            | CommandKind::SessionSnapshot
            | CommandKind::SessionRecover => Role::Admin,
            _ => Role::Guest,
        }
    }

    /// Whether this kind must target a session.
    pub open spec fn spec_needs_session(self) -> bool {
        match self {
            CommandKind::SessionArchive
            | CommandKind::SessionSnapshot
            | CommandKind::SessionRecover => true,
            _ => false,
        }
    }

    pub fn required_role(&self) -> (r: Role)
        ensures
            r == self.spec_required_role(),
    {
        match self {
            CommandKind::NeuralCachePurge
            | CommandKind::SessionArchive
            | CommandKind::SessionSnapshot
            | CommandKind::SessionRecover => Role::Admin,
            _ => Role::Guest,
        }
    }

    pub fn needs_session(&self) -> (r: bool)
        ensures
            r == self.spec_needs_session(),
    {
        match self {
            CommandKind::SessionArchive
            | CommandKind::SessionSnapshot
            | CommandKind::SessionRecover => true,
            _ => false,
        }
    }
}

/// One request to the backend: who asks, where, and what.
#[derive(Debug)]
pub struct Command {
    pub id: Uuid,
    pub role: Role,
    pub scope: Scope,
    pub kind: CommandKind,
}

impl Command {
    pub fn new(id: Uuid, role: Role, scope: Scope, kind: CommandKind) -> (r: Self)
        ensures
            r.id == id,
            r.role == role,
            r.scope == scope,
            r.kind == kind,
    {
        Command { id, role, scope, kind }
    }
}

} // verus!
