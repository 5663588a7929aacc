//! Token ledger with per-symbol conservation, and a role/scope checked
//! command dispatcher over a small in-memory backend record.

pub mod error;
pub mod token;
pub mod accounts;
pub mod ident;
pub mod ledger;
pub mod role;
pub mod scope;
pub mod command;
mod text;
pub mod backend;

pub use crate::accounts::{Account, AccountId, TokenBalance};
pub use crate::backend::{BackendError, CommandResult, NeuromorphicBackend, SessionStatus};
pub use crate::command::{Command, CommandKind};
pub use crate::error::{NeuroError, NeuroResult};
pub use crate::ledger::{Ledger, TransferRequest};
pub use crate::role::Role;
pub use crate::scope::Scope;
pub use crate::token::{TokenMeta, TokenSupply};
