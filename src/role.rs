use vstd::prelude::*;

verus! {

/// Authority of a command's issuer, ordered `Guest < Operator < Admin`.
#[derive(Debug, Clone, Copy, PartialEq, Eq, PartialOrd, Ord, Hash, Structural)]
pub enum Role {
    Guest,
    Operator,
    Admin,
}

impl Role {
    /// Position in the order of authority.
    pub open spec fn rank(self) -> nat {
        match self {
            Role::Guest => 0,
            Role::Operator => 1,
            Role::Admin => 2,
        }
    }

    pub fn level(&self) -> (r: u8)
        ensures
            r == self.rank(),
    {
        match self {
            Role::Guest => 0,
            Role::Operator => 1,
            Role::Admin => 2,
        }
    }

    /// Whether this role carries at least the authority of `other`.
    pub fn at_least(&self, other: Role) -> (r: bool)
        ensures
            r == (self.rank() >= other.rank()),
    {
        self.level() >= other.level()
    }

    pub fn can_execute_admin_ops(&self) -> (r: bool)
        ensures
            r == (*self == Role::Admin),
    {
        match self {
            Role::Admin => true,
            _ => false,
        }
    }
}

} // verus!
