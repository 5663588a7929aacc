use vstd::prelude::*;
use vstd::string::StringExecFns;
use crate::command::{Command, CommandKind};
use crate::role::Role;
use crate::scope::Scope;
use crate::text::{decimal, usize_text};
use uuid::Uuid;

verus! {

/// What was last done to a session.
#[derive(Debug, Clone, Copy, PartialEq, Eq, Structural)]
pub enum SessionStatus {
    Archived,
    Snapshot,
}

impl SessionStatus {
    pub open spec fn spec_label(self) -> Seq<char> {
        match self {
            SessionStatus::Archived => "archived"@,
            SessionStatus::Snapshot => "snapshot"@,
        }
    }

    /// The textual form: `archived` or `snapshot`.
    pub fn label(&self) -> (r: String)
        ensures
            r@ == self.spec_label(),
    {
        match self {
            SessionStatus::Archived => "archived".to_owned(),
            SessionStatus::Snapshot => "snapshot".to_owned(),
        }
    }
}

/// One recorded session.
#[derive(Debug, Clone)]
pub struct SessionEntry {
    pub id: String,
    pub status: SessionStatus,
}

/// The sessions of `s` as a map; a later entry wins over an earlier one.
pub open spec fn session_map(s: Seq<SessionEntry>) -> Map<Seq<char>, SessionStatus>
    decreases s.len(),
{
    if s.len() == 0 {
        Map::empty()
    } else {
        session_map(s.drop_last()).insert(s.last().id@, s.last().status)
    }
}

/// No two entries of `s` share an id.
pub open spec fn ids_unique(s: Seq<SessionEntry>) -> bool {
    forall|i: int, j: int| 0 <= i < j < s.len() ==> #[trigger] s[i].id@ != #[trigger] s[j].id@
}

proof fn lemma_map_absent(s: Seq<SessionEntry>, key: Seq<char>)
    requires
        forall|i: int| 0 <= i < s.len() ==> #[trigger] s[i].id@ != key,
    ensures
        !session_map(s).contains_key(key),
    decreases s.len(),
{
    if s.len() > 0 {
        assert(s[s.len() - 1].id@ != key);
        assert forall|i: int| 0 <= i < s.drop_last().len() implies #[trigger] s.drop_last()[i].id@
            != key by {
            assert(s[i].id@ != key);
        }
        lemma_map_absent(s.drop_last(), key);
    }
}

proof fn lemma_map_at(s: Seq<SessionEntry>, i: int)
    requires
        ids_unique(s),
        0 <= i < s.len(),
    ensures
        session_map(s).contains_key(s[i].id@),
        session_map(s)[s[i].id@] == s[i].status,
    decreases s.len(),
{
    if i < s.len() - 1 {
        assert(s[i].id@ != s[s.len() - 1].id@);
        assert(s.drop_last()[i] == s[i]);
        lemma_map_at(s.drop_last(), i);
    }
}

proof fn lemma_map_update(s: Seq<SessionEntry>, i: int, e: SessionEntry)
    requires
        ids_unique(s),
        0 <= i < s.len(),
        s[i].id@ == e.id@,
    ensures
        session_map(s.update(i, e)) == session_map(s).insert(e.id@, e.status),
        ids_unique(s.update(i, e)),
    decreases s.len(),
{
    let u = s.update(i, e);
    assert forall|j: int, k: int| 0 <= j < k < u.len() implies #[trigger] u[j].id@ != #[trigger] u[k].id@ by {
        assert(s[j].id@ != s[k].id@);
    }
    if i == s.len() - 1 {
        assert(u.drop_last() =~= s.drop_last());
        assert(session_map(u) =~= session_map(s).insert(e.id@, e.status));
    } else {
        assert(u.drop_last() =~= s.drop_last().update(i, e));
        assert(s.drop_last()[i] == s[i]);
        lemma_map_update(s.drop_last(), i, e);
        assert(s[i].id@ != s[s.len() - 1].id@);
        assert(session_map(u) =~= session_map(s).insert(e.id@, e.status));
    }
}

proof fn lemma_map_push(s: Seq<SessionEntry>, e: SessionEntry)
    requires
        ids_unique(s),
        !session_map(s).contains_key(e.id@),
    ensures
        session_map(s.push(e)) == session_map(s).insert(e.id@, e.status),
        ids_unique(s.push(e)),
{
    assert(s.push(e).drop_last() =~= s);
    assert forall|j: int, k: int|
        0 <= j < k < s.push(e).len() implies #[trigger] s.push(e)[j].id@ != #[trigger] s.push(
        e,
    )[k].id@ by {
        if k == s.len() {
            if s[j].id@ == e.id@ {
                lemma_map_at(s, j);
            }
        } else {
            assert(s[j].id@ != s[k].id@);
        }
    }
}

/// Why the backend refused a command.
#[derive(Debug, Clone)]
pub enum BackendError {
    PermissionDenied(Role),
    InvalidScope,
    General(String),
}

/// The answer to a command that was carried out.
#[derive(Debug)]
pub struct CommandResult {
    pub command_id: Uuid,
    pub ok: bool,
    pub message: String,
}

/// The backend's state as plain values.
pub struct BackendView {
    pub cache_cleared: bool,
    pub context_size: nat,
    pub sessions: Map<Seq<char>, SessionStatus>,
    pub codex_valid: bool,
}

/// The backend state with the effect of `kind`, issued in `scope`.
pub open spec fn applied(v: BackendView, kind: CommandKind, scope: Scope) -> BackendView {
    match kind {
        CommandKind::NeuralCachePurge => BackendView { cache_cleared: true, ..v },
        CommandKind::ContextExpand { amount } => BackendView {
            context_size: v.context_size + amount as nat,
            ..v
        },
        CommandKind::SessionArchive => match scope {
            Scope::Session { id } => BackendView {
                sessions: v.sessions.insert(id@, SessionStatus::Archived),
                ..v
            },
            _ => v,
        },
        CommandKind::SessionSnapshot => match scope {
            Scope::Session { id } => BackendView {
                sessions: v.sessions.insert(id@, SessionStatus::Snapshot),
                ..v
            },
            _ => v,
        },
        CommandKind::CodexValidate => BackendView { codex_valid: true, ..v },
        _ => v,
    }
}

/// The message that answers `kind`, issued in `scope`, on state `v`.
pub open spec fn reply(v: BackendView, kind: CommandKind, scope: Scope) -> Seq<char> {
    match kind {
        CommandKind::NeuralCachePurge => "neural cache purged"@,
        CommandKind::ContextExpand { amount } => "context expanded by "@ + decimal(amount as nat)
            + ", new size "@ + decimal(v.context_size + amount as nat),
        CommandKind::SessionArchive => match scope {
            Scope::Session { id } => "session "@ + id@ + " archived"@,
            _ => Seq::empty(),
        },
        CommandKind::SessionSnapshot => match scope {
            Scope::Session { id } => "session "@ + id@ + " snapshot taken"@,
            _ => Seq::empty(),
        },
        CommandKind::SessionRecover => match scope {
            Scope::Session { id } => if v.sessions.contains_key(id@) {
                "session "@ + id@ + " recovered"@
            } else {
                "session "@ + id@ + " not found; nothing to recover"@
            },
            _ => Seq::empty(),
        },
        CommandKind::CodexValidate => "codex validated"@,
        CommandKind::CodexCompress => "codex compressed (logical operation)"@,
        CommandKind::NodeRebalance => "node workloads rebalanced (simulated)"@,
        CommandKind::QueryTrace => "query trace recorded (simulated)"@,
        CommandKind::QueryOptimize => "query execution paths optimized (simulated)"@,
    }
}

/// `role` carries the authority that `kind` asks for.
pub open spec fn authorized(role: Role, kind: CommandKind) -> bool {
    role.rank() >= kind.spec_required_role().rank()
}

/// `scope` is of the variant that `kind` asks for.
pub open spec fn scope_fits(scope: Scope, kind: CommandKind) -> bool {
    kind.spec_needs_session() ==> scope is Session
}

/// Carrying out `kind` would take the context size past `usize::MAX`.
pub open spec fn expand_overflows(v: BackendView, kind: CommandKind) -> bool {
    match kind {
        CommandKind::ContextExpand { amount } => v.context_size + amount > usize::MAX,
        _ => false,
    }
}

/// In-memory backend: a cache flag, a context size, session statuses and a
/// codex flag.
#[derive(Debug)]
pub struct NeuromorphicBackend {
    cache_cleared: bool,
    context_size: usize,
    sessions: Vec<SessionEntry>,
    codex_valid: bool,
}

impl View for NeuromorphicBackend {
    type V = BackendView;

    closed spec fn view(&self) -> BackendView {
        BackendView {
            cache_cleared: self.cache_cleared,
            context_size: self.context_size as nat,
            sessions: session_map(self.sessions@),
            codex_valid: self.codex_valid,
        }
    }
}

impl NeuromorphicBackend {
    /// Session ids are unique.
    pub closed spec fn wf(&self) -> bool {
        ids_unique(self.sessions@)
    }

    pub fn new() -> (r: Self)
        ensures
            r.wf(),
            r@.cache_cleared == false,
            r@.context_size == 1024,
            r@.sessions == Map::<Seq<char>, SessionStatus>::empty(),
            r@.codex_valid == true,
    {
        NeuromorphicBackend {
            cache_cleared: false,
            context_size: 1024,
            sessions: Vec::new(),
            codex_valid: true,
        }
    }

    pub fn cache_cleared(&self) -> (r: bool)
        ensures
            r == self@.cache_cleared,
    {
        self.cache_cleared
    }

    pub fn context_size(&self) -> (r: usize)
        ensures
            r == self@.context_size,
    {
        self.context_size
    }

    pub fn codex_valid(&self) -> (r: bool)
        ensures
            r == self@.codex_valid,
    {
        self.codex_valid
    }

    fn find_session(&self, id: &String) -> (r: Option<usize>)
        requires
            self.wf(),
        ensures
            (r is Some) == self@.sessions.contains_key(id@),
            r is Some ==> r->Some_0 < self.sessions@.len() && self.sessions@[r->Some_0 as int].id@
                == id@,
    {
        let mut i: usize = 0;
        while i < self.sessions.len()
            invariant
                0 <= i <= self.sessions@.len(),
                self.wf(),
                forall|k: int| 0 <= k < i ==> #[trigger] self.sessions@[k].id@ != id@,
            decreases self.sessions@.len() - i,
        {
            if self.sessions[i].id == *id {
                proof {
                    lemma_map_at(self.sessions@, i as int);
                }
                return Some(i);
            }
            i = i + 1;
        }
        proof {
            lemma_map_absent(self.sessions@, id@);
        }
        None
    }

    /// The status recorded for session `id`, if any.
    pub fn session_status(&self, id: &String) -> (r: Option<SessionStatus>)
        requires
            self.wf(),
        ensures
            (r is Some) == self@.sessions.contains_key(id@),
            r is Some ==> r->Some_0 == self@.sessions[id@],
    {
        match self.find_session(id) {
            Some(i) => {
                proof {
                    lemma_map_at(self.sessions@, i as int);
                }
                Some(self.sessions[i].status)
            },
            None => None,
        }
    }

    fn set_session(&mut self, id: &String, status: SessionStatus)
        requires
            old(self).wf(),
        ensures
            final(self).wf(),
            final(self)@ == (BackendView {
                sessions: old(self)@.sessions.insert(id@, status),
                ..old(self)@
            }),
    {
        match self.find_session(id) {
            Some(i) => {
                let ghost pre = self.sessions@;
                self.sessions[i].status = status;
                proof {
                    lemma_map_update(pre, i as int, self.sessions@[i as int]);
                }
            },
            None => {
                let ghost pre = self.sessions@;
                let e = SessionEntry { id: id.clone(), status };
                proof {
                    lemma_map_push(pre, e);
                }
                self.sessions.push(e);
            },
        }
    }
    /// Checks the role, then the scope, then carries out the command and
    /// answers with its id and a message. A refused command changes nothing.
    pub fn handle(&mut self, cmd: Command) -> (r: Result<CommandResult, BackendError>)
        requires
            old(self).wf(),
        ensures
            final(self).wf(),
            !authorized(cmd.role, cmd.kind) ==> r == Err::<CommandResult, BackendError>(
                BackendError::PermissionDenied(cmd.role),
            ),
            authorized(cmd.role, cmd.kind) && !scope_fits(cmd.scope, cmd.kind) ==> r == Err::<
                CommandResult,
                BackendError,
            >(BackendError::InvalidScope),
            authorized(cmd.role, cmd.kind) && scope_fits(cmd.scope, cmd.kind) && expand_overflows(
                old(self)@,
                cmd.kind,
            ) ==> r matches Err(BackendError::General(_)),
            (r is Ok) == (authorized(cmd.role, cmd.kind) && scope_fits(cmd.scope, cmd.kind)
                && !expand_overflows(old(self)@, cmd.kind)),
            r is Err ==> *final(self) == *old(self),
            r is Ok ==> {
                let res = r->Ok_0;
                &&& res.command_id == cmd.id
                &&& res.ok
                &&& res.message@ == reply(old(self)@, cmd.kind, cmd.scope)
                &&& final(self)@ == applied(old(self)@, cmd.kind, cmd.scope)
            },
    {
        let required = cmd.kind.required_role();
        if !cmd.role.at_least(required) {
            return Err(BackendError::PermissionDenied(cmd.role));
        }
        if cmd.kind.needs_session() {
            match &cmd.scope {
                Scope::Session { .. } => {},
                _ => {
                    return Err(BackendError::InvalidScope);
                },
            }
        }
        let message = match cmd.kind {
            CommandKind::NeuralCachePurge => {
                self.cache_cleared = true;
                "neural cache purged".to_owned()
            },
            CommandKind::ContextExpand { amount } => {
                if self.context_size > usize::MAX - amount {
                    return Err(BackendError::General("context size overflow".to_owned()));
                }
                self.context_size = self.context_size + amount;
                let by = usize_text(amount);
                let size = usize_text(self.context_size);
                "context expanded by ".to_owned().concat(by.as_str()).concat(", new size ").concat(
                    size.as_str(),
                )
            },
            CommandKind::SessionArchive => match &cmd.scope {
                Scope::Session { id } => {
                    self.set_session(id, SessionStatus::Archived);
                    "session ".to_owned().concat(id.as_str()).concat(" archived")
                },
                _ => {
                    return Err(BackendError::InvalidScope);
                },
            },
            CommandKind::SessionSnapshot => match &cmd.scope {
                Scope::Session { id } => {
                    self.set_session(id, SessionStatus::Snapshot);
                    "session ".to_owned().concat(id.as_str()).concat(" snapshot taken")
                },
                _ => {
                    return Err(BackendError::InvalidScope);
                },
            },
            CommandKind::SessionRecover => match &cmd.scope {
                Scope::Session { id } => {
                    if self.find_session(id).is_some() {
                        "session ".to_owned().concat(id.as_str()).concat(" recovered")
                    } else {
                        "session ".to_owned().concat(id.as_str()).concat(
                            " not found; nothing to recover",
                        )
                    }
                },
                _ => {
                    return Err(BackendError::InvalidScope);
                },
            },
            CommandKind::CodexValidate => {
                self.codex_valid = true;
                "codex validated".to_owned()
            },
            CommandKind::CodexCompress => "codex compressed (logical operation)".to_owned(),
            CommandKind::NodeRebalance => "node workloads rebalanced (simulated)".to_owned(),
            CommandKind::QueryTrace => "query trace recorded (simulated)".to_owned(),
            CommandKind::QueryOptimize => "query execution paths optimized (simulated)".to_owned(),
        };
        Ok(CommandResult { command_id: cmd.id, ok: true, message })
    }
}

/// A cache purge always leaves the cache cleared and a codex validation
/// always leaves the codex valid, whatever the state before; doing either
/// twice is the same as doing it once.
pub proof fn lemma_validation_idempotent(v: BackendView, scope: Scope)
    ensures
        applied(v, CommandKind::NeuralCachePurge, scope).cache_cleared,
        applied(v, CommandKind::CodexValidate, scope).codex_valid,
        applied(applied(v, CommandKind::NeuralCachePurge, scope), CommandKind::NeuralCachePurge, scope)
            == applied(v, CommandKind::NeuralCachePurge, scope),
        applied(applied(v, CommandKind::CodexValidate, scope), CommandKind::CodexValidate, scope)
            == applied(v, CommandKind::CodexValidate, scope),
{
}

/// Every admin-only kind is refused to every role but `Admin`, so that
/// `handle` answers `PermissionDenied` and changes nothing.
pub proof fn lemma_admin_gate(role: Role, kind: CommandKind)
    requires
        kind.spec_required_role() == Role::Admin,
        role != Role::Admin,
    ensures
        !authorized(role, kind),
{
}

/// A session-scoped kind issued by an admin in any scope but a session is
/// refused as out of scope, so that `handle` answers `InvalidScope` and
/// changes nothing. (Issued by another role it is refused for the role,
/// which is checked first.)
pub proof fn lemma_scope_gate(scope: Scope, kind: CommandKind)
    requires
        kind.spec_needs_session(),
        !(scope is Session),
    ensures
        authorized(Role::Admin, kind),
        !scope_fits(scope, kind),
{
}

} // verus!
