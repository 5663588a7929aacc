use neurotoken::{
    BackendError, Command, CommandKind, NeuromorphicBackend, Role, Scope, SessionStatus,
};
use uuid::Uuid;

fn cmd(role: Role, scope: Scope, kind: CommandKind) -> Command {
    Command::new(Uuid::from_u128(7), role, scope, kind)
}

fn session(id: &str) -> Scope {
    Scope::Session { id: id.to_string() }
}

#[test]
fn admin_gate_on_cache_purge() {
    let mut b = NeuromorphicBackend::new();
    let r = b.handle(cmd(Role::Operator, Scope::Cluster, CommandKind::NeuralCachePurge));
    assert!(matches!(r, Err(BackendError::PermissionDenied(Role::Operator))));
    assert!(!b.cache_cleared());
    let r = b.handle(cmd(Role::Admin, Scope::Cluster, CommandKind::NeuralCachePurge)).unwrap();
    assert!(r.ok);
    assert_eq!(r.message, "neural cache purged");
    assert_eq!(r.command_id, Uuid::from_u128(7));
    assert!(b.cache_cleared());
}

#[test]
fn scope_gate_on_session_archive() {
    let mut b = NeuromorphicBackend::new();
    let r = b.handle(cmd(Role::Admin, Scope::Cluster, CommandKind::SessionArchive));
    assert!(matches!(r, Err(BackendError::InvalidScope)));
    assert_eq!(b.session_status(&"s1".to_string()), None);
    let r = b.handle(cmd(Role::Admin, session("s1"), CommandKind::SessionArchive)).unwrap();
    assert!(r.ok);
    assert_eq!(r.message, "session s1 archived");
    assert_eq!(b.session_status(&"s1".to_string()), Some(SessionStatus::Archived));
    assert_eq!(SessionStatus::Archived.label(), "archived");
}

#[test]
fn role_checked_before_scope() {
    let mut b = NeuromorphicBackend::new();
    let r = b.handle(cmd(Role::Guest, Scope::Codex, CommandKind::SessionSnapshot));
    assert!(matches!(r, Err(BackendError::PermissionDenied(Role::Guest))));
    for kind in [CommandKind::SessionArchive, CommandKind::SessionSnapshot, CommandKind::SessionRecover] {
        let r = b.handle(cmd(Role::Admin, Scope::Node { name: "n".to_string() }, kind));
        assert!(matches!(r, Err(BackendError::InvalidScope)));
    }
}

#[test]
fn every_admin_kind_denied_to_others() {
    let kinds = [
        CommandKind::NeuralCachePurge,
        CommandKind::SessionArchive,
        CommandKind::SessionSnapshot,
        CommandKind::SessionRecover,
    ];
    for role in [Role::Guest, Role::Operator] {
        for kind in kinds {
            let mut b = NeuromorphicBackend::new();
            let r = b.handle(cmd(role, session("s"), kind));
            assert!(matches!(r, Err(BackendError::PermissionDenied(x)) if x == role));
            assert!(!b.cache_cleared());
            assert_eq!(b.session_status(&"s".to_string()), None);
        }
    }
}

#[test]
fn snapshot_and_recover_messages() {
    let mut b = NeuromorphicBackend::new();
    let r = b.handle(cmd(Role::Admin, session("s2"), CommandKind::SessionRecover)).unwrap();
    assert_eq!(r.message, "session s2 not found; nothing to recover");
    let r = b.handle(cmd(Role::Admin, session("s2"), CommandKind::SessionSnapshot)).unwrap();
    assert_eq!(r.message, "session s2 snapshot taken");
    assert_eq!(b.session_status(&"s2".to_string()), Some(SessionStatus::Snapshot));
    let r = b.handle(cmd(Role::Admin, session("s2"), CommandKind::SessionArchive)).unwrap();
    assert_eq!(r.message, "session s2 archived");
    assert_eq!(b.session_status(&"s2".to_string()), Some(SessionStatus::Archived));
    let r = b.handle(cmd(Role::Admin, session("s2"), CommandKind::SessionRecover)).unwrap();
    assert_eq!(r.message, "session s2 recovered");
    assert_eq!(SessionStatus::Snapshot.label(), "snapshot");
}

#[test]
fn context_expand_message_and_overflow() {
    let mut b = NeuromorphicBackend::new();
    assert_eq!(b.context_size(), 1024);
    let r = b.handle(cmd(Role::Guest, Scope::Cluster, CommandKind::ContextExpand { amount: 976 }))
        .unwrap();
    assert_eq!(r.message, "context expanded by 976, new size 2000");
    assert_eq!(b.context_size(), 2000);
    let r = b.handle(cmd(
        Role::Guest,
        Scope::Cluster,
        CommandKind::ContextExpand { amount: usize::MAX },
    ));
    assert!(matches!(r, Err(BackendError::General(_))));
    assert_eq!(b.context_size(), 2000);
}

#[test]
fn informational_kinds_and_codex() {
    let mut b = NeuromorphicBackend::new();
    assert!(b.codex_valid());
    let cases = [
        (CommandKind::CodexValidate, "codex validated"),
        (CommandKind::CodexCompress, "codex compressed (logical operation)"),
        (CommandKind::NodeRebalance, "node workloads rebalanced (simulated)"),
        (CommandKind::QueryTrace, "query trace recorded (simulated)"),
        (CommandKind::QueryOptimize, "query execution paths optimized (simulated)"),
    ];
    for (kind, msg) in cases {
        let r = b.handle(cmd(Role::Guest, Scope::Codex, kind)).unwrap();
        assert!(r.ok);
        assert_eq!(r.message, msg);
    }
    assert!(b.codex_valid());
    assert!(!b.cache_cleared());
    assert_eq!(b.context_size(), 1024);
}

#[test]
fn role_order() {
    assert!(Role::Guest < Role::Operator && Role::Operator < Role::Admin);
    assert_eq!(Role::Guest.level(), 0);
    assert_eq!(Role::Admin.level(), 2);
    assert!(Role::Admin.at_least(Role::Operator));
    assert!(!Role::Guest.at_least(Role::Operator));
    assert!(Role::Admin.can_execute_admin_ops());
    assert!(!Role::Operator.can_execute_admin_ops());
    assert_eq!(CommandKind::SessionArchive.required_role(), Role::Admin);
    assert_eq!(CommandKind::QueryTrace.required_role(), Role::Guest);
    assert!(CommandKind::SessionRecover.needs_session());
    assert!(!CommandKind::CodexValidate.needs_session());
}

#[test]
fn purge_and_validate_twice() {
    let mut b = NeuromorphicBackend::new();
    for _ in 0..2 {
        b.handle(cmd(Role::Admin, Scope::Codex, CommandKind::NeuralCachePurge)).unwrap();
        assert!(b.cache_cleared());
        b.handle(cmd(Role::Operator, Scope::Codex, CommandKind::CodexValidate)).unwrap();
        assert!(b.codex_valid());
    }
}
