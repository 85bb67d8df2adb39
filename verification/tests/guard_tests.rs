use solution_cleaner::git::GitService;
use solution_cleaner::git::RestoreAction;
use solution_cleaner::git::SaveAction;

fn b(s: &str) -> Vec<u8> {
    s.as_bytes().to_vec()
}

#[test]
fn unavailable_guard_is_inert() {
    let mut guard = GitService::new(false);
    let status = vec![b(" M src/main.cs")];
    assert!(matches!(guard.save_working_dir(&status), SaveAction::Disabled));
    assert!(guard.stash_name.is_none());
    let listing: Vec<Vec<u8>> = Vec::new();
    assert!(matches!(guard.restore_working_dir(&listing), RestoreAction::Disabled));
}

#[test]
fn clean_tree_takes_no_snapshot_then_hard_resets() {
    let mut guard = GitService::new(true);
    let status: Vec<Vec<u8>> = Vec::new();
    assert!(matches!(guard.save_working_dir(&status), SaveAction::NoChanges));
    assert!(guard.stash_name.is_none());
    let listing: Vec<Vec<u8>> = Vec::new();
    assert!(matches!(guard.restore_working_dir(&listing), RestoreAction::HardReset));
}

#[test]
fn changes_are_stashed_under_a_digit_token() {
    let mut guard = GitService::new(true);
    let status = vec![b(" M a.cs"), b("?? b.cs")];
    let action = guard.save_working_dir(&status);
    let token = match action {
        SaveAction::CreateStash { token } => token,
        _ => panic!("expected a snapshot"),
    };
    assert!(!token.is_empty());
    assert!(token.iter().all(|c| (b'0'..=b'9').contains(c)));
    assert_eq!(guard.stash_name.as_ref(), Some(&token));
}

#[test]
fn restore_pops_the_first_listing_line_with_the_token() {
    let guard = GitService {
        available: true,
        stash_name: Some(b("12345")),
    };
    let listing = vec![
        b("stash@{0}: WIP on main: something else"),
        b("stash@{1}: On main: 12345"),
        b("stash@{2}: On main: 123456"),
    ];
    match guard.restore_working_dir(&listing) {
        RestoreAction::ResetAndPop { index } => assert_eq!(index, 1),
        _ => panic!("expected a pop"),
    }
}

#[test]
fn restore_without_the_token_touches_nothing() {
    let guard = GitService {
        available: true,
        stash_name: Some(b("99999")),
    };
    let listing = vec![b("stash@{0}: WIP on main: other")];
    assert!(matches!(
        guard.restore_working_dir(&listing),
        RestoreAction::StashNotFound
    ));
}

#[test]
fn save_then_restore_round_trip_decisions() {
    // The full decision round trip on one guard: changes stashed, then the
    // snapshot found again by its token.
    let mut guard = GitService::new(true);
    let status = vec![b(" M x.cs")];
    let token = match guard.save_working_dir(&status) {
        SaveAction::CreateStash { token } => token,
        _ => panic!("expected a snapshot"),
    };
    let mut label = b("stash@{0}: On main: ");
    label.extend_from_slice(&token);
    let listing = vec![label];
    match guard.restore_working_dir(&listing) {
        RestoreAction::ResetAndPop { index } => assert_eq!(index, 0),
        _ => panic!("expected a pop"),
    }
}
