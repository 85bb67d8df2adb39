//! The source-control guard.
//!
//! The guard shelves uncommitted working-tree changes before a cleaning run
//! and restores them afterwards. It is a state machine over plain values:
//! construction records whether the source-control tool was found; `save`
//! decides, from the status listing, whether a snapshot is needed and coins
//! a fresh random token for its label; `restore` decides, from the snapshot
//! listing, whether to pop the recorded snapshot (found again by its
//! token), hard-reset, or leave the tree alone. The shell that actually
//! spawns the tool performs the returned action.

use vstd::prelude::*;

use crate::bytes::bytes_contains;
use crate::bytes::contains_bytes;
use crate::bytes::dec_digits;
use crate::bytes::lemma_dec_digits_are_digits;
use crate::bytes::u32_decimal;

verus! {

/// Relies on rand::random: draws a value of the requested type from the
/// thread-local generator. Nothing is promised of the result.
pub assume_specification<T>[ rand::random::<T> ]() -> (r: T)
    where
        rand::distributions::Standard: rand::distributions::Distribution<T>,
;

/// A fresh snapshot token: the decimal rendering of a random 32-bit value.
/// Whatever was drawn, the token is a nonempty string of digit bytes.
fn fresh_token() -> (t: Vec<u8>)
    ensures
        t@.len() >= 1,
        forall|k: int| 0 <= k < t@.len() ==> 48 <= #[trigger] t@[k] <= 57,
{
    let n: u32 = rand::random::<u32>();
    let t = u32_decimal(n);
    proof {
        lemma_dec_digits_are_digits(n as nat);
    }
    t
}

/// What the shell must do after `save_working_dir` has decided.
pub enum SaveAction {
    /// The tool was never found: do nothing.
    Disabled,
    /// The working tree is clean: no snapshot is taken.
    NoChanges,
    /// Create a snapshot labelled with this token.
    CreateStash { token: Vec<u8> },
}

/// What the shell must do after `restore_working_dir` has decided.
pub enum RestoreAction {
    /// The tool was never found: do nothing.
    Disabled,
    /// No snapshot was taken this run: discard uncommitted changes.
    HardReset,
    /// The recorded snapshot is not in the listing: touch nothing.
    StashNotFound,
    /// Hard-reset, then pop the snapshot at this position of the listing.
    ResetAndPop { index: usize },
}

/// The guard: whether the source-control tool was found, and the token of
/// the one outstanding snapshot, if any.
pub struct GitService {
    pub available: bool,
    pub stash_name: Option<Vec<u8>>,
}

impl GitService {
    /// A fresh guard. `available` reports whether probing the tool for its
    /// version succeeded; once false, every operation is a no-op.
    pub fn new(available: bool) -> (s: Self)
        ensures
            s.available == available,
            s.stash_name is None,
    {
        GitService { available, stash_name: None }
    }

    /// Decide what to do before cleaning, given the lines of the status
    /// listing (one changed path per line). With changes present, a
    /// snapshot under a fresh digit token is requested and recorded.
    pub fn save_working_dir(&mut self, status_lines: &Vec<Vec<u8>>) -> (a: SaveAction)
        requires
            old(self).stash_name is None,
        ensures
            final(self).available == old(self).available,
            !old(self).available ==> a is Disabled && final(self).stash_name is None,
            old(self).available && status_lines@.len() == 0 ==> a is NoChanges
                && final(self).stash_name is None,
            old(self).available && status_lines@.len() > 0 ==> match a {
                SaveAction::CreateStash { token } => {
                    &&& final(self).stash_name is Some
                    &&& final(self).stash_name->0@ == token@
                    &&& token@.len() >= 1
                    &&& forall|k: int| 0 <= k < token@.len() ==> 48 <= #[trigger] token@[k] <= 57
                },
                _ => false,
            },
    {
        if !self.available {
            return SaveAction::Disabled;
        }
        if status_lines.len() == 0 {
            return SaveAction::NoChanges;
        }
        let token = fresh_token();
        let mut copy: Vec<u8> = Vec::new();
        let mut k: usize = 0;
        while k < token.len()
            invariant
                0 <= k <= token@.len(),
                copy@ == token@.take(k as int),
            decreases token@.len() - k,
        {
            copy.push(token[k]);
            proof {
                assert(copy@ =~= token@.take(k + 1));
            }
            k += 1;
        }
        proof {
            assert(token@.take(token@.len() as int) =~= token@);
        }
        self.stash_name = Some(copy);
        SaveAction::CreateStash { token }
    }

    /// Decide what to do after cleaning, given the lines of the snapshot
    /// listing. With a recorded token, the snapshot popped is the first
    /// line that contains the token; if no line does, the tree is left
    /// untouched rather than guessed at.
    pub fn restore_working_dir(&self, stash_lines: &Vec<Vec<u8>>) -> (a: RestoreAction)
        ensures
            !self.available ==> a is Disabled,
            self.available && self.stash_name is None ==> a is HardReset,
            self.available && self.stash_name is Some ==> {
                let tok = self.stash_name->0@;
                match a {
                    RestoreAction::ResetAndPop { index } => {
                        &&& index < stash_lines@.len()
                        &&& contains_bytes(stash_lines.deep_view()[index as int], tok)
                        &&& forall|j: int|
                            0 <= j < index ==> !contains_bytes(
                                #[trigger] stash_lines.deep_view()[j],
                                tok,
                            )
                    },
                    RestoreAction::StashNotFound => forall|j: int|
                        0 <= j < stash_lines@.len() ==> !contains_bytes(
                            #[trigger] stash_lines.deep_view()[j],
                            tok,
                        ),
                    _ => false,
                }
            },
    {
        if !self.available {
            return RestoreAction::Disabled;
        }
        let token = match &self.stash_name {
            None => {
                return RestoreAction::HardReset;
            },
            Some(t) => t,
        };
        let mut j: usize = 0;
        while j < stash_lines.len()
            invariant
                0 <= j <= stash_lines@.len(),
                self.available,
                self.stash_name is Some,
                token == self.stash_name->0,
                forall|k: int|
                    0 <= k < j ==> !contains_bytes(
                        #[trigger] stash_lines.deep_view()[k],
                        token@,
                    ),
            decreases stash_lines@.len() - j,
    {
            proof {
                assert(stash_lines.deep_view()[j as int] == stash_lines@[j as int].deep_view());
                assert(stash_lines@[j as int].deep_view() =~= stash_lines@[j as int]@);
            }
            if bytes_contains(&stash_lines[j], token) {
                return RestoreAction::ResetAndPop { index: j };
            }
            j += 1;
        }
        RestoreAction::StashNotFound
    }
}

/// A mathematical model of the repository the guard drives: the committed
/// state, the working tree, and the stack of snapshots, each a label with
/// the working tree it saved. Tree states are byte snapshots, so equality
/// is byte-identity.
pub ghost struct RepoModel {
    pub committed: Seq<u8>,
    pub working: Seq<u8>,
    pub stashes: Seq<StashModel>,
}

pub ghost struct StashModel {
    pub label: Seq<u8>,
    pub content: Seq<u8>,
}

/// Creating a snapshot sets the uncommitted changes aside under the label
/// and returns the working tree to the committed state.
pub open spec fn apply_create_stash(r: RepoModel, label: Seq<u8>) -> RepoModel {
    RepoModel {
        committed: r.committed,
        working: r.committed,
        stashes: r.stashes.push(StashModel { label, content: r.working }),
    }
}

/// A hard reset discards uncommitted changes.
pub open spec fn apply_hard_reset(r: RepoModel) -> RepoModel {
    RepoModel { committed: r.committed, working: r.committed, stashes: r.stashes }
}

/// Popping snapshot `i` onto a clean working tree brings its saved state
/// back and consumes it.
pub open spec fn apply_pop(r: RepoModel, i: int) -> RepoModel {
    RepoModel {
        committed: r.committed,
        working: r.stashes[i].content,
        stashes: r.stashes.remove(i),
    }
}

/// Guard round trip: a save that stashed the working tree, followed at once
/// by a restore, yields a working tree byte-identical to the pre-save
/// state. The snapshot listing shows one line per snapshot in order, and
/// the fresh token occurs exactly in the line of the snapshot the save
/// created, so the restore's first-match search finds that very snapshot,
/// and popping it after the hard reset restores the saved bytes.
pub proof fn lemma_guard_round_trip(
    repo: RepoModel,
    label: Seq<u8>,
    lines: Seq<Seq<u8>>,
    token: Seq<u8>,
)
    requires
        lines.len() == repo.stashes.len() + 1,
        forall|i: int|
            0 <= i < lines.len() ==> (contains_bytes(#[trigger] lines[i], token) <==> i
                == repo.stashes.len()),
    ensures
        ({
            let saved = apply_create_stash(repo, label);
            let idx = repo.stashes.len() as int;
            &&& 0 <= idx < saved.stashes.len()
            &&& contains_bytes(lines[idx], token)
            &&& forall|j: int| 0 <= j < idx ==> !contains_bytes(#[trigger] lines[j], token)
            &&& apply_pop(apply_hard_reset(saved), idx).working == repo.working
        }),
{
    let saved = apply_create_stash(repo, label);
    let idx = repo.stashes.len() as int;
    assert(saved.stashes[idx].content == repo.working);
}

/// Guard with zero changes: on a clean working tree no snapshot is taken,
/// and the restore's hard reset is a no-op, leaving the repository exactly
/// as it stands.
pub proof fn lemma_guard_clean_tree(repo: RepoModel)
    requires
        repo.working == repo.committed,
    ensures
        apply_hard_reset(repo) == repo,
{
}

} // verus!
