//! The artifact cleaner.
//!
//! Two passes over the directory-tree model. The artifact pass walks the
//! tree depth first: a directory named exactly `bin` or `obj` is an artifact
//! root whose whole contents are deleted; a directory named `packages` is
//! never entered; every other directory is recursed into. The cache pass
//! empties a list of well-known cache locations, filtered by a substring
//! pattern set; a non-matching file is still deleted unless it carries the
//! reserved cache-metadata extension, and a non-matching directory is left
//! untouched. Directories that cannot be listed are reported as errors and
//! contribute nothing.

use vstd::prelude::*;

use crate::fs_model::FsNode;
use crate::fs_model::Tree;
use crate::fs_model::abs;
use crate::fs_model::abs_opt;
use crate::fs_model::abs_seq;
use crate::fs_model::count_files;
use crate::fs_model::count_files_seq;
use crate::fs_model::has_dat_ext;
use crate::fs_model::is_artifact;
use crate::fs_model::is_artifact_name;
use crate::fs_model::is_dat;
use crate::fs_model::is_skip;
use crate::fs_model::is_skip_name;
use crate::fs_model::lemma_abs_seq_len;
use crate::fs_model::lemma_weight_seq_elem;
use crate::fs_model::matches_any;
use crate::fs_model::name_matches;
use crate::fs_model::weight;
use crate::fs_model::weight_seq;

verus! {

/// The empty pattern set, which matches every name.
pub open spec fn no_pats() -> Seq<Seq<u8>> {
    Seq::empty()
}

pub open spec fn opt_seq(o: Option<Tree>) -> Seq<Tree> {
    match o {
        Option::Some(t) => seq![t],
        Option::None => Seq::empty(),
    }
}

/// Effect of the delete pass on one entry under a pattern set: the surviving
/// entry if any, the files removed, and the errors reported.
///
/// A matching file, and a non-matching file without the reserved
/// cache-metadata extension, is deleted; a non-matching directory is left
/// untouched; a matching directory is emptied recursively and removed once
/// nothing is left in it. An unreadable matching directory is reported.
pub open spec fn del_entry(t: Tree, pats: Seq<Seq<u8>>) -> (Option<Tree>, nat, nat)
    decreases t,
{
    match t {
        Tree::File { name } => {
            if !name_matches(pats, name) && has_dat_ext(name) {
                (Option::Some(t), 0nat, 0nat)
            } else {
                (Option::None, 1nat, 0nat)
            }
        },
        Tree::Unreadable { name } => {
            if name_matches(pats, name) {
                (Option::Some(t), 0nat, 1nat)
            } else {
                (Option::Some(t), 0nat, 0nat)
            }
        },
        Tree::Dir { name, children } => {
            if !name_matches(pats, name) {
                (Option::Some(t), 0nat, 0nat)
            } else {
                let r = del_children(children, pats);
                if r.0.len() == 0 {
                    (Option::None, r.1, r.2)
                } else {
                    (Option::Some(Tree::Dir { name, children: r.0 }), r.1, r.2)
                }
            }
        },
    }
}

/// The delete pass over a directory's children, in order.
pub open spec fn del_children(cs: Seq<Tree>, pats: Seq<Seq<u8>>) -> (Seq<Tree>, nat, nat)
    decreases cs,
{
    if cs.len() == 0 {
        (Seq::empty(), 0nat, 0nat)
    } else {
        let front = del_children(cs.drop_last(), pats);
        let last = del_entry(cs.last(), pats);
        (front.0 + opt_seq(last.0), front.1 + last.1, front.2 + last.2)
    }
}

/// Effect of the artifact pass on one entry: the surviving entry, the
/// directories removed, the files removed, and the errors reported.
///
/// Files are ignored; a `packages` directory is skipped whole; a `bin` or
/// `obj` directory is emptied (no pattern filter) and removed once empty,
/// counting as one removed directory; any other directory is recursed into.
pub open spec fn clean_entry(t: Tree) -> (Option<Tree>, nat, nat, nat)
    decreases t,
{
    match t {
        Tree::File { .. } => (Option::Some(t), 0nat, 0nat, 0nat),
        Tree::Unreadable { name } => {
            if is_skip_name(name) {
                (Option::Some(t), 0nat, 0nat, 0nat)
            } else {
                (Option::Some(t), 0nat, 0nat, 1nat)
            }
        },
        Tree::Dir { name, children } => {
            if is_skip_name(name) {
                (Option::Some(t), 0nat, 0nat, 0nat)
            } else if is_artifact_name(name) {
                let r = del_children(children, no_pats());
                if r.0.len() == 0 {
                    (Option::None, 1nat, r.1, r.2)
                } else {
                    (Option::Some(Tree::Dir { name, children: r.0 }), 0nat, r.1, r.2)
                }
            } else {
                let r = clean_children(children);
                (Option::Some(Tree::Dir { name, children: r.0 }), r.1, r.2, r.3)
            }
        },
    }
}

/// The artifact pass over a directory's children, in order.
pub open spec fn clean_children(cs: Seq<Tree>) -> (Seq<Tree>, nat, nat, nat)
    decreases cs,
{
    if cs.len() == 0 {
        (Seq::empty(), 0nat, 0nat, 0nat)
    } else {
        let front = clean_children(cs.drop_last());
        let last = clean_entry(cs.last());
        (front.0 + opt_seq(last.0), front.1 + last.1, front.2 + last.2, front.3 + last.3)
    }
}

/// The artifact pass from the root: the root itself is only walked, never
/// tested against the artifact or skip names. A root that is not a readable
/// directory is one reported error.
pub open spec fn clean_root(t: Tree) -> (Tree, nat, nat, nat) {
    match t {
        Tree::Dir { name, children } => {
            let r = clean_children(children);
            (Tree::Dir { name, children: r.0 }, r.1, r.2, r.3)
        },
        _ => (t, 0nat, 0nat, 1nat),
    }
}

/// The cache pass on one location: its contents are deleted under the
/// pattern set (the location's own name is not filtered), and the location
/// itself is removed, counting as one directory, once it is empty. A
/// location that is not a readable directory is one reported error.
pub open spec fn del_location(t: Tree, pats: Seq<Seq<u8>>) -> (Option<Tree>, nat, nat, nat) {
    match t {
        Tree::Dir { name, children } => {
            let r = del_children(children, pats);
            if r.0.len() == 0 {
                (Option::None, 1nat, r.1, r.2)
            } else {
                (Option::Some(Tree::Dir { name, children: r.0 }), 0nat, r.1, r.2)
            }
        },
        _ => (Option::Some(t), 0nat, 0nat, 1nat),
    }
}

/// The cache pass over the whole location list, in order.
pub open spec fn clean_locations(ls: Seq<Tree>, pats: Seq<Seq<u8>>) -> (Seq<Tree>, nat, nat, nat)
    decreases ls,
{
    if ls.len() == 0 {
        (Seq::empty(), 0nat, 0nat, 0nat)
    } else {
        let front = clean_locations(ls.drop_last(), pats);
        let last = del_location(ls.last(), pats);
        (front.0 + opt_seq(last.0), front.1 + last.1, front.2 + last.2, front.3 + last.3)
    }
}

/// Files in a surviving entry, or none where the entry was removed.
pub open spec fn count_files_opt(o: Option<Tree>) -> nat {
    match o {
        Option::Some(t) => count_files(t),
        Option::None => 0nat,
    }
}

/// Appending one entry to a child list adds its files to the total.
proof fn lemma_count_files_seq_push(cs: Seq<Tree>, t: Tree)
    ensures
        count_files_seq(cs.push(t)) == count_files_seq(cs) + count_files(t),
{
    assert(cs.push(t).drop_last() =~= cs);
    assert(cs.push(t).last() == t);
}

/// Every file the delete pass counts is gone from the result, and every
/// file it does not count survives: removed plus surviving files equal the
/// files that were there.
pub proof fn lemma_del_files_conserved(t: Tree, pats: Seq<Seq<u8>>)
    ensures
        count_files_opt(del_entry(t, pats).0) + del_entry(t, pats).1 == count_files(t),
    decreases t,
{
    match t {
        Tree::File { .. } => {},
        Tree::Unreadable { .. } => {},
        Tree::Dir { name, children } => {
            if name_matches(pats, name) {
                lemma_del_files_conserved_children(children, pats);
            }
        },
    }
}

pub proof fn lemma_del_files_conserved_children(cs: Seq<Tree>, pats: Seq<Seq<u8>>)
    ensures
        count_files_seq(del_children(cs, pats).0) + del_children(cs, pats).1
            == count_files_seq(cs),
    decreases cs,
{
    if cs.len() > 0 {
        lemma_del_files_conserved_children(cs.drop_last(), pats);
        lemma_del_files_conserved(cs.last(), pats);
        let front = del_children(cs.drop_last(), pats);
        let last = del_entry(cs.last(), pats);
        match last.0 {
            Option::Some(u) => {
                assert(front.0 + opt_seq(last.0) =~= front.0.push(u));
                lemma_count_files_seq_push(front.0, u);
            },
            Option::None => {
                assert(front.0 + opt_seq(last.0) =~= front.0);
            },
        }
    }
}

/// As `lemma_del_files_conserved`, for the artifact pass.
pub proof fn lemma_clean_files_conserved(t: Tree)
    ensures
        count_files_opt(clean_entry(t).0) + clean_entry(t).2 == count_files(t),
    decreases t,
{
    match t {
        Tree::File { .. } => {},
        Tree::Unreadable { .. } => {},
        Tree::Dir { name, children } => {
            if is_skip_name(name) {
            } else if is_artifact_name(name) {
                lemma_del_files_conserved_children(children, no_pats());
            } else {
                lemma_clean_files_conserved_children(children);
            }
        },
    }
}

pub proof fn lemma_clean_files_conserved_children(cs: Seq<Tree>)
    ensures
        count_files_seq(clean_children(cs).0) + clean_children(cs).2 == count_files_seq(cs),
    decreases cs,
{
    if cs.len() > 0 {
        lemma_clean_files_conserved_children(cs.drop_last());
        lemma_clean_files_conserved(cs.last());
        let front = clean_children(cs.drop_last());
        let last = clean_entry(cs.last());
        match last.0 {
            Option::Some(u) => {
                assert(front.0 + opt_seq(last.0) =~= front.0.push(u));
                lemma_count_files_seq_push(front.0, u);
            },
            Option::None => {
                assert(front.0 + opt_seq(last.0) =~= front.0);
            },
        }
    }
}

/// The `files` count of the artifact pass is exact: the files in the
/// cleaned tree plus the files counted as removed are the files that were
/// in the tree.
pub proof fn lemma_files_count_exact(t: Tree)
    ensures
        count_files(clean_root(t).0) + clean_root(t).2 == count_files(t),
{
    match t {
        Tree::Dir { children, .. } => {
            lemma_clean_files_conserved_children(children);
        },
        _ => {},
    }
}

/// The `files` count of the cache pass is exact as well.
pub proof fn lemma_cache_files_count_exact(ls: Seq<Tree>, pats: Seq<Seq<u8>>)
    ensures
        count_files_seq(clean_locations(ls, pats).0) + clean_locations(ls, pats).2
            == count_files_seq(ls),
    decreases ls,
{
    if ls.len() > 0 {
        lemma_cache_files_count_exact(ls.drop_last(), pats);
        let front = clean_locations(ls.drop_last(), pats);
        let last = del_location(ls.last(), pats);
        match ls.last() {
            Tree::Dir { name, children } => {
                lemma_del_files_conserved_children(children, pats);
            },
            _ => {},
        }
        assert(count_files_opt(last.0) + last.2 == count_files(ls.last()));
        match last.0 {
            Option::Some(u) => {
                assert(front.0 + opt_seq(last.0) =~= front.0.push(u));
                lemma_count_files_seq_push(front.0, u);
            },
            Option::None => {
                assert(front.0 + opt_seq(last.0) =~= front.0);
            },
        }
        lemma_count_files_seq_push(ls.drop_last(), ls.last());
        assert(ls.drop_last().push(ls.last()) =~= ls);
    }
}

/// Artifact roots are matched by exact name only: a directory under any
/// other name (the skipped one aside) is never wholesale-deleted; it stays
/// under its own name and is recursed into.
pub proof fn lemma_exact_name_matching(name: Seq<u8>, children: Seq<Tree>)
    requires
        !is_artifact_name(name),
        !is_skip_name(name),
    ensures
        clean_entry(Tree::Dir { name, children }) == (
            Option::Some(Tree::Dir { name, children: clean_children(children).0 }),
            clean_children(children).1,
            clean_children(children).2,
            clean_children(children).3,
        ),
{
}

/// A packages directory, with exactly these contents, as the artifact pass
/// preserves it.
pub open spec fn is_packages_dir(t: Tree) -> bool {
    match t {
        Tree::Dir { name, .. } => is_skip_name(name),
        _ => false,
    }
}

/// `target` stands somewhere among `cs`, reached by descending only through
/// directories that the artifact pass does not wholesale-delete.
pub open spec fn reachable_outside_artifacts(cs: Seq<Tree>, target: Tree) -> bool
    decreases cs,
{
    cs.len() > 0 && (reach_via(cs.last(), target) || reachable_outside_artifacts(
        cs.drop_last(),
        target,
    ))
}

/// `target` is `t` itself, or stands below `t` outside any artifact root.
pub open spec fn reach_via(t: Tree, target: Tree) -> bool
    decreases t,
{
    ||| t == target
    ||| match t {
        Tree::Dir { name, children } => !is_artifact_name(name) && reachable_outside_artifacts(
            children,
            target,
        ),
        _ => false,
    }
}

/// Reachability survives extending the list on the right.
proof fn lemma_reachable_extend(a: Seq<Tree>, b: Seq<Tree>, target: Tree)
    requires
        reachable_outside_artifacts(a, target),
    ensures
        reachable_outside_artifacts(a + b, target),
    decreases b,
{
    if b.len() == 0 {
        assert(a + b =~= a);
    } else {
        lemma_reachable_extend(a, b.drop_last(), target);
        assert((a + b).drop_last() =~= a + b.drop_last());
        assert((a + b).last() == b.last());
        assert(a + b =~= (a + b.drop_last()).push(b.last()));
    }
}

/// A reachable last element makes the whole list reachable.
proof fn lemma_reachable_last(a: Seq<Tree>, x: Tree, target: Tree)
    requires
        reach_via(x, target),
    ensures
        reachable_outside_artifacts(a + seq![x], target),
{
    assert((a + seq![x]).last() == x);
    assert((a + seq![x]).len() > 0);
}

/// A `packages` directory is never entered and never altered by the
/// artifact pass, at any depth that the pass reaches: it stands in the
/// cleaned tree exactly as it stood, contents included.
pub proof fn lemma_packages_preserved(cs: Seq<Tree>, target: Tree)
    requires
        is_packages_dir(target),
        reachable_outside_artifacts(cs, target),
    ensures
        reachable_outside_artifacts(clean_children(cs).0, target),
    decreases weight_seq(cs),
{
    let front = clean_children(cs.drop_last());
    let last = clean_entry(cs.last());
    let out = clean_children(cs).0;
    lemma_weight_pos(cs.last());
    if reach_via(cs.last(), target) {
        let t = cs.last();
        // A packages directory never carries an artifact name: the two
        // name sets have different lengths.
        assert(forall|n: Seq<u8>| is_skip_name(n) ==> n.len() == 8 && !is_artifact_name(n));
        if t == target {
            // A packages directory itself: the pass keeps it unchanged.
            assert(last.0 == Option::Some(t));
            lemma_reachable_last(front.0, t, target);
        } else {
            match t {
                Tree::Dir { name, children } => {
                    if is_skip_name(name) {
                        // Inside another packages directory, which is kept whole.
                        assert(last.0 == Option::Some(t));
                        lemma_reachable_last(front.0, t, target);
                    } else {
                        lemma_weight_seq_elem(cs, cs.len() - 1);
                        lemma_packages_preserved(children, target);
                        let u = Tree::Dir { name, children: clean_children(children).0 };
                        assert(last.0 == Option::Some(u));
                        assert(reach_via(u, target));
                        lemma_reachable_last(front.0, u, target);
                    }
                },
                _ => {
                    assert(false);
                },
            }
        }
    } else {
        lemma_packages_preserved(cs.drop_last(), target);
        lemma_reachable_extend(front.0, opt_seq(last.0), target);
    }
}

/// What the delete pass does to a file under an active pattern filter: a
/// non-matching file with the reserved cache-metadata extension is
/// preserved; every other file is deleted and counted.
pub proof fn lemma_dat_file_rules(name: Seq<u8>, pats: Seq<Seq<u8>>)
    ensures
        !name_matches(pats, name) && has_dat_ext(name) ==> del_entry(Tree::File { name }, pats)
            == (Option::Some(Tree::File { name }), 0nat, 0nat),
        name_matches(pats, name) || !has_dat_ext(name) ==> del_entry(Tree::File { name }, pats)
            == (Option::<Tree>::None, 1nat, 0nat),
{
}

/// With no pattern filter and no unreadable entry in the way, the delete
/// pass leaves nothing behind.
proof fn lemma_del_entry_all(t: Tree)
    requires
        del_entry(t, no_pats()).2 == 0,
    ensures
        del_entry(t, no_pats()).0 is None,
    decreases t,
{
    match t {
        Tree::File { .. } => {},
        Tree::Unreadable { .. } => {},
        Tree::Dir { name, children } => {
            lemma_del_children_all(children);
        },
    }
}

proof fn lemma_del_children_all(cs: Seq<Tree>)
    requires
        del_children(cs, no_pats()).2 == 0,
    ensures
        del_children(cs, no_pats()).0.len() == 0,
    decreases cs,
{
    if cs.len() > 0 {
        lemma_del_children_all(cs.drop_last());
        lemma_del_entry_all(cs.last());
    }
}

/// One entry of an error-free artifact pass, run through the pass again, is
/// left exactly as it is, with nothing counted.
proof fn lemma_clean_idempotent_entry(t: Tree)
    requires
        clean_entry(t).3 == 0,
    ensures
        match clean_entry(t).0 {
            Option::Some(u) => clean_entry(u) == (Option::Some(u), 0nat, 0nat, 0nat),
            Option::None => true,
        },
    decreases t,
{
    match t {
        Tree::File { .. } => {},
        Tree::Unreadable { .. } => {},
        Tree::Dir { name, children } => {
            if is_skip_name(name) {
            } else if is_artifact_name(name) {
                lemma_del_children_all(children);
            } else {
                lemma_clean_idempotent_children(children);
            }
        },
    }
}

proof fn lemma_clean_idempotent_children(cs: Seq<Tree>)
    requires
        clean_children(cs).3 == 0,
    ensures
        clean_children(clean_children(cs).0) == (clean_children(cs).0, 0nat, 0nat, 0nat),
    decreases cs,
{
    if cs.len() > 0 {
        lemma_clean_idempotent_children(cs.drop_last());
        lemma_clean_idempotent_entry(cs.last());
        let front = clean_children(cs.drop_last());
        let last = clean_entry(cs.last());
        match last.0 {
            Option::Some(u) => {
                assert(front.0 + opt_seq(last.0) =~= front.0.push(u));
                assert(front.0.push(u).drop_last() =~= front.0);
                assert(front.0.push(u).last() == u);
                assert(clean_children(front.0.push(u)).0 =~= front.0.push(u));
            },
            Option::None => {
                assert(front.0 + opt_seq(last.0) =~= front.0);
            },
        }
    }
}

/// One entry of an error-free delete pass, run through the pass again
/// under the same pattern set, is left exactly as it is.
proof fn lemma_del_idempotent_entry(t: Tree, pats: Seq<Seq<u8>>)
    requires
        del_entry(t, pats).2 == 0,
    ensures
        match del_entry(t, pats).0 {
            Option::Some(u) => del_entry(u, pats) == (Option::Some(u), 0nat, 0nat),
            Option::None => true,
        },
    decreases t,
{
    match t {
        Tree::File { .. } => {},
        Tree::Unreadable { .. } => {},
        Tree::Dir { name, children } => {
            if name_matches(pats, name) {
                lemma_del_idempotent_children(children, pats);
            }
        },
    }
}

proof fn lemma_del_idempotent_children(cs: Seq<Tree>, pats: Seq<Seq<u8>>)
    requires
        del_children(cs, pats).2 == 0,
    ensures
        del_children(del_children(cs, pats).0, pats) == (del_children(cs, pats).0, 0nat, 0nat),
    decreases cs,
{
    if cs.len() > 0 {
        lemma_del_idempotent_children(cs.drop_last(), pats);
        lemma_del_idempotent_entry(cs.last(), pats);
        let front = del_children(cs.drop_last(), pats);
        let last = del_entry(cs.last(), pats);
        match last.0 {
            Option::Some(u) => {
                assert(front.0 + opt_seq(last.0) =~= front.0.push(u));
                assert(front.0.push(u).drop_last() =~= front.0);
                assert(front.0.push(u).last() == u);
                assert(del_children(front.0.push(u), pats).0 =~= front.0.push(u));
            },
            Option::None => {
                assert(front.0 + opt_seq(last.0) =~= front.0);
            },
        }
    }
}

/// Idempotence of the cache pass: run again right after an error-free run,
/// over the locations the first run left and under the same pattern set,
/// it removes nothing, counts nothing, and reports nothing.
pub proof fn lemma_cache_pass_idempotent(ls: Seq<Tree>, pats: Seq<Seq<u8>>)
    requires
        clean_locations(ls, pats).3 == 0,
    ensures
        clean_locations(clean_locations(ls, pats).0, pats) == (
            clean_locations(ls, pats).0,
            0nat,
            0nat,
            0nat,
        ),
    decreases ls,
{
    if ls.len() > 0 {
        lemma_cache_pass_idempotent(ls.drop_last(), pats);
        let front = clean_locations(ls.drop_last(), pats);
        let last = del_location(ls.last(), pats);
        match ls.last() {
            Tree::Dir { name, children } => {
                lemma_del_idempotent_children(children, pats);
            },
            _ => {},
        }
        match last.0 {
            Option::Some(u) => {
                assert(front.0 + opt_seq(last.0) =~= front.0.push(u));
                assert(front.0.push(u).drop_last() =~= front.0);
                assert(front.0.push(u).last() == u);
                assert(clean_locations(front.0.push(u), pats).0 =~= front.0.push(u));
            },
            Option::None => {
                assert(front.0 + opt_seq(last.0) =~= front.0);
            },
        }
    }
}

/// Idempotence of the artifact pass: run again right after an error-free
/// run, on the tree the first run left, it removes nothing, counts nothing,
/// and reports nothing.
pub proof fn lemma_cleaner_idempotent(t: Tree)
    requires
        clean_root(t).3 == 0,
    ensures
        clean_root(clean_root(t).0) == (clean_root(t).0, 0nat, 0nat, 0nat),
{
    match t {
        Tree::Dir { name, children } => {
            lemma_clean_idempotent_children(children);
            let out = clean_children(children).0;
            assert(clean_children(out).0 =~= out);
        },
        _ => {},
    }
}


/// The delete pass on one owned entry.
fn del_node(n: FsNode, pats: &Vec<Vec<u8>>) -> (r: (Option<FsNode>, u64, u64))
    requires
        weight(abs(n)) <= u64::MAX,
    ensures
        ({
            let s = del_entry(abs(n), pats.deep_view());
            &&& abs_opt(r.0) == s.0
            &&& r.1 == s.1
            &&& r.2 == s.2
            &&& r.1 + r.2 <= weight(abs(n))
        }),
    decreases weight(abs(n)), 0nat,
{
    match n {
        FsNode::File { name } => {
            if !matches_any(pats, &name) && is_dat(&name) {
                (Some(FsNode::File { name }), 0, 0)
            } else {
                (None, 1, 0)
            }
        },
        FsNode::Unreadable { name } => {
            let m = matches_any(pats, &name);
            let e: u64 = if m {
                1
            } else {
                0
            };
            (Some(FsNode::Unreadable { name }), 0, e)
        },
        FsNode::Dir { name, children } => {
            if !matches_any(pats, &name) {
                (Some(FsNode::Dir { name, children }), 0, 0)
            } else {
                let (out, files, errs) = del_list(children, pats);
                if out.len() == 0 {
                    proof {
                        lemma_abs_seq_len(out@);
                    }
                    (None, files, errs)
                } else {
                    proof {
                        lemma_abs_seq_len(out@);
                    }
                    (Some(FsNode::Dir { name, children: out }), files, errs)
                }
            }
        },
    }
}

/// Every entry weighs at least itself.
pub proof fn lemma_weight_pos(t: Tree)
    ensures
        weight(t) >= 1,
{
    match t {
        Tree::File { .. } => {},
        Tree::Unreadable { .. } => {},
        Tree::Dir { .. } => {},
    }
}

/// The delete pass over an owned list of children.
fn del_list(children: Vec<FsNode>, pats: &Vec<Vec<u8>>) -> (r: (Vec<FsNode>, u64, u64))
    requires
        weight_seq(abs_seq(children@)) <= u64::MAX,
    ensures
        ({
            let s = del_children(abs_seq(children@), pats.deep_view());
            &&& abs_seq(r.0@) == s.0
            &&& r.1 == s.1
            &&& r.2 == s.2
            &&& r.1 + r.2 <= weight_seq(abs_seq(children@))
        }),
    decreases weight_seq(abs_seq(children@)), 1nat,
{
    let ghost cs0 = abs_seq(children@);
    let mut kids = children;
    if kids.len() == 0 {
        let out: Vec<FsNode> = Vec::new();
        proof {
            assert(abs_seq(out@) =~= del_children(cs0, pats.deep_view()).0);
        }
        return (out, 0, 0);
    }
    let c = kids.pop().unwrap();
    proof {
        assert(cs0 == abs_seq(kids@).push(abs(c)));
        assert(cs0.drop_last() =~= abs_seq(kids@));
        assert(cs0.last() == abs(c));
        lemma_weight_pos(abs(c));
    }
    let (mut out, files, errs) = del_list(kids, pats);
    let ghost front_abs = abs_seq(out@);
    let (co, cf, ce) = del_node(c, pats);
    let nfiles = files + cf;
    let nerrs = errs + ce;
    match co {
        Some(cn) => {
            let ghost out0 = out@;
            out.push(cn);
            proof {
                assert(out@.drop_last() =~= out0);
                assert(out@.last() == cn);
                assert(abs_seq(out@) == front_abs.push(abs(cn)));
                assert(front_abs.push(abs(cn)) =~= front_abs + opt_seq(abs_opt(co)));
            }
        },
        None => {
            proof {
                assert(abs_seq(out@) =~= front_abs + opt_seq(abs_opt(co)));
            }
        },
    }
    (out, nfiles, nerrs)
}

/// The artifact pass on one owned entry.
fn clean_node(n: FsNode) -> (r: (Option<FsNode>, u64, u64, u64))
    requires
        weight(abs(n)) <= u64::MAX,
    ensures
        ({
            let s = clean_entry(abs(n));
            &&& abs_opt(r.0) == s.0
            &&& r.1 == s.1
            &&& r.2 == s.2
            &&& r.3 == s.3
            &&& r.1 + r.2 + r.3 <= weight(abs(n))
        }),
    decreases weight(abs(n)), 0nat,
{
    match n {
        FsNode::File { name } => (Some(FsNode::File { name }), 0, 0, 0),
        FsNode::Unreadable { name } => {
            let skip = is_skip(&name);
            let e: u64 = if skip {
                0
            } else {
                1
            };
            (Some(FsNode::Unreadable { name }), 0, 0, e)
        },
        FsNode::Dir { name, children } => {
            if is_skip(&name) {
                (Some(FsNode::Dir { name, children }), 0, 0, 0)
            } else if is_artifact(&name) {
                let none_pats: Vec<Vec<u8>> = Vec::new();
                proof {
                    assert(none_pats.deep_view() =~= no_pats());
                }
                let (out, files, errs) = del_list(children, &none_pats);
                proof {
                    lemma_abs_seq_len(out@);
                }
                if out.len() == 0 {
                    (None, 1, files, errs)
                } else {
                    (Some(FsNode::Dir { name, children: out }), 0, files, errs)
                }
            } else {
                let (out, dirs, files, errs) = clean_list(children);
                proof {
                    lemma_abs_seq_len(out@);
                }
                (Some(FsNode::Dir { name, children: out }), dirs, files, errs)
            }
        },
    }
}

/// The artifact pass over an owned list of children.
fn clean_list(children: Vec<FsNode>) -> (r: (Vec<FsNode>, u64, u64, u64))
    requires
        weight_seq(abs_seq(children@)) <= u64::MAX,
    ensures
        ({
            let s = clean_children(abs_seq(children@));
            &&& abs_seq(r.0@) == s.0
            &&& r.1 == s.1
            &&& r.2 == s.2
            &&& r.3 == s.3
            &&& r.1 + r.2 + r.3 <= weight_seq(abs_seq(children@))
        }),
    decreases weight_seq(abs_seq(children@)), 1nat,
{
    let ghost cs0 = abs_seq(children@);
    let mut kids = children;
    if kids.len() == 0 {
        let out: Vec<FsNode> = Vec::new();
        proof {
            assert(abs_seq(out@) =~= clean_children(cs0).0);
        }
        return (out, 0, 0, 0);
    }
    let c = kids.pop().unwrap();
    proof {
        assert(cs0 == abs_seq(kids@).push(abs(c)));
        assert(cs0.drop_last() =~= abs_seq(kids@));
        assert(cs0.last() == abs(c));
        lemma_weight_pos(abs(c));
    }
    let (mut out, dirs, files, errs) = clean_list(kids);
    let ghost front_abs = abs_seq(out@);
    let (co, cd, cf, ce) = clean_node(c);
    let ndirs = dirs + cd;
    let nfiles = files + cf;
    let nerrs = errs + ce;
    match co {
        Some(cn) => {
            let ghost out0 = out@;
            out.push(cn);
            proof {
                assert(out@.drop_last() =~= out0);
                assert(out@.last() == cn);
                assert(abs_seq(out@) == front_abs.push(abs(cn)));
                assert(front_abs.push(abs(cn)) =~= front_abs + opt_seq(abs_opt(co)));
            }
        },
        None => {
            proof {
                assert(abs_seq(out@) =~= front_abs + opt_seq(abs_opt(co)));
            }
        },
    }
    (out, ndirs, nfiles, nerrs)
}

/// The artifact pass from an owned root.
///
/// The root's own name is never tested: only descendants can be artifact
/// roots or skipped. The result is the cleaned tree, the directories
/// removed, the files removed, and the errors reported.
pub fn clean_tree(root: FsNode) -> (r: (FsNode, u64, u64, u64))
    requires
        weight(abs(root)) <= u64::MAX,
    ensures
        ({
            let s = clean_root(abs(root));
            &&& abs(r.0) == s.0
            &&& r.1 == s.1
            &&& r.2 == s.2
            &&& r.3 == s.3
            &&& r.1 + r.2 + r.3 <= weight(abs(root))
        }),
{
    match root {
        FsNode::Dir { name, children } => {
            let (out, dirs, files, errs) = clean_list(children);
            proof {
                lemma_abs_seq_len(out@);
            }
            (FsNode::Dir { name, children: out }, dirs, files, errs)
        },
        FsNode::File { name } => (FsNode::File { name }, 0, 0, 1),
        FsNode::Unreadable { name } => (FsNode::Unreadable { name }, 0, 0, 1),
    }
}

/// The cache pass on one owned location.
///
/// The location's contents are deleted under the pattern set; the location
/// itself is removed, counting as one directory, once it is empty. A
/// location that is not a readable directory is one reported error.
pub fn clean_location(loc: FsNode, patterns: &Vec<Vec<u8>>) -> (r: (Option<FsNode>, u64, u64, u64))
    requires
        weight(abs(loc)) <= u64::MAX,
    ensures
        ({
            let s = del_location(abs(loc), patterns.deep_view());
            &&& abs_opt(r.0) == s.0
            &&& r.1 == s.1
            &&& r.2 == s.2
            &&& r.3 == s.3
            &&& r.1 + r.2 + r.3 <= weight(abs(loc))
        }),
{
    match loc {
        FsNode::Dir { name, children } => {
            let (out, files, errs) = del_list(children, patterns);
            proof {
                lemma_abs_seq_len(out@);
            }
            if out.len() == 0 {
                (None, 1, files, errs)
            } else {
                (Some(FsNode::Dir { name, children: out }), 0, files, errs)
            }
        },
        FsNode::File { name } => (Some(FsNode::File { name }), 0, 0, 1),
        FsNode::Unreadable { name } => (Some(FsNode::Unreadable { name }), 0, 0, 1),
    }
}

/// The cache pass over an owned list of locations, in order.
pub fn clean_location_list(locations: Vec<FsNode>, patterns: &Vec<Vec<u8>>) -> (r: (
    Vec<FsNode>,
    u64,
    u64,
    u64,
))
    requires
        weight_seq(abs_seq(locations@)) <= u64::MAX,
    ensures
        ({
            let s = clean_locations(abs_seq(locations@), patterns.deep_view());
            &&& abs_seq(r.0@) == s.0
            &&& r.1 == s.1
            &&& r.2 == s.2
            &&& r.3 == s.3
            &&& r.1 + r.2 + r.3 <= weight_seq(abs_seq(locations@))
        }),
    decreases locations@.len(),
{
    let ghost ls0 = abs_seq(locations@);
    let mut locs = locations;
    if locs.len() == 0 {
        let out: Vec<FsNode> = Vec::new();
        proof {
            assert(abs_seq(out@) =~= clean_locations(ls0, patterns.deep_view()).0);
        }
        return (out, 0, 0, 0);
    }
    let c = locs.pop().unwrap();
    proof {
        assert(ls0 == abs_seq(locs@).push(abs(c)));
        assert(ls0.drop_last() =~= abs_seq(locs@));
        assert(ls0.last() == abs(c));
        lemma_weight_pos(abs(c));
    }
    let (mut out, dirs, files, errs) = clean_location_list(locs, patterns);
    let ghost front_abs = abs_seq(out@);
    let (co, cd, cf, ce) = clean_location(c, patterns);
    let ndirs = dirs + cd;
    let nfiles = files + cf;
    let nerrs = errs + ce;
    match co {
        Some(cn) => {
            let ghost out0 = out@;
            out.push(cn);
            proof {
                assert(out@.drop_last() =~= out0);
                assert(out@.last() == cn);
                assert(abs_seq(out@) == front_abs.push(abs(cn)));
                assert(front_abs.push(abs(cn)) =~= front_abs + opt_seq(abs_opt(co)));
            }
        },
        None => {
            proof {
                assert(abs_seq(out@) =~= front_abs + opt_seq(abs_opt(co)));
            }
        },
    }
    (out, ndirs, nfiles, nerrs)
}

/// Aggregate counts of one run: directories and files removed.
#[derive(Clone, Copy, Debug, PartialEq, Eq, Structural)]
pub struct CleanerResult {
    pub directories: u64,
    pub files: u64,
}

/// Everything a finished run hands back: the cleaned root, the surviving
/// cache locations, the aggregate counts, and how many per-entry errors
/// were reported along the way.
pub struct CleanOutcome {
    pub root: FsNode,
    pub locations: Vec<FsNode>,
    pub result: CleanerResult,
    pub errors: u64,
}

/// The artifact cleaner: holds the optional cache pattern set and the
/// counts of the last run.
pub struct Cleaner {
    pub nuget_patterns: Option<Vec<Vec<u8>>>,
    pub result: CleanerResult,
}

impl Cleaner {
    /// A fresh cleaner; the cache pass runs only when a pattern set is
    /// given (an empty set matches every cache entry).
    pub fn new(nuget_patterns: Option<Vec<Vec<u8>>>) -> (c: Self)
        ensures
            c.nuget_patterns == nuget_patterns,
            c.result == (CleanerResult { directories: 0, files: 0 }),
    {
        Cleaner { nuget_patterns, result: CleanerResult { directories: 0, files: 0 } }
    }

    /// The counts of the last `clean` run.
    pub fn result(&self) -> (r: CleanerResult)
        ensures
            r == self.result,
    {
        self.result
    }

    /// Run the artifact pass from `root`, then, when a pattern set was
    /// given, the cache pass over `cache_locations`.
    pub fn clean(&mut self, root: FsNode, cache_locations: Vec<FsNode>) -> (r: CleanOutcome)
        requires
            weight(abs(root)) + weight_seq(abs_seq(cache_locations@)) <= u64::MAX,
        ensures
            ({
                let cr = clean_root(abs(root));
                &&& final(self).nuget_patterns == old(self).nuget_patterns
                &&& final(self).result == r.result
                &&& abs(r.root) == cr.0
                &&& match old(self).nuget_patterns {
                    Option::None => {
                        &&& abs_seq(r.locations@) == abs_seq(cache_locations@)
                        &&& r.result.directories == cr.1
                        &&& r.result.files == cr.2
                        &&& r.errors == cr.3
                    },
                    Option::Some(p) => {
                        let cl = clean_locations(abs_seq(cache_locations@), p.deep_view());
                        &&& abs_seq(r.locations@) == cl.0
                        &&& r.result.directories == cr.1 + cl.1
                        &&& r.result.files == cr.2 + cl.2
                        &&& r.errors == cr.3 + cl.3
                    },
                }
            }),
    {
        let (croot, dirs, files, errs) = clean_tree(root);
        let outcome = match &self.nuget_patterns {
            Some(p) => {
                let (locs, ld, lf, le) = clean_location_list(cache_locations, p);
                CleanOutcome {
                    root: croot,
                    locations: locs,
                    result: CleanerResult { directories: dirs + ld, files: files + lf },
                    errors: errs + le,
                }
            },
            None => {
                CleanOutcome {
                    root: croot,
                    locations: cache_locations,
                    result: CleanerResult { directories: dirs, files: files },
                    errors: errs,
                }
            },
        };
        self.result = outcome.result;
        outcome
    }
}


/// What the artifact pass does with one directory entry it has just listed.
pub enum WalkAction {
    /// Not a directory: this pass ignores it.
    Ignore,
    /// The skipped directory name: never entered, never altered.
    Skip,
    /// An artifact root: delete everything beneath it, then remove it.
    DeleteArtifact,
    /// Any other directory: walk into it.
    Recurse,
}

/// The artifact pass's decision for one listed entry, by name and kind.
pub fn classify_walk(name: &Vec<u8>, entry_is_dir: bool) -> (a: WalkAction)
    ensures
        !entry_is_dir ==> a is Ignore,
        entry_is_dir && is_skip_name(name@) ==> a is Skip,
        entry_is_dir && !is_skip_name(name@) && is_artifact_name(name@) ==> a is DeleteArtifact,
        entry_is_dir && !is_skip_name(name@) && !is_artifact_name(name@) ==> a is Recurse,
{
    if !entry_is_dir {
        WalkAction::Ignore
    } else if is_skip(name) {
        WalkAction::Skip
    } else if is_artifact(name) {
        WalkAction::DeleteArtifact
    } else {
        WalkAction::Recurse
    }
}

/// What the delete pass does with one directory entry it has just listed.
pub enum PurgeAction {
    /// A non-matching directory: left untouched, contents and all.
    KeepDir,
    /// A matching directory: empty it recursively, then try to remove it.
    PurgeDir,
    /// A non-matching file with the reserved cache-metadata extension: kept.
    KeepFile,
    /// Any other file: deleted and counted.
    DeleteFile,
}

/// The delete pass's decision for one listed entry, by name, kind and
/// pattern set.
pub fn classify_purge(name: &Vec<u8>, entry_is_dir: bool, patterns: &Vec<Vec<u8>>) -> (a:
    PurgeAction)
    ensures
        ({
            let m = name_matches(patterns.deep_view(), name@);
            &&& entry_is_dir && !m ==> a is KeepDir
            &&& entry_is_dir && m ==> a is PurgeDir
            &&& !entry_is_dir && !m && has_dat_ext(name@) ==> a is KeepFile
            &&& !entry_is_dir && !(!m && has_dat_ext(name@)) ==> a is DeleteFile
        }),
{
    let m = matches_any(patterns, name);
    if entry_is_dir {
        if m {
            PurgeAction::PurgeDir
        } else {
            PurgeAction::KeepDir
        }
    } else {
        if !m && is_dat(name) {
            PurgeAction::KeepFile
        } else {
            PurgeAction::DeleteFile
        }
    }
}


} // verus!
