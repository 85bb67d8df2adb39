//! An in-memory model of a directory tree.
//!
//! The cleaning algorithm is specified and verified over this model. `Tree`
//! is the mathematical shape of a filesystem entry; `FsNode` is its
//! executable counterpart, which the I/O shell fills from a real directory
//! walk. A directory whose contents could not be listed is modelled as
//! `Unreadable`: the cleaner reports it and leaves it alone.

use vstd::prelude::*;

verus! {

/// The mathematical shape of a filesystem entry.
pub enum Tree {
    File { name: Seq<u8> },
    Dir { name: Seq<u8>, children: Seq<Tree> },
    Unreadable { name: Seq<u8> },
}

/// An executable filesystem entry, as snapshotted from a directory walk.
pub enum FsNode {
    File { name: Vec<u8> },
    Dir { name: Vec<u8>, children: Vec<FsNode> },
    Unreadable { name: Vec<u8> },
}

/// The model of an executable node.
pub open spec fn abs(n: FsNode) -> Tree
    decreases n,
{
    match n {
        FsNode::File { name } => Tree::File { name: name@ },
        FsNode::Dir { name, children } => Tree::Dir { name: name@, children: abs_seq(children@) },
        FsNode::Unreadable { name } => Tree::Unreadable { name: name@ },
    }
}

/// The models of a sequence of executable nodes, in order.
pub open spec fn abs_seq(cs: Seq<FsNode>) -> Seq<Tree>
    decreases cs,
{
    if cs.len() == 0 {
        Seq::empty()
    } else {
        abs_seq(cs.drop_last()).push(abs(cs.last()))
    }
}

pub open spec fn abs_opt(o: Option<FsNode>) -> Option<Tree> {
    match o {
        Option::Some(n) => Option::Some(abs(n)),
        Option::None => Option::None,
    }
}

pub proof fn lemma_abs_seq_len(cs: Seq<FsNode>)
    ensures
        abs_seq(cs).len() == cs.len(),
        forall|i: int| 0 <= i < cs.len() ==> abs_seq(cs)[i] == abs(cs[i]),
    decreases cs,
{
    if cs.len() > 0 {
        lemma_abs_seq_len(cs.drop_last());
        assert forall|i: int| 0 <= i < cs.len() implies abs_seq(cs)[i] == abs(cs[i]) by {
            if i < cs.len() - 1 {
                assert(abs_seq(cs.drop_last())[i] == abs(cs.drop_last()[i]));
            }
        }
    }
}

/// The number of entries in a subtree, the node itself included.
pub open spec fn weight(t: Tree) -> nat
    decreases t,
{
    match t {
        Tree::File { .. } => 1,
        Tree::Unreadable { .. } => 1,
        Tree::Dir { children, .. } => 1 + weight_seq(children),
    }
}

pub open spec fn weight_seq(cs: Seq<Tree>) -> nat
    decreases cs,
{
    if cs.len() == 0 {
        0
    } else {
        weight_seq(cs.drop_last()) + weight(cs.last())
    }
}

pub proof fn lemma_weight_seq_elem(cs: Seq<Tree>, i: int)
    requires
        0 <= i < cs.len(),
    ensures
        weight(cs[i]) <= weight_seq(cs),
    decreases cs,
{
    if i < cs.len() - 1 {
        lemma_weight_seq_elem(cs.drop_last(), i);
    }
}

/// The number of files in a subtree.
pub open spec fn count_files(t: Tree) -> nat
    decreases t,
{
    match t {
        Tree::File { .. } => 1,
        Tree::Unreadable { .. } => 0,
        Tree::Dir { children, .. } => count_files_seq(children),
    }
}

pub open spec fn count_files_seq(cs: Seq<Tree>) -> nat
    decreases cs,
{
    if cs.len() == 0 {
        0
    } else {
        count_files_seq(cs.drop_last()) + count_files(cs.last())
    }
}

/// The name of an artifact root: exactly `bin` or `obj`, nothing else.
pub open spec fn is_artifact_name(name: Seq<u8>) -> bool {
    ||| name =~= seq![98u8, 105u8, 110u8]  // "bin"
    ||| name =~= seq![111u8, 98u8, 106u8]  // "obj"
}

/// The name of the directory the artifact pass never enters: `packages`.
pub open spec fn is_skip_name(name: Seq<u8>) -> bool {
    name =~= seq![112u8, 97u8, 99u8, 107u8, 97u8, 103u8, 101u8, 115u8]  // "packages"
}

/// The reserved cache-metadata extension: the name ends in `.dat` and the
/// dot is not the first byte, as `Path::extension` sees it.
pub open spec fn has_dat_ext(name: Seq<u8>) -> bool {
    &&& name.len() >= 5
    &&& name[name.len() - 4] == 46u8  // '.'
    &&& name[name.len() - 3] == 100u8  // 'd'
    &&& name[name.len() - 2] == 97u8  // 'a'
    &&& name[name.len() - 1] == 116u8  // 't'
}

/// A name matches the pattern set when the set is empty or some pattern
/// occurs in the name as a substring, case-sensitively.
pub open spec fn name_matches(pats: Seq<Seq<u8>>, name: Seq<u8>) -> bool {
    ||| pats.len() == 0
    ||| exists|j: int| 0 <= j < pats.len() && crate::bytes::contains_bytes(name, pats[j])
}

/// Exact-segment test for an artifact root name.
pub fn is_artifact(name: &Vec<u8>) -> (r: bool)
    ensures
        r == is_artifact_name(name@),
{
    if name.len() != 3 {
        return false;
    }
    (name[0] == 98 && name[1] == 105 && name[2] == 110) || (name[0] == 111 && name[1] == 98
        && name[2] == 106)
}

/// Exact-segment test for the skipped directory name.
pub fn is_skip(name: &Vec<u8>) -> (r: bool)
    ensures
        r == is_skip_name(name@),
{
    if name.len() != 8 {
        return false;
    }
    name[0] == 112 && name[1] == 97 && name[2] == 99 && name[3] == 107 && name[4] == 97 && name[5]
        == 103 && name[6] == 101 && name[7] == 115
}

/// Test for the reserved cache-metadata extension.
pub fn is_dat(name: &Vec<u8>) -> (r: bool)
    ensures
        r == has_dat_ext(name@),
{
    let n = name.len();
    if n < 5 {
        return false;
    }
    name[n - 4] == 46 && name[n - 3] == 100 && name[n - 2] == 97 && name[n - 1] == 116
}

/// Substring match of a name against the pattern set; an empty set matches
/// every name.
pub fn matches_any(pats: &Vec<Vec<u8>>, name: &Vec<u8>) -> (r: bool)
    ensures
        r == name_matches(pats.deep_view(), name@),
{
    if pats.len() == 0 {
        return true;
    }
    let mut j: usize = 0;
    while j < pats.len()
        invariant
            0 <= j <= pats@.len(),
            forall|k: int|
                0 <= k < j ==> !crate::bytes::contains_bytes(name@, pats.deep_view()[k]),
        decreases pats@.len() - j,
    {
        proof {
            assert(pats.deep_view()[j as int] == pats@[j as int].deep_view());
            assert(pats@[j as int].deep_view() =~= pats@[j as int]@);
        }
        if crate::bytes::bytes_contains(name, &pats[j]) {
            return true;
        }
        j += 1;
    }
    assert(pats.deep_view().len() == pats@.len());
    false
}

} // verus!
