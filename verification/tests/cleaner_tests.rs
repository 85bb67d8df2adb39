use solution_cleaner::cleaner::Cleaner;
use solution_cleaner::cleaner::CleanerResult;
use solution_cleaner::cleaner::PurgeAction;
use solution_cleaner::cleaner::WalkAction;
use solution_cleaner::cleaner::classify_purge;
use solution_cleaner::cleaner::classify_walk;
use solution_cleaner::cleaner::clean_location;
use solution_cleaner::cleaner::clean_location_list;
use solution_cleaner::cleaner::clean_tree;
use solution_cleaner::fs_model::FsNode;

fn b(s: &str) -> Vec<u8> {
    s.as_bytes().to_vec()
}

fn file(name: &str) -> FsNode {
    FsNode::File { name: b(name) }
}

fn dir(name: &str, children: Vec<FsNode>) -> FsNode {
    FsNode::Dir { name: b(name), children }
}

fn unreadable(name: &str) -> FsNode {
    FsNode::Unreadable { name: b(name) }
}

fn as_dir(n: &FsNode) -> (&Vec<u8>, &Vec<FsNode>) {
    match n {
        FsNode::Dir { name, children } => (name, children),
        _ => panic!("expected a directory"),
    }
}

fn is_file_named(n: &FsNode, want: &str) -> bool {
    match n {
        FsNode::File { name } => *name == b(want),
        _ => false,
    }
}

#[test]
fn concrete_scenario_bin_obj_src() {
    // root/proj/{bin/Debug/app.exe, obj/x.o, src/main.cs}
    let root = dir(
        "root",
        vec![dir(
            "proj",
            vec![
                dir("bin", vec![dir("Debug", vec![file("app.exe")])]),
                dir("obj", vec![file("x.o")]),
                dir("src", vec![file("main.cs")]),
            ],
        )],
    );
    let (cleaned, dirs, files, errors) = clean_tree(root);
    assert_eq!(dirs, 2);
    assert_eq!(files, 2);
    assert_eq!(errors, 0);
    let (_, top) = as_dir(&cleaned);
    assert_eq!(top.len(), 1);
    let (proj_name, proj_children) = as_dir(&top[0]);
    assert_eq!(*proj_name, b("proj"));
    // bin and obj are gone; src survives with its file.
    assert_eq!(proj_children.len(), 1);
    let (src_name, src_children) = as_dir(&proj_children[0]);
    assert_eq!(*src_name, b("src"));
    assert_eq!(src_children.len(), 1);
    assert!(is_file_named(&src_children[0], "main.cs"));
}

#[test]
fn exact_names_only() {
    // bindings and objects are not artifact roots: nothing is removed.
    let root = dir(
        "root",
        vec![
            dir("bindings", vec![file("a.txt")]),
            dir("objects", vec![file("b.txt")]),
        ],
    );
    let (cleaned, dirs, files, errors) = clean_tree(root);
    assert_eq!((dirs, files, errors), (0, 0, 0));
    let (_, top) = as_dir(&cleaned);
    assert_eq!(top.len(), 2);
    let (n0, c0) = as_dir(&top[0]);
    assert_eq!(*n0, b("bindings"));
    assert_eq!(c0.len(), 1);
    let (n1, c1) = as_dir(&top[1]);
    assert_eq!(*n1, b("objects"));
    assert_eq!(c1.len(), 1);
}

#[test]
fn packages_never_entered() {
    // A bin directory inside packages is out of the artifact pass's reach,
    // at any depth.
    let root = dir(
        "root",
        vec![dir(
            "sub",
            vec![dir(
                "packages",
                vec![dir("bin", vec![file("keep.dll")]), file("loose.txt")],
            )],
        )],
    );
    let (cleaned, dirs, files, errors) = clean_tree(root);
    assert_eq!((dirs, files, errors), (0, 0, 0));
    let (_, top) = as_dir(&cleaned);
    let (_, sub) = as_dir(&top[0]);
    let (pkg_name, pkg) = as_dir(&sub[0]);
    assert_eq!(*pkg_name, b("packages"));
    assert_eq!(pkg.len(), 2);
    let (bin_name, bin) = as_dir(&pkg[0]);
    assert_eq!(*bin_name, b("bin"));
    assert!(is_file_named(&bin[0], "keep.dll"));
    assert!(is_file_named(&pkg[1], "loose.txt"));
}

#[test]
fn pattern_filter_is_case_sensitive_substring() {
    let pats = vec![b("foo")];
    assert!(matches!(
        classify_purge(&b("myfoo.dat"), false, &pats),
        PurgeAction::DeleteFile
    ));
    assert!(matches!(
        classify_purge(&b("foobar"), false, &pats),
        PurgeAction::DeleteFile
    ));
    assert!(matches!(
        classify_purge(&b("Foo.dat"), false, &pats),
        PurgeAction::KeepFile
    ));
    assert!(matches!(
        classify_purge(&b("Foo"), false, &pats),
        PurgeAction::DeleteFile
    ));
    assert!(matches!(
        classify_purge(&b("Foodir"), true, &pats),
        PurgeAction::KeepDir
    ));
    assert!(matches!(
        classify_purge(&b("somefoodir"), true, &pats),
        PurgeAction::PurgeDir
    ));
}

#[test]
fn walk_decisions() {
    assert!(matches!(classify_walk(&b("bin"), true), WalkAction::DeleteArtifact));
    assert!(matches!(classify_walk(&b("obj"), true), WalkAction::DeleteArtifact));
    assert!(matches!(classify_walk(&b("bindings"), true), WalkAction::Recurse));
    assert!(matches!(classify_walk(&b("objects"), true), WalkAction::Recurse));
    assert!(matches!(classify_walk(&b("packages"), true), WalkAction::Skip));
    assert!(matches!(classify_walk(&b("bin"), false), WalkAction::Ignore));
}

#[test]
fn dat_metadata_preserved_under_filter() {
    // Non-matching .dat files survive; every other non-matching file goes.
    let loc = dir(
        "cache",
        vec![file("index.dat"), file("notes.txt"), file("libfoo.dat")],
    );
    let pats = vec![b("foo")];
    let (kept, dirs, files, errors) = clean_location(loc, &pats);
    assert_eq!((dirs, files, errors), (0, 2, 0));
    let kept = kept.expect("location still holds the metadata file");
    let (_, entries) = as_dir(&kept);
    assert_eq!(entries.len(), 1);
    assert!(is_file_named(&entries[0], "index.dat"));
}

#[test]
fn empty_pattern_set_purges_everything() {
    let loc = dir(
        "cache",
        vec![file("index.dat"), dir("pkg", vec![file("lib.dll")])],
    );
    let pats: Vec<Vec<u8>> = Vec::new();
    let (kept, dirs, files, errors) = clean_location(loc, &pats);
    // Everything is emptied and the location itself is removed.
    assert!(kept.is_none());
    assert_eq!((dirs, files, errors), (1, 2, 0));
}

#[test]
fn cleaner_is_idempotent() {
    let root = dir(
        "root",
        vec![dir(
            "proj",
            vec![
                dir("bin", vec![file("a.dll"), dir("x", vec![file("b.pdb")])]),
                dir("src", vec![file("main.cs")]),
            ],
        )],
    );
    let (once, d1, f1, e1) = clean_tree(root);
    assert_eq!((d1, f1, e1), (1, 2, 0));
    let (twice, d2, f2, e2) = clean_tree(once);
    assert_eq!((d2, f2, e2), (0, 0, 0));
    // The tree is unchanged: proj still holds exactly src/main.cs.
    let (_, top) = as_dir(&twice);
    let (_, proj) = as_dir(&top[0]);
    assert_eq!(proj.len(), 1);
    let (src_name, src) = as_dir(&proj[0]);
    assert_eq!(*src_name, b("src"));
    assert!(is_file_named(&src[0], "main.cs"));
}

#[test]
fn unreadable_directory_reported_and_rest_processed() {
    // A location list with a nonexistent directory: it is reported, the
    // remaining locations are still processed.
    let locations = vec![unreadable("gone"), dir("ok", vec![file("f.bin")])];
    let pats: Vec<Vec<u8>> = Vec::new();
    let (kept, dirs, files, errors) = clean_location_list(locations, &pats);
    assert_eq!(errors, 1);
    assert_eq!(dirs, 1);
    assert_eq!(files, 1);
    // Only the unreadable location survives, untouched.
    assert_eq!(kept.len(), 1);
    assert!(matches!(&kept[0], FsNode::Unreadable { name } if *name == b("gone")));
}

#[test]
fn unreadable_subtree_contributes_zero_and_continues() {
    let root = dir(
        "root",
        vec![
            unreadable("locked"),
            dir("obj", vec![file("x.o")]),
        ],
    );
    let (_, dirs, files, errors) = clean_tree(root);
    assert_eq!((dirs, files, errors), (1, 1, 1));
}

#[test]
fn cleaner_runs_both_passes() {
    let root = dir("root", vec![dir("bin", vec![file("a.dll")])]);
    let caches = vec![dir("packages", vec![file("pkg.nupkg")])];
    let mut cleaner = Cleaner::new(Some(Vec::new()));
    let outcome = cleaner.clean(root, caches);
    assert_eq!(
        outcome.result,
        CleanerResult { directories: 2, files: 2 }
    );
    assert_eq!(outcome.errors, 0);
    assert_eq!(outcome.locations.len(), 0);
    assert_eq!(cleaner.result().directories, 2);
    assert_eq!(cleaner.result().files, 2);
}

#[test]
fn cleaner_without_patterns_leaves_caches_alone() {
    let root = dir("root", vec![file("readme.md")]);
    let caches = vec![dir("packages", vec![file("pkg.nupkg")])];
    let mut cleaner = Cleaner::new(None);
    let outcome = cleaner.clean(root, caches);
    assert_eq!(
        outcome.result,
        CleanerResult { directories: 0, files: 0 }
    );
    assert_eq!(outcome.errors, 0);
    assert_eq!(outcome.locations.len(), 1);
    let (name, children) = as_dir(&outcome.locations[0]);
    assert_eq!(*name, b("packages"));
    assert_eq!(children.len(), 1);
}

#[test]
fn root_that_is_not_a_directory_is_an_error() {
    let (kept, dirs, files, errors) = clean_tree(unreadable("root"));
    assert!(matches!(kept, FsNode::Unreadable { .. }));
    assert_eq!((dirs, files, errors), (0, 0, 1));
}

#[test]
fn artifact_root_with_unreadable_inside_stays() {
    // The unreadable child cannot be deleted, so bin is not removed, but
    // its readable file is still counted.
    let root = dir(
        "root",
        vec![dir("bin", vec![unreadable("locked"), file("a.dll")])],
    );
    let (cleaned, dirs, files, errors) = clean_tree(root);
    assert_eq!((dirs, files, errors), (0, 1, 1));
    let (_, top) = as_dir(&cleaned);
    let (bin_name, bin) = as_dir(&top[0]);
    assert_eq!(*bin_name, b("bin"));
    assert_eq!(bin.len(), 1);
    assert!(matches!(&bin[0], FsNode::Unreadable { .. }));
}

#[test]
fn cache_pass_is_idempotent() {
    let locations = vec![dir(
        "cache",
        vec![
            file("keep.dat"),
            file("libfoo.dll"),
            dir("foodir", vec![file("inner.dat"), file("inner.txt")]),
            dir("other", vec![file("untouched.txt")]),
        ],
    )];
    let pats = vec![b("foo")];
    let (kept, d1, f1, e1) = clean_location_list(locations, &pats);
    assert_eq!((d1, f1, e1), (0, 2, 0));
    let (kept_again, d2, f2, e2) = clean_location_list(kept, &pats);
    assert_eq!((d2, f2, e2), (0, 0, 0));
    // Same survivors: the metadata file, the matching directory with its
    // metadata file, and the untouched non-matching directory.
    let (_, entries) = as_dir(&kept_again[0]);
    assert_eq!(entries.len(), 3);
    assert!(is_file_named(&entries[0], "keep.dat"));
    let (foodir_name, foodir) = as_dir(&entries[1]);
    assert_eq!(*foodir_name, b("foodir"));
    assert_eq!(foodir.len(), 1);
    assert!(is_file_named(&foodir[0], "inner.dat"));
    let (other_name, other) = as_dir(&entries[2]);
    assert_eq!(*other_name, b("other"));
    assert_eq!(other.len(), 1);
}

fn count_files_in(n: &FsNode) -> u64 {
    match n {
        FsNode::File { .. } => 1,
        FsNode::Unreadable { .. } => 0,
        FsNode::Dir { children, .. } => children.iter().map(count_files_in).sum(),
    }
}

#[test]
fn files_count_matches_what_left_the_tree() {
    let root = dir(
        "root",
        vec![
            dir("bin", vec![file("a"), dir("sub", vec![file("b"), file("c")])]),
            dir("keep", vec![file("d"), dir("obj", vec![file("e")])]),
            file("f"),
        ],
    );
    let before = count_files_in(&root);
    let (cleaned, _, files, errors) = clean_tree(root);
    let after = count_files_in(&cleaned);
    assert_eq!(errors, 0);
    assert_eq!(before - after, files);
    assert_eq!(files, 4);
}
