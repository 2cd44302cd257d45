use dtree::{DTree, DirError};
use rand::{distributions::Alphanumeric, Rng};

#[test]
fn dtree_static() {
    let mut dt = DTree::new();
    dt.mkdir("a").unwrap();
    dt.mkdir("z").unwrap();
    dt.with_subdir_mut(&["a"]).unwrap().mkdir("b").unwrap();
    dt.with_subdir_mut(&["a"]).unwrap().mkdir("c").unwrap();
    dt.with_subdir_mut(&["a", "c"]).unwrap().mkdir("d").unwrap();
    let paths = dt.paths();
    assert_eq!(&paths, &["/a/b/", "/a/c/d/", "/z/"]);
}

#[test]
///Test for DTree's mkdir and paths function.
fn dtree_rand() {
    let x = rand::thread_rng()
        .sample_iter(&Alphanumeric)
        .take(10)
        .map(char::from)
        .collect::<String>();
    let mut dt = DTree::new();

    dt.mkdir(&x).unwrap();
    assert_eq!(&dt.paths(), &["/".to_owned() + &x + "/"]);
}

///Test for dtree that checks to make sure that slashes in names are invalid
#[test]
#[should_panic]
fn dtree_slash() {
    let mut dt = DTree::new();
    dt.mkdir("/a").unwrap();
}

#[test]
#[should_panic]
fn dtree_double() {
    let mut dt = DTree::new();
    dt.mkdir("a").unwrap();
    dt.mkdir("a").unwrap();
}

#[test]
fn dtree_mkdir_single() {
    let mut dt = DTree::new();
    dt.mkdir("test").unwrap();
    assert_eq!(&dt.paths(), &["/test/"]);
}

#[test]
fn dtree_empty_has_no_paths() {
    let dt = DTree::new();
    assert!(dt.paths().is_empty());
    let dd: DTree = Default::default();
    assert!(dd.paths().is_empty());
}

#[test]
fn dtree_with_subdir_reads() {
    let mut dt = DTree::new();
    dt.mkdir("test").unwrap();
    let paths = dt.with_subdir(&["test"]).unwrap().paths();
    assert!(paths.is_empty());
    assert_ne!(&paths, &["/"]);
}

#[test]
fn dtree_with_subdir_empty_path_is_root() {
    let mut dt = DTree::new();
    dt.mkdir("a").unwrap();
    assert_eq!(&dt.with_subdir(&[]).unwrap().paths(), &["/a/"]);
    dt.with_subdir_mut(&[]).unwrap().mkdir("b").unwrap();
    assert_eq!(&dt.paths(), &["/a/", "/b/"]);
}

#[test]
fn dtree_with_subdir_missing_reports_name() {
    let mut dt = DTree::new();
    dt.mkdir("a").unwrap();
    dt.with_subdir_mut(&["a"]).unwrap().mkdir("b").unwrap();
    match dt.with_subdir(&["a", "q", "r"]) {
        Err(DirError::InvalidChild(n)) => assert_eq!(n, "q"),
        other => panic!("unexpected: {:?}", other.map(|t| t.paths())),
    }
    match dt.with_subdir_mut(&["x"]) {
        Err(DirError::InvalidChild(n)) => assert_eq!(n, "x"),
        _ => panic!("expected InvalidChild"),
    }
    assert_eq!(&dt.paths(), &["/a/b/"]);
}

#[test]
fn dtree_mkdir_errors_carry_name() {
    let mut dt = DTree::new();
    match dt.mkdir("x/y") {
        Err(DirError::SlashInName(n)) => assert_eq!(n, "x/y"),
        _ => panic!("expected SlashInName"),
    }
    dt.mkdir("a").unwrap();
    match dt.mkdir("a") {
        Err(DirError::DirExists(n)) => assert_eq!(n, "a"),
        _ => panic!("expected DirExists"),
    }
    assert_eq!(&dt.paths(), &["/a/"]);
}

#[test]
fn dtree_mkdir_twice_then_exists() {
    let mut dt = DTree::new();
    dt.mkdir("a").unwrap();
    dt.with_subdir_mut(&["a"]).unwrap().mkdir("x").unwrap();
    assert!(matches!(dt.mkdir("a"), Err(DirError::DirExists("a"))));
    let sub = dt.with_subdir_mut(&["a"]).unwrap();
    assert!(matches!(sub.mkdir("x"), Err(DirError::DirExists("x"))));
    assert!(matches!(sub.mkdir("y"), Ok(())));
    assert!(matches!(sub.mkdir("y"), Err(DirError::DirExists("y"))));
}

#[test]
fn dtree_slash_leaves_tree_unchanged() {
    let mut dt = DTree::new();
    dt.mkdir("a").unwrap();
    assert!(matches!(dt.mkdir("/"), Err(DirError::SlashInName("/"))));
    assert!(matches!(dt.mkdir("b/"), Err(DirError::SlashInName("b/"))));
    assert_eq!(dt.children.len(), 1);
    assert_eq!(&dt.paths(), &["/a/"]);
}

#[test]
fn dtree_leaf_count_matches_paths() {
    let mut dt = DTree::new();
    dt.mkdir("a").unwrap();
    dt.mkdir("z").unwrap();
    dt.with_subdir_mut(&["a"]).unwrap().mkdir("b").unwrap();
    dt.with_subdir_mut(&["a"]).unwrap().mkdir("c").unwrap();
    dt.with_subdir_mut(&["a", "c"]).unwrap().mkdir("d").unwrap();
    dt.with_subdir_mut(&["a", "c"]).unwrap().mkdir("e").unwrap();
    let mut paths = dt.paths();
    paths.sort();
    assert_eq!(&paths, &["/a/b/", "/a/c/d/", "/a/c/e/", "/z/"]);
    for p in &paths {
        let parts: Vec<&str> = p.split('/').filter(|s| !s.is_empty()).collect();
        let leaf = dt.with_subdir(&parts).unwrap();
        assert!(leaf.children.is_empty());
    }
}

#[test]
fn dtree_sibling_order_example() {
    let mut dt = DTree::new();
    dt.mkdir("a").unwrap();
    dt.with_subdir_mut(&["a"]).unwrap().mkdir("b").unwrap();
    dt.with_subdir_mut(&["a"]).unwrap().mkdir("c").unwrap();
    let mut paths = dt.paths();
    paths.sort();
    assert_eq!(&paths, &["/a/b/", "/a/c/"]);
}

#[test]
fn dent_new_checks_name() {
    let e = dtree::DEnt::new("ok").unwrap();
    assert_eq!(e.name, "ok");
    assert!(e.subdir.children.is_empty());
    assert!(matches!(dtree::DEnt::new("a/b"), Err(DirError::SlashInName("a/b"))));
}

#[test]
fn name_helpers() {
    assert!(dtree::contains_slash("a/b"));
    assert!(!dtree::contains_slash("ab"));
    assert!(!dtree::contains_slash(""));
    assert!(dtree::same_name("abc", "abc"));
    assert!(!dtree::same_name("abc", "abd"));
    assert!(!dtree::same_name("ab", "abc"));
}
