use dtree::{DirError, OsState};
use rand::{distributions::Alphanumeric, Rng};

///Test that randomly generates ten, ten character long, strings which it then uses to create a directory chain; calls paths to check that the chain was built correctly.
#[test]
fn osstate_rand() {
    let mut s = OsState::new();
    let mut stringz: Vec<String> = Vec::new();

    for _ in 0..10 {
        stringz.push(
            rand::thread_rng()
                .sample_iter(&Alphanumeric)
                .take(10)
                .map(char::from)
                .collect::<String>(),
        );
    }

    let mut path: String = "/".to_string();

    for x in &stringz {
        s.mkdir(x.as_str()).unwrap();
        s.chdir(&[x.as_str()]).unwrap();
        path = path + &x.to_string() + &"/".to_string();
    }

    s.chdir(&[]).unwrap();
    assert_eq!(&s.paths().unwrap(), &[path.as_str()]);
}

//Test for OsState that creates a directory, then attempts to change its current working directory to a non-existent one
#[test]
#[should_panic]
fn osstate_bad_chdir() {
    let mut s = OsState::new();
    s.mkdir("x").unwrap();
    s.chdir(&["q"]).unwrap();
}

///Test for OsState that tries to make a directory named /
#[test]
#[should_panic]
fn osstate_bad_mkdir() {
    let mut s = OsState::new();
    s.mkdir("/").unwrap();
}

#[test]
#[should_panic]
fn osstate_double() {
    let mut s = OsState::new();
    s.mkdir("a").unwrap();
    s.mkdir("a").unwrap();
}

#[test]
fn osstate_chain_from_root() {
    let mut s = OsState::new();
    s.mkdir("a").unwrap();
    s.chdir(&["a"]).unwrap();
    s.mkdir("b").unwrap();
    s.chdir(&["b"]).unwrap();
    s.mkdir("c").unwrap();
    s.chdir(&[]).unwrap();
    assert_eq!(&s.paths().unwrap(), &["/a/b/c/"]);
}

#[test]
fn osstate_multi_branch() {
    let mut s = OsState::new();
    s.mkdir("a").unwrap();
    s.mkdir("z").unwrap();
    s.chdir(&["a"]).unwrap();
    s.mkdir("b").unwrap();
    s.mkdir("c").unwrap();
    s.chdir(&["c"]).unwrap();
    s.mkdir("d").unwrap();
    s.chdir(&[]).unwrap();
    let mut paths = s.paths().unwrap();
    paths.sort();
    assert_eq!(&paths, &["/a/b/", "/a/c/d/", "/z/"]);
}

#[test]
fn osstate_paths_relative_to_cwd() {
    let mut s = OsState::new();
    s.mkdir("a").unwrap();
    s.chdir(&["a"]).unwrap();
    s.mkdir("b").unwrap();
    s.mkdir("c").unwrap();
    assert_eq!(&s.paths().unwrap(), &["/b/", "/c/"]);
    s.chdir(&["b"]).unwrap();
    assert!(s.paths().unwrap().is_empty());
}

#[test]
fn osstate_failed_chdir_keeps_cwd() {
    let mut s = OsState::new();
    s.mkdir("a").unwrap();
    s.chdir(&["a"]).unwrap();
    s.mkdir("b").unwrap();
    let before = s.cwd.clone();
    match s.chdir(&["b", "nope"]) {
        Err(DirError::InvalidChild(n)) => assert_eq!(n, "nope"),
        _ => panic!("expected InvalidChild"),
    }
    assert_eq!(s.cwd, before);
    assert!(matches!(s.chdir(&[".."]), Err(DirError::InvalidChild(".."))));
    assert!(matches!(s.chdir(&["."]), Err(DirError::InvalidChild("."))));
    assert_eq!(s.cwd, vec!["a"]);
}

#[test]
fn osstate_root_reset() {
    let mut s = OsState::new();
    s.mkdir("a").unwrap();
    s.chdir(&["a"]).unwrap();
    s.mkdir("b").unwrap();
    s.chdir(&["b"]).unwrap();
    s.mkdir("c").unwrap();
    s.chdir(&["c"]).unwrap();
    assert_eq!(s.cwd, vec!["a", "b", "c"]);
    assert!(s.chdir(&[]).is_ok());
    assert!(s.cwd.is_empty());
    assert!(s.chdir(&[]).is_ok());
    assert!(s.cwd.is_empty());
    assert_eq!(&s.paths().unwrap(), &["/a/b/c/"]);
}

#[test]
fn osstate_chdir_multi_step() {
    let mut s = OsState::new();
    s.mkdir("a").unwrap();
    s.chdir(&["a"]).unwrap();
    s.mkdir("b").unwrap();
    s.chdir(&[]).unwrap();
    s.chdir(&["a", "b"]).unwrap();
    assert_eq!(s.cwd, vec!["a", "b"]);
}

#[test]
fn osstate_mkdir_errors() {
    let mut s = OsState::new();
    assert!(matches!(s.mkdir("a/b"), Err(DirError::SlashInName("a/b"))));
    s.mkdir("a").unwrap();
    assert!(matches!(s.mkdir("a"), Err(DirError::DirExists("a"))));
    s.chdir(&["a"]).unwrap();
    s.mkdir("a").unwrap();
    assert!(matches!(s.mkdir("a"), Err(DirError::DirExists("a"))));
    s.chdir(&[]).unwrap();
    assert_eq!(&s.paths().unwrap(), &["/a/a/"]);
}

#[test]
fn osstate_invalid_cwd() {
    let mut s = OsState::new();
    s.mkdir("a").unwrap();
    s.cwd.push("gone");
    assert!(matches!(s.mkdir("b"), Err(DirError::InvalidChild("gone"))));
    assert!(matches!(s.paths(), Err(DirError::InvalidChild("gone"))));
    assert!(matches!(s.mkdir("c/d"), Err(DirError::SlashInName("c/d"))));
    let d: OsState = Default::default();
    assert!(d.cwd.is_empty());
    assert!(d.paths().unwrap().is_empty());
}
