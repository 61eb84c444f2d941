use kfs::file_system::KfileSystem;
use kfs::node::Knode;

#[test]
fn test_sanitize() {
    assert_eq!(
        KfileSystem::sanitize("/../../pera/aieie/../asa/../.././miao"),
        vec![String::from("miao")]
    );
    assert_eq!(KfileSystem::sanitize(""), Vec::<String>::new());
    assert_eq!(KfileSystem::sanitize("."), Vec::<String>::new());
    assert_eq!(KfileSystem::sanitize("./."), Vec::<String>::new());
    assert_eq!(KfileSystem::sanitize("./.././.."), Vec::<String>::new());
    assert_eq!(KfileSystem::sanitize(".."), Vec::<String>::new());
    assert_eq!(KfileSystem::sanitize("../../.."), Vec::<String>::new());
}

#[test]
fn test_to_abs_path() {
    let mut fs = KfileSystem::new();
    fs.pwd = String::from("/miao/bau");

    assert_eq!(fs.to_abs_path("one/two"), "/miao/bau/one/two");
    assert_eq!(fs.to_abs_path("/one/two"), "/one/two");
    assert_eq!(fs.to_abs_path("/miao/bau/bau.txt"), "/miao/bau/bau.txt");

    fs.pwd.clear();
    assert_eq!(fs.to_abs_path("bau"), "/bau");
}

#[test]
fn test_tokenize() {
    let mkdir_bau = vec![String::from("mkdir"), String::from("bau")];
    assert_eq!(KfileSystem::tokenize("mkdir bau"), mkdir_bau);
    assert_eq!(KfileSystem::tokenize("mkdir  bau"), mkdir_bau);
    assert_eq!(KfileSystem::tokenize("mkdir bau "), mkdir_bau);
    assert_eq!(KfileSystem::tokenize("mkdir bau\n"), mkdir_bau);
    assert_eq!(KfileSystem::tokenize("mkdir bau \n"), mkdir_bau);
    assert_eq!(KfileSystem::tokenize(""), Vec::<String>::new());
    assert_eq!(KfileSystem::tokenize("\n mkdir \n bau \n"), mkdir_bau);
}

#[test]
fn test_get_mut() {
    let mut fs = KfileSystem::new();
    if let Some(Knode::Kfolder(v)) = fs.get_mut("") {
        v.insert(String::from("miao"), Knode::new_kfolder());
        assert_eq!(v.ls(), "miao");
    } else {
        unreachable!("Expected Kfolder variant");
    }

    if let Some(Knode::Kfolder(v)) = fs.get_mut("miao") {
        v.insert(String::from("bau"), Knode::new_kfolder());
        assert_eq!(v.ls(), "bau");
    } else {
        unreachable!("Expected Kfolder variant");
    }

    if let Some(Knode::Kfolder(v)) = fs.get_mut("") {
        v.insert(String::from("bau"), Knode::new_kfolder());
        assert_eq!(v.ls(), "bau miao");
    } else {
        unreachable!("Expected Kfolder variant");
    }

    if let Some(Knode::Kfolder(v)) = fs.get_mut("miao/bau") {
        v.insert(String::from("bau.txt"), Knode::new_kfile());
        assert_eq!(v.ls(), "bau.txt");
    } else {
        unreachable!("Expected Kfolder variant");
    }

    if let Some(Knode::Kfile(_)) = fs.get_mut("miao/bau/bau.txt") {
    } else {
        unreachable!("Expected Kfile variant");
    }

    assert!(fs.get_mut("miao/bau.txt").is_none());
    assert!(fs.get_mut("/miao/bau/bau.txt").is_some());
    assert!(fs.get_mut("/miao/bau.txt/bau.txt").is_none());
}

#[test]
fn mkdir_then_ls_nested() {
    let mut fs = KfileSystem::new();
    assert!(fs.mkdir("a/b/c").is_ok());
    assert_eq!(fs.ls("a/b"), Ok(String::from("c")));
}

#[test]
fn mkdir_twice_succeeds_once_created() {
    let mut fs = KfileSystem::new();
    assert!(fs.mkdir("a").is_ok());
    assert!(fs.mkdir("a").is_ok());
    assert_eq!(fs.ls(""), Ok(String::from("a")));
    match fs.get("a") {
        Some(n) => assert!(n.is_kfolder()),
        None => unreachable!("a should exist"),
    }
    if let Some(Knode::Kfolder(root)) = fs.get_mut("") {
        assert_eq!(root.children.len(), 1);
        assert_eq!(root.children[0].0, "a");
    } else {
        unreachable!("Expected Kfolder variant");
    }
}

#[test]
fn mkdir_over_existing_file_fails() {
    let mut fs = KfileSystem::new();
    if let Some(Knode::Kfolder(root)) = fs.get_mut("") {
        assert!(root.insert(String::from("x"), Knode::new_kfile()));
    } else {
        unreachable!("Expected Kfolder variant");
    }
    assert_eq!(fs.mkdir("x"), Err(String::from("File 'x' exists!")));
    if let Some(Knode::Kfolder(root)) = fs.get_mut("") {
        assert_eq!(root.children.len(), 1);
        assert_eq!(root.children[0].0, "x");
        assert!(root.children[0].1.is_kfile());
    } else {
        unreachable!("Expected Kfolder variant");
    }
}

#[test]
fn mkdir_conflict_creates_nothing() {
    let mut fs = KfileSystem::new();
    assert!(fs.mkdir("a").is_ok());
    if let Some(Knode::Kfolder(a)) = fs.get_mut("a") {
        assert!(a.insert(String::from("f.txt"), Knode::new_kfile()));
    } else {
        unreachable!("Expected Kfolder variant");
    }
    // The walk creates nothing below the file and reports it by name.
    assert_eq!(fs.mkdir("a/f.txt/deep"), Err(String::from("File 'f.txt' exists!")));
    assert_eq!(fs.ls("a"), Ok(String::from("f.txt")));
    assert!(fs.get("a/f.txt/deep").is_none());
}

#[test]
fn cd_resolves_fully_for_pwd() {
    let mut fs = KfileSystem::new();
    assert!(fs.mkdir("a/b").is_ok());
    assert!(fs.cd("a/./b/../b").is_ok());
    assert_eq!(fs.pwd(), Ok(String::from("/a/b")));
}

#[test]
fn cd_dotdot_moves_up() {
    let mut fs = KfileSystem::new();
    assert!(fs.mkdir("a/b").is_ok());
    assert!(fs.cd("a/b").is_ok());
    assert!(fs.cd("..").is_ok());
    assert_eq!(fs.pwd(), Ok(String::from("/a")));
}

#[test]
fn cd_missing_path_fails() {
    let mut fs = KfileSystem::new();
    assert_eq!(
        fs.cd("nope"),
        Err(String::from("cd: 'nope': No such file or directory"))
    );
    assert_eq!(fs.pwd(), Ok(String::from("/")));
}

#[test]
fn cd_root_resets() {
    let mut fs = KfileSystem::new();
    assert!(fs.mkdir("a").is_ok());
    assert!(fs.cd("a").is_ok());
    fs.cd_root();
    assert_eq!(fs.pwd(), Ok(String::from("/")));
}

#[test]
fn ls_missing_and_file_errors() {
    let mut fs = KfileSystem::new();
    assert_eq!(fs.ls("nope"), Err(String::from("no such file or directory")));
    if let Some(Knode::Kfolder(root)) = fs.get_mut("") {
        assert!(root.insert(String::from("f"), Knode::new_kfile()));
    } else {
        unreachable!("Expected Kfolder variant");
    }
    assert_eq!(fs.ls("f"), Err(String::from("not a directory")));
}

#[test]
fn ls_empty_root_prints_nothing() {
    let fs = KfileSystem::new();
    assert_eq!(fs.ls(""), Ok(String::new()));
}

#[test]
fn absolute_path_ignores_cwd() {
    let mut fs = KfileSystem::new();
    let at_root = fs.to_abs_path("/x/../y");
    fs.pwd = String::from("deep/down");
    assert_eq!(fs.to_abs_path("/x/../y"), at_root);
}

#[test]
fn sanitize_str_joins_canonical_form() {
    assert_eq!(
        KfileSystem::sanitize_str(String::from("/a/../b/./c//d")),
        "b/c/d"
    );
    assert_eq!(KfileSystem::sanitize_str(String::from("../..")), "");
    // Canonicalizing an already-canonical path returns it unchanged.
    assert_eq!(KfileSystem::sanitize_str(String::from("b/c/d")), "b/c/d");
    assert_eq!(
        KfileSystem::sanitize("b/c/d"),
        vec![String::from("b"), String::from("c"), String::from("d")]
    );
}

#[test]
fn cd_into_file_is_accepted() {
    // Only existence is checked by cd; the node may be a file.
    let mut fs = KfileSystem::new();
    if let Some(Knode::Kfolder(root)) = fs.get_mut("") {
        assert!(root.insert(String::from("f"), Knode::new_kfile()));
    } else {
        unreachable!("Expected Kfolder variant");
    }
    assert!(fs.cd("f").is_ok());
    assert_eq!(fs.pwd(), Ok(String::from("/f")));
}

#[test]
fn mkdir_relative_to_cwd() {
    let mut fs = KfileSystem::new();
    assert!(fs.mkdir("a").is_ok());
    assert!(fs.cd("a").is_ok());
    assert!(fs.mkdir("b").is_ok());
    fs.cd_root();
    assert_eq!(fs.ls("a"), Ok(String::from("b")));
}

#[test]
fn mkdir_twice_deep_same_tree() {
    let mut fs = KfileSystem::new();
    assert!(fs.mkdir("x/y/z").is_ok());
    assert!(fs.mkdir("x/y/z").is_ok());
    assert_eq!(fs.ls("x"), Ok(String::from("y")));
    assert_eq!(fs.ls("x/y"), Ok(String::from("z")));
    assert_eq!(fs.ls("x/y/z"), Ok(String::new()));
    if let Some(Knode::Kfolder(y)) = fs.get_mut("x/y") {
        assert_eq!(y.children.len(), 1);
    } else {
        unreachable!("Expected Kfolder variant");
    }
}

#[test]
fn excess_dotdot_clamped_at_root() {
    let mut fs = KfileSystem::new();
    assert!(fs.mkdir("a").is_ok());
    assert!(fs.cd("../../../a").is_ok());
    assert_eq!(fs.pwd(), Ok(String::from("/a")));
}
