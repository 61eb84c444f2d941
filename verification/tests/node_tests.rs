use kfs::node::Kfolder;
use kfs::node::Knode;

#[test]
fn test_insert() {
    let mut f = Kfolder::new();
    assert!(f.insert(String::from("bau"), Knode::new_kfolder()));
    assert!(f.insert(String::from("zio"), Knode::new_kfolder()));
    assert!(!f.insert(String::from("zio"), Knode::new_kfolder()));
    assert!(!f.insert(String::from("zio"), Knode::new_kfile()));
    assert!(f.insert(String::from("miao"), Knode::new_kfile()));
}

#[test]
fn test_ls() {
    let mut f = Kfolder::new();
    assert!(f.insert(String::from("bau"), Knode::new_kfolder()));
    assert!(f.insert(String::from("zio"), Knode::new_kfolder()));
    assert!(!f.insert(String::from("zio"), Knode::new_kfolder()));
    assert!(!f.insert(String::from("zio"), Knode::new_kfile()));
    assert!(f.insert(String::from("miao"), Knode::new_kfile()));
    assert_eq!(f.ls(), "bau miao zio");
}

#[test]
fn ls_sorted_regardless_of_insertion_order() {
    let mut a = Kfolder::new();
    assert!(a.insert(String::from("c"), Knode::new_kfolder()));
    assert!(a.insert(String::from("a"), Knode::new_kfolder()));
    assert!(a.insert(String::from("b"), Knode::new_kfolder()));
    let mut b = Kfolder::new();
    assert!(b.insert(String::from("b"), Knode::new_kfolder()));
    assert!(b.insert(String::from("a"), Knode::new_kfolder()));
    assert!(b.insert(String::from("c"), Knode::new_kfolder()));
    assert_eq!(a.ls(), "a b c");
    assert_eq!(b.ls(), "a b c");
}

#[test]
fn ls_empty_folder_is_empty_string() {
    let f = Kfolder::new();
    assert_eq!(f.ls(), "");
}

#[test]
fn node_variant_access() {
    let mut folder = Knode::new_kfolder();
    let mut file = Knode::new_kfile();
    assert!(folder.is_kfolder());
    assert!(!folder.is_kfile());
    assert!(file.is_kfile());
    assert!(!file.is_kfolder());
    assert!(folder.as_kfolder().is_some());
    assert!(folder.as_kfile().is_none());
    assert!(file.as_kfile().is_some());
    assert!(file.as_kfolder().is_none());
    assert!(folder.as_kfolder_mut().is_some());
    assert!(folder.as_kfile_mut().is_none());
    assert!(file.as_kfile_mut().is_some());
    assert!(file.as_kfolder_mut().is_none());
}
