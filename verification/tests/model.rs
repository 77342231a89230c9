use image_compressor::compressor::Factor;
use image_compressor::crawler::{get_dir_list, get_file_list};
use image_compressor::dir::{delete_recursive, DirError};
use image_compressor::fs::Fs;
use image_compressor::path::{
    file_name, is_hidden, is_visible_name, join, join_one, jpg_target_name, parent, path_eq,
    starts_with, stem, strip_prefix,
};
use image_compressor::progress::usize_to_string;
use image_compressor::try_send_message;

fn p(parts: &[&str]) -> Vec<String> {
    parts.iter().map(|s| s.to_string()).collect()
}

fn sorted(paths: Vec<Vec<String>>) -> Vec<Vec<String>> {
    let mut v = paths;
    v.sort();
    v
}

#[test]
fn factor_bounds() {
    assert!(Factor::new(8000, 800).is_some());
    assert!(Factor::new(1, 1).is_some());
    assert!(Factor::new(10000, 1000).is_some());
    assert!(Factor::new(0, 800).is_none());
    assert!(Factor::new(10001, 800).is_none());
    assert!(Factor::new(8000, 0).is_none());
    assert!(Factor::new(8000, 1001).is_none());
    let f = Factor::new(50, 500).unwrap();
    assert_eq!(f.quality(), 50);
    assert_eq!(f.size_ratio(), 500);
    let d = Factor::default();
    assert_eq!(d.quality(), 8000);
    assert_eq!(d.size_ratio(), 800);
}

#[test]
fn file_list_lists_every_visible_file() {
    let mut fs = Fs::new();
    assert!(fs.create_dir_all(&p(&["src"])));
    assert!(fs.create_dir_all(&p(&["src", "b"])));
    assert!(fs.create_dir_all(&p(&["src", "b", "c"])));
    fs.write_file(&p(&["src", "f1.txt"]), vec![1]);
    fs.write_file(&p(&["src", "b", "f2.txt"]), vec![2]);
    fs.write_file(&p(&["src", "b", "c", "f3.txt"]), vec![3]);
    let list = get_file_list(&fs, &p(&["src"])).unwrap();
    let expected = vec![
        p(&["src", "b", "c", "f3.txt"]),
        p(&["src", "b", "f2.txt"]),
        p(&["src", "f1.txt"]),
    ];
    assert_eq!(sorted(list), expected);
}

#[test]
fn file_list_skips_hidden_files_but_descends_hidden_dirs() {
    let mut fs = Fs::new();
    assert!(fs.create_dir_all(&p(&["src"])));
    assert!(fs.create_dir_all(&p(&["src", "d"])));
    assert!(fs.create_dir_all(&p(&["src", ".git"])));
    fs.write_file(&p(&["src", ".hidden"]), vec![0]);
    fs.write_file(&p(&["src", "d", ".h2"]), vec![0]);
    fs.write_file(&p(&["src", "ok.txt"]), vec![1]);
    fs.write_file(&p(&["src", ".git", "object.bin"]), vec![2]);
    let list = get_file_list(&fs, &p(&["src"])).unwrap();
    let expected = vec![p(&["src", ".git", "object.bin"]), p(&["src", "ok.txt"])];
    assert_eq!(sorted(list), expected);
}

#[test]
fn file_list_fails_without_directory() {
    let mut fs = Fs::new();
    fs.write_file(&p(&["plain.txt"]), vec![1]);
    assert!(get_file_list(&fs, &p(&["missing"])).is_err());
    assert!(get_file_list(&fs, &p(&["plain.txt"])).is_err());
}

#[test]
fn dir_list_lists_immediate_children_only() {
    let mut fs = Fs::new();
    assert!(fs.create_dir_all(&p(&["r", "a", "deep"])));
    assert!(fs.create_dir_all(&p(&["r", "b"])));
    assert!(fs.create_dir_all(&p(&["other"])));
    let list = get_dir_list(&fs, &p(&["r"])).unwrap();
    let expected = vec![p(&["r", "a"]), p(&["r", "b"])];
    assert_eq!(sorted(list), expected);
    assert!(get_dir_list(&fs, &p(&["nowhere"])).is_err());
}

#[test]
fn delete_recursive_keeps_blocked_tree() {
    // Pruning a tree that holds one visible file three levels deep
    // fails, and every directory of the tree survives.
    let mut fs = Fs::new();
    assert!(fs.create_dir_all(&p(&["root", "d1", "d2", "d3"])));
    fs.write_file(&p(&["root", "d1", "d2", "d3", "file.txt"]), vec![9]);
    assert_eq!(delete_recursive(&mut fs, &p(&["root"])), Err(DirError::NotEmpty));
    assert!(fs.is_dir(&p(&["root"])));
    assert!(fs.is_dir(&p(&["root", "d1"])));
    assert!(fs.is_dir(&p(&["root", "d1", "d2"])));
    assert!(fs.is_dir(&p(&["root", "d1", "d2", "d3"])));
    assert!(fs.is_file(&p(&["root", "d1", "d2", "d3", "file.txt"])));
}

#[test]
fn delete_recursive_removes_empty_tree() {
    // Only empty directories and hidden files below: the prune succeeds
    // and takes the root itself.
    let mut fs = Fs::new();
    assert!(fs.create_dir_all(&p(&["root", "a"])));
    assert!(fs.create_dir_all(&p(&["root", "b", "c"])));
    fs.write_file(&p(&["root", "a", ".marker"]), vec![0]);
    assert_eq!(delete_recursive(&mut fs, &p(&["root"])), Ok(()));
    assert!(!fs.is_dir(&p(&["root"])));
    assert!(!fs.is_dir(&p(&["root", "a"])));
    assert!(!fs.is_file(&p(&["root", "a", ".marker"])));
}

#[test]
fn delete_recursive_rejects_non_directory() {
    let mut fs = Fs::new();
    fs.write_file(&p(&["f.txt"]), vec![1]);
    assert_eq!(delete_recursive(&mut fs, &p(&["f.txt"])), Err(DirError::InvalidInput));
    assert_eq!(delete_recursive(&mut fs, &p(&["absent"])), Err(DirError::InvalidInput));
    assert!(fs.is_file(&p(&["f.txt"])));
}

#[test]
fn fs_write_read_remove() {
    let mut fs = Fs::new();
    assert!(fs.create_dir_all(&p(&["d"])));
    fs.write_file(&p(&["d", "x"]), vec![1, 2, 3]);
    assert_eq!(fs.read_file(&p(&["d", "x"])), Some(vec![1, 2, 3]));
    fs.write_file(&p(&["d", "x"]), vec![4]);
    assert_eq!(fs.read_file(&p(&["d", "x"])), Some(vec![4]));
    fs.remove_file(&p(&["d", "x"]));
    assert_eq!(fs.read_file(&p(&["d", "x"])), None);
    assert!(fs.is_dir(&p(&["d"])));
}

#[test]
fn create_dir_all_refuses_file_in_the_way() {
    let mut fs = Fs::new();
    fs.write_file(&p(&["block"]), vec![0]);
    assert!(!fs.create_dir_all(&p(&["block", "sub"])));
    assert!(!fs.is_dir(&p(&["block", "sub"])));
    assert!(fs.is_file(&p(&["block"])));
}

#[test]
fn path_helpers() {
    let a = p(&["x", "y", "z.txt"]);
    assert!(path_eq(&a, &p(&["x", "y", "z.txt"])));
    assert!(!path_eq(&a, &p(&["x", "y"])));
    assert!(starts_with(&p(&["x", "y"]), &a));
    assert!(!starts_with(&p(&["y"]), &a));
    assert_eq!(parent(&a), p(&["x", "y"]));
    assert_eq!(file_name(&a), "z.txt".to_string());
    assert_eq!(join(&p(&["x"]), &p(&["y", "w"])), p(&["x", "y", "w"]));
    assert_eq!(join_one(&p(&["x"]), &"v".to_string()), p(&["x", "v"]));
    assert_eq!(strip_prefix(&p(&["x", "y"]), &a), Some(vec!["z.txt".to_string()]));
    assert_eq!(strip_prefix(&p(&["q"]), &a), None);
    assert!(is_hidden(&".dot".to_string()));
    assert!(!is_hidden(&"dot".to_string()));
    assert!(!is_visible_name(&"".to_string()));
    assert!(is_visible_name(&"a".to_string()));
}

#[test]
fn stem_behaviour() {
    assert_eq!(stem(&"a.b.c".to_string()), "a.b".to_string());
    assert_eq!(stem(&".hidden".to_string()), ".hidden".to_string());
    assert_eq!(stem(&"plain".to_string()), "plain".to_string());
    assert_eq!(stem(&"photo.png".to_string()), "photo".to_string());
    assert_eq!(jpg_target_name(&"photo.png".to_string()), "photo.jpg".to_string());
    assert_eq!(jpg_target_name(&"note.txt".to_string()), "note.jpg".to_string());
    assert_eq!(jpg_target_name(&"already.jpg".to_string()), "already.jpg".to_string());
}

#[test]
fn decimal_text() {
    assert_eq!(usize_to_string(0), "0".to_string());
    assert_eq!(usize_to_string(7), "7".to_string());
    assert_eq!(usize_to_string(42), "42".to_string());
    assert_eq!(usize_to_string(1030), "1030".to_string());
}

#[test]
fn try_send_message_is_best_effort() {
    let (tx, rx) = std::sync::mpsc::channel::<String>();
    try_send_message(&Some(tx), "hello".to_string());
    assert_eq!(rx.recv().unwrap(), "hello".to_string());
    drop(rx);
    let (tx2, rx2) = std::sync::mpsc::channel::<String>();
    drop(rx2);
    // the receiver is gone: the send fails quietly
    try_send_message(&Some(tx2), "lost".to_string());
    try_send_message(&None, "nobody".to_string());
}
