use ringest::error::{Error, FileSystemError};
use ringest::fs::dir::{Detached, Directory, Node};
use ringest::fs::file::File;

fn file(name: &str, size: u64) -> File {
    File::new(name, &format!("/{}", name), size, 0)
}

fn dir(path: &str, dirs: Vec<Directory>, files: Vec<File>) -> Directory {
    let mut d = Directory::new(path.to_string());
    for sub in dirs {
        d.add_directory(sub);
    }
    for f in files {
        d.add_file(f);
    }
    d
}

fn sample() -> Directory {
    dir(
        "root",
        vec![
            dir(
                "a",
                vec![dir("deep", vec![], vec![file("x.rs", 7)])],
                vec![file("a1", 10), file("a2", 20)],
            ),
            dir("b", vec![], vec![]),
            dir("c", vec![], vec![file("x.rs", 1)]),
        ],
        vec![file("top", 100), file("x.rs", 1000)],
    )
}

fn label(n: &Node) -> String {
    match n {
        Node::Dir(d) => format!("dir:{}", d.path),
        Node::File(f) => format!("file:{}:{}", f.name, f.size),
    }
}

#[test]
fn stats_total_the_whole_tree() {
    let s = sample().stats().unwrap();
    assert_eq!(s.total_size, 100 + 1000 + 10 + 20 + 7 + 1);
    assert_eq!(s.file_count, 6);
    assert_eq!(s.dir_count, 4);
    let empty = Directory::new("e".to_string()).stats().unwrap();
    assert_eq!((empty.total_size, empty.file_count, empty.dir_count), (0, 0, 0));
}

#[test]
fn stats_that_leave_the_range_are_none() {
    let d = dir(
        "r",
        vec![dir("s", vec![], vec![file("big", u64::MAX)])],
        vec![file("one", 1)],
    );
    assert!(d.stats().is_none());
    let d = dir("r", vec![], vec![file("big", u64::MAX - 1), file("one", 1)]);
    assert_eq!(d.stats().unwrap().total_size, u64::MAX);
    let d = dir("r", vec![], vec![file("big", u64::MAX), file("one", 1)]);
    assert!(d.stats().is_none());
}

#[test]
fn find_returns_the_first_match_in_visiting_order() {
    let tree = sample();
    let found = tree.find(&|n: &Node| matches!(n, Node::File(f) if f.name == "x.rs")).unwrap();
    assert_eq!(label(&found), "file:x.rs:1000");
    let found = tree.find(&|n: &Node| matches!(n, Node::File(f) if f.size < 10)).unwrap();
    assert_eq!(label(&found), "file:x.rs:7");
    let found = tree.find(&|n: &Node| matches!(n, Node::Dir(_))).unwrap();
    assert_eq!(label(&found), "dir:a");
    let found = tree.find(&|n: &Node| matches!(n, Node::Dir(d) if d.subfiles.is_empty())).unwrap();
    assert_eq!(label(&found), "dir:b");
    assert!(tree.find(&|n: &Node| matches!(n, Node::File(f) if f.size == 5)).is_none());
    assert!(Directory::new("e".to_string()).find(&|_: &Node| true).is_none());
}

#[test]
fn find_all_collects_every_match_in_visiting_order() {
    let tree = sample();
    let mut all = Vec::new();
    tree.find_all(&|_: &Node| true, &mut all);
    let labels: Vec<String> = all.iter().map(label).collect();
    assert_eq!(
        labels,
        vec![
            "file:top:100",
            "file:x.rs:1000",
            "dir:a",
            "file:a1:10",
            "file:a2:20",
            "dir:deep",
            "file:x.rs:7",
            "dir:b",
            "dir:c",
            "file:x.rs:1",
        ]
    );
    let mut some = vec![Node::Dir(&tree)];
    tree.find_all(&|n: &Node| matches!(n, Node::File(f) if f.name == "x.rs"), &mut some);
    let labels: Vec<String> = some.iter().map(label).collect();
    assert_eq!(labels, vec!["dir:root", "file:x.rs:1000", "file:x.rs:7", "file:x.rs:1"]);
    let mut none = Vec::new();
    tree.find_all(&|_: &Node| false, &mut none);
    assert!(none.is_empty());
}

#[test]
fn remove_takes_a_file_before_a_directory_of_the_same_name() {
    let mut d = dir(
        "r",
        vec![dir("same", vec![], vec![]), dir("only", vec![], vec![]), dir("third", vec![], vec![])],
        vec![file("f", 1), file("same", 2), file("g", 3), file("h", 4)],
    );
    match d.remove(&"same".to_string()) {
        Ok(Detached::File(f)) => assert_eq!((f.name.as_str(), f.size), ("same", 2)),
        _ => panic!("expected the file"),
    }
    let names: Vec<&str> = d.subfiles.iter().map(|f| f.name.as_str()).collect();
    assert_eq!(names, vec!["f", "h", "g"]);
    assert_eq!(d.subdirectories.len(), 3);
    match d.remove(&"same".to_string()) {
        Ok(Detached::Dir(sub)) => assert_eq!(sub.path, "same"),
        _ => panic!("expected the directory"),
    }
    let paths: Vec<&str> = d.subdirectories.iter().map(|s| s.path.as_str()).collect();
    assert_eq!(paths, vec!["third", "only"]);
    match d.remove(&"same".to_string()) {
        Err(Error::FileSystemError(FileSystemError::PathNotFound(p))) => {
            assert_eq!(p, std::path::PathBuf::from("same"))
        }
        _ => panic!("expected path not found"),
    }
    for (name, size) in [("g", 3u64), ("f", 1), ("h", 4)] {
        match d.remove(&name.to_string()) {
            Ok(Detached::File(f)) => assert_eq!((f.name.as_str(), f.size), (name, size)),
            _ => panic!("expected a file"),
        }
    }
    assert!(d.subfiles.is_empty());
    match d.remove(&"only".to_string()) {
        Ok(Detached::Dir(sub)) => assert_eq!(sub.path, "only"),
        _ => panic!("expected the directory"),
    }
    assert_eq!(d.subdirectories.len(), 1);
    assert_eq!(d.path, "r");
}

#[test]
fn an_entry_recorded_again_replaces_the_one_of_its_name() {
    let mut d = Directory::new("r".to_string());
    d.add_file(file("a", 1));
    d.add_file(file("b", 2));
    d.add_file(file("a", 10));
    let seen: Vec<(&str, u64)> = d.subfiles.iter().map(|f| (f.name.as_str(), f.size)).collect();
    assert_eq!(seen, vec![("a", 10), ("b", 2)]);
    d.add_directory(dir("x", vec![], vec![file("one", 1)]));
    d.add_directory(dir("x", vec![], vec![]));
    assert_eq!(d.subdirectories.len(), 1);
    assert!(d.subdirectories[0].subfiles.is_empty());
    assert_eq!(d.stats().unwrap().total_size, 12);
    match d.remove(&"a".to_string()) {
        Ok(Detached::File(f)) => assert_eq!(f.size, 10),
        _ => panic!("expected the file"),
    }
    assert!(d.remove(&"a".to_string()).is_err());
}
