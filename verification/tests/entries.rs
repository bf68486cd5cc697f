use fstree::fsobject::{FSDir, FSFile, FSObject, FileSystem};

fn names(fs: &FileSystem, dirs: &[FSDir]) -> Vec<String> {
    dirs.iter().map(|d| d.name(fs)).collect()
}

#[test]
fn new_directory_is_empty_and_detached() {
    let mut fs = FileSystem::new();
    let d = FSDir::new(&mut fs, "home".to_string());
    assert_eq!(d.name(&fs), "home");
    assert_eq!(d.size(&fs), 0);
    assert_eq!(d.parent(&fs), None);
    assert!(!d.contains(&fs, "home"));
    assert!(d.find_dirs_by(&fs, &|_d: &FSDir| true).is_empty());
}

#[test]
fn new_file_keeps_name_and_size() {
    let mut fs = FileSystem::new();
    let f = FSFile::new(&mut fs, "notes.txt".to_string(), 1234);
    assert_eq!(f.name(&fs), "notes.txt");
    assert_eq!(f.size(&fs), 1234);
    assert_eq!(f.parent(&fs), None);
}

#[test]
fn add_file_sets_parent_and_grows_directory() {
    let mut fs = FileSystem::new();
    let d = FSDir::new(&mut fs, "d".to_string());
    let f = FSFile::new(&mut fs, "f".to_string(), 70);
    d.add_file(&mut fs, f);
    assert_eq!(f.parent(&fs), Some(d));
    assert_eq!(d.size(&fs), 70);
    assert!(d.contains(&fs, "f"));
    assert!(!d.contains(&fs, "g"));
}

#[test]
fn size_reaches_every_ancestor() {
    let mut fs = FileSystem::new();
    let root = FSDir::new(&mut fs, "/".to_string());
    let a = FSDir::new(&mut fs, "a".to_string());
    let b = FSDir::new(&mut fs, "b".to_string());
    let other = FSDir::new(&mut fs, "other".to_string());
    root.add_dir(&mut fs, a);
    root.add_dir(&mut fs, other);
    a.add_dir(&mut fs, b);
    let f = FSFile::new(&mut fs, "f".to_string(), 11);
    b.add_file(&mut fs, f);
    let g = FSFile::new(&mut fs, "g".to_string(), 5);
    a.add_file(&mut fs, g);
    assert_eq!(b.size(&fs), 11);
    assert_eq!(a.size(&fs), 16);
    assert_eq!(root.size(&fs), 16);
    assert_eq!(other.size(&fs), 0);
    assert_eq!(b.parent(&fs), Some(a));
    assert_eq!(a.parent(&fs), Some(root));
    assert_eq!(root.parent(&fs), None);
}

#[test]
fn attaching_a_filled_directory_adds_its_size() {
    let mut fs = FileSystem::new();
    let sub = FSDir::new(&mut fs, "sub".to_string());
    let f = FSFile::new(&mut fs, "f".to_string(), 40);
    sub.add_file(&mut fs, f);
    let deep = FSDir::new(&mut fs, "deep".to_string());
    sub.add_dir(&mut fs, deep);
    let g = FSFile::new(&mut fs, "g".to_string(), 2);
    deep.add_file(&mut fs, g);
    let root = FSDir::new(&mut fs, "/".to_string());
    let top = FSDir::new(&mut fs, "top".to_string());
    root.add_dir(&mut fs, top);
    let h = FSFile::new(&mut fs, "h".to_string(), 100);
    top.add_file(&mut fs, h);
    top.add_dir(&mut fs, sub);
    assert_eq!(sub.size(&fs), 42);
    assert_eq!(top.size(&fs), 142);
    assert_eq!(root.size(&fs), 142);
    assert_eq!(sub.parent(&fs), Some(top));
    let all = root.find_dirs_recurs_by(&fs, &|_d: &FSDir| true);
    assert_eq!(names(&fs, &all), vec!["/", "top", "sub", "deep"]);
}

#[test]
fn get_dir_finds_directories_only() {
    let mut fs = FileSystem::new();
    let root = FSDir::new(&mut fs, "/".to_string());
    let a = FSDir::new(&mut fs, "a".to_string());
    let f = FSFile::new(&mut fs, "f".to_string(), 1);
    root.add_dir(&mut fs, a);
    root.add_file(&mut fs, f);
    assert_eq!(root.get_dir(&fs, "a"), Some(a));
    assert_eq!(root.get_dir(&fs, "f"), None);
    assert_eq!(root.get_dir(&fs, "missing"), None);
    assert!(root.contains(&fs, "f"));
    assert!(root.contains(&fs, "a"));
}

#[test]
fn contains_looks_at_direct_children_only() {
    let mut fs = FileSystem::new();
    let root = FSDir::new(&mut fs, "/".to_string());
    let a = FSDir::new(&mut fs, "a".to_string());
    let b = FSDir::new(&mut fs, "b".to_string());
    root.add_dir(&mut fs, a);
    a.add_dir(&mut fs, b);
    assert!(!root.contains(&fs, "b"));
    assert_eq!(root.get_dir(&fs, "b"), None);
    assert_eq!(a.get_dir(&fs, "b"), Some(b));
}

#[test]
fn find_dirs_by_gives_children_in_name_order() {
    let mut fs = FileSystem::new();
    let root = FSDir::new(&mut fs, "/".to_string());
    for name in ["pear", "apple", "zoo", "Beta", "fig"] {
        let d = FSDir::new(&mut fs, name.to_string());
        root.add_dir(&mut fs, d);
    }
    let f = FSFile::new(&mut fs, "banana".to_string(), 3);
    root.add_file(&mut fs, f);
    let inner = FSDir::new(&mut fs, "inner".to_string());
    let apple = root.get_dir(&fs, "apple").unwrap();
    apple.add_dir(&mut fs, inner);
    let all = root.find_dirs_by(&fs, &|_d: &FSDir| true);
    assert_eq!(names(&fs, &all), vec!["Beta", "apple", "fig", "pear", "zoo"]);
    let long = root.find_dirs_by(&fs, &|d: &FSDir| d.name(&fs).len() > 3);
    assert_eq!(names(&fs, &long), vec!["Beta", "apple", "pear"]);
    let none = root.find_dirs_by(&fs, &|_d: &FSDir| false);
    assert!(none.is_empty());
}

#[test]
fn find_dirs_recurs_by_goes_in_pre_order() {
    let mut fs = FileSystem::new();
    let root = FSDir::new(&mut fs, "/".to_string());
    let b = FSDir::new(&mut fs, "b".to_string());
    let a = FSDir::new(&mut fs, "a".to_string());
    root.add_dir(&mut fs, b);
    root.add_dir(&mut fs, a);
    let ay = FSDir::new(&mut fs, "y".to_string());
    let ax = FSDir::new(&mut fs, "x".to_string());
    a.add_dir(&mut fs, ay);
    a.add_dir(&mut fs, ax);
    let bx = FSDir::new(&mut fs, "x".to_string());
    b.add_dir(&mut fs, bx);
    let axz = FSDir::new(&mut fs, "z".to_string());
    ax.add_dir(&mut fs, axz);
    let f = FSFile::new(&mut fs, "file".to_string(), 9);
    ax.add_file(&mut fs, f);
    let all = root.find_dirs_recurs_by(&fs, &|_d: &FSDir| true);
    assert_eq!(all, vec![root, a, ax, axz, ay, b, bx]);
    let sized = root.find_dirs_recurs_by(&fs, &|d: &FSDir| d.size(&fs) > 0);
    assert_eq!(sized, vec![root, a, ax]);
    let below_a = a.find_dirs_recurs_by(&fs, &|d: &FSDir| d.name(&fs) != "x");
    assert_eq!(below_a, vec![a, axz, ay]);
}

#[test]
fn a_rejected_directory_is_still_searched() {
    let mut fs = FileSystem::new();
    let root = FSDir::new(&mut fs, "/".to_string());
    let big = FSDir::new(&mut fs, "big".to_string());
    let small = FSDir::new(&mut fs, "small".to_string());
    root.add_dir(&mut fs, big);
    big.add_dir(&mut fs, small);
    let f = FSFile::new(&mut fs, "f".to_string(), 10);
    small.add_file(&mut fs, f);
    let g = FSFile::new(&mut fs, "g".to_string(), 1000);
    big.add_file(&mut fs, g);
    let found = root.find_dirs_recurs_by(&fs, &|d: &FSDir| d.size(&fs) <= 100);
    assert_eq!(found, vec![small]);
}

#[test]
fn names_sort_by_code_point() {
    let mut fs = FileSystem::new();
    let root = FSDir::new(&mut fs, "/".to_string());
    for name in ["é", "z", "a", "ab", "A", "~", "日本"] {
        let d = FSDir::new(&mut fs, name.to_string());
        root.add_dir(&mut fs, d);
    }
    let all = root.find_dirs_by(&fs, &|_d: &FSDir| true);
    let mut expected = vec!["é", "z", "a", "ab", "A", "~", "日本"];
    expected.sort();
    assert_eq!(names(&fs, &all), expected);
    assert_eq!(names(&fs, &all), vec!["A", "a", "ab", "z", "~", "é", "日本"]);
}

#[test]
fn a_later_child_takes_the_place_of_one_with_its_name() {
    let mut fs = FileSystem::new();
    let root = FSDir::new(&mut fs, "/".to_string());
    let first = FSDir::new(&mut fs, "a".to_string());
    let f = FSFile::new(&mut fs, "f".to_string(), 5);
    first.add_file(&mut fs, f);
    root.add_dir(&mut fs, first);
    assert_eq!(root.size(&fs), 5);
    let second = FSDir::new(&mut fs, "a".to_string());
    let g = FSFile::new(&mut fs, "g".to_string(), 3);
    second.add_file(&mut fs, g);
    root.add_dir(&mut fs, second);
    assert!(root.contains(&fs, "a"));
    assert_eq!(root.get_dir(&fs, "a"), Some(second));
    assert_eq!(root.find_dirs_by(&fs, &|_d: &FSDir| true), vec![second]);
    assert_eq!(root.find_dirs_recurs_by(&fs, &|_d: &FSDir| true), vec![root, second]);
    assert_eq!(root.size(&fs), 8);
    assert_eq!(first.size(&fs), 5);
    assert_eq!(first.parent(&fs), Some(root));
    assert_eq!(second.parent(&fs), Some(root));
}

#[test]
fn what_a_replaced_directory_receives_still_reaches_the_root() {
    let mut fs = FileSystem::new();
    let root = FSDir::new(&mut fs, "/".to_string());
    let first = FSDir::new(&mut fs, "a".to_string());
    root.add_dir(&mut fs, first);
    let second = FSDir::new(&mut fs, "a".to_string());
    root.add_dir(&mut fs, second);
    let f = FSFile::new(&mut fs, "f".to_string(), 2);
    first.add_file(&mut fs, f);
    let g = FSFile::new(&mut fs, "g".to_string(), 7);
    second.add_file(&mut fs, g);
    assert_eq!(first.size(&fs), 2);
    assert_eq!(second.size(&fs), 7);
    assert_eq!(root.size(&fs), 9);
}

#[test]
fn a_file_takes_the_place_of_a_directory_with_its_name() {
    let mut fs = FileSystem::new();
    let root = FSDir::new(&mut fs, "/".to_string());
    let dir = FSDir::new(&mut fs, "x".to_string());
    root.add_dir(&mut fs, dir);
    let file = FSFile::new(&mut fs, "x".to_string(), 4);
    root.add_file(&mut fs, file);
    assert!(root.contains(&fs, "x"));
    assert_eq!(root.get_dir(&fs, "x"), None);
    assert!(root.find_dirs_by(&fs, &|_d: &FSDir| true).is_empty());
    assert_eq!(root.find_dirs_recurs_by(&fs, &|_d: &FSDir| true), vec![root]);
    assert_eq!(root.size(&fs), 4);
    assert_eq!(file.parent(&fs), Some(root));
}

#[test]
fn a_replacement_stands_where_its_name_belongs() {
    let mut fs = FileSystem::new();
    let root = FSDir::new(&mut fs, "/".to_string());
    let a = FSDir::new(&mut fs, "a".to_string());
    let b = FSDir::new(&mut fs, "b".to_string());
    let c = FSDir::new(&mut fs, "c".to_string());
    root.add_dir(&mut fs, c);
    root.add_dir(&mut fs, a);
    root.add_dir(&mut fs, b);
    let later = FSDir::new(&mut fs, "b".to_string());
    root.add_dir(&mut fs, later);
    assert_eq!(root.find_dirs_by(&fs, &|_d: &FSDir| true), vec![a, later, c]);
    let first = FSDir::new(&mut fs, "a".to_string());
    root.add_dir(&mut fs, first);
    let last = FSDir::new(&mut fs, "c".to_string());
    root.add_dir(&mut fs, last);
    assert_eq!(root.find_dirs_by(&fs, &|_d: &FSDir| true), vec![first, later, last]);
}
