use fstree::builder::{build_fs, BuildError};
use fstree::fsobject::{FSDir, FSObject, FileSystem};
use fstree::queries::{part_1, part_2};

fn lines(text: &[&str]) -> Vec<String> {
    text.iter().map(|l| l.to_string()).collect()
}

fn sample() -> Vec<String> {
    lines(&[
        "$ cd /",
        "$ ls",
        "dir a",
        "14848514 b.txt",
        "8504156 c.dat",
        "dir d",
        "$ cd a",
        "$ ls",
        "dir e",
        "29116 f",
        "2557 g",
        "62596 h.lst",
        "$ cd e",
        "$ ls",
        "584 i",
        "$ cd ..",
        "$ cd ..",
        "$ cd d",
        "$ ls",
        "4060174 j",
        "8033020 d.log",
        "5626152 d.ext",
        "7214296 k",
    ])
}

fn walk(fs: &FileSystem, root: &FSDir) -> Vec<(String, usize)> {
    root.find_dirs_recurs_by(fs, &|_d: &FSDir| true).iter().map(|d| (d.name(fs), d.size(fs))).collect()
}

fn listing(name: &str, size: usize) -> (String, usize) {
    (name.to_string(), size)
}

#[test]
fn sample_directories_have_the_known_sizes() {
    let (fs, root) = build_fs(sample()).unwrap();
    assert_eq!(
        walk(&fs, &root),
        vec![listing("/", 48381165), listing("a", 94853), listing("e", 584), listing("d", 24933642)]
    );
}

#[test]
fn sample_small_directories_total() {
    let (fs, root) = build_fs(sample()).unwrap();
    assert_eq!(part_1(&fs, &root, 100000), 95437);
}

#[test]
fn sample_directory_to_delete() {
    let (fs, root) = build_fs(sample()).unwrap();
    assert_eq!(root.size(&fs), 48381165);
    assert_eq!(part_2(&fs, &root, 70000000, 30000000), Some(24933642));
}

#[test]
fn nothing_needed_gives_the_root_of_a_tree_without_directories() {
    let (fs, root) = build_fs(lines(&["$ cd /", "$ ls", "100 a", "250 b"])).unwrap();
    assert_eq!(root.size(&fs), 350);
    assert_eq!(part_2(&fs, &root, 70000000, 30000000), Some(350));
}

#[test]
fn nothing_needed_gives_the_smallest_directory_of_all() {
    let (fs, root) = build_fs(sample()).unwrap();
    assert_eq!(part_2(&fs, &root, 100000000, 30000000), Some(584));
    assert_eq!(part_2(&fs, &root, 78381165, 30000000), Some(584));
}

#[test]
fn an_empty_root_needs_nothing_and_is_the_answer() {
    let (fs, root) = build_fs(Vec::new()).unwrap();
    assert_eq!(part_2(&fs, &root, 70000000, 30000000), Some(0));
    assert_eq!(part_1(&fs, &root, 100000), 0);
}

#[test]
fn no_directory_is_large_enough_when_more_is_required_than_the_device_holds() {
    let (fs, root) = build_fs(sample()).unwrap();
    assert_eq!(part_2(&fs, &root, 50000000, 50000001), None);
    assert_eq!(part_2(&fs, &root, 50000000, 50000000), Some(48381165));
}

#[test]
fn needed_space_is_measured_exactly() {
    let (fs, root) = build_fs(sample()).unwrap();
    assert_eq!(part_2(&fs, &root, 48381165 + 29999416, 30000000), Some(584));
    assert_eq!(part_2(&fs, &root, 48381165 + 29999415, 30000000), Some(94853));
    assert_eq!(part_2(&fs, &root, 48381165, 24933642), Some(24933642));
    assert_eq!(part_2(&fs, &root, 48381165, 24933643), Some(48381165));
}

#[test]
fn small_total_counts_nested_directories_each() {
    let (fs, root) = build_fs(sample()).unwrap();
    assert_eq!(part_1(&fs, &root, 583), 0);
    assert_eq!(part_1(&fs, &root, 584), 584);
    assert_eq!(part_1(&fs, &root, 94852), 584);
    assert_eq!(part_1(&fs, &root, 94853), 95437);
    assert_eq!(part_1(&fs, &root, 24933642), 95437 + 24933642);
    assert_eq!(part_1(&fs, &root, usize::MAX), 95437 + 24933642 + 48381165);
}

#[test]
fn the_root_counts_when_it_is_small() {
    let (fs, root) = build_fs(lines(&["$ ls", "5 f", "dir s", "$ cd s", "$ ls", "7 g"])).unwrap();
    assert_eq!(part_1(&fs, &root, 100), 12 + 7);
}

#[test]
fn the_root_is_there_before_the_first_line() {
    let (fs, root) = build_fs(Vec::new()).unwrap();
    assert_eq!(root.name(&fs), "/");
    assert_eq!(root.size(&fs), 0);
    assert_eq!(root.parent(&fs), None);
}

#[test]
fn listing_again_changes_nothing() {
    let mut twice = sample();
    twice.extend(lines(&["$ cd /", "$ ls", "dir a", "14848514 b.txt", "8504156 c.dat", "dir d", "$ cd a", "$ ls", "dir e", "29116 f", "2557 g", "62596 h.lst"]));
    let (fs, root) = build_fs(twice).unwrap();
    let (once_fs, once_root) = build_fs(sample()).unwrap();
    assert_eq!(walk(&fs, &root), walk(&once_fs, &once_root));
    assert_eq!(root.find_dirs_by(&fs, &|_d: &FSDir| true).len(), 2);
    assert!(root.contains(&fs, "b.txt"));
}

#[test]
fn listing_a_known_name_with_another_size_or_kind_changes_nothing() {
    let (fs, root) = build_fs(lines(&["$ ls", "10 x", "dir y", "999 x", "dir x", "5 y"])).unwrap();
    assert_eq!(root.size(&fs), 10);
    assert_eq!(walk(&fs, &root), vec![listing("/", 10), listing("y", 0)]);
    assert_eq!(root.get_dir(&fs, "x"), None);
}

#[test]
fn cd_creates_a_directory_that_a_later_listing_finds() {
    let (fs, root) = build_fs(lines(&["$ cd a", "$ ls", "3 f", "$ cd ..", "$ ls", "dir a", "4 g"])).unwrap();
    assert_eq!(walk(&fs, &root), vec![listing("/", 7), listing("a", 3)]);
}

#[test]
fn cd_root_returns_to_the_root_from_any_depth() {
    let (fs, root) = build_fs(lines(&["$ cd a", "$ cd b", "$ cd c", "$ cd /", "$ ls", "5 top"])).unwrap();
    assert!(root.contains(&fs, "top"));
    assert!(root.contains(&fs, "a"));
    assert_eq!(walk(&fs, &root), vec![listing("/", 5), listing("a", 0), listing("b", 0), listing("c", 0)]);
    let c = root.get_dir(&fs, "a").unwrap().get_dir(&fs, "b").unwrap().get_dir(&fs, "c").unwrap();
    assert!(!c.contains(&fs, "top"));
}

#[test]
fn cd_up_at_the_root_stays_at_the_root() {
    let (fs, root) = build_fs(lines(&["$ cd ..", "$ cd ..", "$ ls", "8 f", "$ cd a", "$ cd ..", "$ cd ..", "$ ls", "1 g"])).unwrap();
    assert_eq!(root.size(&fs), 9);
    assert!(root.contains(&fs, "f"));
    assert!(root.contains(&fs, "g"));
    assert_eq!(root.parent(&fs), None);
    assert!(!root.get_dir(&fs, "a").unwrap().contains(&fs, "g"));
}

#[test]
fn cd_up_leads_to_the_parent() {
    let (fs, root) = build_fs(lines(&["$ cd a", "$ cd b", "$ cd ..", "$ ls", "2 in_a"])).unwrap();
    let a = root.get_dir(&fs, "a").unwrap();
    assert!(a.contains(&fs, "in_a"));
    assert!(a.contains(&fs, "b"));
    assert!(!root.contains(&fs, "in_a"));
}

#[test]
fn directories_called_like_the_targets_are_only_listed() {
    let (fs, root) = build_fs(lines(&["$ ls", "dir ..", "dir /", "$ cd /", "$ cd ..", "$ ls", "1 f"])).unwrap();
    assert_eq!(walk(&fs, &root), vec![listing("/", 1), listing("..", 0), listing("/", 0)]);
}

#[test]
fn fields_may_be_spaced_freely() {
    let (fs, root) = build_fs(lines(&["  $   cd   a  ", "\t$\tls", "   12    f   "])).unwrap();
    assert_eq!(walk(&fs, &root), vec![listing("/", 12), listing("a", 12)]);
}

#[test]
fn a_blank_line_is_malformed() {
    assert_eq!(build_fs(lines(&[""])).err(), Some(BuildError::MalformedLine));
    assert_eq!(build_fs(lines(&["$ ls", "1 a", "   ", "2 b"])).err(), Some(BuildError::MalformedLine));
}

#[test]
fn a_line_with_the_wrong_number_of_fields_is_malformed() {
    assert_eq!(build_fs(lines(&["$"])).err(), Some(BuildError::MalformedLine));
    assert_eq!(build_fs(lines(&["$ cd"])).err(), Some(BuildError::MalformedLine));
    assert_eq!(build_fs(lines(&["$ cd a b"])).err(), Some(BuildError::MalformedLine));
    assert_eq!(build_fs(lines(&["$ ls -l"])).err(), Some(BuildError::MalformedLine));
    assert_eq!(build_fs(lines(&["$ ls", "dir"])).err(), Some(BuildError::MalformedLine));
    assert_eq!(build_fs(lines(&["$ ls", "dir a b"])).err(), Some(BuildError::MalformedLine));
    assert_eq!(build_fs(lines(&["$ ls", "12"])).err(), Some(BuildError::MalformedLine));
    assert_eq!(build_fs(lines(&["$ ls", "12 a b"])).err(), Some(BuildError::MalformedLine));
}

#[test]
fn another_command_is_unknown() {
    assert_eq!(build_fs(lines(&["$ rm a"])).err(), Some(BuildError::UnknownCommand));
    assert_eq!(build_fs(lines(&["$ CD a"])).err(), Some(BuildError::UnknownCommand));
    assert_eq!(build_fs(lines(&["$ lss"])).err(), Some(BuildError::UnknownCommand));
    assert_eq!(build_fs(lines(&["$ pwd x y z"])).err(), Some(BuildError::UnknownCommand));
}

#[test]
fn a_listing_line_without_ls_is_unknown() {
    assert_eq!(build_fs(lines(&["12 a"])).err(), Some(BuildError::UnknownCommand));
    assert_eq!(build_fs(lines(&["dir a"])).err(), Some(BuildError::UnknownCommand));
    assert_eq!(build_fs(lines(&["$ ls", "1 a", "$ cd x", "2 b"])).err(), Some(BuildError::UnknownCommand));
    assert_eq!(build_fs(lines(&["$$ ls"])).err(), Some(BuildError::UnknownCommand));
}

#[test]
fn a_size_that_is_no_number_is_invalid() {
    assert_eq!(build_fs(lines(&["$ ls", "12x a"])).err(), Some(BuildError::InvalidSize));
    assert_eq!(build_fs(lines(&["$ ls", "-5 a"])).err(), Some(BuildError::InvalidSize));
    assert_eq!(build_fs(lines(&["$ ls", "DIR a"])).err(), Some(BuildError::InvalidSize));
    assert_eq!(build_fs(lines(&["$ ls", "1 a", "x a"])).err(), Some(BuildError::InvalidSize));
    assert_eq!(build_fs(lines(&["$ ls", "340282366920938463463374607431768211456 a"])).err(), Some(BuildError::InvalidSize));
}

#[test]
fn cd_into_the_name_of_a_file_puts_a_directory_in_its_place() {
    let (fs, root) = build_fs(lines(&["$ ls", "12 a", "7 b", "$ cd a", "$ ls", "30 c"])).unwrap();
    assert_eq!(walk(&fs, &root), vec![listing("/", 49), listing("a", 30)]);
    let a = root.get_dir(&fs, "a").unwrap();
    assert_eq!(a.parent(&fs), Some(root));
    assert!(a.contains(&fs, "c"));
    assert!(root.contains(&fs, "b"));
}

#[test]
fn a_directory_in_the_place_of_a_file_is_entered_again() {
    let (fs, root) = build_fs(lines(&["$ ls", "12 a", "$ cd a", "$ cd ..", "$ cd a", "$ ls", "5 x", "dir a"])).unwrap();
    assert_eq!(walk(&fs, &root), vec![listing("/", 17), listing("a", 5), listing("a", 0)]);
}

#[test]
fn sizes_beyond_usize_overflow() {
    let max = usize::MAX.to_string();
    let all = format!("{} big", max);
    let (fs, root) = build_fs(lines(&["$ ls", &all])).unwrap();
    assert_eq!(root.size(&fs), usize::MAX);
    assert_eq!(build_fs(lines(&["$ ls", &all, "1 more"])).err(), Some(BuildError::SizeOverflow));
    assert_eq!(build_fs(lines(&["$ ls", "1 one", "$ cd d", "$ cd e", "$ ls", &all])).err(), Some(BuildError::SizeOverflow));
    let (fs, root) = build_fs(lines(&["$ ls", &all, "0 nothing", "dir d"])).unwrap();
    assert_eq!(root.size(&fs), usize::MAX);
}

#[test]
fn the_first_bad_line_decides() {
    assert_eq!(build_fs(lines(&["$ ls", "x a", "$ rm"])).err(), Some(BuildError::InvalidSize));
    assert_eq!(build_fs(lines(&["$ rm", "$ ls", "x a"])).err(), Some(BuildError::UnknownCommand));
    assert_eq!(build_fs(lines(&["$ cd a", "", "$ rm"])).err(), Some(BuildError::MalformedLine));
}

#[test]
fn a_plus_sign_may_stand_before_a_size() {
    let (fs, root) = build_fs(lines(&["$ ls", "+15 a"])).unwrap();
    assert_eq!(root.size(&fs), 15);
}

#[test]
fn every_directory_is_as_large_as_its_files_together() {
    let (fs, root) = build_fs(lines(&[
        "$ ls", "1 a", "dir x", "dir y", "$ cd x", "$ ls", "10 b", "dir z", "$ cd z", "$ ls", "100 c", "1000 d",
        "$ cd /", "$ cd y", "$ ls", "10000 e", "$ cd w", "$ ls", "100000 f",
    ]))
    .unwrap();
    assert_eq!(
        walk(&fs, &root),
        vec![listing("/", 111111), listing("x", 1110), listing("z", 1100), listing("y", 110000), listing("w", 100000)]
    );
}
