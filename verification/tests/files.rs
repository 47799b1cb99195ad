use advent::files::{FileSystem, INode};
use advent::files::{read_command, read_terminal, Command};

fn sample() -> FileSystem {
    let mut fs = FileSystem::new();
    let root = fs.add_directory("", None);
    let a = fs.add_directory("a", Some(root));
    fs.add_file("b.txt", 14848514, Some(root));
    fs.add_file("c.dat", 8504156, Some(root));
    let d = fs.add_directory("d", Some(root));
    let e = fs.add_directory("e", Some(a));
    fs.add_file("f", 29116, Some(a));
    fs.add_file("g", 2557, Some(a));
    fs.add_file("h.lst", 62596, Some(a));
    fs.add_file("i", 584, Some(e));
    fs.add_file("j", 4060174, Some(d));
    fs.add_file("d.log", 8033020, Some(d));
    fs.add_file("d.ext", 5626152, Some(d));
    fs.add_file("k", 7214296, Some(d));
    fs
}

#[test]
fn files_of_the_sample() {
    let fs = sample();
    assert_eq!(fs.scan_directories(), Some((95437, 24933642)));
    let mut cache = vec![None; fs.nodes.len()];
    assert_eq!(fs.directory_size(&mut cache, 5), Some(584));
    assert_eq!(cache[5], Some(584));
    assert_eq!(cache[0], None);
    assert_eq!(fs.directory_size(&mut cache, 1), Some(94853));
    assert_eq!(fs.directory_size(&mut cache, 4), Some(24933642));
    assert_eq!(fs.directory_size(&mut cache, 0), Some(48381165));
    assert_eq!(fs.directory_size(&mut cache, 2), Some(14848514));
    assert_eq!(cache[2], None);
    assert_eq!(cache[0], Some(48381165));
}

#[test]
fn files_are_linked_to_their_parents() {
    let mut fs = FileSystem::new();
    assert_eq!(fs.add_directory("root", None), 0);
    assert_eq!(fs.add_file("x", 5, Some(0)), 1);
    assert_eq!(fs.add_directory("sub", Some(0)), 2);
    assert_eq!(fs.add_file("y", 7, Some(2)), 3);
    assert_eq!(fs.add_file("z", 9, Some(1)), 4);
    assert_eq!(fs.add_file("loose", 11, None), 5);
    match &fs.nodes[0] {
        INode::Directory(name, parent, children) => {
            assert_eq!(name, "root");
            assert_eq!(*parent, None);
            assert_eq!(children, &vec![1, 2]);
        }
        _ => panic!("no directory"),
    }
    match &fs.nodes[2] {
        INode::Directory(name, parent, children) => {
            assert_eq!(name, "sub");
            assert_eq!(*parent, Some(0));
            assert_eq!(children, &vec![3]);
        }
        _ => panic!("no directory"),
    }
    match &fs.nodes[4] {
        INode::File(name, parent, size) => {
            assert_eq!(name, "z");
            assert_eq!(*parent, Some(1));
            assert_eq!(*size, 9);
        }
        _ => panic!("no file"),
    }
    let mut cache = vec![None; 6];
    assert_eq!(fs.directory_size(&mut cache, 0), Some(12));
    assert_eq!(fs.directory_size(&mut cache, 4), Some(9));
}

#[test]
fn files_that_cannot_be_scanned() {
    assert_eq!(FileSystem::new().scan_directories(), None);
    let mut fs = FileSystem::new();
    fs.add_file("x", 5, None);
    assert_eq!(fs.scan_directories(), None);
    fs.add_directory("late", None);
    assert_eq!(fs.scan_directories(), None);
    let mut fs = FileSystem::new();
    fs.add_directory("", None);
    assert_eq!(fs.scan_directories(), Some((0, 0)));
    fs.add_file("big", 70_000_000, Some(0));
    assert_eq!(fs.scan_directories(), Some((0, 70_000_000)));
    fs.add_file("more", 1, Some(0));
    assert_eq!(fs.scan_directories(), None);
    let mut fs = FileSystem::new();
    fs.add_directory("", None);
    fs.add_file("half", 50_000_000, Some(0));
    fs.add_directory("small", Some(0));
    fs.add_file("bit", 9_999_999, Some(2));
    assert_eq!(fs.scan_directories(), Some((0, 59_999_999)));
    fs.add_file("one", 1, Some(2));
    assert_eq!(fs.scan_directories(), Some((0, 60_000_000)));
    let mut fs = FileSystem::new();
    fs.add_directory("", None);
    fs.add_file("a", u32::MAX, Some(0));
    fs.add_file("b", 1, Some(0));
    assert_eq!(fs.scan_directories(), None);
    let mut cache = vec![None; 3];
    assert_eq!(fs.directory_size(&mut cache, 0), None);
    assert_eq!(fs.directory_size(&mut cache, 1), Some(u32::MAX));
}

#[test]
fn files_moderate_directories_are_summed() {
    let mut fs = FileSystem::new();
    fs.add_directory("", None);
    for k in 0..5 {
        let d = fs.add_directory("d", Some(0));
        fs.add_file("f", 99_998 + k, Some(d));
    }
    assert_eq!(fs.scan_directories(), Some((99_998 + 99_999 + 100_000, 99_998)));
    let mut fs = FileSystem::new();
    fs.add_directory("", None);
    fs.add_file("f", 45_000_000, Some(0));
    let mut last = 0;
    for _ in 0..3 {
        last = fs.add_directory("d", Some(last));
    }
    fs.add_file("deep", 5_000_000, Some(last));
    fs.add_directory("other", None);
    assert_eq!(fs.scan_directories(), Some((0, 50_000_000)));
    fs.add_file("pad", 5_000_000, Some(last));
    assert_eq!(fs.scan_directories(), Some((0, 55_000_000)));
    fs.add_file("more", 5_000_000, Some(last));
    assert_eq!(fs.scan_directories(), Some((0, 60_000_000)));
}

fn chars_of_lines(v: &[&str]) -> Vec<Vec<char>> {
    v.iter().map(|l| l.chars().collect()).collect()
}

#[test]
fn command_of_a_line() {
    let read = |s: &str| read_command(&s.chars().collect());
    assert!(matches!(read("$ cd /"), Some(Command::Root)));
    assert!(matches!(read("$ cd .."), Some(Command::Up)));
    assert!(matches!(read("$ cd abc"), Some(Command::Down)));
    assert!(matches!(read("$ cd "), Some(Command::Down)));
    assert!(matches!(read("$ cd"), None));
    assert!(matches!(read("$ ls"), Some(Command::Skip)));
    assert!(matches!(read("dir abc"), Some(Command::Skip)));
    assert!(matches!(read(""), Some(Command::Skip)));
    match read("14848514 b.txt") {
        Some(Command::File(name, size)) => {
            assert_eq!(name, "b.txt");
            assert_eq!(size, 14848514);
        }
        _ => panic!(),
    }
    assert!(matches!(read("x b.txt"), None));
    assert!(matches!(read("123"), None));
    assert!(matches!(read("4294967296 big"), None));
}

#[test]
fn tree_of_a_terminal() {
    let fs = read_terminal(&chars_of_lines(&[
        "$ cd /",
        "$ ls",
        "dir a",
        "14848514 b.txt",
        "$ cd a",
        "29116 f",
        "$ cd ..",
        "$ cd d",
        "4060174 j",
        "",
    ]))
    .unwrap();
    assert_eq!(fs.nodes.len(), 6);
    match &fs.nodes[0] {
        INode::Directory(name, parent, children) => {
            assert_eq!(name, "");
            assert_eq!(*parent, None);
            assert_eq!(*children, vec![1, 2, 4]);
        }
        _ => panic!(),
    }
    match &fs.nodes[2] {
        INode::Directory(name, parent, children) => {
            assert_eq!(name, "dn");
            assert_eq!(*parent, Some(0));
            assert_eq!(*children, vec![3]);
        }
        _ => panic!(),
    }
    match &fs.nodes[5] {
        INode::File(name, parent, size) => {
            assert_eq!(name, "j");
            assert_eq!(*parent, Some(4));
            assert_eq!(*size, 4060174);
        }
        _ => panic!(),
    }
    assert!(read_terminal(&chars_of_lines(&["123 a"])).is_none());
    assert!(read_terminal(&chars_of_lines(&["$ cd x"])).is_none());
    assert!(read_terminal(&chars_of_lines(&["$ cd /", "oops"])).is_none());
    assert!(read_terminal(&chars_of_lines(&["$ cd ..", "$ cd /", "1 a"])).is_some());
    assert!(read_terminal(&chars_of_lines(&[])).unwrap().nodes.is_empty());
}
