use elf_expedition::filesystem::{Command, FileSize, FileSystem, FsError, NodeEntry, ID};
use elf_expedition::transcript::read_commands;

const TRANSCRIPT: &str = "$ cd /
$ ls
dir a
14848514 b.txt
8504156 c.dat
dir d
$ cd a
$ ls
dir e
29116 f
2557 g
62596 h.lst
$ cd e
$ ls
584 i
$ cd ..
$ cd ..
$ cd d
$ ls
4060174 j
8033020 d.log
5626152 d.ext
7214296 k";

fn root_size(system: &FileSystem) -> usize {
    match &system.get(ID(0)).unwrap().value {
        NodeEntry::Folder(folder) => folder.size.0,
        NodeEntry::File(_) => panic!("the root is a file"),
    }
}

#[test]
fn test_online_input() {
    let mut system = FileSystem::new();

    let input = TRANSCRIPT;
    system.execute_instructions(input).unwrap();
    let size = system.sum_folders_with_size_less_than(100000);
    let folder = system
        .get_smallest_directory_to_delete(FileSize(70000000), FileSize(30000000))
        .unwrap();

    assert_eq!(size, FileSize(95437));
    assert_eq!(folder.name, "d");
    assert_eq!(folder.size, FileSize(24933642));
}

#[test]
fn commands_give_the_same_tree_as_the_transcript() {
    let name = |s: &str| s.to_string();
    let commands = vec![
        Command::Cd(name("/")),
        Command::ListMarker,
        Command::Dir(name("a")),
        Command::File(name("b.txt"), FileSize(14848514)),
        Command::File(name("c.dat"), FileSize(8504156)),
        Command::Dir(name("d")),
        Command::Cd(name("a")),
        Command::ListMarker,
        Command::Dir(name("e")),
        Command::File(name("f"), FileSize(29116)),
        Command::File(name("g"), FileSize(2557)),
        Command::File(name("h.lst"), FileSize(62596)),
        Command::Cd(name("e")),
        Command::ListMarker,
        Command::File(name("i"), FileSize(584)),
        Command::Cd(name("..")),
        Command::Cd(name("..")),
        Command::Cd(name("d")),
        Command::ListMarker,
        Command::File(name("j"), FileSize(4060174)),
        Command::File(name("d.log"), FileSize(8033020)),
        Command::File(name("d.ext"), FileSize(5626152)),
        Command::File(name("k"), FileSize(7214296)),
    ];
    let mut system = FileSystem::new();
    assert!(system.fits(&commands));
    assert_eq!(system.execute(&commands), Ok(()));
    assert_eq!(system.len(), 14);
    assert_eq!(root_size(&system), 48381165);
    assert_eq!(system.cursor(), ID(4));
    assert_eq!(
        system.sum_folders_with_size_less_than(100000),
        FileSize(95437)
    );
    assert_eq!(
        system.try_sum_folders_with_size_less_than(usize::MAX),
        Some(FileSize(48381165 + 94853 + 584 + 24933642))
    );
    assert_eq!(system.sum_folders_with_size_less_than(583), FileSize(0));
    let folder = system
        .get_smallest_directory_to_delete(FileSize(70000000), FileSize(30000000))
        .unwrap();
    assert_eq!(folder.name, "d");
    assert_eq!(folder.size.0, 24933642);

    let read = read_commands(TRANSCRIPT).unwrap();
    assert_eq!(read.len(), commands.len());
    let mut other = FileSystem::new();
    assert_eq!(other.try_execute_instructions(TRANSCRIPT), Some(Ok(())));
    assert_eq!(other.len(), 14);
    assert_eq!(root_size(&other), 48381165);
}

#[test]
fn root_holds_the_sum_of_all_listed_files() {
    let mut system = FileSystem::new();
    system
        .execute_instructions("dir a\n5 x\n$ cd a\ndir b\n7 y\n$ cd b\n11 z\n$ cd /\n13 w")
        .unwrap();
    assert_eq!(root_size(&system), 5 + 7 + 11 + 13);
}

#[test]
fn capacity_and_deficit_are_checked() {
    let mut system = FileSystem::new();
    system.add_folder("a");
    system.move_into_folder("a").unwrap();
    system.add_file("x", FileSize(60));
    system.move_into_folder("/").unwrap();
    system.add_file("y", FileSize(40));

    let refused = |r: Result<&elf_expedition::filesystem::Folder, FsError>| r.unwrap_err();
    assert_eq!(
        refused(system.get_smallest_directory_to_delete(FileSize(99), FileSize(10))),
        FsError::InvalidCapacity
    );
    assert_eq!(
        refused(system.get_smallest_directory_to_delete(FileSize(150), FileSize(49))),
        FsError::NegativeDeficit
    );
    assert_eq!(
        refused(system.get_smallest_directory_to_delete(FileSize(100), FileSize(100))),
        FsError::NoCandidate
    );
    let pick = system
        .get_smallest_directory_to_delete(FileSize(150), FileSize(100))
        .unwrap();
    assert_eq!(pick.name, "a");
    assert_eq!(pick.size, FileSize(60));
    let pick = system
        .get_smallest_directory_to_delete(FileSize(150), FileSize(110))
        .unwrap();
    assert_eq!(pick.name, "");
    assert_eq!(pick.size, FileSize(100));
    let pick = system
        .get_smallest_directory_to_delete(FileSize(100), FileSize(0))
        .unwrap();
    assert_eq!(pick.name, "a");
}

#[test]
fn first_of_equally_small_directories_is_chosen() {
    let mut system = FileSystem::new();
    system.add_folder("first");
    system.add_folder("second");
    system.move_into_folder("first").unwrap();
    system.add_file("x", FileSize(5));
    system.move_into_folder("..").unwrap();
    system.move_into_folder("second").unwrap();
    system.add_file("y", FileSize(5));
    let pick = system
        .get_smallest_directory_to_delete(FileSize(10), FileSize(3))
        .unwrap();
    assert_eq!(pick.name, "first");
    assert_eq!(system.sum_folders_with_size_less_than(5), FileSize(10));
    assert_eq!(system.sum_folders_with_size_less_than(5), FileSize(10));
}

#[test]
fn execution_stops_at_a_move_onto_a_file() {
    let mut system = FileSystem::new();
    let name = |s: &str| s.to_string();
    let commands = vec![
        Command::File(name("x"), FileSize(1)),
        Command::Cd(name("x")),
        Command::File(name("y"), FileSize(2)),
    ];
    assert_eq!(system.execute(&commands), Err(FsError::InvalidCursor));
    assert_eq!(system.len(), 2);
    assert_eq!(root_size(&system), 1);
}

#[test]
fn transcript_lines_are_read_one_by_one() {
    let commands = read_commands("$ cd x y\r\n$ ls\ndir some dir\n12 a b\nnoise\n").unwrap();
    assert_eq!(commands.len(), 5);
    assert!(matches!(&commands[0], Command::Cd(t) if t == "x y"));
    assert!(matches!(&commands[1], Command::ListMarker));
    assert!(matches!(&commands[2], Command::Dir(n) if n == "some dir"));
    assert!(matches!(&commands[3], Command::File(n, FileSize(12)) if n == "a b"));
    assert!(matches!(&commands[4], Command::ListMarker));
    assert_eq!(read_commands("").unwrap().len(), 0);
    assert_eq!(
        read_commands("99999999999999999999999999 big").unwrap_err(),
        FsError::InvalidSize
    );
}

#[test]
fn oversized_transcript_changes_nothing() {
    let mut system = FileSystem::new();
    system.add_file("x", FileSize(2));
    let text = format!("{} y", usize::MAX - 1);
    assert_eq!(system.try_execute_instructions(&text), None);
    assert_eq!(system.len(), 2);
    assert_eq!(root_size(&system), 2);
    assert_eq!(system.try_sum_folders_with_size_less_than(10), Some(FileSize(2)));
}

#[test]
fn allocation_needs_a_directory_as_parent() {
    let mut system = FileSystem::new();
    system.add_file("x", FileSize(2));
    let file = || {
        NodeEntry::File(elf_expedition::filesystem::File {
            name: "f".to_string(),
            size: FileSize(0),
        })
    };
    assert_eq!(system.allocate(ID(1), file()), Err(FsError::InvalidParent));
    assert_eq!(system.allocate(ID(7), file()), Err(FsError::InvalidParent));
    assert_eq!(system.allocate(ID(0), file()), Ok(ID(2)));
    assert_eq!(system.add_node_entry(file()), ID(3));
    assert_eq!(system.get_parent_folder(ID(3)).unwrap().id, ID(0));
    assert!(system.get_parent_folder(ID(0)).is_none());
}
