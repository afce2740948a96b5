use elf_expedition::filesystem::{FileSize, FileSystem, FsError, NodeEntry, ID};

fn folder_size(system: &FileSystem, id: usize) -> usize {
    match &system.get(ID(id)).unwrap().value {
        NodeEntry::Folder(folder) => folder.size.0,
        NodeEntry::File(_) => panic!("node {} is a file", id),
    }
}

#[test]
fn test_folder_gen() {
    let mut system = FileSystem::new();
    system.add_file("foo", FileSize(10));
    system.add_folder("baz");
    system.add_folder("buzz");
    system.move_into_folder("buzz").unwrap();
    system.add_folder("zubb");
    system.move_into_folder("zubb").unwrap();
    system.add_file("innerfoo", FileSize(10));
    system.add_file("innerbar", FileSize(20));
    system.move_into_folder("..").unwrap();
    system.add_file("bar", FileSize(20));
    system.move_into_folder("/").unwrap();
    system.add_file("bary", FileSize(20));

    assert_eq!(
        system.print(),
        "/ (80)\n foo: 10\n baz/ (0)\n buzz/ (50)\n  zubb/ (30)\n   innerfoo: 10\n   innerbar: 20\n  bar: 20\n bary: 20\n"
    );
    assert_eq!(system.len(), 9);
    assert_eq!(folder_size(&system, 0), 80);
    assert_eq!(folder_size(&system, 2), 0);
    assert_eq!(folder_size(&system, 3), 50);
    assert_eq!(folder_size(&system, 4), 30);
    assert_eq!(system.cursor(), ID(0));
}

#[test]
fn new_tree_holds_only_the_root() {
    let system = FileSystem::new();
    assert_eq!(system.len(), 1);
    assert_eq!(system.cursor(), ID(0));
    let root = system.get(ID(0)).unwrap();
    assert_eq!(root.id, ID(0));
    assert_eq!(root.parent, None);
    assert_eq!(folder_size(&system, 0), 0);
    assert_eq!(system.get(ID(1)).unwrap_err(), FsError::NodeNotFound);
}

#[test]
fn move_to_missing_child_keeps_cursor() {
    let mut system = FileSystem::new();
    system.add_folder("a");
    system.move_into_folder("a").unwrap();
    assert_eq!(system.cursor(), ID(1));
    assert_eq!(system.move_into_folder("nonexistent"), Ok(()));
    assert_eq!(system.cursor(), ID(1));
}

#[test]
fn move_to_parent_of_root_stays_on_root() {
    let mut system = FileSystem::new();
    assert_eq!(system.move_into_folder(".."), Ok(()));
    assert_eq!(system.cursor(), ID(0));
}

#[test]
fn move_to_a_file_is_refused() {
    let mut system = FileSystem::new();
    system.add_file("notes", FileSize(3));
    assert_eq!(system.move_into_folder("notes"), Err(FsError::InvalidCursor));
    assert_eq!(system.cursor(), ID(0));
}

#[test]
fn duplicate_file_is_counted_twice() {
    let mut system = FileSystem::new();
    system.add_folder("a");
    system.move_into_folder("a").unwrap();
    system.add_file("x", FileSize(7));
    system.add_file("x", FileSize(7));
    assert_eq!(system.len(), 4);
    assert_eq!(folder_size(&system, 1), 14);
    assert_eq!(folder_size(&system, 0), 14);
}
