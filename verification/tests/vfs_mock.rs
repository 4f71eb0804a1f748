use file_downlink::vfs::mock::{is_under, MockFile, MockFilesystem, VfsError};

#[test]
fn test_create_directory() {
    let mut fs = MockFilesystem::new();
    let root = fs.root();
    let dir_name = "test_dir";
    root.create_child_dir(&mut fs, dir_name.as_bytes()).unwrap();
    assert!(root.child_dir_exists(&fs, dir_name.as_bytes()));
}

#[test]
fn test_create_file() {
    let mut fs = MockFilesystem::new();
    let root = fs.root();
    let file_name = "test_file.txt";
    root.create_child_file(&mut fs, file_name.as_bytes()).unwrap();
    assert!(root.child_file_exists(&fs, file_name.as_bytes()));
}

#[test]
fn test_write_and_read_file() {
    let mut fs = MockFilesystem::new();
    let root = fs.root();
    let file_name = "test_file.txt";

    let written_content = b"Hello, world!";
    let mut contents = Vec::new();
    {
        let mut file = root.create_child_file(&mut fs, file_name.as_bytes()).unwrap();

        // Write some data to the file
        file.write_all(&mut fs, written_content).unwrap();
        file.flush();

        // Read data from the file
        file.seek(0);
        file.read_to_end(&fs, &mut contents).unwrap();
    }

    assert_eq!(contents, written_content);
    assert!(root.child_file_exists(&fs, file_name.as_bytes()));
}

#[test]
fn test_delete_file() {
    let mut fs = MockFilesystem::new();
    let root = fs.root();
    let file_name = "test_file.txt";
    root.create_child_file(&mut fs, file_name.as_bytes()).unwrap();
    root.delete_file(&mut fs, file_name.as_bytes()).unwrap();
    assert!(!root.child_file_exists(&fs, file_name.as_bytes()));
}

#[test]
fn test_delete_directory() {
    let mut fs = MockFilesystem::new();
    let root = fs.root();
    let dir_name = "test_dir";
    let child = root.create_child_dir(&mut fs, dir_name.as_bytes()).unwrap();
    child.delete_self(&mut fs);
    assert!(!root.child_dir_exists(&fs, dir_name.as_bytes()));
}

#[test]
fn nothing_is_made_where_something_stands() {
    let mut fs = MockFilesystem::new();
    let root = fs.root();
    root.create_child_dir(&mut fs, b"a").unwrap();
    assert_eq!(root.create_child_dir(&mut fs, b"a"), Err(VfsError::AlreadyExists));
    assert_eq!(root.create_child_file(&mut fs, b"a").map(|_| ()), Err(VfsError::AlreadyExists));
    root.create_child_file(&mut fs, b"f").unwrap();
    assert_eq!(root.create_child_dir(&mut fs, b"f"), Err(VfsError::AlreadyExists));
    // A directory is no file, and a file no directory.
    assert!(!root.child_file_exists(&fs, b"a"));
    assert!(!root.child_dir_exists(&fs, b"f"));
    assert_eq!(root.delete_file(&mut fs, b"a"), Err(VfsError::NotFound));
    assert_eq!(root.delete_file(&mut fs, b"missing"), Err(VfsError::NotFound));
    assert!(root.child_dir_exists(&fs, b"a"));
}

#[test]
fn deleting_a_directory_takes_all_below_it_and_nothing_else() {
    let mut fs = MockFilesystem::new();
    let root = fs.root();
    let a = root.create_child_dir(&mut fs, b"a").unwrap();
    let ab = a.create_child_dir(&mut fs, b"b").unwrap();
    a.create_child_file(&mut fs, b"f").unwrap();
    ab.create_child_file(&mut fs, b"g").unwrap();
    let ax = root.create_child_dir(&mut fs, b"ax").unwrap();
    ax.create_child_file(&mut fs, b"h").unwrap();
    root.create_child_file(&mut fs, b"a.txt").unwrap();

    assert!(a.child_file_exists(&fs, b"f"));
    assert!(ab.child_file_exists(&fs, b"g"));
    let a_again = root.create_child_dir(&mut fs, b"a");
    assert_eq!(a_again, Err(VfsError::AlreadyExists));

    let a_handle = MockFile::new(&fs, b"a/b/g".to_vec()).unwrap();
    a.delete_self(&mut fs);
    assert!(!root.child_dir_exists(&fs, b"a"));
    assert!(!ab.child_file_exists(&fs, b"g"));
    assert_eq!(a_handle.get_data(&fs), Err(VfsError::NotFound));
    assert!(root.child_dir_exists(&fs, b"ax"));
    assert!(ax.child_file_exists(&fs, b"h"));
    assert!(root.child_file_exists(&fs, b"a.txt"));

    fs.root().delete_self(&mut fs);
    assert!(!root.child_dir_exists(&fs, b"ax"));
    assert!(!root.child_file_exists(&fs, b"a.txt"));

    assert!(is_under(b"a", b"a"));
    assert!(is_under(b"a", b"a/b"));
    assert!(!is_under(b"a", b"ab"));
    assert!(!is_under(b"a/b", b"a"));
    assert!(is_under(b"", b"anything"));
}

#[test]
fn writing_goes_over_what_lies_there() {
    let mut fs = MockFilesystem::new();
    let root = fs.root();
    let mut file = root.create_child_file(&mut fs, b"f").unwrap();
    file.write_all(&mut fs, b"Hello, world!").unwrap();
    file.seek(7);
    file.write_all(&mut fs, b"there").unwrap();
    assert_eq!(file.get_data(&fs), Ok(b"Hello, there!".to_vec()));
    file.write_all(&mut fs, b"!!!").unwrap();
    assert_eq!(file.get_data(&fs), Ok(b"Hello, there!!!".to_vec()));
    // Beyond the end: the gap is zeros.
    file.seek(17);
    file.write_all(&mut fs, b"x").unwrap();
    assert_eq!(file.get_data(&fs), Ok(b"Hello, there!!!\0\0x".to_vec()));

    let mut out = b">".to_vec();
    file.seek(14);
    assert_eq!(file.read_to_end(&fs, &mut out), Ok(4));
    assert_eq!(out, b">!\0\0x".to_vec());
    assert_eq!(file.read_to_end(&fs, &mut out), Ok(0));
    file.seek(100);
    assert_eq!(file.read_to_end(&fs, &mut out), Ok(0));

    let other = MockFile::new(&fs, b"f".to_vec()).unwrap();
    assert_eq!(MockFile::new(&fs, b"g".to_vec()).map(|_| ()), Err(VfsError::NotFound));
    assert_eq!(other.delete(&mut fs), Ok(()));
    assert_eq!(file.write_all(&mut fs, b"late"), Err(VfsError::NotFound));
    assert_eq!(file.read_to_end(&fs, &mut out), Err(VfsError::NotFound));
    assert_eq!(file.delete(&mut fs), Err(VfsError::NotFound));
}
