use pullauta::memfs::{FsError, MemoryFileSystem};

fn chars(s: &str) -> Vec<char> {
    s.chars().collect()
}

#[test]
fn test_write_read_to_string_root() {
    let mut fs = MemoryFileSystem::new();
    let path = chars("test.txt");
    let content = "Hello, World!";

    fs.write_file(&path, &content.as_bytes().to_vec()).unwrap();

    let read = fs.read_to_string(&path).unwrap();

    assert_eq!(read, content);
}

#[test]
fn test_write_read_to_string_subdir() {
    let mut fs = MemoryFileSystem::new();
    let folder = chars("folder");
    fs.create_dir_all(&folder).unwrap();
    let path = chars("folder/test.txt");
    let content = "Hello, World!";

    fs.write_file(&path, &content.as_bytes().to_vec()).unwrap();

    let read = fs.read_to_string(&path).unwrap();

    assert_eq!(read, content);
}

#[test]
fn test_read_string_invalid_utf8() {
    let mut fs = MemoryFileSystem::new();
    let folder = chars("folder");
    fs.create_dir_all(&folder).unwrap();
    let path = chars("folder/invalid.file");
    let content = [0, 1, 2, 3, 4, 5, 6, 255]; // invalid utf8

    fs.write_file(&path, &content.to_vec()).unwrap();

    let read = fs.read_to_string(&path).unwrap_err();
    assert_eq!(read, FsError::InvalidInput);
}

#[test]
fn test_create_open() {
    let mut fs = MemoryFileSystem::new();
    let path = chars("file.json");
    let content = "contents of the file";

    fs.write_file(&path, &content.as_bytes().to_vec()).unwrap();

    let buff = fs.read_file(&path).unwrap();
    assert_eq!(buff.len(), content.len());

    assert_eq!(buff.as_slice(), content.as_bytes());
}

#[test]
fn test_create_not_found() {
    let mut fs = MemoryFileSystem::new();
    let folder = chars("folder");
    let path = chars("folder/nonexistant_subdirectory/file.json");

    fs.create_dir_all(&folder).unwrap();
    match fs.write_file(&path, &vec![1, 2, 3]) {
        Ok(_) => panic!("file should not exist"),
        Err(e) => assert_eq!(e, FsError::NotFound),
    };
}

#[test]
fn test_file_does_not_exist() {
    let fs = MemoryFileSystem::new();
    let path = chars("test.txt");

    assert!(!fs.path_exists(&path));

    match fs.read_file(&path) {
        Ok(_) => panic!("file should not exist"),
        Err(e) => assert_eq!(e, FsError::NotFound),
    }
}

#[test]
fn test_file_does_not_exist_subdirs() {
    let mut fs = MemoryFileSystem::new();
    let folder = chars("folder1/folder2");
    let path = chars("folder1/folder2/nonexistant_subfolder/test.txt");

    fs.create_dir_all(&folder).unwrap();
    assert!(!fs.path_exists(&path));

    match fs.read_file(&path) {
        Ok(_) => panic!("file should not exist"),
        Err(e) => assert_eq!(e, FsError::NotFound),
    }
}

#[test]
fn test_create_and_remove_file() {
    let mut fs = MemoryFileSystem::new();
    let path = chars("test.txt");
    let content = "Hello, World!";

    fs.write_file(&path, &content.as_bytes().to_vec()).unwrap();

    assert!(fs.path_exists(&path));

    fs.remove_file(&path).unwrap();

    assert!(!fs.path_exists(&path));

    match fs.read_file(&path) {
        Ok(_) => panic!("file should not exist"),
        Err(e) => assert_eq!(e, FsError::NotFound),
    }
}

#[test]
fn test_create_and_list_files_and_folders() {
    let mut fs = MemoryFileSystem::new();
    let folder = chars("folder");
    fs.create_dir_all(&folder).unwrap();
    let path1 = chars("folder/test1.txt");
    let path2 = chars("folder/test2.txt");
    let path3 = chars("folder/subfolder1");
    let path4 = chars("folder/subfolder2");

    fs.write_file(&path1, &vec![]).unwrap();
    fs.write_file(&path2, &vec![]).unwrap();
    fs.create_dir_all(&path3).unwrap();
    fs.create_dir_all(&path4).unwrap();

    let files = fs.list(&folder).unwrap();
    assert_eq!(files.len(), 4);
    assert!(files.contains(&chars("test1.txt")));
    assert!(files.contains(&chars("test2.txt")));
    assert!(files.contains(&chars("subfolder1")));
    assert!(files.contains(&chars("subfolder2")));
}

#[test]
fn test_file_size() {
    let mut fs = MemoryFileSystem::new();
    let path = chars("test.txt");
    let content = "Hello, World!";

    fs.write_file(&path, &content.as_bytes().to_vec()).unwrap();

    let size = fs.file_size(&path).unwrap();
    assert_eq!(size, content.len() as u64);
}

#[test]
fn test_copy_file() {
    let mut fs = MemoryFileSystem::new();
    let path1 = chars("test1.txt");
    let path2 = chars("test2.txt");
    let content = "Hello, World!";

    fs.write_file(&path1, &content.as_bytes().to_vec()).unwrap();

    fs.copy(&path1, &path2).unwrap();

    let read = fs.read_to_string(&path2).unwrap();
    assert_eq!(read, content);
}

#[test]
fn paths_normalize_before_use() {
    let mut fs = MemoryFileSystem::new();
    fs.create_dir_all(&chars("folder")).unwrap();
    fs.write_file(&chars("folder/../test.txt"), &vec![7]).unwrap();
    assert!(fs.path_exists(&chars("test.txt")));
    assert!(fs.path_exists(&chars("./folder")));
    assert!(fs.create_dir_all(&chars("../escape")).is_err());
}
