use pullauta::memfs::{file_parent, resolve_path, FsError};

fn chars(s: &str) -> Vec<char> {
    s.chars().collect()
}

fn parts(path: &str) -> Result<Vec<String>, FsError> {
    let resolved = resolve_path(&chars(path))?;
    Ok(resolved.into_iter().map(|c| c.into_iter().collect()).collect())
}

#[test]
fn test_resolve_path() {
    assert_eq!(parts("folder").unwrap(), ["folder"]);
    assert_eq!(parts("folder/folder2").unwrap(), ["folder", "folder2"]);
    assert_eq!(parts("folder/folder2/folder3").unwrap(), ["folder", "folder2", "folder3"]);
    assert_eq!(parts("folder/../folder2").unwrap(), ["folder2"]);
    assert_eq!(parts("./folder/../folder2").unwrap(), ["folder2"]);
    assert_eq!(parts("folder/./folder2").unwrap(), ["folder", "folder2"]);
    assert_eq!(parts("folder/folder2/./folder3").unwrap(), ["folder", "folder2", "folder3"]);
    assert_eq!(parts("folder/folder2/../folder3").unwrap(), ["folder", "folder3"]);
    assert_eq!(parts("folder/folder2/../../folder3").unwrap(), ["folder3"]);
    assert_eq!(parts("/folder/../folder2").unwrap(), ["folder2"]);

    // error cases
    assert!(parts("..").is_err());
    assert!(parts("../a").is_err());
    assert!(parts("folder/../..").is_err());
    assert!(parts("folder/folder2/../../..").is_err());
}

#[test]
fn test_file_parent() {
    fn parent(path: &str) -> Result<String, FsError> {
        let p = file_parent(&chars(path))?;
        Ok(p.into_iter().collect())
    }

    assert_eq!(parent("folder").unwrap(), "");
    assert_eq!(parent("folder/folder2").unwrap(), "folder");
    assert_eq!(parent("folder/folder2/folder3").unwrap(), "folder/folder2");
    assert_eq!(parent("folder/../folder2").unwrap(), "folder/..");

    assert_eq!(parent("./").unwrap(), "");

    // error cases
    assert!(parent("/").is_err());
    assert!(parent("").is_err());
}
