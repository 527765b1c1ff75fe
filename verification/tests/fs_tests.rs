use just_bash_rs::fs::{Fs, FsLimits};
use just_bash_rs::paths::glob_matches;

fn glob(pattern: &str, text: &str) -> bool {
    let p: Vec<char> = pattern.chars().collect();
    let t: Vec<char> = text.chars().collect();
    glob_matches(&p, &t)
}

#[test]
fn test_memory_basic() {
    let mut fs = Fs::new();
    assert!(fs.mkdir("/tmp", "/"));
    assert!(fs.write_file("/tmp/hello.txt", "/", b"world"));
    assert_eq!(fs.read_file("/tmp/hello.txt", "/"), Some(b"world".to_vec()));
    assert!(fs.is_dir("/tmp", "/"));
}

#[test]
fn test_memory_relative() {
    let mut fs = Fs::new();
    fs.mkdir("/home", "/");
    fs.mkdir("/home/user", "/");
    fs.write_file("hello.txt", "/home/user", b"data");
    assert_eq!(
        fs.read_file("hello.txt", "/home/user"),
        Some(b"data".to_vec())
    );
}

#[test]
fn test_memory_dotdot() {
    let mut fs = Fs::new();
    fs.mkdir("/a", "/");
    fs.mkdir("/a/b", "/");
    fs.write_file("/a/file.txt", "/", b"data");
    assert_eq!(fs.read_file("../file.txt", "/a/b"), Some(b"data".to_vec()));
}

#[test]
fn test_memory_remove() {
    let mut fs = Fs::new();
    fs.write_file("/file.txt", "/", b"data");
    assert!(fs.path_exists("/file.txt", "/"));
    assert!(fs.remove("/file.txt", "/"));
    assert!(!fs.path_exists("/file.txt", "/"));
}

#[test]
fn test_memory_remove_all() {
    let mut fs = Fs::new();
    fs.mkdir("/dir", "/");
    fs.write_file("/dir/a", "/", b"1");
    fs.write_file("/dir/b", "/", b"2");
    assert!(fs.remove_all("/dir", "/"));
    assert!(!fs.path_exists("/dir", "/"));
}

#[test]
fn test_memory_copy() {
    let mut fs = Fs::new();
    fs.write_file("/src.txt", "/", b"hello");
    assert!(fs.copy_file("/src.txt", "/dst.txt", "/"));
    assert_eq!(fs.read_file("/dst.txt", "/"), Some(b"hello".to_vec()));
}

#[test]
fn test_memory_move() {
    let mut fs = Fs::new();
    fs.write_file("/old.txt", "/", b"data");
    assert!(fs.move_node("/old.txt", "/new.txt", "/"));
    assert!(!fs.path_exists("/old.txt", "/"));
    assert_eq!(fs.read_file("/new.txt", "/"), Some(b"data".to_vec()));
}

#[test]
fn test_memory_find() {
    let mut fs = Fs::new();
    fs.mkdir("/a", "/");
    fs.mkdir("/a/b", "/");
    fs.write_file("/a/b/c.txt", "/", b"");
    fs.write_file("/a/b/d.rs", "/", b"");
    let results = fs.find("/a", "*.txt");
    assert_eq!(results, vec!["/a/b/c.txt"]);
}

#[test]
fn test_memory_list_dir() {
    let mut fs = Fs::new();
    fs.mkdir("/d", "/");
    fs.write_file("/d/a", "/", b"1");
    fs.write_file("/d/.hidden", "/", b"2");
    let entries = fs.list_dir("/d", "/", false).unwrap();
    assert_eq!(entries.len(), 1);
    assert_eq!(entries[0].name, "a");
    let entries = fs.list_dir("/d", "/", true).unwrap();
    assert_eq!(entries.len(), 2);
}

#[test]
fn test_glob() {
    assert!(glob("*.txt", "hello.txt"));
    assert!(!glob("*.txt", "hello.rs"));
    assert!(glob("hello.*", "hello.txt"));
    assert!(glob("h?llo", "hello"));
    assert!(!glob("h?llo", "hllo"));
    assert!(glob("[abc].txt", "a.txt"));
    assert!(!glob("[abc].txt", "d.txt"));
    assert!(glob("*", "anything"));
}

#[test]
fn test_memoryfs_file_size_limit() {
    let limits = FsLimits {
        max_file_size: 1024, // 1KB limit
        ..Default::default()
    };
    let mut fs = Fs::with_limits(limits);

    // Small file should work
    assert!(fs.write_file("/small.txt", "/", &[0u8; 512]));

    // Oversized file should be rejected
    assert!(!fs.write_file("/big.txt", "/", &[0u8; 2048]));

    // Existing file overwrite with oversized data should be rejected
    assert!(!fs.write_file("/small.txt", "/", &[0u8; 2048]));
}

#[test]
fn test_memoryfs_dir_entry_limit() {
    let limits = FsLimits {
        max_dir_entries: 3,
        ..Default::default()
    };
    let mut fs = Fs::with_limits(limits);

    assert!(fs.mkdir("/dir", "/"));
    assert!(fs.write_file("/dir/a", "/", b"1"));
    assert!(fs.write_file("/dir/b", "/", b"2"));
    assert!(fs.write_file("/dir/c", "/", b"3"));
    // Fourth entry should be rejected
    assert!(!fs.write_file("/dir/d", "/", b"4"));
    assert!(!fs.mkdir("/dir/subdir", "/"));
}

#[test]
fn test_memoryfs_total_node_limit() {
    let limits = FsLimits {
        max_total_nodes: 3, // root + 2 more
        ..Default::default()
    };
    let mut fs = Fs::with_limits(limits);

    assert!(fs.mkdir("/a", "/"));
    assert!(fs.write_file("/b", "/", b"data"));
    // Third new node should fail
    assert!(!fs.mkdir("/c", "/"));
}

#[test]
fn test_deep_tree_remove_no_stack_overflow() {
    let mut fs = Fs::new();
    // Create a deep tree (10000 levels)
    let mut path = String::from("/deep");
    fs.mkdir(&path, "/");
    for _ in 0..9999 {
        path.push_str("/x");
        fs.mkdir(&path, "/");
    }
    // This should not stack overflow
    assert!(fs.remove_all("/deep", "/"));
    assert!(!fs.path_exists("/deep", "/"));
}

#[test]
fn test_glob_no_exponential_backtracking() {
    // Pattern with many wildcards against adversarial text
    // Without depth limit, this would be exponential
    let pattern = "*********a";
    let text = "aaaaaaaaaab";
    // Should return quickly (either true or false), not hang
    assert!(!glob(pattern, text));
}
