use just_bash_rs::readthrough::{read_through_pair_paths, read_through_paths, DiskFact, ReadThroughLayer};

fn absent(p: &str) -> DiskFact {
    DiskFact { path: p.to_string(), inside: false, is_dir: false, is_file: false, listing: None, content: None }
}

fn disk_dir(p: &str, entries: &[(&str, bool)]) -> DiskFact {
    DiskFact {
        path: p.to_string(),
        inside: true,
        is_dir: true,
        is_file: false,
        listing: Some(entries.iter().map(|(n, d)| (n.to_string(), *d)).collect()),
        content: None,
    }
}

fn disk_file(p: &str, bytes: &[u8]) -> DiskFact {
    DiskFact {
        path: p.to_string(),
        inside: true,
        is_dir: false,
        is_file: true,
        listing: None,
        content: Some(bytes.to_vec()),
    }
}

/// A disk with `/docs/readme.txt` and `/docs/old.txt` below its root.
fn disk(paths: &[String]) -> Vec<DiskFact> {
    paths
        .iter()
        .map(|p| match p.as_str() {
            "/" | "" => disk_dir(p, &[("docs", true)]),
            "/docs" | "docs" => disk_dir(p, &[("readme.txt", false), ("old.txt", false)]),
            "/docs/readme.txt" => disk_file(p, b"hello from disk"),
            "/docs/old.txt" => disk_file(p, b"old"),
            _ => absent(p),
        })
        .collect()
}

#[test]
fn wanted_paths_name_the_path_its_parent_and_the_way() {
    assert_eq!(read_through_paths("b/c", "/a"), vec!["/a/b/c", "/a/b", "", "a"]);
    assert_eq!(read_through_paths("/x", "/"), vec!["/x", "/", ""]);
    let pair = read_through_pair_paths("/a", "/b", "/");
    assert_eq!(pair[0], "/a");
    assert!(pair.contains(&"/b/a".to_string()));
}

#[test]
fn reads_fall_through_to_disk() {
    let layer = ReadThroughLayer::new();
    let facts = disk(&read_through_paths("/docs/readme.txt", "/"));
    assert_eq!(layer.read_file("/docs/readme.txt", "/", &facts), Some(b"hello from disk".to_vec()));
    assert!(layer.path_exists("/docs/readme.txt", "/", &facts));
    assert!(!layer.is_dir("/docs/readme.txt", "/", &facts));
    let facts = disk(&read_through_paths("/docs", "/"));
    assert!(layer.is_dir("/docs", "/", &facts));
}

#[test]
fn writes_stay_in_the_layer() {
    let mut layer = ReadThroughLayer::new();
    let facts = disk(&read_through_paths("/docs/new.txt", "/"));
    assert!(layer.write_file("/docs/new.txt", "/", b"mine", &facts));
    let facts = disk(&read_through_paths("/docs/new.txt", "/"));
    assert_eq!(layer.read_file("/docs/new.txt", "/", &facts), Some(b"mine".to_vec()));
    let facts = disk(&read_through_paths("/docs", "/"));
    let listed: Vec<String> = layer.list_dir("/docs", "/", false, &facts).unwrap().into_iter().map(|e| e.name).collect();
    assert_eq!(listed, vec!["new.txt", "old.txt", "readme.txt"]);
}

#[test]
fn removing_hides_disk_files() {
    let mut layer = ReadThroughLayer::new();
    let facts = disk(&read_through_paths("/docs/old.txt", "/"));
    assert!(layer.remove("/docs/old.txt", "/", &facts));
    assert!(!layer.path_exists("/docs/old.txt", "/", &facts));
    assert_eq!(layer.read_file("/docs/old.txt", "/", &facts), None);
    let facts = disk(&read_through_paths("/docs", "/"));
    let listed: Vec<String> = layer.list_dir("/docs", "/", false, &facts).unwrap().into_iter().map(|e| e.name).collect();
    assert_eq!(listed, vec!["readme.txt"]);
    assert!(!layer.remove("/docs", "/", &facts));
}

#[test]
fn remove_all_hides_a_disk_directory() {
    let mut layer = ReadThroughLayer::new();
    let facts = disk(&read_through_paths("/docs", "/"));
    assert!(layer.remove_all("/docs", "/", &facts));
    let facts = disk(&read_through_paths("/docs/readme.txt", "/"));
    assert_eq!(layer.read_file("/docs/readme.txt", "/", &facts), None);
    assert!(!layer.path_exists("/docs", "/", &disk(&read_through_paths("/docs", "/"))));
    assert!(!layer.remove_all("/", "/", &facts));
}

#[test]
fn mkdir_and_create_file_in_the_layer() {
    let mut layer = ReadThroughLayer::new();
    let facts = disk(&read_through_paths("/docs/sub", "/"));
    assert!(layer.mkdir("/docs/sub", "/", &facts));
    assert!(layer.is_dir("/docs/sub", "/", &facts));
    assert!(!layer.mkdir("/docs/sub", "/", &facts));
    let facts = disk(&read_through_paths("/docs", "/"));
    assert!(!layer.mkdir("/docs", "/", &facts));
    let facts = disk(&read_through_paths("/docs/sub/e.txt", "/"));
    assert!(layer.create_file("/docs/sub/e.txt", "/", &facts));
    assert_eq!(layer.read_file("/docs/sub/e.txt", "/", &facts), Some(Vec::new()));
    assert!(!layer.create_file("/nowhere/e.txt", "/", &disk(&read_through_paths("/nowhere/e.txt", "/"))));
}

#[test]
fn copy_and_move_through_the_layer() {
    let mut layer = ReadThroughLayer::new();
    let facts = disk(&read_through_pair_paths("/docs/readme.txt", "/docs/copy.txt", "/"));
    assert!(layer.copy_ready("/docs/readme.txt", "/docs/copy.txt", "/", &facts));
    assert!(layer.copy_file("/docs/readme.txt", "/docs/copy.txt", "/", &facts));
    let facts = disk(&read_through_paths("/docs/copy.txt", "/"));
    assert_eq!(layer.read_file("/docs/copy.txt", "/", &facts), Some(b"hello from disk".to_vec()));
    let facts = disk(&read_through_pair_paths("/docs/copy.txt", "/docs/moved.txt", "/"));
    assert!(layer.move_ready("/docs/copy.txt", "/docs/moved.txt", "/", &facts));
    assert!(layer.move_node("/docs/copy.txt", "/docs/moved.txt", "/", &facts));
    let facts = disk(&read_through_paths("/docs/moved.txt", "/"));
    assert_eq!(layer.read_file("/docs/moved.txt", "/", &facts), Some(b"hello from disk".to_vec()));
    let facts = disk(&read_through_paths("/docs/copy.txt", "/"));
    assert_eq!(layer.read_file("/docs/copy.txt", "/", &facts), None);
}

/// An empty directory as the disk root.
fn empty_disk(paths: &[String]) -> Vec<DiskFact> {
    paths
        .iter()
        .map(|p| match p.as_str() {
            "/" | "" => disk_dir(p, &[]),
            _ => absent(p),
        })
        .collect()
}

#[test]
fn test_rt_write_stays_in_memory() {
    let mut fs = ReadThroughLayer::new();
    let facts = empty_disk(&read_through_paths("/new.txt", "/"));
    assert!(fs.write_file("/new.txt", "/", b"in-memory", &facts));
    assert_eq!(fs.read_file("/new.txt", "/", &facts), Some(b"in-memory".to_vec()));

    // The layer is handed the disk as facts it may only read, so nothing
    // here can reach the disk. These checks can only restate that the facts
    // passed in still describe an empty disk; writing to a real disk is the
    // concern of the disk-backed modes around the library.
    assert!(facts.iter().all(|f| f.path != "/new.txt" || !f.inside));
    assert!(facts.iter().all(|f| f.listing.as_ref().map_or(true, |l| l.is_empty())));
}

#[test]
fn test_rt_mkdir() {
    let mut fs = ReadThroughLayer::new();
    let facts = empty_disk(&read_through_paths("/mydir", "/"));
    assert!(fs.mkdir("/mydir", "/", &facts));
    assert!(fs.is_dir("/mydir", "/", &facts));

    // The layer only reads the facts it is handed (see above): this check
    // restates that they show no such directory on disk.
    assert!(facts.iter().all(|f| f.path != "/mydir" || !f.is_dir));
}

#[test]
fn layer_answers_before_a_changed_disk() {
    let mut layer = ReadThroughLayer::new();
    let facts = disk(&read_through_paths("/docs/readme.txt", "/"));
    assert!(layer.write_file("/docs/readme.txt", "/", b"layer", &facts));
    // The disk now shows other bytes there: the layer's still win.
    let later: Vec<DiskFact> = read_through_paths("/docs/readme.txt", "/")
        .iter()
        .map(|p| if p == "/docs/readme.txt" { disk_file(p, b"changed on disk") } else { absent(p) })
        .collect();
    assert_eq!(layer.read_file("/docs/readme.txt", "/", &later), Some(b"layer".to_vec()));

    assert!(layer.mkdir("/docs/made", "/", &disk(&read_through_paths("/docs/made", "/"))));
    assert!(layer.is_dir("/docs/made", "/", &empty_disk(&read_through_paths("/docs/made", "/"))));

    assert!(layer.remove("/docs/old.txt", "/", &disk(&read_through_paths("/docs/old.txt", "/"))));
    let again = disk(&read_through_paths("/docs/old.txt", "/"));
    assert!(!layer.path_exists("/docs/old.txt", "/", &again));

    let pair = read_through_pair_paths("/docs/readme.txt", "/copy.txt", "/");
    assert!(layer.copy_file("/docs/readme.txt", "/copy.txt", "/", &disk(&pair)));
    assert_eq!(layer.read_file("/copy.txt", "/", &empty_disk(&read_through_paths("/copy.txt", "/"))), Some(b"layer".to_vec()));
}
