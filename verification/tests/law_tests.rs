use just_bash_rs::argparse::{parse_args, CommandMeta, FlagMeta, PositionalMeta, StdinBehavior};
use just_bash_rs::env::Env;
use just_bash_rs::fs::{find_start, find_visit, DirEntry, Fs, FsLimits};
use just_bash_rs::overlay::read_through_list;
use just_bash_rs::diskplan::{disk_steps, DiskStep};
use just_bash_rs::paths::{ancestors, glob_matches};
use just_bash_rs::Shell;

fn meta() -> CommandMeta {
    CommandMeta {
        name: "demo",
        synopsis: "demo [-lv] [-n NUM] [file...]",
        description: "A command for the laws",
        details: "",
        flags: &[
            FlagMeta { short: 'l', long: None, takes_value: false, value_hint: "", description: "Long" },
            FlagMeta { short: 'v', long: Some("verbose"), takes_value: false, value_hint: "", description: "Verbose" },
            FlagMeta { short: 'n', long: Some("number"), takes_value: true, value_hint: "NUM", description: "Number" },
        ],
        positional: &[PositionalMeta { name: "file", required: false, variadic: true, description: "Files" }],
        stdin: StdinBehavior::Never,
    }
}

fn strings(v: &[&str]) -> Vec<String> {
    v.iter().map(|s| s.to_string()).collect()
}

fn glob(pattern: &str, text: &str) -> bool {
    let p: Vec<char> = pattern.chars().collect();
    let t: Vec<char> = text.chars().collect();
    glob_matches(&p, &t)
}

// ── File system laws ─────────────────────────────────────────────

#[test]
fn law_write_then_read_new_and_existing() {
    let mut fs = Fs::new();
    assert!(fs.mkdir("/d", "/"));
    assert!(fs.write_file("x.txt", "/d", b"first"));
    assert_eq!(fs.read_file("/d/x.txt", "/"), Some(b"first".to_vec()));
    assert!(fs.write_file("/d/./x.txt", "/", b"second"));
    assert_eq!(fs.read_file("../d/x.txt", "/d"), Some(b"second".to_vec()));
}

#[test]
fn write_to_a_path_whose_component_ends_in_space_lands_elsewhere() {
    // The parent is resolved again, and resolving trims: the file goes
    // under "/a", not under "/a ".
    let mut fs = Fs::new();
    assert!(fs.mkdir("/a", "/"));
    assert!(fs.write_file("/a /b", "/", b"x"));
    assert_eq!(fs.read_file("/a/b", "/"), Some(b"x".to_vec()));
    assert_eq!(fs.read_file("/a /b", "/"), None);
}

#[test]
fn law_mkdir_then_is_dir() {
    let mut fs = Fs::new();
    assert!(fs.mkdir("/p", "/"));
    assert!(fs.mkdir("q", "/p"));
    assert!(fs.is_dir("/p/q", "/"));
    assert!(!fs.mkdir("/p/q", "/"));
    assert!(!fs.mkdir("/missing/q", "/"));
}

#[test]
fn law_create_file_then_read_empty() {
    let mut fs = Fs::new();
    assert!(fs.create_file("/e", "/"));
    assert_eq!(fs.read_file("/e", "/"), Some(Vec::new()));
    assert!(!fs.is_dir("/e", "/"));
}

#[test]
fn law_remove_then_gone() {
    let mut fs = Fs::new();
    assert!(fs.write_file("/f", "/", b"1"));
    assert!(fs.remove("/f", "/"));
    assert!(!fs.path_exists("/f", "/"));
    assert!(!fs.remove("/f", "/"));
    assert!(fs.mkdir("/dir", "/"));
    assert!(!fs.remove("/dir", "/"));
}

#[test]
fn law_remove_all_then_subtree_gone() {
    let mut fs = Fs::new();
    fs.mkdir("/t", "/");
    fs.mkdir("/t/u", "/");
    fs.write_file("/t/u/v", "/", b"v");
    fs.write_file("/tu", "/", b"sibling");
    assert!(fs.remove_all("/t", "/"));
    assert!(!fs.path_exists("/t", "/"));
    assert!(!fs.path_exists("/t/u", "/"));
    assert!(!fs.path_exists("/t/u/v", "/"));
    assert_eq!(fs.read_file("/tu", "/"), Some(b"sibling".to_vec()));
    assert!(!fs.remove_all("/", "/"));
}

#[test]
fn law_copy_then_read() {
    let mut fs = Fs::new();
    fs.write_file("/src", "/", b"content");
    assert!(fs.copy_file("/src", "/dst", "/"));
    assert_eq!(fs.read_file("/dst", "/"), fs.read_file("/src", "/"));
    fs.mkdir("/into", "/");
    assert!(fs.copy_file("/src", "/into", "/"));
    assert_eq!(fs.read_file("/into/src", "/"), Some(b"content".to_vec()));
    assert!(!fs.copy_file("/nothing", "/x", "/"));
}

#[test]
fn law_move_then_read() {
    let mut fs = Fs::new();
    fs.mkdir("/m", "/");
    fs.write_file("/m/f", "/", b"moved");
    assert!(fs.move_node("/m", "/n", "/"));
    assert!(!fs.path_exists("/m", "/"));
    assert!(fs.is_dir("/n", "/"));
    assert_eq!(fs.read_file("/n/f", "/"), Some(b"moved".to_vec()));
}

#[test]
fn move_into_existing_directory_keeps_name() {
    let mut fs = Fs::new();
    fs.mkdir("/box", "/");
    fs.write_file("/item", "/", b"i");
    assert!(fs.move_node("/item", "/box", "/"));
    assert_eq!(fs.read_file("/box/item", "/"), Some(b"i".to_vec()));
    assert!(!fs.move_node("/", "/box", "/"));
}

#[test]
fn deep_chain_of_directories_keeps_paths() {
    let mut fs = Fs::new();
    let mut path = String::new();
    for i in 0..50 {
        path.push_str(&format!("/d{}", i));
        assert!(fs.mkdir(&path, "/"));
    }
    let file = format!("{}/leaf", path);
    assert!(fs.write_file(&file, "/", b"deep"));
    assert_eq!(fs.read_file(&file, "/"), Some(b"deep".to_vec()));
    assert!(fs.move_node("/d0/d1", "/top", "/"));
    let moved = file.replacen("/d0/d1", "/top", 1);
    assert_eq!(fs.read_file(&moved, "/"), Some(b"deep".to_vec()));
    assert!(!fs.path_exists(&file, "/"));
}

#[test]
fn limits_refuse_work() {
    let limits = FsLimits { max_file_size: 3, max_total_nodes: 3, max_dir_entries: 10 };
    let mut fs = Fs::with_limits(limits);
    assert!(!fs.write_file("/big", "/", b"1234"));
    assert!(fs.write_file("/a", "/", b"123"));
    assert!(fs.write_file("/b", "/", b"1"));
    assert!(!fs.write_file("/c", "/", b"1"));
}

// ── Environment laws ─────────────────────────────────────────────

#[test]
fn law_env_set_then_get() {
    let mut env = Env::new();
    env.set("K", "v1");
    env.set("OTHER", "o");
    env.set("K", "v2");
    assert_eq!(env.get("K"), Some("v2"));
    assert_eq!(env.get("OTHER"), Some("o"));
}

#[test]
fn law_env_remove_then_get() {
    let mut env = Env::new();
    env.set("K", "v");
    env.remove("K");
    assert_eq!(env.get("K"), None);
    assert_eq!(env.get("HOME"), Some("/home/user"));
}

#[test]
fn law_env_set_then_expand() {
    let mut env = Env::new();
    env.set("NAME_1", "value");
    assert_eq!(env.expand("$NAME_1"), "value");
    assert_eq!(env.expand("${NAME_1}"), "value");
    assert_eq!(env.expand("$NAME_1-x"), "value-x");
    assert_eq!(env.expand("no dollars here"), "no dollars here");
}

// ── Shell laws ───────────────────────────────────────────────────

#[test]
fn law_status_after_execute() {
    let mut shell = Shell::new();
    let r = shell.execute("cat /nope");
    assert_eq!(r.exit_code, 1);
    assert_eq!(shell.get_var("?"), Some("1"));
    let r = shell.execute("echo $?");
    assert_eq!(r.stdout, "1\n");
    assert_eq!(shell.get_var("?"), Some("0"));
}

#[test]
fn law_blank_input() {
    let mut shell = Shell::new();
    shell.execute("false_command_that_does_not_exist");
    let before = shell.get_var("?").map(|s| s.to_string());
    let r = shell.execute("   \t ");
    assert_eq!(r.stdout, "");
    assert_eq!(r.stderr, "");
    assert_eq!(r.exit_code, 0);
    assert_eq!(shell.get_var("?").map(|s| s.to_string()), before);
}

#[test]
fn parse_error_answers_with_status_two() {
    let mut shell = Shell::new();
    let r = shell.execute("echo 'unterminated");
    assert_eq!(r.exit_code, 2);
    assert!(r.stderr.starts_with("syntax error: "));
}

#[test]
fn too_long_input_is_refused() {
    let mut shell = Shell::new();
    let long = "a".repeat(1_048_577);
    let r = shell.execute(&long);
    assert_eq!(r.exit_code, 2);
    assert_eq!(r.stderr, "syntax error: input too long\n");
}

// ── Text laws ────────────────────────────────────────────────────

#[test]
fn law_sort_sorted_and_same_lines() {
    let mut shell = Shell::new();
    shell.fs_mut().write_file("/fruit", "/", b"pear\napple\nfig\napple\n");
    let r = shell.execute("sort /fruit");
    assert_eq!(r.stdout, "apple\napple\nfig\npear\n");
    shell.fs_mut().write_file("/ab", "/", b"b\na\nb\na\n");
    let r = shell.execute("sort -u /ab");
    assert_eq!(r.stdout, "a\nb\n");
    shell.fs_mut().write_file("/abc", "/", b"b\na\nc\n");
    let r = shell.execute("sort -r /abc");
    assert_eq!(r.stdout, "c\nb\na\n");
}

#[test]
fn law_uniq_runs() {
    let mut shell = Shell::new();
    shell.fs_mut().write_file("/u", "/", b"a\na\nb\na\n");
    let r = shell.execute("uniq -c /u");
    assert_eq!(r.stdout, "2 a\n1 b\n1 a\n");
}

#[test]
fn law_diff_keeps_common_lines() {
    let mut shell = Shell::new();
    shell.fs_mut().write_file("/a", "/", b"x\ny\nz\n");
    shell.fs_mut().write_file("/b", "/", b"x\nz\nw\n");
    let r = shell.execute("diff /a /b");
    assert_eq!(r.exit_code, 1);
    assert!(r.stdout.contains("< y"));
    assert!(r.stdout.contains("> w"));
    assert!(!r.stdout.contains("< x"));
    assert!(!r.stdout.contains("< z"));
    let same = shell.execute("diff /a /a");
    assert_eq!(same.exit_code, 0);
    assert_eq!(same.stdout, "");
}

#[test]
fn law_glob_star_and_literal() {
    assert!(glob("*", "anything"));
    assert!(glob("*", ""));
    assert!(glob("exact.txt", "exact.txt"));
    assert!(!glob("exact.txt", "exact.txt2"));
    assert!(!glob("exact.txt", "exact.tx"));
}

// ── Argument parsing laws ────────────────────────────────────────

#[test]
fn law_combined_flags() {
    let m = meta();
    let a = parse_args(&m, &strings(&["-lv", "f"]));
    let b = parse_args(&m, &strings(&["-l", "-v", "f"]));
    assert_eq!(a.has_flag('l'), b.has_flag('l'));
    assert_eq!(a.has_flag('v'), b.has_flag('v'));
    assert!(a.has_flag('l') && a.has_flag('v'));
    assert_eq!(a.positional, b.positional);
    assert_eq!(a.errors, b.errors);
}

#[test]
fn law_attached_value() {
    let m = meta();
    let a = parse_args(&m, &strings(&["-n7x", "f"]));
    let b = parse_args(&m, &strings(&["-n", "7x", "f"]));
    assert_eq!(a.flag_value('n'), Some("7x"));
    assert_eq!(a.flag_value('n'), b.flag_value('n'));
    assert_eq!(a.positional, b.positional);
}

#[test]
fn law_stop_parsing() {
    let m = meta();
    let a = parse_args(&m, &strings(&["--", "-l", "-n", "3"]));
    assert_eq!(a.positional, strings(&["-l", "-n", "3"]));
    assert!(!a.has_flag('l'));
    assert!(a.errors.is_empty());
}

#[test]
fn missing_value_and_unknown_flag_are_errors() {
    let m = meta();
    let a = parse_args(&m, &strings(&["-n"]));
    assert_eq!(a.errors, strings(&["demo: option requires a value: -n"]));
    let b = parse_args(&m, &strings(&["-q"]));
    assert_eq!(b.errors, strings(&["demo: invalid option: -q"]));
}

// ── Outside calls seen through the library ───────────────────────

#[test]
fn invalid_utf8_file_reads_with_replacement() {
    let mut shell = Shell::new();
    shell.fs_mut().write_file("/bin.dat", "/", &[0x61, 0xff, 0x62]);
    let r = shell.execute("cat /bin.dat");
    assert_eq!(r.stdout, "a\u{fffd}b");
}

#[test]
fn grep_ignore_case_lowercases() {
    let mut shell = Shell::new();
    let r = shell.execute("echo 'HeLLo World' | grep -i hello");
    assert_eq!(r.stdout, "HeLLo World\n");
    let r = shell.execute("echo 'HeLLo World' | grep hello");
    assert_eq!(r.exit_code, 1);
}

#[test]
fn tr_ranges_expand_to_characters() {
    let mut shell = Shell::new();
    let r = shell.execute("echo abcxyz | tr a-c A-C");
    assert_eq!(r.stdout, "ABCxyz\n");
}

#[test]
fn variable_names_stop_at_other_characters() {
    let mut shell = Shell::new();
    shell.set_var("V", "1");
    let r = shell.execute("echo $V.$V");
    assert_eq!(r.stdout, "1.1\n");
}

// ── Ancestors and the read-through listing ───────────────────────

#[test]
fn ancestors_of_paths() {
    assert_eq!(ancestors("/"), strings(&["/"]));
    assert_eq!(ancestors("/a/b/c"), strings(&["/", "/a", "/a/b", "/a/b/c"]));
    assert_eq!(ancestors("/x"), strings(&["/", "/x"]));
}

#[test]
fn read_through_listing_merges_layer_and_disk() {
    let deleted = strings(&["/d/gone"]);
    let files = strings(&["/d/new.txt"]);
    let dirs = strings(&["/", "/d", "/d/sub"]);
    let children = strings(&["new.txt", "sub"]);
    let disk = vec![
        ("b.txt".to_string(), false),
        (".hidden".to_string(), false),
        ("gone".to_string(), false),
        ("sub".to_string(), false),
        ("a".to_string(), true),
    ];
    let listed = read_through_list("/d", &deleted, &files, &dirs, Some(&children), true, Some(&disk), true, false)
        .expect("a directory");
    let names: Vec<(String, bool)> = listed.iter().map(|e| (e.name.clone(), e.is_dir)).collect();
    assert_eq!(
        names,
        vec![
            ("a".to_string(), true),
            ("b.txt".to_string(), false),
            ("new.txt".to_string(), false),
            ("sub".to_string(), true),
        ]
    );
    assert!(listed.iter().all(|e| e.size == 0));
    let with_hidden =
        read_through_list("/d", &deleted, &files, &dirs, Some(&children), true, Some(&disk), true, true).unwrap();
    assert_eq!(with_hidden[0].name, ".hidden");
}

#[test]
fn read_through_listing_refusals() {
    let none: Vec<String> = Vec::new();
    let deleted = strings(&["/d"]);
    assert!(read_through_list("/d/e", &deleted, &none, &none, None, true, None, true, false).is_none());
    let files = strings(&["/f"]);
    assert!(read_through_list("/f", &none, &files, &none, None, true, None, false, false).is_none());
    assert!(read_through_list("/x", &none, &none, &none, None, false, None, true, false).is_none());
    assert!(read_through_list("/x", &none, &none, &none, None, true, None, false, false).is_none());
    let empty_dir = read_through_list("/x", &none, &none, &none, None, true, None, true, false);
    assert_eq!(empty_dir.map(|v| v.len()), Some(0));
}

// ── Accessors ────────────────────────────────────────────────────

#[test]
fn fs_normalize_and_split() {
    let fs = Fs::new();
    assert_eq!(fs.normalize(" /a/./b/../c/ "), "/a/c");
    assert_eq!(fs.normalize("x/.."), ".");
    assert_eq!(fs.resolve_abs("b", "/a"), "/a/b");
    assert_eq!(fs.split_path("/a/b"), ("/a".to_string(), "b".to_string()));
    assert_eq!(fs.split_path("/a"), ("/".to_string(), "a".to_string()));
    assert_eq!(fs.split_path("a"), (".".to_string(), "a".to_string()));
}

#[test]
fn flag_bool_reads_boolean_flags() {
    let m = meta();
    let a = parse_args(&m, &strings(&["-l", "-n", "3"]));
    assert!(a.flag_bool('l'));
    assert!(!a.flag_bool('v'));
    assert!(a.flag_bool('n'));
}

#[test]
fn env_mut_changes_the_shell() {
    let mut shell = Shell::new();
    shell.env_mut().set("FROM_ENV", "yes");
    assert_eq!(shell.get_var("FROM_ENV"), Some("yes"));
    let r = shell.execute("echo $FROM_ENV");
    assert_eq!(r.stdout, "yes\n");
}

#[test]
fn normalize_is_idempotent() {
    let fs = Fs::new();
    for p in ["/a/./b/../c/", "x/../y//z", "..", "/", "a b/c", "/a /b/.."] {
        let n = fs.normalize(p);
        if n.trim() == n {
            assert_eq!(fs.normalize(&n), n);
        }
    }
    assert_eq!(fs.normalize("/b /."), "/b ");
    assert_eq!(fs.normalize("/b "), "/b");
}

#[test]
fn pipe_feeds_second_command() {
    let mut sh = Shell::new();
    let r = sh.execute("echo one two three | wc -w");
    assert_eq!(r.stdout.trim(), "3");
    assert_eq!(r.exit_code, 0);
    let r = sh.execute("echo hi | cat nosuchfile");
    assert_eq!(r.stdout, "");
    assert_eq!(r.exit_code, 1);
}

#[test]
fn sed_dollar_is_the_last_line() {
    let mut sh = Shell::new();
    assert!(sh.fs_mut().write_file("/abc.txt", "/", b"a\nb\nc\n"));
    let r = sh.execute("sed '$d' /abc.txt");
    assert_eq!(r.stdout, "a\nb\n");
    assert_eq!(r.exit_code, 0);
    let r = sh.execute("sed -n '$p' /abc.txt");
    assert_eq!(r.stdout, "c\n");
    let r = sh.execute("sed '2,$d' /abc.txt");
    assert_eq!(r.stdout, "a\n");
    let r = sh.execute("sed '$s/c/z/' /abc.txt");
    assert_eq!(r.stdout, "a\nb\nz\n");
}

#[test]
fn star_takes_the_empty_text() {
    assert!(glob("*", ""));
    assert!(glob("a", "a"));
    assert!(glob("a*", "a"));
    assert!(glob("*.rs", ".rs"));
    assert!(glob("a*b*", "ab"));
    assert!(!glob("a*", ""));
    assert!(!glob("a?", "a"));
    assert!(!glob("a[bc]", "a"));
}

#[test]
fn disk_steps_follow_the_events() {
    let mut fs = Fs::new();
    assert!(fs.mkdir("/d", "/"));
    assert!(fs.write_file("/a.txt", "/", b"hi"));
    assert!(fs.move_node("/a.txt", "/d", "/"));
    assert!(fs.write_file("/b.txt", "/", b"x"));
    assert!(fs.remove("/b.txt", "/"));
    let events = fs.events().clone();
    let steps = disk_steps(&fs, &events);
    let shown: Vec<String> = steps
        .iter()
        .map(|s| match s {
            DiskStep::MakeDir(p) => format!("mkdir {}", p),
            DiskStep::Write(p, b) => format!("write {} {}", p, String::from_utf8_lossy(b)),
            DiskStep::Remove(p) => format!("rm {}", p),
            DiskStep::RemoveAll(p) => format!("rm -r {}", p),
            DiskStep::Rename(a, b) => format!("mv {} {}", a, b),
        })
        .collect();
    assert_eq!(
        shown,
        vec!["mkdir /d", "write /a.txt ", "mv /a.txt /d/a.txt", "write /d/a.txt hi", "write /b.txt ", "rm /b.txt"]
    );
}

#[test]
fn write_keeps_other_paths() {
    let mut fs = Fs::new();
    assert!(fs.mkdir("/d", "/"));
    assert!(fs.write_file("/d/a.txt", "/", b"a"));
    assert!(fs.write_file("/b.txt", "/", b"b"));
    assert!(fs.write_file("/d/a.txt", "/", b"changed"));
    assert_eq!(fs.read_file("/b.txt", "/"), Some(b"b".to_vec()));
    assert!(fs.is_dir("/d", "/"));
    assert!(!fs.path_exists("/d/c.txt", "/"));
    assert_eq!(fs.read_file("a.txt", "/d"), Some(b"changed".to_vec()));
}

#[test]
fn normal_forms_have_clean_components() {
    let fs = Fs::new();
    for (p, n) in [("/a/./b/../c/", "/a/c"), ("x/../y//z", "y/z"), ("..", "."), ("/..", "/"), ("a/b/", "a/b")] {
        let r = fs.normalize(p);
        assert_eq!(r, n);
        assert_eq!(fs.normalize(&r), r);
        assert_eq!(p.starts_with('/'), r.starts_with('/'));
        if r != "/" && r != "." {
            for c in r.trim_start_matches('/').split('/') {
                assert!(c != "" && c != "." && c != "..");
            }
        }
    }
}

#[test]
fn ascii_names_expand_and_match_without_case() {
    let mut sh = Shell::new();
    sh.set_var("FOO", "bar");
    assert_eq!(sh.execute("echo $FOO").stdout, "bar\n");
    assert_eq!(sh.execute("echo Hello | grep -i HELLO").stdout, "Hello\n");
}

#[test]
fn find_steps_one_directory_at_a_time() {
    assert_eq!(find_start(""), "/");
    assert_eq!(find_start("/a/./b/"), "/a/b");
    let listing = Some(vec![
        DirEntry { name: "x.rs".to_string(), is_dir: false, size: 1 },
        DirEntry { name: "sub".to_string(), is_dir: true, size: 0 },
    ]);
    let (hit, next) = find_visit("/src", "*.rs", 3, &listing);
    assert!(!hit);
    assert_eq!(next, vec![("/src/x.rs".to_string(), 4), ("/src/sub".to_string(), 4)]);
    let (hit, next) = find_visit("/src/x.rs", "*.rs", 4, &None);
    assert!(hit);
    assert!(next.is_empty());
    let (hit, next) = find_visit("/", "/", 0, &Some(vec![]));
    assert!(hit);
    assert!(next.is_empty());
    let (hit, next) = find_visit("/deep.rs", "*.rs", 101, &listing);
    assert!(!hit);
    assert!(next.is_empty());
}

#[test]
fn write_leaves_paths_below_alone() {
    let mut fs = Fs::new();
    assert!(fs.mkdir("/d", "/"));
    assert!(fs.write_file("/d/f", "/", b"x"));
    assert!(fs.write_file("/e", "/", b"y"));
    assert!(!fs.path_exists("/e/below", "/"));
    assert!(!fs.is_dir("/d/f/g", "/"));
    assert_eq!(fs.read_file("/d/f", "/"), Some(b"x".to_vec()));
    assert!(fs.is_dir("/d", "/"));
}

#[test]
fn diff_is_silent_only_on_equal_files() {
    let mut sh = Shell::new();
    assert!(sh.fs_mut().write_file("/a", "/", b"1\n2\n"));
    assert!(sh.fs_mut().write_file("/b", "/", b"1\n2\n"));
    assert!(sh.fs_mut().write_file("/c", "/", b"1\n3\n"));
    let r = sh.execute("diff /a /b");
    assert_eq!(r.stdout, "");
    assert_eq!(r.exit_code, 0);
    let r = sh.execute("diff /a /c");
    assert!(!r.stdout.is_empty());
    assert_eq!(r.exit_code, 1);
}

#[test]
fn deep_xargs_nesting_runs() {
    let mut sh = Shell::new();
    for k in 1..70 {
        sh.set_var(&format!("Y{}", k), &format!("echo a | xargs $Y{}", k + 1));
    }
    sh.set_var("Y70", "echo done");
    let r = sh.execute("echo z | xargs $Y1");
    assert!(r.stdout.starts_with("done"), "{} {}", r.stdout, r.stderr);
    assert_eq!(r.stderr, "");
    assert_eq!(r.exit_code, 0);
}
