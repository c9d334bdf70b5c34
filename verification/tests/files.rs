use std::path::Path;
use sync_folder::index::{file_key, scan_dir, FileIndex};
use sync_folder::paths::{base_name, leads_into_trash, relative_path, trash_folder_name};

fn std_name(path: &str) -> String {
    Path::new(path).file_name().unwrap_or_default().to_string_lossy().to_string()
}

#[test]
fn base_name_agrees_with_the_standard_library() {
    let alphabet = ['/', '.', 'a', 'é'];
    let mut paths: Vec<String> = vec![String::new()];
    let mut level: Vec<String> = vec![String::new()];
    for _ in 0..7 {
        let mut longer: Vec<String> = Vec::new();
        for path in &level {
            for c in alphabet.iter() {
                let mut next = path.clone();
                next.push(*c);
                longer.push(next);
            }
        }
        paths.extend(longer.iter().cloned());
        level = longer;
    }
    for path in &paths {
        assert_eq!(base_name(path), std_name(path), "{:?}", path);
    }
}

#[test]
fn base_name_of_ordinary_paths() {
    assert_eq!(base_name("docs/a.txt"), "a.txt");
    assert_eq!(base_name("a.txt"), "a.txt");
    assert_eq!(base_name("docs/sub/"), "sub");
    assert_eq!(base_name("docs/."), "docs");
    assert_eq!(base_name("docs/.."), "");
    assert_eq!(base_name("/"), "");
    assert_eq!(base_name(""), "");
}

#[test]
fn key_joins_name_and_size() {
    assert_eq!(file_key("x/y/movie.mp4", 1024), "movie.mp4:1024");
    assert_eq!(file_key("a:1", 0), "a:1:0");
    assert_eq!(file_key("z", u64::MAX), "z:18446744073709551615");
}

#[test]
fn different_names_or_sizes_have_different_keys() {
    assert_ne!(file_key("a:1", 2), file_key("a", 12));
    assert_ne!(file_key("d/a", 1), file_key("d/a", 11));
    assert_eq!(file_key("d/a", 1), file_key("e/a", 1));
}

#[test]
fn relative_path_strips_the_root() {
    assert_eq!(relative_path("/data/A", "/data/A/x/y.txt"), Some("x/y.txt".to_string()));
    assert_eq!(relative_path("A", "A/y"), Some("y".to_string()));
    assert_eq!(relative_path("/", "//x"), Some("x".to_string()));
}

#[test]
fn relative_path_strips_a_root_that_ends_in_a_slash() {
    assert_eq!(relative_path("/data/A/", "/data/A/x"), Some("x".to_string()));
    assert_eq!(relative_path("/data/A/", "/data/A//x"), Some("x".to_string()));
    assert_eq!(relative_path("A//", "A//x/y"), Some("x/y".to_string()));
    assert_eq!(relative_path("/", "/x/y"), Some("x/y".to_string()));
    let found = vec![("/a/f".to_string(), Some(3)), ("/a/d/g".to_string(), Some(4))];
    let index = scan_dir("/a/", &found).ok().unwrap();
    assert_eq!(index.len(), 2);
    assert_eq!(index.size_of("f"), Some(3));
    assert_eq!(index.size_of("d/g"), Some(4));
    assert_eq!(index.size_of("/a/f"), None);
}

#[test]
fn relative_path_keeps_what_lies_outside_the_root() {
    assert_eq!(relative_path("/data/A/", "/data/B/x"), Some("/data/B/x".to_string()));
    assert_eq!(relative_path("", "x"), Some("x".to_string()));
    assert_eq!(relative_path("/data/A", "/data/AB/x"), Some("/data/AB/x".to_string()));
    assert_eq!(relative_path("/data/A", "/data/A"), Some("/data/A".to_string()));
}

#[test]
fn trash_folders_are_skipped() {
    assert!(leads_into_trash("/data/B/_trash_20240101_000000/x"));
    assert!(leads_into_trash("/_trash_"));
    assert!(!leads_into_trash("_trash_1/x"));
    assert!(!leads_into_trash("/data/my_trash_/x"));
    assert!(!leads_into_trash("/data/_trash"));
    assert_eq!(relative_path("/data/B", "/data/B/_trash_1/x"), None);
    let folder = trash_folder_name("20240229_123456");
    assert_eq!(folder, "_trash_20240229_123456");
    let path = format!("/data/B/{}/a/b.txt", folder);
    assert_eq!(relative_path("/data/B", &path), None);
}

#[test]
fn index_holds_what_was_inserted() {
    let mut index = FileIndex::new();
    assert_eq!(index.len(), 0);
    index.insert("x/a".to_string(), 3);
    index.insert("y/a".to_string(), 3);
    index.insert("b".to_string(), 4);
    assert_eq!(index.len(), 3);
    assert_eq!(index.size_of("x/a"), Some(3));
    assert_eq!(index.size_of("b"), Some(4));
    assert_eq!(index.size_of("a"), None);
    assert_eq!(index.pool("a:3").unwrap(), &vec!["x/a".to_string(), "y/a".to_string()]);
    assert_eq!(index.pool("b:4").unwrap(), &vec!["b".to_string()]);
    assert!(index.pool("b:3").is_none());
    assert_eq!(index.path_at(2), "b");
}

#[test]
fn inserting_a_path_again_replaces_its_size() {
    let mut index = FileIndex::new();
    index.insert("a".to_string(), 1);
    index.insert("a".to_string(), 2);
    assert_eq!(index.len(), 1);
    assert_eq!(index.size_of("a"), Some(2));
    assert_eq!(index.pool("a:1").unwrap(), &vec!["a".to_string()]);
    assert_eq!(index.pool("a:2").unwrap(), &vec!["a".to_string()]);
}

#[test]
fn scan_enters_files_under_their_relative_names() {
    let found = vec![
        ("/r/a".to_string(), Some(1)),
        ("/r/_trash_1/gone".to_string(), None),
        ("/r/d/a".to_string(), Some(1)),
    ];
    let index = scan_dir("/r", &found).ok().unwrap();
    assert_eq!(index.len(), 2);
    assert_eq!(index.size_of("a"), Some(1));
    assert_eq!(index.size_of("d/a"), Some(1));
    assert_eq!(index.pool("a:1").unwrap(), &vec!["a".to_string(), "d/a".to_string()]);
}

#[test]
fn scan_stops_at_an_unreadable_file() {
    let found = vec![
        ("/r/a".to_string(), Some(1)),
        ("/r/_trash_1/gone".to_string(), None),
        ("/r/b".to_string(), None),
        ("/r/c".to_string(), None),
    ];
    assert_eq!(scan_dir("/r", &found).err(), Some(2));
}
