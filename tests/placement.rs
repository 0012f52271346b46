use file_organizer::naming::{candidate_path, decimal};
use file_organizer::organizer::{
    bucket, files_to_organize, log_file_path, should_organize, target_directory, target_path,
};
use file_organizer::paths::{file_name, join, parent, split_extension, under};

fn s(x: &str) -> String {
    x.to_string()
}

#[test]
fn decimal_numerals() {
    assert_eq!(decimal(0), "0");
    assert_eq!(decimal(7), "7");
    assert_eq!(decimal(10), "10");
    assert_eq!(decimal(1234), "1234");
    assert_eq!(decimal(u64::MAX), u64::MAX.to_string());
}

#[test]
fn collision_names() {
    assert_eq!(candidate_path("/d/txt/report.txt", 0), "/d/txt/report.txt");
    assert_eq!(candidate_path("/d/txt/report.txt", 1), "/d/txt/report (1).txt");
    assert_eq!(candidate_path("/d/txt/report.txt", 12), "/d/txt/report (12).txt");
    assert_eq!(candidate_path("/d/no_extension/c", 2), "/d/no_extension/c (2)");
    assert_eq!(candidate_path("/d/x/.bashrc", 1), "/d/x/.bashrc (1)");
    assert_eq!(candidate_path("/d/x/a.tar.gz", 1), "/d/x/a.tar (1).gz");
    assert_eq!(candidate_path("/d/x/a.", 1), "/d/x/a (1)");
}

#[test]
fn two_reports_land_apart() {
    let first = candidate_path("dir/report.txt", 0);
    let second = candidate_path("dir/report.txt", 1);
    assert_eq!(first, "dir/report.txt");
    assert_eq!(second, "dir/report (1).txt");
    assert_ne!(first, second);
}

#[test]
fn buckets() {
    assert_eq!(bucket("/d/a.txt"), "txt");
    assert_eq!(bucket("/d/sub/b.JPG"), "JPG");
    assert_eq!(bucket("/d/c"), "no_extension");
    assert_eq!(bucket("/d/.hidden"), "no_extension");
    assert_eq!(bucket("/d/x."), "no_extension");
    assert_eq!(bucket("/d.dir/c"), "no_extension");
}

#[test]
fn targets() {
    assert_eq!(target_directory("/d", "/d/sub/a.txt"), "/d/txt");
    assert_eq!(target_path("/d", "/d/sub/a.txt"), "/d/txt/a.txt");
    assert_eq!(target_path("/", "/c"), "/no_extension/c");
    assert_eq!(log_file_path("/d"), "/d/.file_organizer_log");
}

#[test]
fn selection() {
    let created = vec![s("/d/txt")];
    assert!(!should_organize("/d/txt/a.txt", &created, "/d/.file_organizer_log"));
    assert!(should_organize("/d/txt2/a.txt", &created, "/d/.file_organizer_log"));
    assert!(!should_organize("/d/.file_organizer_log", &created, "/d/.file_organizer_log"));
    let all = vec![s("/d/a.txt"), s("/d/txt/b.txt"), s("/d/.file_organizer_log"), s("/d/c")];
    assert_eq!(
        files_to_organize(&all, &created, "/d/.file_organizer_log"),
        vec![s("/d/a.txt"), s("/d/c")]
    );
}

#[test]
fn path_pieces() {
    assert_eq!(file_name("/a/b/c.txt"), "c.txt");
    assert_eq!(file_name("c"), "c");
    assert_eq!(join("/a", "b"), "/a/b");
    assert_eq!(join("/a/", "b"), "/a/b");
    assert_eq!(join("", "b"), "b");
    assert_eq!(parent("/a/b"), Some(s("/a")));
    assert_eq!(parent("/a"), Some(s("/")));
    assert_eq!(parent("/"), None);
    assert_eq!(parent("a"), None);
    assert!(under("/a/b/c", "/a/b"));
    assert!(under("/a/b", "/a/b"));
    assert!(!under("/a/bc", "/a/b"));
    assert!(under("/a/x", "/"));
    assert_eq!(split_extension("a.txt"), (s("a"), Some(s("txt"))));
    assert_eq!(split_extension(".."), (s(".."), None));
    assert_eq!(split_extension("a."), (s("a"), Some(s(""))));
}
