use file_organizer::log::{lines, parse_log, Log, LogEntry, LogError};

fn s(x: &str) -> String {
    x.to_string()
}

#[test]
fn entry_line() {
    let e = LogEntry::new(s("/d/a.txt"), s("/d/txt/a.txt"));
    assert_eq!(e.to_string(), "/d/a.txt -> /d/txt/a.txt");
    assert_eq!(e.old_path(), "/d/a.txt");
    assert_eq!(e.new_path(), "/d/txt/a.txt");
}

#[test]
fn directories_recorded_once() {
    let mut log = Log::new(s("/d"));
    log.create_directory(s("/d/txt"));
    log.create_directory(s("/d/txt"));
    log.create_directory(s("/d/md"));
    log.remove_directory(s("/d/old"));
    log.remove_directory(s("/d/old"));
    assert_eq!(log.created_directories(), &vec![s("/d/txt"), s("/d/md")]);
    assert_eq!(log.removed_directories(), &vec![s("/d/old")]);
    assert_eq!(log.base_directory(), "/d");
}

#[test]
fn moves_always_appended() {
    let mut log = Log::new(s("/d"));
    log.move_file(s("/d/a"), s("/d/x/a"));
    log.move_file(s("/d/a"), s("/d/x/a"));
    assert_eq!(log.moves().len(), 2);
    assert_eq!(log.moves()[1].new_path(), "/d/x/a");
}

#[test]
fn n_moves_give_n_records() {
    let mut log = Log::new(s("/d"));
    for i in 0..25 {
        log.move_file(format!("/d/f{}", i), format!("/d/no_extension/f{}", i));
    }
    assert_eq!(log.moves().len(), 25);
    for i in 0..25 {
        assert_eq!(log.moves()[i].old_path(), &format!("/d/f{}", i));
    }
}

#[test]
fn text_form() {
    let mut log = Log::new(s("/d"));
    log.create_directory(s("/d/txt"));
    log.remove_directory(s("/d/empty"));
    log.move_file(s("/d/a.txt"), s("/d/txt/a.txt"));
    assert_eq!(log.to_string(), "/d\n+ /d/txt\n/d/empty\n/d/a.txt -> /d/txt/a.txt");
    assert_eq!(Log::new(s("/d")).to_string(), "/d");
}

#[test]
fn text_round_trip() {
    let mut log = Log::new(s("/home/u/docs"));
    log.create_directory(s("/home/u/docs/txt"));
    log.create_directory(s("/home/u/docs/no_extension"));
    log.remove_directory(s("/home/u/docs/sub"));
    log.move_file(s("/home/u/docs/sub/a.txt"), s("/home/u/docs/txt/a.txt"));
    log.move_file(s("/home/u/docs/c"), s("/home/u/docs/no_extension/c"));
    let text = log.to_string();
    let back = parse_log(&text).ok().unwrap();
    assert_eq!(back.to_string(), text);
    assert_eq!(back.base_directory(), "/home/u/docs");
    assert_eq!(back.created_directories().len(), 2);
    assert_eq!(back.removed_directories(), &vec![s("/home/u/docs/sub")]);
    assert_eq!(back.moves()[1].old_path(), "/home/u/docs/c");
}

#[test]
fn empty_text_is_corrupt() {
    assert!(matches!(parse_log(""), Err(LogError::CorruptLog)));
}

#[test]
fn lenient_lines() {
    let log = parse_log("/d\r\n\n+ + /d/x\nsomething odd\n/a -> /b -> /c\n").ok().unwrap();
    assert_eq!(log.base_directory(), "/d");
    assert_eq!(log.created_directories(), &vec![s("/d/x")]);
    assert_eq!(log.removed_directories(), &vec![s("something odd")]);
    assert_eq!(log.moves().len(), 1);
    assert_eq!(log.moves()[0].old_path(), "/a");
    assert_eq!(log.moves()[0].new_path(), "/b -> /c");
}

#[test]
fn repeated_directories_read_once() {
    let log = parse_log("/d\n+ /d/x\n+ /d/x\n/d/y\n/d/y").ok().unwrap();
    assert_eq!(log.created_directories().len(), 1);
    assert_eq!(log.removed_directories().len(), 1);
}

#[test]
fn lines_like_std() {
    assert_eq!(lines(""), Vec::<String>::new());
    assert_eq!(lines("a\n"), vec![s("a")]);
    assert_eq!(lines("a\r\nb\r"), vec![s("a"), s("b\r")]);
    assert_eq!(lines("\n\nx"), vec![s(""), s(""), s("x")]);
}
