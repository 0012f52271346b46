use file_organizer::log::{parse_log, Log};
use file_organizer::naming::candidate_path;
use file_organizer::organizer::{files_to_organize, log_file_path, target_directory, target_path};
use file_organizer::restore::{restore_plan, RestoreAction};

fn s(x: &str) -> String {
    x.to_string()
}

/// Sorts `files` of `base` into a log as a run does when every step succeeds
/// and nothing is in the way.
fn organize(base: &str, files: &[String], log: &mut Log) {
    let lf = log_file_path(base);
    let created = log.created_directories().clone();
    for f in files_to_organize(&files.to_vec(), &created, &lf) {
        let dir = target_directory(base, &f);
        log.create_directory(dir);
        log.move_file(f.clone(), candidate_path(&target_path(base, &f), 0));
    }
}

#[test]
fn three_files_sorted_and_restored() {
    let files = vec![s("/d/a.txt"), s("/d/b.txt"), s("/d/c")];
    let mut log = Log::new(s("/d"));
    organize("/d", &files, &mut log);
    assert_eq!(log.created_directories(), &vec![s("/d/txt"), s("/d/no_extension")]);
    assert_eq!(log.moves().len(), 3);
    let news: Vec<String> = log.moves().iter().map(|m| m.new_path().clone()).collect();
    assert_eq!(news, vec![s("/d/txt/a.txt"), s("/d/txt/b.txt"), s("/d/no_extension/c")]);

    let back = parse_log(&log.to_string()).ok().unwrap();
    let plan = restore_plan(&back);
    assert_eq!(plan.len(), 3);
    match &plan[2] {
        RestoreAction::MoveBack { from, to, parent } => {
            assert_eq!(from, "/d/no_extension/c");
            assert_eq!(to, "/d/c");
            assert_eq!(parent, &Some(s("/d")));
        }
        _ => panic!("expected a move"),
    }
}

#[test]
fn second_run_moves_nothing() {
    let files = vec![s("/d/a.txt"), s("/d/sub/b.md"), s("/d/c")];
    let mut log = Log::new(s("/d"));
    organize("/d", &files, &mut log);
    let after: Vec<String> = log.moves().iter().map(|m| m.new_path().clone()).collect();
    let mut listing = after.clone();
    listing.push(log_file_path("/d"));
    let mut second = parse_log(&log.to_string()).ok().unwrap();
    organize("/d", &listing, &mut second);
    assert_eq!(second.moves().len(), 3);
    assert_eq!(second.to_string(), log.to_string());
}

#[test]
fn restore_recreates_removed_first() {
    let mut log = Log::new(s("/d"));
    log.remove_directory(s("/d/sub"));
    log.move_file(s("/d/sub/a.txt"), s("/d/txt/a.txt"));
    let plan = restore_plan(&log);
    assert_eq!(plan.len(), 2);
    match &plan[0] {
        RestoreAction::CreateDirectory(d) => assert_eq!(d, "/d/sub"),
        _ => panic!("expected a directory"),
    }
    match &plan[1] {
        RestoreAction::MoveBack { from, to, parent } => {
            assert_eq!(from, "/d/txt/a.txt");
            assert_eq!(to, "/d/sub/a.txt");
            assert_eq!(parent, &Some(s("/d/sub")));
        }
        _ => panic!("expected a move"),
    }
}
