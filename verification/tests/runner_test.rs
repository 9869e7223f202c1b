use rustywind::engine::RustyWind;
use rustywind::runner::chunk_bounds;
use rustywind::runner::conclude;
use rustywind::runner::event_of;
use rustywind::runner::get_file_name;
use rustywind::runner::marks_failure;
use rustywind::runner::path_starts_with;
use rustywind::runner::plan_with_spans;
use rustywind::runner::run_on_file_path;
use rustywind::runner::FileAction;
use rustywind::runner::FileEvent;
use rustywind::runner::FileState;
use rustywind::runner::FileOutcome;
use rustywind::runner::StartingPath;
use rustywind::runner::WriteMode;
use rustywind::text::bytes_equal;
use rustywind::text::str_equal;

const UNSORTED: &[u8] = b"<p class='flex inline'>";
const SORTED: &[u8] = b"<p class='inline flex'>";
const NO_CLASSES: &[u8] = b"<p>flex inline</p>";

fn app() -> RustyWind {
    RustyWind::with_defaults().unwrap()
}

fn path(components: &[&str]) -> Vec<Vec<u8>> {
    components.iter().map(|part| part.as_bytes().to_vec()).collect()
}

#[test]
fn a_file_without_classes_asks_for_nothing() {
    let app = app();
    for mode in [
        WriteMode::ToFile,
        WriteMode::DryRun,
        WriteMode::ToConsole,
        WriteMode::ToStdOut,
        WriteMode::CheckFormatted,
    ] {
        assert_eq!(run_on_file_path(&app, mode, NO_CLASSES), FileAction::Nothing);
    }
}

#[test]
fn write_mode_writes_what_sorting_changes() {
    let app = app();
    assert_eq!(
        run_on_file_path(&app, WriteMode::ToFile, UNSORTED),
        FileAction::WriteFile { contents: SORTED.to_vec() }
    );
    assert_eq!(
        run_on_file_path(&app, WriteMode::ToFile, SORTED),
        FileAction::PrintFileName { changed: false }
    );
}

#[test]
fn dry_run_prints_the_name() {
    let app = app();
    assert_eq!(
        run_on_file_path(&app, WriteMode::DryRun, UNSORTED),
        FileAction::PrintFileName { changed: true }
    );
    assert_eq!(
        run_on_file_path(&app, WriteMode::DryRun, SORTED),
        FileAction::PrintFileName { changed: false }
    );
}

#[test]
fn console_mode_prints_the_sorted_contents() {
    let app = app();
    assert_eq!(
        run_on_file_path(&app, WriteMode::ToConsole, UNSORTED),
        FileAction::PrintContents { contents: SORTED.to_vec() }
    );
    assert_eq!(
        run_on_file_path(&app, WriteMode::ToConsole, SORTED),
        FileAction::PrintContents { contents: SORTED.to_vec() }
    );
}

#[test]
fn check_mode_reports_what_sorting_changes() {
    let app = app();
    assert_eq!(
        run_on_file_path(&app, WriteMode::CheckFormatted, UNSORTED),
        FileAction::ReportUnformatted
    );
    assert_eq!(
        run_on_file_path(&app, WriteMode::CheckFormatted, SORTED),
        FileAction::Nothing
    );
}

#[test]
fn stdout_mode_leaves_files_alone() {
    assert_eq!(
        run_on_file_path(&app(), WriteMode::ToStdOut, UNSORTED),
        FileAction::Nothing
    );
}

#[test]
fn plan_with_spans_goes_by_the_spans_given() {
    let app = app();
    assert_eq!(
        plan_with_spans(&app, WriteMode::ToFile, UNSORTED, &vec![]),
        FileAction::Nothing
    );
    assert_eq!(
        plan_with_spans(&app, WriteMode::ToFile, UNSORTED, &vec![Some((10, 21))]),
        FileAction::WriteFile { contents: SORTED.to_vec() }
    );
    assert_eq!(
        plan_with_spans(&app, WriteMode::CheckFormatted, UNSORTED, &vec![None]),
        FileAction::Nothing
    );
}

#[test]
fn conclude_tells_what_became_of_the_file() {
    let write = FileAction::WriteFile { contents: SORTED.to_vec() };
    assert_eq!(conclude(&write, true), FileOutcome::Rewritten);
    assert_eq!(conclude(&write, false), FileOutcome::WriteFailed);
    assert_eq!(conclude(&FileAction::Nothing, false), FileOutcome::Unchanged);
    assert_eq!(
        conclude(&FileAction::PrintFileName { changed: true }, true),
        FileOutcome::Unchanged
    );
    assert_eq!(
        conclude(&FileAction::ReportUnformatted, true),
        FileOutcome::Unchanged
    );
}

#[test]
fn a_run_fails_on_unformatted_files_and_failed_writes() {
    let write = FileAction::WriteFile { contents: SORTED.to_vec() };
    assert!(marks_failure(&FileAction::ReportUnformatted, FileOutcome::Unchanged));
    assert!(marks_failure(&write, FileOutcome::WriteFailed));
    assert!(!marks_failure(&write, FileOutcome::Rewritten));
    assert!(!marks_failure(&FileAction::Nothing, FileOutcome::Unchanged));
    assert!(!marks_failure(&FileAction::Nothing, FileOutcome::ReadFailed));
    assert!(!marks_failure(&FileAction::Nothing, FileOutcome::Skipped));
}

#[test]
fn write_mode_follows_the_flags() {
    assert_eq!(WriteMode::from_flags(true, true, true, true), WriteMode::DryRun);
    assert_eq!(WriteMode::from_flags(false, true, true, true), WriteMode::ToFile);
    assert_eq!(
        WriteMode::from_flags(false, false, true, true),
        WriteMode::CheckFormatted
    );
    assert_eq!(WriteMode::from_flags(false, false, false, true), WriteMode::ToStdOut);
    assert_eq!(
        WriteMode::from_flags(false, false, false, false),
        WriteMode::ToConsole
    );
}

#[test]
fn chunk_bounds_shares_the_files_out_evenly() {
    assert_eq!(chunk_bounds(10, 3), vec![(0, 4), (4, 8), (8, 10)]);
    assert_eq!(chunk_bounds(9, 3), vec![(0, 3), (3, 6), (6, 9)]);
    assert_eq!(chunk_bounds(10, 1), vec![(0, 10)]);
    assert_eq!(chunk_bounds(10, 4), vec![(0, 3), (3, 6), (6, 9), (9, 10)]);
    assert_eq!(chunk_bounds(9, 4), vec![(0, 3), (3, 6), (6, 9)]);
}

#[test]
fn chunk_bounds_at_the_edges() {
    assert_eq!(chunk_bounds(0, 4), vec![]);
    assert_eq!(chunk_bounds(0, 0), vec![]);
    assert_eq!(chunk_bounds(5, 0), vec![(0, 5)]);
    assert_eq!(chunk_bounds(3, 8), vec![(0, 1), (1, 2), (2, 3)]);
    assert_eq!(chunk_bounds(1, 1), vec![(0, 1)]);
    assert_eq!(
        chunk_bounds(usize::MAX, 2),
        vec![(0, usize::MAX / 2 + 1), (usize::MAX / 2 + 1, usize::MAX)]
    );
}

#[test]
fn every_pool_size_gives_the_outcomes_of_a_single_worker() {
    let app = app();
    let files: Vec<&[u8]> = vec![UNSORTED, SORTED, NO_CLASSES, UNSORTED, SORTED, UNSORTED, NO_CLASSES];
    let alone: Vec<FileOutcome> = files
        .iter()
        .map(|file| conclude(&run_on_file_path(&app, WriteMode::ToFile, file), true))
        .collect();
    assert_eq!(
        alone,
        vec![
            FileOutcome::Rewritten,
            FileOutcome::Unchanged,
            FileOutcome::Unchanged,
            FileOutcome::Rewritten,
            FileOutcome::Unchanged,
            FileOutcome::Rewritten,
            FileOutcome::Unchanged,
        ]
    );
    for workers in 0..10 {
        let mut pooled: Vec<FileOutcome> = Vec::new();
        let bounds = chunk_bounds(files.len(), workers);
        assert!(workers == 0 || bounds.len() <= workers);
        for (start, end) in bounds {
            for file in &files[start..end] {
                pooled.push(conclude(&run_on_file_path(&app, WriteMode::ToFile, file), true));
            }
        }
        assert_eq!(pooled, alone);
    }
}

#[test]
fn get_file_name_starts_at_the_starting_directory() {
    let starts = vec![
        StartingPath { components: path(&["home", "me", "site"]), is_dir: true, has_parent: true },
    ];
    assert_eq!(
        get_file_name(&path(&["home", "me", "site", "src", "a.html"]), &starts),
        path(&["site", "src", "a.html"])
    );
    assert_eq!(
        get_file_name(&path(&["home", "you", "a.html"]), &starts),
        path(&["home", "you", "a.html"])
    );
}

#[test]
fn get_file_name_takes_the_first_directory_that_holds_the_file() {
    let starts = vec![
        StartingPath { components: path(&["a", "b", "c.html"]), is_dir: false, has_parent: true },
        StartingPath { components: path(&["a", "b"]), is_dir: true, has_parent: true },
        StartingPath { components: path(&["a"]), is_dir: true, has_parent: true },
    ];
    assert_eq!(
        get_file_name(&path(&["a", "b", "c.html"]), &starts),
        path(&["b", "c.html"])
    );
    assert_eq!(
        get_file_name(&path(&["a", "x", "c.html"]), &starts),
        path(&["a", "x", "c.html"])
    );
    assert_eq!(get_file_name(&path(&["c.html"]), &vec![]), path(&["c.html"]));
    let here = vec![StartingPath { components: path(&[]), is_dir: true, has_parent: false }];
    assert_eq!(get_file_name(&path(&["c.html"]), &here), path(&["c.html"]));
    let dot = vec![StartingPath { components: path(&["."]), is_dir: true, has_parent: true }];
    assert_eq!(
        get_file_name(&path(&[".", "src", "c.html"]), &dot),
        path(&[".", "src", "c.html"])
    );
}

#[test]
fn path_starts_with_compares_whole_components() {
    assert!(path_starts_with(&path(&["a", "b"]), &path(&["a"])));
    assert!(path_starts_with(&path(&["a", "b"]), &path(&["a", "b"])));
    assert!(path_starts_with(&path(&["a", "b"]), &path(&[])));
    assert!(!path_starts_with(&path(&["ab", "c"]), &path(&["a"])));
    assert!(!path_starts_with(&path(&["a"]), &path(&["a", "b"])));
}

#[test]
fn texts_are_compared_byte_for_byte() {
    assert!(bytes_equal(b"", b""));
    assert!(bytes_equal(b"abc", b"abc"));
    assert!(!bytes_equal(b"abc", b"abd"));
    assert!(!bytes_equal(b"abc", b"ab"));
    assert!(str_equal("abc", "abc"));
    assert!(!str_equal("abc", "abC"));
}

#[test]
fn a_file_goes_from_unvisited_to_its_end() {
    let read = FileState::Unvisited.advance(FileEvent::Opened);
    assert_eq!(read, FileState::Read);
    assert_eq!(
        read.advance(FileEvent::Ignored),
        FileState::Done(FileOutcome::Skipped)
    );
    assert_eq!(
        read.advance(FileEvent::ReadError),
        FileState::Done(FileOutcome::ReadFailed)
    );
    let classified = read.advance(FileEvent::ReadDone);
    assert_eq!(classified, FileState::Classified);
    assert_eq!(
        classified.advance(FileEvent::NothingWritten),
        FileState::Done(FileOutcome::Unchanged)
    );
    assert_eq!(
        classified.advance(FileEvent::Written),
        FileState::Done(FileOutcome::Rewritten)
    );
    assert_eq!(
        classified.advance(FileEvent::WriteError),
        FileState::Done(FileOutcome::WriteFailed)
    );
}

#[test]
fn an_event_out_of_turn_changes_nothing() {
    assert_eq!(
        FileState::Unvisited.advance(FileEvent::Written),
        FileState::Unvisited
    );
    assert_eq!(FileState::Read.advance(FileEvent::Opened), FileState::Read);
    assert_eq!(
        FileState::Classified.advance(FileEvent::Ignored),
        FileState::Classified
    );
    let done = FileState::Done(FileOutcome::Rewritten);
    for event in [
        FileEvent::Opened,
        FileEvent::Ignored,
        FileEvent::ReadError,
        FileEvent::ReadDone,
        FileEvent::NothingWritten,
        FileEvent::Written,
        FileEvent::WriteError,
    ] {
        assert_eq!(done.advance(event), done);
    }
    assert!(done.is_terminal());
    assert!(!FileState::Classified.is_terminal());
    assert_eq!(done.outcome(), Some(FileOutcome::Rewritten));
    assert_eq!(FileState::Read.outcome(), None);
}

#[test]
fn event_of_follows_the_action() {
    let write = FileAction::WriteFile { contents: SORTED.to_vec() };
    assert_eq!(event_of(&write, true), FileEvent::Written);
    assert_eq!(event_of(&write, false), FileEvent::WriteError);
    assert_eq!(event_of(&FileAction::Nothing, false), FileEvent::NothingWritten);
    assert_eq!(
        event_of(&FileAction::ReportUnformatted, true),
        FileEvent::NothingWritten
    );
}

#[test]
fn get_file_name_hides_a_root_that_is_a_starting_path() {
    let root = vec![StartingPath { components: path(&["/"]), is_dir: true, has_parent: false }];
    assert_eq!(
        get_file_name(&path(&["/", "srv", "c.html"]), &root),
        path(&["srv", "c.html"])
    );
    let below = vec![StartingPath { components: path(&["/", "srv"]), is_dir: true, has_parent: true }];
    assert_eq!(
        get_file_name(&path(&["/", "srv", "c.html"]), &below),
        path(&["srv", "c.html"])
    );
}
