//! What is done with one file, and how a list of files is shared out among
//! workers. Reading, writing and printing are the caller's; the decisions
//! are made here.
use vstd::prelude::*;

use crate::engine::RustyWind;
use crate::engine::SortRules;
use crate::finder::pattern_spans;
use crate::text::views_of;

verus! {

/// What is done with the sorted contents of a file.
#[derive(Debug, Clone, Copy, PartialEq, Eq, Structural)]
pub enum WriteMode {
    /// The file is overwritten where sorting changed it.
    ToFile,
    /// The names of the files are printed, and nothing is written.
    DryRun,
    /// The sorted contents are printed.
    ToConsole,
    /// The contents came from the standard input; files are left alone.
    ToStdOut,
    /// The names of the files that sorting would change are printed, and the
    /// run fails if there is one.
    CheckFormatted,
}

impl WriteMode {
    /// The mode that the flags of a command line ask for: the first of dry
    /// run, write, check and standard input that is set, in this order, and
    /// the console where none is.
    pub open spec fn chosen(dry_run: bool, write: bool, check_formatted: bool, stdin: bool) -> WriteMode {
        if dry_run {
            WriteMode::DryRun
        } else if write {
            WriteMode::ToFile
        } else if check_formatted {
            WriteMode::CheckFormatted
        } else if stdin {
            WriteMode::ToStdOut
        } else {
            WriteMode::ToConsole
        }
    }

    /// The mode that the flags of a command line ask for.
    pub fn from_flags(dry_run: bool, write: bool, check_formatted: bool, stdin: bool) -> (mode:
        WriteMode)
        ensures
            mode == WriteMode::chosen(dry_run, write, check_formatted, stdin),
    {
        if dry_run {
            WriteMode::DryRun
        } else if write {
            WriteMode::ToFile
        } else if check_formatted {
            WriteMode::CheckFormatted
        } else if stdin {
            WriteMode::ToStdOut
        } else {
            WriteMode::ToConsole
        }
    }
}

/// What the caller is asked to do for one file.
#[derive(Debug, PartialEq, Eq)]
pub enum FileAction {
    /// Nothing.
    Nothing,
    /// Print the name of the file, and whether sorting changes it.
    PrintFileName { changed: bool },
    /// Overwrite the file with these contents.
    WriteFile { contents: Vec<u8> },
    /// Print these contents.
    PrintContents { contents: Vec<u8> },
    /// Report the file as unformatted.
    ReportUnformatted,
}

/// What became of one file.
#[derive(Debug, Clone, Copy, PartialEq, Eq, Structural)]
pub enum FileOutcome {
    /// The file is among the ignored ones.
    Skipped,
    /// The file could not be read.
    ReadFailed,
    /// Nothing was written to the file.
    Unchanged,
    /// The sorted contents were written to the file.
    Rewritten,
    /// The sorted contents could not be written to the file.
    WriteFailed,
}

/// What is known of one file before anything is decided: whether it is
/// ignored, its contents if it could be read, and whether writing to it
/// succeeds.
pub ghost struct FileFacts {
    pub ignored: bool,
    pub contents: Option<Seq<u8>>,
    pub writable: bool,
}

/// What the caller is asked to do, as mathematics.
pub ghost enum PlannedAction {
    Nothing,
    PrintFileName { changed: bool },
    WriteFile { contents: Seq<u8> },
    PrintContents { contents: Seq<u8> },
    ReportUnformatted,
}

impl FileAction {
    /// The action, with its contents as sequences of bytes.
    pub open spec fn view(&self) -> PlannedAction {
        match *self {
            FileAction::Nothing => PlannedAction::Nothing,
            FileAction::PrintFileName { changed } => PlannedAction::PrintFileName { changed },
            FileAction::WriteFile { contents } => PlannedAction::WriteFile { contents: contents@ },
            FileAction::PrintContents { contents } => PlannedAction::PrintContents {
                contents: contents@,
            },
            FileAction::ReportUnformatted => PlannedAction::ReportUnformatted,
        }
    }
}

/// The action for a file with the given contents. A file without a class
/// list asks for nothing. Otherwise the mode decides: a dry run prints the
/// name; writing overwrites a file that sorting changes and prints the name
/// of one that it does not change; the console gets the sorted contents;
/// a check reports a file that sorting changes.
pub open spec fn planned_action(
    rules: SortRules,
    spans: Seq<Option<(usize, usize)>>,
    mode: WriteMode,
    contents: Seq<u8>,
) -> PlannedAction {
    let sorted = rules.rewritten(contents, spans, 0);
    let changed = sorted != contents;
    if spans.len() == 0 {
        PlannedAction::Nothing
    } else {
        match mode {
            WriteMode::ToStdOut => PlannedAction::Nothing,
            WriteMode::DryRun => PlannedAction::PrintFileName { changed },
            WriteMode::ToFile => if changed {
                PlannedAction::WriteFile { contents: sorted }
            } else {
                PlannedAction::PrintFileName { changed: false }
            },
            WriteMode::ToConsole => PlannedAction::PrintContents { contents: sorted },
            WriteMode::CheckFormatted => if changed {
                PlannedAction::ReportUnformatted
            } else {
                PlannedAction::Nothing
            },
        }
    }
}

/// What becomes of a file once the action was carried out: it is rewritten
/// or not where the action was to write it, and unchanged otherwise.
pub open spec fn concluded(action: PlannedAction, written: bool) -> FileOutcome {
    match action {
        PlannedAction::WriteFile { .. } => if written {
            FileOutcome::Rewritten
        } else {
            FileOutcome::WriteFailed
        },
        _ => FileOutcome::Unchanged,
    }
}

/// Whether a file makes the run fail: it was reported as unformatted, or it
/// could not be written.
pub open spec fn fails_run(action: PlannedAction, outcome: FileOutcome) -> bool {
    action is ReportUnformatted || outcome == FileOutcome::WriteFailed
}

/// What becomes of a file, from what is known of it: an ignored file is
/// skipped, an unreadable one has failed to read, and any other ends as its
/// action concludes.
pub open spec fn file_outcome(
    rules: SortRules,
    pattern: Seq<char>,
    mode: WriteMode,
    facts: FileFacts,
) -> FileOutcome {
    if facts.ignored {
        FileOutcome::Skipped
    } else {
        match facts.contents {
            None => FileOutcome::ReadFailed,
            Some(contents) => concluded(
                planned_action(rules, pattern_spans(pattern, contents), mode, contents),
                facts.writable,
            ),
        }
    }
}

/// The outcomes of a list of files, file by file.
pub open spec fn outcomes(
    rules: SortRules,
    pattern: Seq<char>,
    mode: WriteMode,
    files: Seq<FileFacts>,
) -> Seq<FileOutcome> {
    Seq::new(files.len(), |i: int| file_outcome(rules, pattern, mode, files[i]))
}

/// Whether two byte strings differ.
fn differs(a: &Vec<u8>, b: &[u8]) -> (different: bool)
    ensures
        different == (a@ != b@),
{
    !crate::text::bytes_equal(a.as_slice(), b)
}

/// Decides what is to be done for a file, from the class lists that were
/// found in it.
pub fn plan_with_spans(
    sorter: &RustyWind,
    mode: WriteMode,
    contents: &[u8],
    spans: &Vec<Option<(usize, usize)>>,
) -> (action: FileAction)
    ensures
        action@ == planned_action(sorter.rules(), spans@, mode, contents@),
{
    if spans.len() == 0 {
        return FileAction::Nothing;
    }
    match mode {
        WriteMode::ToStdOut => FileAction::Nothing,
        WriteMode::DryRun => {
            let sorted = sorter.sort_spans(contents, spans);
            FileAction::PrintFileName { changed: differs(&sorted, contents) }
        },
        WriteMode::ToFile => {
            let sorted = sorter.sort_spans(contents, spans);
            if differs(&sorted, contents) {
                FileAction::WriteFile { contents: sorted }
            } else {
                FileAction::PrintFileName { changed: false }
            }
        },
        WriteMode::ToConsole => {
            let sorted = sorter.sort_spans(contents, spans);
            FileAction::PrintContents { contents: sorted }
        },
        WriteMode::CheckFormatted => {
            let sorted = sorter.sort_spans(contents, spans);
            if differs(&sorted, contents) {
                FileAction::ReportUnformatted
            } else {
                FileAction::Nothing
            }
        },
    }
}

/// Decides what is to be done for a file that was read.
pub fn run_on_file_path(sorter: &RustyWind, mode: WriteMode, contents: &[u8]) -> (action:
    FileAction)
    ensures
        action@ == planned_action(
            sorter.rules(),
            pattern_spans(sorter.pattern(), contents@),
            mode,
            contents@,
        ),
{
    let spans = sorter.find_class_lists(contents);
    plan_with_spans(sorter, mode, contents, &spans)
}

/// What became of a file on which `action` was carried out; `written` says
/// whether writing succeeded, and counts only where the action was to write.
pub fn conclude(action: &FileAction, written: bool) -> (outcome: FileOutcome)
    ensures
        outcome == concluded(action@, written),
{
    match action {
        FileAction::WriteFile { .. } => if written {
            FileOutcome::Rewritten
        } else {
            FileOutcome::WriteFailed
        },
        _ => FileOutcome::Unchanged,
    }
}

/// Whether a file makes the run fail.
pub fn marks_failure(action: &FileAction, outcome: FileOutcome) -> (fails: bool)
    ensures
        fails == fails_run(action@, outcome),
{
    let unformatted = match action {
        FileAction::ReportUnformatted => true,
        _ => false,
    };
    unformatted || outcome == FileOutcome::WriteFailed
}

/// Where one file stands on its way through a run.
#[derive(Debug, Clone, Copy, PartialEq, Eq, Structural)]
pub enum FileState {
    /// Nothing was done with the file yet.
    Unvisited,
    /// The file was taken up.
    Read,
    /// The contents were read, and it was decided what to do.
    Classified,
    /// The file has come to one of its ends.
    Done(FileOutcome),
}

/// What happens to a file on its way through a run.
#[derive(Debug, Clone, Copy, PartialEq, Eq, Structural)]
pub enum FileEvent {
    /// The file is taken up.
    Opened,
    /// The file is found among the ignored ones.
    Ignored,
    /// The contents could not be read.
    ReadError,
    /// The contents were read.
    ReadDone,
    /// The action asked for no writing.
    NothingWritten,
    /// The sorted contents were written.
    Written,
    /// The sorted contents could not be written.
    WriteError,
}

impl FileState {
    /// Whether nothing more happens to the file.
    pub open spec fn terminal(self) -> bool {
        self is Done
    }

    /// The state after an event. An event that does not belong to the state
    /// changes nothing.
    pub open spec fn after(self, event: FileEvent) -> FileState {
        match (self, event) {
            (FileState::Unvisited, FileEvent::Opened) => FileState::Read,
            (FileState::Read, FileEvent::Ignored) => FileState::Done(FileOutcome::Skipped),
            (FileState::Read, FileEvent::ReadError) => FileState::Done(FileOutcome::ReadFailed),
            (FileState::Read, FileEvent::ReadDone) => FileState::Classified,
            (FileState::Classified, FileEvent::NothingWritten) => FileState::Done(
                FileOutcome::Unchanged,
            ),
            (FileState::Classified, FileEvent::Written) => FileState::Done(FileOutcome::Rewritten),
            (FileState::Classified, FileEvent::WriteError) => FileState::Done(
                FileOutcome::WriteFailed,
            ),
            _ => self,
        }
    }

    /// Whether nothing more happens to the file.
    pub fn is_terminal(&self) -> (terminal: bool)
        ensures
            terminal == self.terminal(),
    {
        match self {
            FileState::Done(_) => true,
            _ => false,
        }
    }

    /// The state after an event.
    pub fn advance(self, event: FileEvent) -> (next: FileState)
        ensures
            next == self.after(event),
    {
        match (self, event) {
            (FileState::Unvisited, FileEvent::Opened) => FileState::Read,
            (FileState::Read, FileEvent::Ignored) => FileState::Done(FileOutcome::Skipped),
            (FileState::Read, FileEvent::ReadError) => FileState::Done(FileOutcome::ReadFailed),
            (FileState::Read, FileEvent::ReadDone) => FileState::Classified,
            (FileState::Classified, FileEvent::NothingWritten) => FileState::Done(
                FileOutcome::Unchanged,
            ),
            (FileState::Classified, FileEvent::Written) => FileState::Done(FileOutcome::Rewritten),
            (FileState::Classified, FileEvent::WriteError) => FileState::Done(
                FileOutcome::WriteFailed,
            ),
            (state, _) => state,
        }
    }

    /// What became of the file, once it has come to its end.
    pub fn outcome(&self) -> (outcome: Option<FileOutcome>)
        ensures
            outcome == (match *self {
                FileState::Done(end) => Some(end),
                _ => None,
            }),
    {
        match self {
            FileState::Done(end) => Some(*end),
            _ => None,
        }
    }

    /// A file that has come to its end stays there, whatever happens.
    pub proof fn lemma_terminal_stays(self, event: FileEvent)
        requires
            self.terminal(),
        ensures
            self.after(event) == self,
    {
    }
}

/// What carrying out an action means for the state of the file.
pub open spec fn written_event(action: PlannedAction, written: bool) -> FileEvent {
    match action {
        PlannedAction::WriteFile { .. } => if written {
            FileEvent::Written
        } else {
            FileEvent::WriteError
        },
        _ => FileEvent::NothingWritten,
    }
}

/// What carrying out an action means for the state of the file; `written`
/// says whether writing succeeded, and counts only where the action was to
/// write.
pub fn event_of(action: &FileAction, written: bool) -> (event: FileEvent)
    ensures
        event == written_event(action@, written),
{
    match action {
        FileAction::WriteFile { .. } => if written {
            FileEvent::Written
        } else {
            FileEvent::WriteError
        },
        _ => FileEvent::NothingWritten,
    }
}

/// A file goes from unvisited to its outcome: it is taken up; then it is
/// ignored, or fails to be read, or is read and ends as its action
/// concludes.
pub proof fn lemma_states_reach_outcome(
    rules: SortRules,
    pattern: Seq<char>,
    mode: WriteMode,
    facts: FileFacts,
)
    ensures
        facts.ignored ==> FileState::Unvisited.after(FileEvent::Opened).after(FileEvent::Ignored)
            == FileState::Done(file_outcome(rules, pattern, mode, facts)),
        !facts.ignored && facts.contents is None ==> FileState::Unvisited.after(
            FileEvent::Opened,
        ).after(FileEvent::ReadError) == FileState::Done(
            file_outcome(rules, pattern, mode, facts),
        ),
        !facts.ignored && facts.contents is Some ==> FileState::Unvisited.after(
            FileEvent::Opened,
        ).after(FileEvent::ReadDone).after(
            written_event(
                planned_action(
                    rules,
                    pattern_spans(pattern, facts.contents->0),
                    mode,
                    facts.contents->0,
                ),
                facts.writable,
            ),
        ) == FileState::Done(file_outcome(rules, pattern, mode, facts)),
{
}

/// How many files one worker gets at most: the files shared out evenly
/// among the workers, rounded up, and at least one. No worker counts as one
/// worker.
pub open spec fn chunk_size(total: nat, workers: nat) -> nat {
    if workers == 0 || total == 0 {
        if total == 0 {
            1
        } else {
            total
        }
    } else if total % workers == 0 {
        total / workers
    } else {
        total / workers + 1
    }
}

/// The chunks of the files from `start` on: each is the next `size` files,
/// and the last is what is left.
pub open spec fn chunks_from(start: nat, total: nat, size: nat) -> Seq<(usize, usize)>
    decreases total - start,
{
    if start >= total || size == 0 {
        Seq::empty()
    } else {
        let end = if start + size < total {
            start + size
        } else {
            total
        };
        seq![(start as usize, end as usize)] + chunks_from(end, total, size)
    }
}

/// The chunks into which `total` files are cut for `workers` workers.
pub open spec fn chunks(total: nat, workers: nat) -> Seq<(usize, usize)> {
    chunks_from(0, total, chunk_size(total, workers))
}

/// The files of the chunks, chunk by chunk.
pub open spec fn gathered<T>(items: Seq<T>, bounds: Seq<(usize, usize)>) -> Seq<T>
    decreases bounds.len(),
{
    if bounds.len() == 0 {
        Seq::empty()
    } else {
        items.subrange(bounds[0].0 as int, bounds[0].1 as int) + gathered(
            items,
            bounds.drop_first(),
        )
    }
}

/// The chunks from `start` on are not empty, lie in the list one behind the
/// other, and hold together the files from `start` on, each once and in
/// their order.
pub proof fn lemma_chunks_from<T>(items: Seq<T>, start: nat, size: nat)
    requires
        start <= items.len() <= usize::MAX,
        size > 0,
    ensures
        gathered(items, chunks_from(start, items.len(), size)) == items.subrange(
            start as int,
            items.len() as int,
        ),
        forall|k: int|
            0 <= k < chunks_from(start, items.len(), size).len() ==> {
                let chunk = #[trigger] chunks_from(start, items.len(), size)[k];
                &&& start <= chunk.0 < chunk.1 <= items.len()
                &&& chunk.1 - chunk.0 <= size
                &&& k > 0 ==> chunks_from(start, items.len(), size)[k - 1].1 == chunk.0
                &&& k == 0 ==> chunk.0 == start
            },
        chunks_from(start, items.len(), size).len() * size < (items.len() - start) + size,
    decreases items.len() - start,
{
    let total = items.len();
    if start >= total {
        assert(items.subrange(start as int, total as int) =~= Seq::<T>::empty());
        assert(chunks_from(start, total, size).len() == 0);
        assert(chunks_from(start, total, size).len() * size == 0) by (nonlinear_arith)
            requires
                chunks_from(start, total, size).len() == 0,
        ;
    } else {
        let end = if start + size < total {
            start + size
        } else {
            total
        };
        let rest = chunks_from(end, total, size);
        let all = chunks_from(start, total, size);
        lemma_chunks_from(items, end, size);
        assert(all.drop_first() =~= rest);
        assert(items.subrange(start as int, end as int) + items.subrange(
            end as int,
            total as int,
        ) =~= items.subrange(start as int, total as int));
        assert forall|k: int| 0 <= k < all.len() implies {
            let chunk = #[trigger] all[k];
            &&& start <= chunk.0 < chunk.1 <= total
            &&& chunk.1 - chunk.0 <= size
            &&& k > 0 ==> all[k - 1].1 == chunk.0
            &&& k == 0 ==> chunk.0 == start
        } by {
            if k > 0 {
                assert(all[k] == rest[k - 1]);
                if k > 1 {
                    assert(all[k - 1] == rest[k - 2]);
                }
            }
        }
        assert(all.len() == rest.len() + 1);
        assert(all.len() * size == rest.len() * size + size) by (nonlinear_arith)
            requires
                all.len() == rest.len() + 1,
        ;
        if end == total {
            assert(rest.len() == 0);
            assert(rest.len() * size == 0) by (nonlinear_arith)
                requires
                    rest.len() == 0,
            ;
        } else {
            assert(rest.len() * size < (total - end) + size);
            assert(end == start + size);
        }
        assert(all.len() * size < (total - start) + size);
    }
}

/// The chunks hold every file once, in the order of the list; none is
/// empty; and there are no more chunks than workers.
pub proof fn lemma_chunks_cover<T>(items: Seq<T>, workers: nat)
    requires
        items.len() <= usize::MAX,
    ensures
        gathered(items, chunks(items.len(), workers)) == items,
        workers > 0 ==> chunks(items.len(), workers).len() <= workers,
        forall|k: int|
            0 <= k < chunks(items.len(), workers).len() ==> (#[trigger] chunks(
                items.len(),
                workers,
            )[k]).0 < chunks(items.len(), workers)[k].1 <= items.len(),
{
    let total = items.len();
    let size = chunk_size(total, workers);
    lemma_chunk_size(total, workers);
    lemma_chunks_from(items, 0, size);
    assert(items.subrange(0, total as int) =~= items);
    let count = chunks(total, workers).len();
    if workers > 0 && count > workers {
        assert(count * size >= (workers + 1) * size) by (nonlinear_arith)
            requires
                count >= workers + 1,
                size > 0,
        ;
        assert((workers + 1) * size == workers * size + size) by (nonlinear_arith);
    }
}

/// The size of a chunk is at least one, and the workers' chunks together
/// have room for all files.
pub proof fn lemma_chunk_size(total: nat, workers: nat)
    ensures
        chunk_size(total, workers) > 0,
        workers > 0 ==> workers * chunk_size(total, workers) >= total,
{
    if workers > 0 && total > 0 {
        let q = total / workers;
        let r = total % workers;
        assert(total == workers * q + r && 0 <= r < workers) by (nonlinear_arith)
            requires
                workers > 0,
                q == total / workers,
                r == total % workers,
        ;
        if r == 0 {
            assert(q > 0) by (nonlinear_arith)
                requires
                    total == workers * q,
                    total > 0,
                    workers > 0,
            ;
        } else {
            assert(workers * (q + 1) == workers * q + workers) by (nonlinear_arith);
        }
    } else if workers > 0 {
        assert(workers * 1 >= 0) by (nonlinear_arith);
    }
}

/// The outcomes of the files do not depend on how the files are shared out:
/// gathered chunk by chunk, for any number of workers, they are the outcomes
/// of the files taken one after the other.
pub proof fn lemma_outcomes_of_chunks(
    rules: SortRules,
    pattern: Seq<char>,
    mode: WriteMode,
    files: Seq<FileFacts>,
    workers: nat,
)
    requires
        files.len() <= usize::MAX,
    ensures
        gathered(outcomes(rules, pattern, mode, files), chunks(files.len(), workers))
            == outcomes(rules, pattern, mode, files),
        forall|k: int|
            0 <= k < chunks(files.len(), workers).len() ==> {
                let chunk = #[trigger] chunks(files.len(), workers)[k];
                outcomes(rules, pattern, mode, files).subrange(chunk.0 as int, chunk.1 as int)
                    == outcomes(rules, pattern, mode, files.subrange(chunk.0 as int, chunk.1 as int))
            },
{
    let all = outcomes(rules, pattern, mode, files);
    lemma_chunks_cover(all, workers);
    lemma_chunks_cover(files, workers);
    assert forall|k: int| 0 <= k < chunks(files.len(), workers).len() implies {
        let chunk = #[trigger] chunks(files.len(), workers)[k];
        all.subrange(chunk.0 as int, chunk.1 as int) == outcomes(
            rules,
            pattern,
            mode,
            files.subrange(chunk.0 as int, chunk.1 as int),
        )
    } by {
        let chunk = chunks(files.len(), workers)[k];
        assert(all.subrange(chunk.0 as int, chunk.1 as int) =~= outcomes(
            rules,
            pattern,
            mode,
            files.subrange(chunk.0 as int, chunk.1 as int),
        ));
    }
}

/// The chunks into which `total` files are cut for `workers` workers: each
/// chunk is given by the position of its first file and the position behind
/// its last. No worker counts as one worker.
pub fn chunk_bounds(total: usize, workers: usize) -> (bounds: Vec<(usize, usize)>)
    ensures
        bounds@ == chunks(total as nat, workers as nat),
{
    let size: usize = if workers == 0 || total == 0 {
        if total == 0 {
            1
        } else {
            total
        }
    } else if total % workers == 0 {
        total / workers
    } else {
        assert(total / workers < total) by (nonlinear_arith)
            requires
                workers > 0,
                total > 0,
                total % workers != 0,
        ;
        total / workers + 1
    };
    proof {
        lemma_chunk_size(total as nat, workers as nat);
    }
    let mut bounds: Vec<(usize, usize)> = Vec::new();
    let mut start: usize = 0;
    proof {
        assert(bounds@ + chunks_from(0, total as nat, size as nat) =~= chunks(
            total as nat,
            workers as nat,
        ));
    }
    while start < total
        invariant
            start <= total,
            size > 0,
            size == chunk_size(total as nat, workers as nat),
            bounds@ + chunks_from(start as nat, total as nat, size as nat) == chunks(
                total as nat,
                workers as nat,
            ),
        decreases total - start,
    {
        let end: usize = if size < total - start {
            start + size
        } else {
            total
        };
        proof {
            let rest = chunks_from(end as nat, total as nat, size as nat);
            assert(bounds@.push((start, end)) + rest =~= bounds@ + (seq![(start, end)] + rest));
        }
        bounds.push((start, end));
        start = end;
    }
    proof {
        assert(bounds@ + Seq::<(usize, usize)>::empty() =~= bounds@);
    }
    bounds
}

/// A path at which the search for files started: its components, and
/// whether it is a directory.
#[derive(Debug)]
pub struct StartingPath {
    pub components: Vec<Vec<u8>>,
    pub is_dir: bool,
    /// Whether there is a directory above the path; there is none above a
    /// root, nor above the empty path.
    pub has_parent: bool,
}

impl StartingPath {
    /// The components of the path, as byte strings.
    pub open spec fn path(&self) -> Seq<Seq<u8>> {
        views_of(self.components@)
    }
}

/// How many components of a starting path are left out of a name: those of
/// the directory above it, which are all but its last; and all of its own
/// where no directory is above it.
pub open spec fn parent_len(path: Seq<Seq<u8>>, has_parent: bool) -> nat {
    if has_parent && path.len() > 0 {
        (path.len() - 1) as nat
    } else {
        path.len()
    }
}

/// How many leading components of a file's path are left out when the file
/// is named: those of the directory above the first starting path that is a
/// directory and holds the file; none where there is no such path.
pub open spec fn hidden_components(file: Seq<Seq<u8>>, starts: Seq<StartingPath>) -> nat
    decreases starts.len(),
{
    if starts.len() == 0 {
        0
    } else if starts[0].is_dir && starts[0].path().is_prefix_of(file) {
        parent_len(starts[0].path(), starts[0].has_parent)
    } else {
        hidden_components(file, starts.drop_first())
    }
}

/// Whether the components of `prefix` are the first components of `path`.
pub fn path_starts_with(path: &Vec<Vec<u8>>, prefix: &Vec<Vec<u8>>) -> (starts: bool)
    ensures
        starts == views_of(prefix@).is_prefix_of(views_of(path@)),
{
    if prefix.len() > path.len() {
        return false;
    }
    let mut i: usize = 0;
    while i < prefix.len()
        invariant
            i <= prefix.len() <= path.len(),
            forall|k: int| 0 <= k < i ==> path@[k]@ == prefix@[k]@,
        decreases prefix.len() - i,
    {
        if !crate::text::bytes_equal(path[i].as_slice(), prefix[i].as_slice()) {
            assert(views_of(path@).subrange(0, prefix.len() as int)[i as int] != views_of(
                prefix@,
            )[i as int]);
            return false;
        }
        i += 1;
    }
    assert(views_of(prefix@) =~= views_of(path@).subrange(0, prefix.len() as int));
    true
}

/// The name under which a file is shown: its path from the first starting
/// directory that holds it, that directory's own name included, or from
/// behind that directory where it has none above it; its whole path where no
/// starting directory holds it.
pub fn get_file_name(file_path: &Vec<Vec<u8>>, starting_paths: &Vec<StartingPath>) -> (name: Vec<
    Vec<u8>,
>)
    ensures
        views_of(name@) == views_of(file_path@).skip(
            hidden_components(views_of(file_path@), starting_paths@) as int,
        ),
{
    let ghost file = views_of(file_path@);
    let mut hidden: usize = 0;
    let mut i: usize = 0;
    proof {
        assert(starting_paths@.skip(0) =~= starting_paths@);
    }
    while i < starting_paths.len()
        invariant_except_break
            i <= starting_paths.len(),
            hidden == 0,
            hidden_components(file, starting_paths@) == hidden_components(
                file,
                starting_paths@.skip(i as int),
            ),
        invariant
            file == views_of(file_path@),
        ensures
            hidden == hidden_components(file, starting_paths@),
            hidden <= file_path.len(),
        decreases starting_paths.len() - i,
    {
        let start = &starting_paths[i];
        proof {
            assert(starting_paths@.skip(i as int)[0] == starting_paths@[i as int]);
            assert(starting_paths@.skip(i as int).drop_first() =~= starting_paths@.skip(i + 1));
        }
        if start.is_dir && path_starts_with(file_path, &start.components) {
            hidden = if start.has_parent && start.components.len() > 0 {
                start.components.len() - 1
            } else {
                start.components.len()
            };
            break ;
        }
        i += 1;
    }
    let mut name: Vec<Vec<u8>> = Vec::new();
    let mut k: usize = hidden;
    while k < file_path.len()
        invariant
            hidden <= k <= file_path.len(),
            file == views_of(file_path@),
            views_of(name@) == file.subrange(hidden as int, k as int),
        decreases file_path.len() - k,
    {
        let ghost before = name@;
        let component = file_path[k].clone();
        proof {
            assert(component@ =~= file_path@[k as int]@);
            assert(views_of(before.push(component)) =~= views_of(before).push(component@));
            assert(file.subrange(hidden as int, k + 1) =~= file.subrange(
                hidden as int,
                k as int,
            ).push(file[k as int]));
        }
        name.push(component);
        k += 1;
    }
    proof {
        assert(file.subrange(hidden as int, file.len() as int) =~= file.skip(hidden as int));
    }
    name
}

} // verus!
