//! Import of fields that the index holds and the store lacks.
//!
//! A record of the index may name the native library that its package links
//! to. The store keeps that name per version, and may lack it. The import
//! fills it in where it is missing and never overwrites one that is there.

use vstd::prelude::*;
use crate::driver::{command, valid, Command, Driver, Event, Policy, Stage};
use crate::record::{text_of, Crate};
use crate::versions::{
    filled, lemma_resolve, lemma_vacancies_none, names, resolve, vacancies, vacant, well_formed,
    Lookup, VersionModel, Versions,
};

verus! {

/// Options of the import.
#[derive(Clone, Copy, Debug, PartialEq, Eq, Structural)]
pub struct Opts {
    /// Time in milliseconds to wait before each file, to reduce the load on
    /// the store.
    pub delay: u64,
}

/// Why a record could not be reconciled. Each variant names the package and
/// the version that the record is for.
#[derive(Clone, Debug, PartialEq, Eq)]
pub enum ImportError {
    /// The store holds no such version.
    NotFound { name: String, vers: String },
    /// The store failed while looking the version up.
    LookupFailed { name: String, vers: String, cause: String },
    /// The store failed while updating the version with the given id.
    UpdateFailed { name: String, vers: String, version_id: i32, cause: String },
}

/// What the store answers to the conditional update.
#[derive(Clone, Debug, PartialEq, Eq)]
pub enum Update {
    /// The number of rows that it changed.
    Changed(usize),
    /// The store could not do it; the text says why.
    Failed(String),
}

/// What a lookup's answer means for a record: the id to update, or the error
/// that names the record.
pub open spec fn resolution(krate: Crate, answer: Lookup) -> Result<i32, ImportError> {
    match answer {
        Lookup::Found(id) => Ok(id),
        Lookup::Missing => Err(ImportError::NotFound { name: krate.name, vers: krate.vers }),
        Lookup::Failed(cause) => Err(
            ImportError::LookupFailed { name: krate.name, vers: krate.vers, cause },
        ),
    }
}

/// What an update's answer means for a record: the number of rows changed, or
/// the error that names the record and the row.
pub open spec fn completion(krate: Crate, version_id: i32, answer: Update) -> Result<
    usize,
    ImportError,
> {
    match answer {
        Update::Changed(rows) => Ok(rows),
        Update::Failed(cause) => Err(
            ImportError::UpdateFailed { name: krate.name, vers: krate.vers, version_id, cause },
        ),
    }
}

/// Turns the store's answer to a lookup into the id of the version, or into
/// the error to report. A missing version is told apart from a failing store.
pub fn resolved(krate: &Crate, answer: Lookup) -> (r: Result<i32, ImportError>)
    ensures
        r == resolution(*krate, answer),
{
    match answer {
        Lookup::Found(id) => Ok(id),
        Lookup::Missing => Err(
            ImportError::NotFound { name: krate.name.clone(), vers: krate.vers.clone() },
        ),
        Lookup::Failed(cause) => Err(
            ImportError::LookupFailed {
                name: krate.name.clone(),
                vers: krate.vers.clone(),
                cause,
            },
        ),
    }
}

/// Turns the store's answer to the conditional update into the number of rows
/// changed, or into the error to report.
pub fn completed(krate: &Crate, version_id: i32, answer: Update) -> (r: Result<usize, ImportError>)
    ensures
        r == completion(*krate, version_id, answer),
{
    match answer {
        Update::Changed(rows) => Ok(rows),
        Update::Failed(cause) => Err(
            ImportError::UpdateFailed {
                name: krate.name.clone(),
                vers: krate.vers.clone(),
                version_id,
                cause,
            },
        ),
    }
}

/// The table after the import of one record: the version that the record
/// names gets the record's links if it has none; a table without that version
/// stays as it is.
pub open spec fn table_after_import(rows: Seq<VersionModel>, krate: Crate) -> Seq<VersionModel> {
    match resolve(rows, krate.name@, krate.vers@) {
        Some(id) => filled(rows, id, text_of(krate.links)),
        None => rows,
    }
}

/// What the import of one record returns: the number of rows changed, or that
/// the version was not found.
pub open spec fn import_result(rows: Seq<VersionModel>, krate: Crate) -> Result<usize, ImportError> {
    match resolve(rows, krate.name@, krate.vers@) {
        Some(id) => Ok(vacancies(rows, id) as usize),
        None => Err(ImportError::NotFound { name: krate.name, vers: krate.vers }),
    }
}

/// Imports the links of one record: looks up the version that the record
/// names, then sets its links only if it has none. Returns the number of rows
/// changed, 0 or 1.
pub fn import_data(table: &mut Versions, krate: &Crate) -> (r: Result<usize, ImportError>)
    ensures
        r == import_result(old(table)@, *krate),
        final(table)@ == table_after_import(old(table)@, *krate),
        r matches Ok(rows) ==> rows <= 1,
{
    let version_id = match resolved(krate, table.lookup(&krate.name, &krate.vers)) {
        Ok(id) => id,
        Err(e) => {
            return Err(e);
        },
    };
    let rows = table.fill_links(version_id, &krate.links);
    completed(krate, version_id, Update::Changed(rows))
}

/// One line of an index file, as far as it could be read and understood.
#[derive(Clone, Debug, PartialEq, Eq)]
pub enum Line {
    /// The record that the line holds.
    Record(Crate),
    /// The line could not be read; the text says why.
    Unreadable(String),
    /// The line holds no record; the text says why.
    Malformed(String),
}

/// Why the import of a file was given up.
#[derive(Clone, Debug, PartialEq, Eq)]
pub enum FileError {
    /// A line could not be read.
    Read(String),
    /// A line holds no record.
    Parse(String),
    /// The record for this package and version could not be reconciled.
    Update { name: String, vers: String, source: ImportError },
}

/// A record whose import changed rows of the store.
#[derive(Clone, Debug, PartialEq, Eq)]
pub struct Edit {
    pub rows: usize,
    pub name: String,
    pub vers: String,
}

/// The record brings links, so there is something to import.
pub open spec fn qualifying(krate: Crate) -> bool {
    krate.links is Some
}

/// What there is to tell of a record whose import changed `rows` rows:
/// nothing, if it changed none.
pub open spec fn edit_for(krate: Crate, rows: usize) -> Option<Edit> {
    if rows > 0 {
        Some(Edit { rows, name: krate.name, vers: krate.vers })
    } else {
        None
    }
}

/// Whether the record is imported at all. Most records bring no links; they
/// are passed over without a question to the store.
pub fn qualifies(krate: &Crate) -> (r: bool)
    ensures
        r == qualifying(*krate),
{
    krate.links.is_some()
}

/// The edit to report for a record whose import changed `rows` rows, if any.
pub fn edit_of(krate: &Crate, rows: usize) -> (r: Option<Edit>)
    ensures
        r == edit_for(*krate, rows),
{
    if rows > 0 {
        Some(Edit { rows, name: krate.name.clone(), vers: krate.vers.clone() })
    } else {
        None
    }
}

/// How far the import of a file has come.
pub struct Progress {
    /// The table as the lines so far have left it.
    pub rows: Seq<VersionModel>,
    /// The edits made so far, in line order.
    pub edits: Seq<Edit>,
    /// Why the import stopped, if it did.
    pub failure: Option<FileError>,
}

/// The import of one more line. After a failure nothing happens any more. A
/// line that is no record is a failure. A record without links is passed
/// over, and not even looked up. Any other record is imported: an error is a
/// failure, and a record that changed rows is an edit.
pub open spec fn after_line(p: Progress, line: Line) -> Progress {
    if p.failure is Some {
        p
    } else {
        match line {
            Line::Unreadable(cause) => Progress {
                rows: p.rows,
                edits: p.edits,
                failure: Some(FileError::Read(cause)),
            },
            Line::Malformed(cause) => Progress {
                rows: p.rows,
                edits: p.edits,
                failure: Some(FileError::Parse(cause)),
            },
            Line::Record(krate) => if !qualifying(krate) {
                p
            } else {
                match import_result(p.rows, krate) {
                    Ok(rows) => Progress {
                        rows: table_after_import(p.rows, krate),
                        edits: match edit_for(krate, rows) {
                            Some(edit) => p.edits.push(edit),
                            None => p.edits,
                        },
                        failure: None,
                    },
                    Err(source) => Progress {
                        rows: p.rows,
                        edits: p.edits,
                        failure: Some(
                            FileError::Update { name: krate.name, vers: krate.vers, source },
                        ),
                    },
                }
            },
        }
    }
}

/// The import of the lines of a file, one after the other, on a table.
pub open spec fn after_lines(rows: Seq<VersionModel>, lines: Seq<Line>) -> Progress
    decreases lines.len(),
{
    if lines.len() == 0 {
        Progress { rows, edits: Seq::empty(), failure: None }
    } else {
        after_line(after_lines(rows, lines.drop_last()), lines.last())
    }
}

/// The table after the import of a file: all of its edits, or, after a
/// failure, none of them.
pub open spec fn table_after_file(rows: Seq<VersionModel>, lines: Seq<Line>) -> Seq<VersionModel> {
    if after_lines(rows, lines).failure is None {
        after_lines(rows, lines).rows
    } else {
        rows
    }
}

/// Once the import of a file has failed, the lines that follow change nothing.
pub proof fn lemma_failure_is_final(rows: Seq<VersionModel>, lines: Seq<Line>, n: int)
    requires
        0 <= n <= lines.len(),
        after_lines(rows, lines.take(n)).failure is Some,
    ensures
        after_lines(rows, lines) == after_lines(rows, lines.take(n)),
    decreases lines.len(),
{
    if n < lines.len() {
        let front = lines.drop_last();
        assert(front.take(n) =~= lines.take(n));
        lemma_failure_is_final(rows, front, n);
    } else {
        assert(lines.take(n) =~= lines);
    }
}

/// What the import of a file did.
#[derive(Clone, Debug, PartialEq, Eq)]
pub struct FileReport {
    /// The records that changed rows, in line order. After a failure they are
    /// the ones that were seen before it, and none of them is in the table.
    pub edits: Vec<Edit>,
    /// Why the import was given up, if it was.
    pub failure: Option<FileError>,
}

/// Imports the lines of one file as one transaction: if a line fails, the
/// table is left as it was before the file, and the lines after it are not
/// looked at.
pub fn import_file(table: &mut Versions, lines: &Vec<Line>) -> (report: FileReport)
    ensures
        report.edits@ == after_lines(old(table)@, lines@).edits,
        report.failure == after_lines(old(table)@, lines@).failure,
        final(table)@ == table_after_file(old(table)@, lines@),
{
    let saved = table.snapshot();
    let ghost before = table@;
    let mut edits: Vec<Edit> = Vec::new();
    let mut i: usize = 0;
    assert(lines@.take(0) =~= Seq::<Line>::empty());
    while i < lines.len()
        invariant
            i <= lines.len(),
            saved@ == before,
            before == old(table)@,
            after_lines(before, lines@.take(i as int)) == (Progress {
                rows: table@,
                edits: edits@,
                failure: None,
            }),
        decreases lines.len() - i,
    {
        proof {
            assert(lines@.take(i as int + 1).drop_last() =~= lines@.take(i as int));
            assert(lines@.take(i as int + 1).last() == lines@[i as int]);
        }
        let failure = match &lines[i] {
            Line::Unreadable(cause) => Some(FileError::Read(cause.clone())),
            Line::Malformed(cause) => Some(FileError::Parse(cause.clone())),
            Line::Record(krate) => {
                if qualifies(krate) {
                    match import_data(table, krate) {
                        Ok(rows) => {
                            match edit_of(krate, rows) {
                                Some(edit) => edits.push(edit),
                                None => {},
                            }
                            None
                        },
                        Err(source) => Some(
                            FileError::Update {
                                name: krate.name.clone(),
                                vers: krate.vers.clone(),
                                source,
                            },
                        ),
                    }
                } else {
                    None
                }
            },
        };
        if failure.is_some() {
            proof {
                lemma_failure_is_final(before, lines@, i as int + 1);
            }
            *table = saved;
            return FileReport { edits, failure };
        }
        i += 1;
    }
    assert(lines@.take(i as int) =~= lines@);
    FileReport { edits, failure: None }
}

/// One file of the index, as the run finds it.
#[derive(Clone, Debug, PartialEq, Eq)]
pub struct IndexFile {
    /// Where the file is, for the operator.
    pub path: String,
    /// The lines of the file, or `None` if there is no such file.
    pub lines: Option<Vec<Line>>,
}

/// What a run tells the operator, or does for the store's sake, in order.
#[derive(Clone, Debug, PartialEq, Eq)]
pub enum Observation {
    /// The number of files that the run has found.
    Found { files: usize },
    /// The run waited for so many milliseconds.
    Paused { millis: u64 },
    /// There is no file at the path.
    Skipped { path: String },
    /// The import of a record changed rows.
    Edited(Edit),
    /// The import of the file at the path was given up and undone.
    Failed { path: String, error: FileError },
    /// The run went through all files.
    Completed,
}

/// The edits of a file as the operator sees them.
pub open spec fn edit_log(edits: Seq<Edit>) -> Seq<Observation> {
    Seq::new(edits.len(), |i: int| Observation::Edited(edits[i]))
}

/// What the run does for one file: it waits, then either passes over a file
/// that is not there, or imports the file and reports its edits and, last,
/// its failure.
pub open spec fn unit_log(opts: Opts, rows: Seq<VersionModel>, file: IndexFile) -> Seq<Observation> {
    seq![Observation::Paused { millis: opts.delay }] + match file.lines {
        None => seq![Observation::Skipped { path: file.path }],
        Some(lines) => edit_log(after_lines(rows, lines@).edits) + match after_lines(
            rows,
            lines@,
        ).failure {
            Some(error) => seq![Observation::Failed { path: file.path, error }],
            None => Seq::empty(),
        },
    }
}

/// The table after one file of the run.
pub open spec fn table_after_unit(rows: Seq<VersionModel>, file: IndexFile) -> Seq<VersionModel> {
    match file.lines {
        None => rows,
        Some(lines) => table_after_file(rows, lines@),
    }
}

/// The table after the files of a run, in order. A file that failed leaves
/// the table to the next file as the one before left it.
pub open spec fn table_after_units(rows: Seq<VersionModel>, files: Seq<IndexFile>) -> Seq<
    VersionModel,
>
    decreases files.len(),
{
    if files.len() == 0 {
        rows
    } else {
        table_after_unit(table_after_units(rows, files.drop_last()), files.last())
    }
}

/// What the run does for its files, in order.
pub open spec fn units_log(opts: Opts, rows: Seq<VersionModel>, files: Seq<IndexFile>) -> Seq<
    Observation,
>
    decreases files.len(),
{
    if files.len() == 0 {
        Seq::empty()
    } else {
        units_log(opts, rows, files.drop_last()) + unit_log(
            opts,
            table_after_units(rows, files.drop_last()),
            files.last(),
        )
    }
}

/// What a run tells and does: the number of files first; then, if the
/// operator agreed, every file in order and the word that it is done.
pub open spec fn run_log(
    opts: Opts,
    rows: Seq<VersionModel>,
    files: Seq<IndexFile>,
    confirmed: bool,
) -> Seq<Observation> {
    seq![Observation::Found { files: files.len() as usize }] + if confirmed {
        units_log(opts, rows, files) + seq![Observation::Completed]
    } else {
        Seq::empty()
    }
}

/// The table after a run: untouched unless the operator agreed.
pub open spec fn table_after_run(rows: Seq<VersionModel>, files: Seq<IndexFile>, confirmed: bool) -> Seq<
    VersionModel,
> {
    if confirmed {
        table_after_units(rows, files)
    } else {
        rows
    }
}

/// A copy of an edit.
fn copy_edit(edit: &Edit) -> (r: Edit)
    ensures
        r == *edit,
{
    Edit { rows: edit.rows, name: edit.name.clone(), vers: edit.vers.clone() }
}

/// Runs the import over the files of the index, in the order given, each file
/// as a transaction of its own. Nothing is imported unless `confirmed`. A file
/// that fails is reported and undone, and the run goes on with the next.
pub fn run(opts: Opts, table: &mut Versions, files: &Vec<IndexFile>, confirmed: bool) -> (log: Vec<
    Observation,
>)
    ensures
        log@ == run_log(opts, old(table)@, files@, confirmed),
        final(table)@ == table_after_run(old(table)@, files@, confirmed),
{
    let mut log: Vec<Observation> = Vec::new();
    let mut driver = Driver::new(Policy::Isolate, opts.delay);
    if let Command::Confirm { units } = driver.advance(Event::Discovered { units: files.len() }) {
        log.push(Observation::Found { files: units });
    }
    let mut next = driver.advance(Event::Answered { confirmed });
    let ghost before = table@;
    let ghost found = log@;
    let ghost mut i: int = 0;
    proof {
        assert(files@.take(0) =~= Seq::<IndexFile>::empty());
        assert(log@ =~= found + units_log(opts, before, files@.take(0)));
    }
    loop
        invariant
            0 <= i <= files.len(),
            found == seq![Observation::Found { files: files.len() }],
            before == old(table)@,
            next == command(driver@),
            valid(driver@),
            driver@.policy == Policy::Isolate,
            driver@.delay == opts.delay,
            driver@.total == files.len(),
            driver@.stage == Stage::Iterate || driver@.stage == Stage::Complete,
            driver@.stage == Stage::Iterate ==> confirmed && driver@.next == i,
            driver@.stage == Stage::Complete ==> i == if confirmed {
                files.len() as int
            } else {
                0
            },
            log@ == found + units_log(opts, before, files@.take(i)),
            table@ == table_after_units(before, files@.take(i)),
        ensures
            driver@.stage == Stage::Complete,
        decreases files.len() - i,
    {
        let (unit, delay) = match next {
            Command::Process { unit, delay } => (unit, delay),
            _ => {
                break ;
            },
        };
        proof {
            assert(files@.take(i + 1).drop_last() =~= files@.take(i));
            assert(files@.take(i + 1).last() == files@[i]);
        }
        let ghost base = log@;
        let ghost rows = table@;
        let file = &files[unit];
        log.push(Observation::Paused { millis: delay });
        let event = match &file.lines {
            None => {
                log.push(Observation::Skipped { path: file.path.clone() });
                Event::UnitSucceeded
            },
            Some(lines) => {
                let report = import_file(table, lines);
                let ghost paused = log@;
                let mut j: usize = 0;
                while j < report.edits.len()
                    invariant
                        j <= report.edits.len(),
                        log@ == paused + edit_log(report.edits@.take(j as int)),
                    decreases report.edits.len() - j,
                {
                    log.push(Observation::Edited(copy_edit(&report.edits[j])));
                    assert(log@ =~= paused + edit_log(report.edits@.take(j as int + 1)));
                    j += 1;
                }
                assert(report.edits@.take(j as int) =~= report.edits@);
                match report.failure {
                    Some(error) => {
                        log.push(Observation::Failed { path: file.path.clone(), error });
                        Event::UnitFailed
                    },
                    None => Event::UnitSucceeded,
                }
            },
        };
        proof {
            assert(log@ =~= base + unit_log(opts, rows, *file));
            assert(log@ =~= found + units_log(opts, before, files@.take(i + 1)));
            i = i + 1;
        }
        next = driver.advance(event);
    }
    proof {
        if confirmed {
            assert(files@.take(i) =~= files@);
        }
    }
    if confirmed {
        log.push(Observation::Completed);
    }
    assert(log@ =~= run_log(opts, old(table)@, files@, confirmed));
    log
}

/// The conditional update changes neither what a table resolves nor which
/// rows hold links already.
proof fn lemma_resolve_filled(
    rows: Seq<VersionModel>,
    id: i32,
    links: Option<Seq<char>>,
    name: Seq<char>,
    num: Seq<char>,
)
    ensures
        resolve(filled(rows, id, links), name, num) == resolve(rows, name, num),
    decreases rows.len(),
{
    if rows.len() > 0 {
        assert(filled(rows, id, links).drop_first() =~= filled(rows.drop_first(), id, links));
        lemma_resolve_filled(rows.drop_first(), id, links, name, num);
    }
}

/// Importing a record twice is importing it once: the second import finds the
/// table as the first left it, leaves it so, and changes no row. A record
/// whose version the table lacks is refused both times alike.
pub proof fn lemma_import_idempotent(rows: Seq<VersionModel>, krate: Crate)
    requires
        krate.links is Some,
    ensures
        table_after_import(table_after_import(rows, krate), krate) == table_after_import(
            rows,
            krate,
        ),
        import_result(rows, krate) is Ok ==> import_result(table_after_import(rows, krate), krate)
            == Ok::<usize, ImportError>(0),
        import_result(rows, krate) is Err ==> import_result(table_after_import(rows, krate), krate)
            == import_result(rows, krate),
{
    match resolve(rows, krate.name@, krate.vers@) {
        Some(id) => {
            let links = text_of(krate.links);
            let once = filled(rows, id, links);
            lemma_resolve_filled(rows, id, links, krate.name@, krate.vers@);
            assert forall|i: int| 0 <= i < once.len() implies !vacant(#[trigger] once[i], id) by {}
            lemma_vacancies_none(once, id);
        },
        None => {},
    }
}

/// A row that holds links is out of the import's reach: whatever the record
/// says, the row is afterwards what it was.
pub proof fn lemma_import_keeps_links(rows: Seq<VersionModel>, krate: Crate, i: int)
    requires
        0 <= i < rows.len(),
        rows[i].links is Some,
    ensures
        table_after_import(rows, krate).len() == rows.len(),
        table_after_import(rows, krate)[i] == rows[i],
{
}

/// The table holds the version that the record is for, and that version has
/// links already.
pub open spec fn settled(rows: Seq<VersionModel>, krate: Crate) -> bool {
    exists|i: int|
        0 <= i < rows.len() && names(#[trigger] rows[i], krate.name@, krate.vers@)
            && rows[i].links is Some
}

/// For a version that has links, the import of any record, whatever links it
/// brings, changes no row and leaves the whole table as it was.
pub proof fn lemma_import_never_overwrites(rows: Seq<VersionModel>, krate: Crate)
    requires
        well_formed(rows),
        settled(rows, krate),
    ensures
        table_after_import(rows, krate) == rows,
        import_result(rows, krate) == Ok::<usize, ImportError>(0),
{
    let i = choose|i: int|
        0 <= i < rows.len() && names(#[trigger] rows[i], krate.name@, krate.vers@)
            && rows[i].links is Some;
    lemma_resolve(rows, krate.name@, krate.vers@);
    let id = resolve(rows, krate.name@, krate.vers@)->0;
    let k = choose|k: int|
        0 <= k < rows.len() && names(#[trigger] rows[k], krate.name@, krate.vers@) && rows[k].id
            == id && forall|j: int| 0 <= j < k ==> !names(#[trigger] rows[j], krate.name@, krate.vers@);
    assert(i == k) by {
        if i < k {
            assert(crate::versions::distinct(rows[i], rows[k]));
        } else if k < i {
            assert(crate::versions::distinct(rows[k], rows[i]));
        }
    }
    assert forall|j: int| 0 <= j < rows.len() implies !vacant(#[trigger] rows[j], id) by {
        if j < i {
            assert(crate::versions::distinct(rows[j], rows[i]));
        } else if i < j {
            assert(crate::versions::distinct(rows[i], rows[j]));
        }
    }
    lemma_vacancies_none(rows, id);
}

/// The record says of its version what the table says: the table holds the
/// version, with the links that the record has, or with none if it has none.
pub open spec fn reflects(rows: Seq<VersionModel>, krate: Crate) -> bool {
    exists|i: int|
        0 <= i < rows.len() && names(#[trigger] rows[i], krate.name@, krate.vers@) && rows[i].links
            == text_of(krate.links)
}

/// Every line is a record that reflects the table.
pub open spec fn derived_from(rows: Seq<VersionModel>, lines: Seq<Line>) -> bool {
    forall|i: int|
        0 <= i < lines.len() ==> (#[trigger] lines[i] matches Line::Record(krate) && reflects(
            rows,
            krate,
        ))
}

/// A file that was written from the table holds nothing that the table lacks:
/// importing it makes no edit, does not fail, and leaves the table as it was.
pub proof fn lemma_round_trip(rows: Seq<VersionModel>, lines: Seq<Line>)
    requires
        well_formed(rows),
        derived_from(rows, lines),
    ensures
        after_lines(rows, lines) == (Progress { rows, edits: Seq::empty(), failure: None }),
        table_after_file(rows, lines) == rows,
    decreases lines.len(),
{
    if lines.len() > 0 {
        let front = lines.drop_last();
        assert forall|i: int| 0 <= i < front.len() implies (#[trigger] front[i] matches Line::Record(
            krate,
        ) && reflects(rows, krate)) by {
            assert(front[i] == lines[i]);
        }
        lemma_round_trip(rows, front);
        let last = lines[lines.len() - 1];
        match last {
            Line::Record(krate) => {
                if krate.links is Some {
                    let i = choose|i: int|
                        0 <= i < rows.len() && names(#[trigger] rows[i], krate.name@, krate.vers@)
                            && rows[i].links == text_of(krate.links);
                    assert(names(rows[i], krate.name@, krate.vers@) && rows[i].links is Some);
                    lemma_import_never_overwrites(rows, krate);
                }
            },
            _ => {},
        }
    }
}

/// Nothing is left to import from the lines: each is a record, and each
/// record that brings links names a version that the table holds, with links.
pub open spec fn satisfied(rows: Seq<VersionModel>, lines: Seq<Line>) -> bool {
    forall|i: int|
        0 <= i < lines.len() ==> (#[trigger] lines[i] matches Line::Record(krate) && (qualifying(
            krate,
        ) ==> (resolve(rows, krate.name@, krate.vers@) matches Some(id) && vacancies(rows, id)
            == 0)))
}

/// Lines from which nothing is left to import are imported without an edit,
/// without a failure and without a change to the table.
proof fn lemma_satisfied_is_noop(rows: Seq<VersionModel>, lines: Seq<Line>)
    requires
        satisfied(rows, lines),
    ensures
        after_lines(rows, lines) == (Progress { rows, edits: Seq::empty(), failure: None }),
    decreases lines.len(),
{
    if lines.len() > 0 {
        let front = lines.drop_last();
        assert forall|i: int| 0 <= i < front.len() implies (#[trigger] front[i] matches Line::Record(
            krate,
        ) && (qualifying(krate) ==> (resolve(rows, krate.name@, krate.vers@) matches Some(id)
            && vacancies(rows, id) == 0))) by {
            assert(front[i] == lines[i]);
        }
        lemma_satisfied_is_noop(rows, front);
        let last = lines[lines.len() - 1];
        if let Line::Record(krate) = last {
            if qualifying(krate) {
                lemma_vacancies_none(rows, resolve(rows, krate.name@, krate.vers@)->0);
            }
        }
    }
}

/// The import of a record leaves nothing to import that was not left before.
proof fn lemma_satisfied_is_kept(rows: Seq<VersionModel>, lines: Seq<Line>, krate: Crate)
    requires
        satisfied(rows, lines),
    ensures
        satisfied(table_after_import(rows, krate), lines),
{
    if let Some(id) = resolve(rows, krate.name@, krate.vers@) {
        let links = text_of(krate.links);
        let after = filled(rows, id, links);
        assert forall|i: int| 0 <= i < lines.len() implies (#[trigger] lines[i] matches Line::Record(
            other,
        ) && (qualifying(other) ==> (resolve(after, other.name@, other.vers@) matches Some(oid)
            && vacancies(after, oid) == 0))) by {
            if let Line::Record(other) = lines[i] {
                if qualifying(other) {
                    lemma_resolve_filled(rows, id, links, other.name@, other.vers@);
                    let oid = resolve(rows, other.name@, other.vers@)->0;
                    lemma_vacancies_none(rows, oid);
                    assert forall|j: int| 0 <= j < after.len() implies !vacant(
                        #[trigger] after[j],
                        oid,
                    ) by {
                        assert(!vacant(rows[j], oid));
                    }
                    lemma_vacancies_none(after, oid);
                }
            }
        }
    }
}

/// A file that was imported without a failure leaves nothing to import.
proof fn lemma_imported_is_satisfied(rows: Seq<VersionModel>, lines: Seq<Line>)
    requires
        after_lines(rows, lines).failure is None,
    ensures
        satisfied(after_lines(rows, lines).rows, lines),
    decreases lines.len(),
{
    if lines.len() > 0 {
        let front = lines.drop_last();
        let last = lines[lines.len() - 1];
        let p = after_lines(rows, front);
        assert(p.failure is None);
        lemma_imported_is_satisfied(rows, front);
        let done = after_lines(rows, lines).rows;
        if let Line::Record(krate) = last {
            if qualifying(krate) {
                lemma_satisfied_is_kept(p.rows, front, krate);
                let id = resolve(p.rows, krate.name@, krate.vers@)->0;
                let links = text_of(krate.links);
                lemma_resolve_filled(p.rows, id, links, krate.name@, krate.vers@);
                assert forall|j: int| 0 <= j < done.len() implies !vacant(#[trigger] done[j], id) by {}
                lemma_vacancies_none(done, id);
            }
        }
        assert forall|i: int| 0 <= i < lines.len() implies (#[trigger] lines[i] matches Line::Record(
            krate,
        ) && (qualifying(krate) ==> (resolve(done, krate.name@, krate.vers@) matches Some(id)
            && vacancies(done, id) == 0))) by {
            if i < front.len() {
                assert(front[i] == lines[i]);
            }
        }
    }
}

/// A file that went through can be imported again at no cost: the second
/// import makes no edit, does not fail, and leaves the table as the first
/// left it.
pub proof fn lemma_rerun_is_noop(rows: Seq<VersionModel>, lines: Seq<Line>)
    requires
        after_lines(rows, lines).failure is None,
    ensures
        after_lines(table_after_file(rows, lines), lines) == (Progress {
            rows: table_after_file(rows, lines),
            edits: Seq::empty(),
            failure: None,
        }),
        table_after_file(table_after_file(rows, lines), lines) == table_after_file(rows, lines),
{
    lemma_imported_is_satisfied(rows, lines);
    lemma_satisfied_is_noop(table_after_file(rows, lines), lines);
}

/// A run over two lists of files, one after the other, is a run over the
/// first and then a run over the second that starts from the table as the
/// first left it.
pub proof fn lemma_units_split(
    opts: Opts,
    rows: Seq<VersionModel>,
    first: Seq<IndexFile>,
    second: Seq<IndexFile>,
)
    ensures
        table_after_units(rows, first + second) == table_after_units(
            table_after_units(rows, first),
            second,
        ),
        units_log(opts, rows, first + second) == units_log(opts, rows, first) + units_log(
            opts,
            table_after_units(rows, first),
            second,
        ),
    decreases second.len(),
{
    if second.len() == 0 {
        assert(first + second =~= first);
        assert(units_log(opts, rows, first) + Seq::<Observation>::empty() =~= units_log(
            opts,
            rows,
            first,
        ));
    } else {
        let all = first + second;
        assert(all.drop_last() =~= first + second.drop_last());
        assert(all.last() == second.last());
        lemma_units_split(opts, rows, first, second.drop_last());
        let middle = table_after_units(rows, first);
        assert(units_log(opts, rows, first) + units_log(opts, middle, second.drop_last())
            + unit_log(opts, table_after_units(middle, second.drop_last()), second.last())
            =~= units_log(opts, rows, first) + (units_log(opts, middle, second.drop_last())
            + unit_log(opts, table_after_units(middle, second.drop_last()), second.last())));
    }
}

/// A file that fails is isolated: the table ends as if the file had not been
/// there, and the files after it are imported, and reported, exactly as
/// without it.
pub proof fn lemma_failed_file_is_isolated(
    opts: Opts,
    rows: Seq<VersionModel>,
    earlier: Seq<IndexFile>,
    file: IndexFile,
    later: Seq<IndexFile>,
)
    requires
        file.lines matches Some(lines) && after_lines(table_after_units(rows, earlier), lines@).failure
            is Some,
    ensures
        table_after_units(rows, earlier.push(file) + later) == table_after_units(
            rows,
            earlier + later,
        ),
        units_log(opts, rows, earlier.push(file) + later) == units_log(opts, rows, earlier)
            + unit_log(opts, table_after_units(rows, earlier), file) + units_log(
            opts,
            table_after_units(rows, earlier),
            later,
        ),
        units_log(opts, rows, earlier + later) == units_log(opts, rows, earlier) + units_log(
            opts,
            table_after_units(rows, earlier),
            later,
        ),
{
    let with_file = earlier.push(file);
    assert(with_file.drop_last() =~= earlier);
    assert(with_file.last() == file);
    lemma_units_split(opts, rows, with_file, later);
    lemma_units_split(opts, rows, earlier, later);
}

} // verus!
