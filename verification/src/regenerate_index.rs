//! Rewriting the index: the walk over its files, the canonical form of a
//! file's records, and the place of a package's file.

use vstd::prelude::*;
use vstd::string::{StrSliceExecFns, StringExecFns};
use vstd::utf8::is_ascii_chars;
use crate::driver::{after, command, initial, Command, Driver, DriverState, Event, Policy, Stage};
use crate::canonical::{
    lemma_sorted_idempotent, lemma_sorted_ordered, lemma_sorted_permutes, ordered,
    sort_dependencies, sorted_dependencies,
};
use crate::lines::{
    byte_lines, framed, join_lines, lemma_framing_round_trip, lines_of, non_empty, plain,
};
use crate::order::{compare_text, lemma_text_order, texts_of};
use crate::record::{crates_of, dependencies_of, Crate, CrateModel, Dependency};

verus! {

/// Options of the rewriting.
#[derive(Clone, Copy, Debug, PartialEq, Eq, Structural)]
pub struct Opts {
    /// Time in milliseconds to wait before each package, to reduce the load
    /// on the store.
    pub delay: u64,
}

/// What a directory entry is.
#[derive(Debug, PartialEq, Eq)]
pub enum EntryKind {
    /// A regular file.
    File,
    /// A directory, with its entries in the order in which they were read.
    Directory(Vec<DirEntry>),
    /// Neither.
    Other,
}

/// An entry of a directory.
#[derive(Debug, PartialEq, Eq)]
pub struct DirEntry {
    pub name: String,
    pub kind: EntryKind,
}

/// The walk passes over an entry of this name, and over all below it: a name
/// that starts with a dot, and the name of the index's configuration file.
pub open spec fn excluded(name: Seq<char>) -> bool {
    (name.len() > 0 && name[0] == '.') || name == "config.json"@
}

/// The files that the walk finds at and below one entry that stands in the
/// directory `prefix`, each as the names from the root down to the file.
pub open spec fn found_in(entry: DirEntry, prefix: Seq<Seq<char>>) -> Seq<Seq<Seq<char>>>
    decreases entry, 0nat,
{
    if excluded(entry.name@) {
        Seq::empty()
    } else {
        match entry.kind {
            EntryKind::File => seq![prefix.push(entry.name@)],
            EntryKind::Directory(children) => walk(children@, prefix.push(entry.name@)),
            EntryKind::Other => Seq::empty(),
        }
    }
}

/// The files that the walk finds in the directory `prefix` with the given
/// entries: entry by entry, in the order of the entries, what is found at and
/// below each.
pub open spec fn walk(entries: Seq<DirEntry>, prefix: Seq<Seq<char>>) -> Seq<Seq<Seq<char>>>
    decreases entries, entries.len(),
{
    if entries.len() == 0 {
        Seq::empty()
    } else {
        walk(entries.drop_last(), prefix) + found_in(entries.last(), prefix)
    }
}

/// Whether the walk passes over an entry of this name.
pub fn is_excluded(name: &str) -> (r: bool)
    ensures
        r == excluded(name@),
{
    if !name.is_empty() && name.get_char(0) == '.' {
        return true;
    }
    proof {
        lemma_text_order(name@, "config.json"@, name@);
    }
    compare_text(name, "config.json").is_equal()
}

/// The paths that a list of component lists stands for.
pub open spec fn paths_of(files: Seq<Vec<String>>) -> Seq<Seq<Seq<char>>> {
    Seq::new(files.len(), |i: int| texts_of(files[i]@))
}

/// A copy of a path with one more component.
fn child_path(prefix: &Vec<String>, name: &String) -> (r: Vec<String>)
    ensures
        texts_of(r@) == texts_of(prefix@).push(name@),
{
    let mut path: Vec<String> = Vec::new();
    let mut i: usize = 0;
    while i < prefix.len()
        invariant
            i <= prefix.len(),
            path@.len() == i,
            forall|j: int| 0 <= j < i ==> path@[j]@ == prefix@[j]@,
        decreases prefix.len() - i,
    {
        path.push(prefix[i].clone());
        i += 1;
    }
    path.push(name.clone());
    assert(texts_of(path@) =~= texts_of(prefix@).push(name@));
    path
}

/// Walks a directory tree, depth first: appends to `files` every regular
/// file at or below `entries`, as the names from the root down to it, where
/// `prefix` names the directory that holds `entries`. Entries come in the
/// order given, and what lies below a directory comes where the directory
/// stands. Excluded entries are passed over, with all that is below them.
pub fn walkdir(entries: &Vec<DirEntry>, prefix: &Vec<String>, files: &mut Vec<Vec<String>>)
    ensures
        paths_of(final(files)@) == paths_of(old(files)@) + walk(entries@, texts_of(prefix@)),
    decreases entries,
{
    let mut i: usize = 0;
    assert(entries@.take(0) =~= Seq::<DirEntry>::empty());
    assert(paths_of(files@) =~= paths_of(old(files)@) + walk(entries@.take(0), texts_of(prefix@)));
    while i < entries.len()
        invariant
            i <= entries.len(),
            paths_of(files@) == paths_of(old(files)@) + walk(
                entries@.take(i as int),
                texts_of(prefix@),
            ),
        decreases entries.len() - i,
    {
        proof {
            assert(entries@.take(i as int + 1).drop_last() =~= entries@.take(i as int));
            assert(entries@.take(i as int + 1).last() == entries@[i as int]);
        }
        let ghost before = paths_of(files@);
        let entry = &entries[i];
        if !is_excluded(entry.name.as_str()) {
            match &entry.kind {
                EntryKind::File => {
                    files.push(child_path(prefix, &entry.name));
                    assert(paths_of(files@) =~= before + found_in(*entry, texts_of(prefix@)));
                },
                EntryKind::Directory(children) => {
                    let inner = child_path(prefix, &entry.name);
                    walkdir(children, &inner, files);
                    assert(found_in(*entry, texts_of(prefix@)) == walk(children@, texts_of(inner@)));
                },
                EntryKind::Other => {
                    assert(paths_of(files@) =~= before + found_in(*entry, texts_of(prefix@)));
                },
            }
        } else {
            assert(paths_of(files@) =~= before + found_in(*entry, texts_of(prefix@)));
        }
        proof {
            let found = found_in(*entry, texts_of(prefix@));
            let so_far = walk(entries@.take(i as int), texts_of(prefix@));
            assert(paths_of(files@) == before + found);
            assert(walk(entries@.take(i as int + 1), texts_of(prefix@)) == so_far + found);
            assert(paths_of(old(files)@) + so_far + found =~= paths_of(old(files)@) + (so_far
                + found));
        }
        i += 1;
    }
    assert(entries@.take(i as int) =~= entries@);
}

/// No name of the path is excluded.
pub open spec fn clear(path: Seq<Seq<char>>) -> bool {
    forall|k: int| 0 <= k < path.len() ==> !excluded(#[trigger] path[k])
}

/// The entry is the first step of the path, and the rest of the path leads
/// from it to a regular file.
pub open spec fn leads(entry: DirEntry, path: Seq<Seq<char>>) -> bool
    decreases path.len(), 0nat,
{
    path.len() > 0 && entry.name@ == path[0] && match entry.kind {
        EntryKind::File => path.len() == 1,
        EntryKind::Directory(children) => path.len() > 1 && locates(children@, path.drop_first()),
        EntryKind::Other => false,
    }
}

/// The path names a regular file of the tree: its names lead from one of the
/// entries down to a file, at whatever depth.
pub open spec fn locates(entries: Seq<DirEntry>, path: Seq<Seq<char>>) -> bool
    decreases path.len(), 1nat,
{
    path.len() > 0 && exists|i: int| 0 <= i < entries.len() && leads(#[trigger] entries[i], path)
}

/// The file lies in the tree below the directory `prefix`, and the walk does
/// not pass over it: beyond the prefix its names lead to a regular file, and
/// none of them is excluded.
pub open spec fn reaches(entries: Seq<DirEntry>, prefix: Seq<Seq<char>>, file: Seq<Seq<char>>) -> bool {
    prefix.len() <= file.len() && file.take(prefix.len() as int) == prefix && locates(
        entries,
        file.skip(prefix.len() as int),
    ) && clear(file.skip(prefix.len() as int))
}

proof fn lemma_found_in(entry: DirEntry, prefix: Seq<Seq<char>>, file: Seq<Seq<char>>)
    ensures
        found_in(entry, prefix).contains(file) <==> prefix.len() <= file.len() && file.take(
            prefix.len() as int,
        ) == prefix && leads(entry, file.skip(prefix.len() as int)) && clear(
            file.skip(prefix.len() as int),
        ),
    decreases entry, 0nat,
{
    let n = prefix.len() as int;
    let path = file.skip(n);
    if excluded(entry.name@) {
        if prefix.len() <= file.len() && leads(entry, path) && clear(path) {
            assert(!excluded(path[0]));
        }
    } else {
        match entry.kind {
            EntryKind::File => {
                let only = prefix.push(entry.name@);
                assert(found_in(entry, prefix) =~= seq![only]);
                if found_in(entry, prefix).contains(file) {
                    assert(file == only);
                    assert(file.take(n) =~= prefix);
                    assert(path =~= seq![entry.name@]);
                }
                if prefix.len() <= file.len() && file.take(n) == prefix && leads(entry, path)
                    && clear(path) {
                    assert(file =~= only);
                    assert(seq![only][0] == file);
                }
            },
            EntryKind::Directory(children) => {
                let inner = prefix.push(entry.name@);
                lemma_walk(children@, inner, file);
                if reaches(children@, inner, file) {
                    assert(file.take(n) =~= inner.take(n));
                    assert(inner.take(n) =~= prefix);
                    assert(path[0] == file[n]);
                    assert(file.take(n + 1)[n] == inner[n]);
                    assert(path.drop_first() =~= file.skip(n + 1));
                    assert forall|k: int| 0 <= k < path.len() implies !excluded(#[trigger] path[k]) by {
                        if k > 0 {
                            assert(path[k] == file.skip(n + 1)[k - 1]);
                        }
                    }
                }
                if prefix.len() <= file.len() && file.take(n) == prefix && leads(entry, path)
                    && clear(path) {
                    assert(path.drop_first() =~= file.skip(n + 1));
                    assert(file.take(n + 1) =~= file.take(n).push(file[n]));
                    assert(path[0] == file[n]);
                    assert forall|k: int| 0 <= k < file.skip(n + 1).len() implies !excluded(
                        #[trigger] file.skip(n + 1)[k],
                    ) by {
                        assert(file.skip(n + 1)[k] == path[k + 1]);
                    }
                }
            },
            EntryKind::Other => {},
        }
    }
}

/// What the walk finds, and what it leaves out: a file is in the result
/// exactly if it is a regular file of the tree, at whatever depth, and neither
/// its own name nor the name of a directory above it is excluded.
pub proof fn lemma_walk(entries: Seq<DirEntry>, prefix: Seq<Seq<char>>, file: Seq<Seq<char>>)
    ensures
        walk(entries, prefix).contains(file) <==> reaches(entries, prefix, file),
    decreases entries, entries.len(),
{
    let n = prefix.len() as int;
    let path = file.skip(n);
    if entries.len() > 0 {
        let front = entries.drop_last();
        let last = entries.last();
        lemma_walk(front, prefix, file);
        lemma_found_in(last, prefix, file);
        let a = walk(front, prefix);
        let b = found_in(last, prefix);
        if a.contains(file) {
            let i = choose|i: int| 0 <= i < a.len() && a[i] == file;
            assert((a + b)[i] == file);
            let k = choose|k: int| 0 <= k < front.len() && leads(#[trigger] front[k], path);
            assert(entries[k] == front[k]);
        }
        if b.contains(file) {
            let i = choose|i: int| 0 <= i < b.len() && b[i] == file;
            assert((a + b)[a.len() + i] == file);
            assert(leads(entries[entries.len() - 1], path));
        }
        if (a + b).contains(file) {
            let i = choose|i: int| 0 <= i < (a + b).len() && (a + b)[i] == file;
            if i < a.len() {
                assert(a[i] == file);
            } else {
                assert(b[i - a.len()] == file);
            }
        }
        if reaches(entries, prefix, file) {
            let k = choose|k: int| 0 <= k < entries.len() && leads(#[trigger] entries[k], path);
            if k < front.len() {
                assert(front[k] == entries[k]);
            }
        }
    }
}

/// A record in canonical form: its dependencies sorted, all else as it was.
pub open spec fn normal_form(krate: CrateModel) -> CrateModel {
    CrateModel {
        name: krate.name,
        vers: krate.vers,
        deps: sorted_dependencies(krate.deps),
        cksum: krate.cksum,
        features: krate.features,
        features2: krate.features2,
        yanked: krate.yanked,
        links: krate.links,
        v: krate.v,
    }
}

/// The records of a file in canonical form, each where it stood.
pub open spec fn normal_forms(versions: Seq<CrateModel>) -> Seq<CrateModel> {
    Seq::new(versions.len(), |i: int| normal_form(versions[i]))
}

/// The record is in canonical form.
pub open spec fn is_normal(krate: CrateModel) -> bool {
    ordered(krate.deps)
}

/// Brings the records of one index file into canonical form: the
/// dependencies of each record are sorted; the records keep their order, and
/// every other field its value.
pub fn normalize(versions: Vec<Crate>) -> (r: Vec<Crate>)
    ensures
        crates_of(r@) == normal_forms(crates_of(versions@)),
        forall|i: int| 0 <= i < r@.len() ==> is_normal(#[trigger] r@[i]@),
{
    let ghost all = crates_of(versions@);
    let mut versions = versions;
    let mut i: usize = 0;
    while i < versions.len()
        invariant
            i <= versions.len(),
            versions@.len() == all.len(),
            forall|j: int| 0 <= j < i ==> #[trigger] versions@[j]@ == normal_form(all[j]),
            forall|j: int| i <= j < all.len() ==> #[trigger] versions@[j]@ == all[j],
        decreases versions.len() - i,
    {
        let ghost before = versions@;
        assert(before[i as int]@ == all[i as int]);
        let mut deps: Vec<Dependency> = Vec::new();
        core::mem::swap(&mut versions[i].deps, &mut deps);
        versions[i].deps = sort_dependencies(deps);
        proof {
            assert(forall|j: int| 0 <= j < versions@.len() && j != i ==> versions@[j] == before[j]);
            assert(versions@[i as int]@.deps == sorted_dependencies(before[i as int]@.deps));
            assert(versions@[i as int]@ == normal_form(all[i as int]));
        }
        i += 1;
    }
    proof {
        assert(crates_of(versions@) =~= normal_forms(all));
        assert forall|i: int| 0 <= i < versions@.len() implies is_normal(#[trigger] versions@[i]@) by {
            lemma_sorted_ordered(all[i].deps);
        }
    }
    versions
}

/// Normalizing is a fixpoint: records in canonical form are left as they
/// are, so the second pass over a file changes nothing.
pub proof fn lemma_normalize_idempotent(versions: Seq<CrateModel>)
    ensures
        normal_forms(normal_forms(versions)) == normal_forms(versions),
{
    assert forall|i: int| 0 <= i < versions.len() implies normal_form(
        #[trigger] normal_forms(versions)[i],
    ) == normal_forms(versions)[i] by {
        lemma_sorted_idempotent(versions[i].deps);
    }
    assert(normal_forms(normal_forms(versions)) =~= normal_forms(versions));
}

/// Normalizing neither adds nor drops a record or a dependency.
pub proof fn lemma_normalize_keeps(versions: Seq<CrateModel>, i: int)
    requires
        0 <= i < versions.len(),
    ensures
        normal_forms(versions).len() == versions.len(),
        normal_forms(versions)[i].deps.to_multiset() == versions[i].deps.to_multiset(),
{
    lemma_sorted_permutes(versions[i].deps);
}

/// A way to write a record as a line and to read a line as a record.
pub struct Codec {
    /// The record that a line holds, if it holds one.
    pub parse: spec_fn(Seq<u8>) -> Option<CrateModel>,
    /// The line that holds a record, without its end.
    pub render: spec_fn(CrateModel) -> Seq<u8>,
}

/// What the codec writes is a line that framing keeps, and reads back as the
/// record that was written.
pub open spec fn faithful(codec: Codec) -> bool {
    forall|krate: CrateModel|
        plain(#[trigger] (codec.render)(krate)) && (codec.parse)((codec.render)(krate)) == Some(
            krate,
        )
}

/// The records that the lines hold, or `None` if one of them holds none.
pub open spec fn parsed(codec: Codec, lines: Seq<Seq<u8>>) -> Option<Seq<CrateModel>>
    decreases lines.len(),
{
    if lines.len() == 0 {
        Some(Seq::empty())
    } else {
        match (parsed(codec, lines.drop_last()), (codec.parse)(lines.last())) {
            (Some(front), Some(krate)) => Some(front.push(krate)),
            _ => None,
        }
    }
}

/// The lines that hold the records.
pub open spec fn rendered(codec: Codec, versions: Seq<CrateModel>) -> Seq<Seq<u8>> {
    Seq::new(versions.len(), |i: int| (codec.render)(versions[i]))
}

/// The bytes of a file after normalizing: its non-empty lines are read as
/// records, the records are brought into canonical form and written back,
/// each closed by a line feed. `None` if a line holds no record.
pub open spec fn normalized_file(codec: Codec, data: Seq<u8>) -> Option<Seq<u8>> {
    match parsed(codec, non_empty(lines_of(data))) {
        Some(versions) => Some(framed(rendered(codec, normal_forms(versions)))),
        None => None,
    }
}

proof fn lemma_parsed_rendered(codec: Codec, versions: Seq<CrateModel>)
    requires
        faithful(codec),
    ensures
        parsed(codec, rendered(codec, versions)) == Some(versions),
    decreases versions.len(),
{
    let lines = rendered(codec, versions);
    if versions.len() == 0 {
        assert(versions =~= Seq::empty());
    } else {
        assert(lines.drop_last() =~= rendered(codec, versions.drop_last()));
        lemma_parsed_rendered(codec, versions.drop_last());
        assert(lines.last() == (codec.render)(versions.last()));
        assert(versions.drop_last().push(versions.last()) =~= versions);
    }
}

/// With a faithful codec, normalizing a file twice writes the same bytes the
/// second time as the first.
pub proof fn lemma_normalized_file_is_fixed(codec: Codec, data: Seq<u8>)
    requires
        faithful(codec),
    ensures
        normalized_file(codec, data) matches Some(out) ==> normalized_file(codec, out) == Some(
            out,
        ),
{
    if let Some(versions) = parsed(codec, non_empty(lines_of(data))) {
        let canonical = normal_forms(versions);
        let lines = rendered(codec, canonical);
        assert forall|i: int| 0 <= i < lines.len() implies plain(#[trigger] lines[i]) by {
            assert(plain((codec.render)(canonical[i])));
        }
        lemma_framing_round_trip(lines);
        lemma_parsed_rendered(codec, canonical);
        lemma_normalize_idempotent(versions);
    }
}

/// After how many files the normalizer reports how far it is.
pub const PROGRESS_EVERY: usize = 50;

/// Whether the normalizer reports its progress before the file with this
/// index: before the first file, and before every fiftieth after it.
pub fn reports_progress(index: usize) -> (r: bool)
    ensures
        r == (index % PROGRESS_EVERY == 0),
{
    index % PROGRESS_EVERY == 0
}

/// The lower-case form of an ASCII letter; any other character itself.
pub open spec fn lowered(c: char) -> char {
    if 'A' <= c && c <= 'Z' {
        ((c as u8) + 32) as char
    } else {
        c
    }
}

/// The text with its ASCII letters in lower case.
pub open spec fn lowercase(name: Seq<char>) -> Seq<char> {
    Seq::new(name.len(), |i: int| lowered(name[i]))
}

/// The name can be given a place in the index: it is not empty and holds
/// ASCII characters only.
pub open spec fn placeable(name: Seq<char>) -> bool {
    name.len() > 0 && is_ascii_chars(name)
}

/// The place of a package's file below the root of the index, as the names
/// from the root down. The name is put in lower case. A name of one or two
/// characters lies in the directory `1` or `2`; a name of three in `3`, below
/// a directory named by its first character; a longer one below two
/// directories, named by its first two characters and its next two.
pub open spec fn index_path(name: Seq<char>) -> Seq<Seq<char>> {
    let lower = lowercase(name);
    if lower.len() == 1 {
        seq!["1"@, lower]
    } else if lower.len() == 2 {
        seq!["2"@, lower]
    } else if lower.len() == 3 {
        seq!["3"@, lower.take(1), lower]
    } else {
        seq![lower.take(2), lower.subrange(2, 4), lower]
    }
}

/// Calls `str::to_ascii_lowercase` of the standard library. What is stated
/// of it is taken from its documentation, and not proved: the result is a
/// copy of the text in which the ASCII letters `A` to `Z` are replaced by `a`
/// to `z` and every other character is kept.
#[verifier::external_body]
fn ascii_lowercase(name: &str) -> (r: String)
    ensures
        r@ == lowercase(name@),
{
    name.to_ascii_lowercase()
}

/// The place of a package's file below the root of the index, or `None` for
/// a name that has none.
pub fn relative_index_file(name: &str) -> (r: Option<Vec<String>>)
    ensures
        r is Some <==> placeable(name@),
        r matches Some(path) ==> texts_of(path@) == index_path(name@),
{
    if name.is_empty() || !name.is_ascii() {
        return None;
    }
    let lower = ascii_lowercase(name);
    proof {
        assert forall|i: int| 0 <= i < lower@.len() implies '\0' <= #[trigger] lower@[i] <= '\u{7f}' by {
            assert('\0' <= name@[i] <= '\u{7f}');
        }
    }
    let text = lower.as_str();
    let n = text.unicode_len();
    let mut path: Vec<String> = Vec::new();
    if n == 1 {
        path.push(String::from_str("1"));
    } else if n == 2 {
        path.push(String::from_str("2"));
    } else if n == 3 {
        path.push(String::from_str("3"));
        path.push(String::from_str(text.substring_ascii(0, 1)));
    } else {
        path.push(String::from_str(text.substring_ascii(0, 2)));
        path.push(String::from_str(text.substring_ascii(2, 4)));
    }
    path.push(lower);
    assert(texts_of(path@) =~= index_path(name@));
    Some(path)
}

/// The file to write for a package: where, and what.
#[derive(Clone, Debug, PartialEq, Eq)]
pub struct IndexWrite {
    /// The directory that must exist before the file is written, as the
    /// names from the root of the index down.
    pub directory: Vec<String>,
    /// The file, as the names from the root of the index down.
    pub path: Vec<String>,
    /// All that the file holds afterwards.
    pub contents: Vec<u8>,
}

/// Derives the index file of a package from the records of its versions,
/// each given as the bytes of its line, in the order of the versions: the
/// file lies at the package's place and holds every record, closed by a line
/// feed. `None` for a name that has no place in the index.
pub fn regenerate(name: &str, records: &Vec<Vec<u8>>) -> (r: Option<IndexWrite>)
    ensures
        r is Some <==> placeable(name@),
        r matches Some(write) ==> {
            &&& texts_of(write.path@) == index_path(name@)
            &&& texts_of(write.directory@) == index_path(name@).drop_last()
            &&& write.contents@ == framed(byte_lines(records@))
        },
{
    let path = match relative_index_file(name) {
        Some(path) => path,
        None => {
            return None;
        },
    };
    assert(texts_of(path@).len() >= 2);
    let mut directory: Vec<String> = Vec::new();
    let mut i: usize = 0;
    while i + 1 < path.len()
        invariant
            i < path.len(),
            directory@.len() == i,
            forall|j: int| 0 <= j < i ==> directory@[j]@ == path@[j]@,
        decreases path.len() - i,
    {
        directory.push(path[i].clone());
        i += 1;
    }
    assert(texts_of(directory@) =~= texts_of(path@).drop_last());
    Some(IndexWrite { directory, path, contents: join_lines(records) })
}

/// The two parts of a rewriting run.
#[derive(Clone, Copy, Debug, PartialEq, Eq, Structural)]
pub enum Phase {
    /// The files of the index are brought into canonical form.
    Normalize,
    /// The files of the index are written anew from the store.
    Regenerate,
}

/// What a rewriting run asks for.
#[derive(Clone, Copy, Debug, PartialEq, Eq, Structural)]
pub enum Action {
    /// Walk the index for its files.
    Walk,
    /// Tell the operator how many files there are, and ask whether to
    /// normalize them.
    AskNormalize { files: usize },
    /// Normalize the file with this index; if `report`, say first how far
    /// the run has come.
    Normalize { file: usize, report: bool },
    /// Ask the store for the names of all packages.
    ListPackages,
    /// Ask the operator whether to write the files of so many packages.
    AskRegenerate { packages: usize },
    /// Wait for `delay` milliseconds, then write the file of the package with
    /// this index.
    Regenerate { package: usize, delay: u64 },
    /// End the run, with success or not.
    Finish { succeeded: bool },
}

/// The state of a rewriting run.
pub struct RunState {
    pub phase: Phase,
    /// The state of the part that the run is in.
    pub part: DriverState,
    /// Milliseconds to wait before each package.
    pub delay: u64,
}

/// The state at the start of a run: normalizing comes first. There a file
/// that fails ends the run, and nothing is waited for.
pub open spec fn run_start(opts: Opts) -> RunState {
    RunState { phase: Phase::Normalize, part: initial(Policy::Abort, 0), delay: opts.delay }
}

/// The states that a run can be in: while normalizing, a failure ends the run
/// and nothing is waited for; while regenerating, a failure is passed over
/// and the delay is waited for.
pub open spec fn run_valid(s: RunState) -> bool {
    &&& crate::driver::valid(s.part)
    &&& s.phase == Phase::Normalize ==> s.part.policy == Policy::Abort && s.part.delay == 0
    &&& s.phase == Phase::Regenerate ==> s.part.policy == Policy::Isolate && s.part.delay
        == s.delay
}

/// What the run asks for in a state.
pub open spec fn action(s: RunState) -> Action {
    match (s.phase, command(s.part)) {
        (Phase::Normalize, Command::Discover) => Action::Walk,
        (Phase::Normalize, Command::Confirm { units }) => Action::AskNormalize { files: units },
        (Phase::Normalize, Command::Process { unit, delay }) => Action::Normalize {
            file: unit,
            report: unit % PROGRESS_EVERY == 0,
        },
        (Phase::Regenerate, Command::Discover) => Action::ListPackages,
        (Phase::Regenerate, Command::Confirm { units }) => Action::AskRegenerate {
            packages: units,
        },
        (Phase::Regenerate, Command::Process { unit, delay }) => Action::Regenerate {
            package: unit,
            delay,
        },
        (_, Command::Finish { succeeded, processed, failed }) => Action::Finish { succeeded },
    }
}

/// The state after an event. When normalizing ends well, be it that the
/// operator declined it, the second part starts: there a package that fails
/// is passed over, and the delay is waited for before each package.
pub open spec fn after_event(s: RunState, event: Event) -> RunState {
    let part = after(s.part, event);
    if s.phase == Phase::Normalize && part.stage == Stage::Complete && part.succeeded {
        RunState { phase: Phase::Regenerate, part: initial(Policy::Isolate, s.delay), delay: s.delay }
    } else {
        RunState { phase: s.phase, part, delay: s.delay }
    }
}

/// A rewriting run: it is told what happened and answers what to do next.
pub struct Run {
    phase: Phase,
    part: Driver,
    delay: u64,
}

impl View for Run {
    type V = RunState;

    closed spec fn view(&self) -> RunState {
        RunState { phase: self.phase, part: self.part@, delay: self.delay }
    }
}

impl Run {
    /// A run at its start.
    pub fn new(opts: Opts) -> (r: Self)
        ensures
            r@ == run_start(opts),
            run_valid(r@),
    {
        Run { phase: Phase::Normalize, part: Driver::new(Policy::Abort, 0), delay: opts.delay }
    }

    /// What the run asks for now.
    pub fn pending(&self) -> (r: Action)
        ensures
            r == action(self@),
    {
        match (self.phase, self.part.pending()) {
            (Phase::Normalize, Command::Discover) => Action::Walk,
            (Phase::Normalize, Command::Confirm { units }) => Action::AskNormalize { files: units },
            (Phase::Normalize, Command::Process { unit, delay }) => Action::Normalize {
                file: unit,
                report: reports_progress(unit),
            },
            (Phase::Regenerate, Command::Discover) => Action::ListPackages,
            (Phase::Regenerate, Command::Confirm { units }) => Action::AskRegenerate {
                packages: units,
            },
            (Phase::Regenerate, Command::Process { unit, delay }) => Action::Regenerate {
                package: unit,
                delay,
            },
            (_, Command::Finish { succeeded, processed, failed }) => Action::Finish { succeeded },
        }
    }

    /// Tells the run what happened, and returns what it asks for next.
    pub fn advance(&mut self, event: Event) -> (r: Action)
        ensures
            final(self)@ == after_event(old(self)@, event),
            r == action(final(self)@),
            run_valid(old(self)@) ==> run_valid(final(self)@),
    {
        let next = self.part.advance(event);
        match (self.phase, next) {
            (Phase::Normalize, Command::Finish { succeeded: true, processed, failed }) => {
                self.phase = Phase::Regenerate;
                self.part = Driver::new(Policy::Isolate, self.delay);
            },
            _ => {},
        }
        self.pending()
    }
}

/// Declining to normalize does not end the run: the second part is offered
/// all the same.
pub proof fn lemma_second_part_is_offered(opts: Opts, files: usize)
    ensures
        action(
            after_event(
                after_event(run_start(opts), Event::Discovered { units: files }),
                Event::Answered { confirmed: false },
            ),
        ) == Action::ListPackages,
{
}

/// Every event leads from a state of a run to a state of a run.
pub proof fn lemma_run_valid(s: RunState, event: Event)
    requires
        run_valid(s),
    ensures
        run_valid(after_event(s, event)),
{
}

/// A file that cannot be normalized ends the run as failed; a package that
/// cannot be written does not.
pub proof fn lemma_failures(s: RunState)
    requires
        run_valid(s),
        s.part.stage == Stage::Iterate,
    ensures
        s.phase == Phase::Normalize ==> action(after_event(s, Event::UnitFailed)) == (Action::Finish {
            succeeded: false,
        }),
        s.phase == Phase::Regenerate ==> action(after_event(s, Event::UnitFailed)) == action(
            after_event(s, Event::UnitSucceeded),
        ),
{
}

} // verus!
