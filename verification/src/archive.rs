//! An archive: a collection of file records grouped into one unit, how one
//! is made from files, and how it is extracted.

use vstd::prelude::*;
use vstd::utf8::{decode_utf8, valid_utf8};

use crate::format::{all_well_formed, decode_spec, encode_spec, theorem_decode_encode, DecodeError};
use crate::record::{record_name_text, FileRecord, RecordView};

verus! {

/// `std::io::Error`, which the creation of an extracted file may report.
#[verifier::external_type_specification]
#[verifier::external_body]
pub struct ExIoError(std::io::Error);

/// `anyhow::Error`, which reading a source file may report.
#[verifier::external_type_specification]
#[verifier::external_body]
pub struct ExAnyhowError(anyhow::Error);

/// Archive represents a collection of file contents, grouped
/// together into a single unit.
#[derive(Debug, Default)]
pub struct Archive {
    /// The collection of records (files) in the archive.
    pub records: Vec<FileRecord>,
}

/// The records of a list, as plain values.
pub open spec fn records_view(records: Seq<FileRecord>) -> Seq<RecordView> {
    Seq::new(records.len(), |i: int| records[i]@)
}

impl View for Archive {
    type V = Seq<RecordView>;

    open spec fn view(&self) -> Seq<RecordView> {
        records_view(self.records@)
    }
}

/// This type represents errors that can occur when extracting an [`Archive`].
#[derive(Debug)]
pub enum ArchiveExtractionError {
    /// An output file could not be created.
    FileCreationError(std::io::Error),
    /// The contents of a record could not be written to its file.
    FileRecordError,
    /// A record's name is not a plain file name.
    InvalidFilename(String),
}

/// This type represents errors that can occur when creating a new [`Archive`].
#[derive(Debug)]
pub enum ArchiveCreationError {
    /// The filenames in an archive must be unique.
    DuplicateFilenames(FilenameToPath),
    /// Uncategorized error.
    Other(anyhow::Error),
}

/// The source paths of the files of an archive, grouped by file name: each
/// name, in the order in which it first occurs, with the paths that have it.
#[derive(Debug)]
pub struct FilenameToPath(Vec<(String, Vec<String>)>);

/// The groups of a [`FilenameToPath`], as plain values.
pub type NameGroups = Seq<(Seq<char>, Seq<Seq<char>>)>;

/// The texts of a list of strings.
pub open spec fn strings_view(v: Seq<String>) -> Seq<Seq<char>> {
    Seq::new(v.len(), |i: int| v[i]@)
}

/// Groups of names and paths, as plain values.
pub open spec fn groups_view(v: Seq<(String, Vec<String>)>) -> NameGroups {
    Seq::new(v.len(), |i: int| (v[i].0@, strings_view(v[i].1@)))
}

impl View for FilenameToPath {
    type V = NameGroups;

    closed spec fn view(&self) -> NameGroups {
        groups_view(self.0@)
    }
}

impl FilenameToPath {
    /// Every name is listed once, with at least one path.
    #[verifier::type_invariant]
    spec fn names_listed_once(self) -> bool {
        groups_well_formed(groups_view(self.0@))
    }

    /// The names with their paths, each name once, in the order in which the
    /// names first occurred.
    pub fn entries(&self) -> (entries: &Vec<(String, Vec<String>)>)
        ensures
            groups_view(entries@) == self@,
            groups_well_formed(self@),
    {
        proof {
            use_type_invariant(self);
        }
        &self.0
    }
}

/// `groups` with `path` added under `name`: at the end of the group of that
/// name, or in a new group at the end where there is none.
pub open spec fn group_add(groups: NameGroups, name: Seq<char>, path: Seq<char>) -> NameGroups
    decreases groups.len(),
{
    if groups.len() == 0 {
        seq![(name, seq![path])]
    } else if groups[0].0 == name {
        groups.update(0, (name, groups[0].1.push(path)))
    } else {
        seq![groups[0]] + group_add(groups.drop_first(), name, path)
    }
}

/// The paths of `sources` (pairs of a name and a path) grouped by name, in the
/// order in which the names first occur.
pub open spec fn group_by_name(sources: Seq<(Seq<char>, Seq<char>)>) -> NameGroups
    decreases sources.len(),
{
    if sources.len() == 0 {
        seq![]
    } else {
        group_add(group_by_name(sources.drop_last()), sources.last().0, sources.last().1)
    }
}

/// Some two of `names` are equal.
pub open spec fn has_duplicates(names: Seq<Seq<char>>) -> bool {
    exists|i: int, j: int| 0 <= i < j < names.len() && names[i] == names[j]
}

/// The names that the files of `sources` have in an archive, each with the
/// path it was read from.
pub open spec fn source_names(sources: Seq<(String, FileRecord)>) -> Seq<(Seq<char>, Seq<char>)> {
    Seq::new(
        sources.len(),
        |i: int| (record_name_text(sources[i].1.filename@), sources[i].0@),
    )
}

/// The records of `sources`, as plain values.
pub open spec fn source_records(sources: Seq<(String, FileRecord)>) -> Seq<RecordView> {
    Seq::new(sources.len(), |i: int| sources[i].1@)
}

/// A grouping holds `name` exactly when one of the grouped pairs has it.
proof fn lemma_group_add_names(groups: NameGroups, name: Seq<char>, path: Seq<char>, other: Seq<char>)
    ensures
        (exists|k: int| 0 <= k < group_add(groups, name, path).len() && #[trigger] group_add(
            groups,
            name,
            path,
        )[k].0 == other) <==> (other == name || exists|k: int|
            0 <= k < groups.len() && #[trigger] groups[k].0 == other),
    decreases groups.len(),
{
    let g = group_add(groups, name, path);
    if groups.len() == 0 {
        if other == name {
            assert(g[0].0 == other);
        }
    } else if groups[0].0 == name {
        if exists|k: int| 0 <= k < groups.len() && groups[k].0 == other {
            let k = choose|k: int| 0 <= k < groups.len() && groups[k].0 == other;
            assert(g[k].0 == other);
        }
        if other == name {
            assert(g[0].0 == other);
        }
        if exists|k: int| 0 <= k < g.len() && g[k].0 == other {
            let k = choose|k: int| 0 <= k < g.len() && g[k].0 == other;
            assert(groups[k].0 == other || k == 0);
        }
    } else {
        let rest = groups.drop_first();
        lemma_group_add_names(rest, name, path, other);
        let gr = group_add(rest, name, path);
        assert(g == seq![groups[0]] + gr);
        if exists|k: int| 0 <= k < groups.len() && groups[k].0 == other {
            let k = choose|k: int| 0 <= k < groups.len() && groups[k].0 == other;
            if k == 0 {
                assert(g[0].0 == other);
            } else {
                assert(rest[k - 1].0 == other);
                let j = choose|j: int| 0 <= j < gr.len() && gr[j].0 == other;
                assert(g[j + 1].0 == other);
            }
        }
        if other == name {
            let j = choose|j: int| 0 <= j < gr.len() && gr[j].0 == other;
            assert(g[j + 1].0 == other);
        }
        if exists|k: int| 0 <= k < g.len() && g[k].0 == other {
            let k = choose|k: int| 0 <= k < g.len() && g[k].0 == other;
            if k == 0 {
                assert(groups[0].0 == other);
            } else {
                assert(gr[k - 1].0 == other);
                if other != name {
                    let j = choose|j: int| 0 <= j < rest.len() && rest[j].0 == other;
                    assert(groups[j + 1].0 == other);
                }
            }
        }
    }
}

/// Adding a path under a name that the group at `j` has, and no group before
/// it, appends the path to that group.
proof fn lemma_group_add_found(groups: NameGroups, name: Seq<char>, path: Seq<char>, j: int)
    requires
        0 <= j < groups.len(),
        groups[j].0 == name,
        forall|k: int| 0 <= k < j ==> groups[k].0 != name,
    ensures
        group_add(groups, name, path) == groups.update(j, (name, groups[j].1.push(path))),
    decreases j,
{
    if j > 0 {
        let rest = groups.drop_first();
        assert forall|k: int| 0 <= k < j - 1 implies rest[k].0 != name by {
            assert(rest[k] == groups[k + 1]);
        }
        lemma_group_add_found(rest, name, path, j - 1);
        assert(seq![groups[0]] + rest.update(j - 1, (name, rest[j - 1].1.push(path)))
            =~= groups.update(j, (name, groups[j].1.push(path))));
    }
}

/// Adding a path under a name that no group has appends a new group.
proof fn lemma_group_add_new(groups: NameGroups, name: Seq<char>, path: Seq<char>)
    requires
        forall|k: int| 0 <= k < groups.len() ==> groups[k].0 != name,
    ensures
        group_add(groups, name, path) == groups.push((name, seq![path])),
    decreases groups.len(),
{
    if groups.len() > 0 {
        let rest = groups.drop_first();
        assert forall|k: int| 0 <= k < rest.len() implies rest[k].0 != name by {
            assert(rest[k] == groups[k + 1]);
        }
        lemma_group_add_new(rest, name, path);
        assert(seq![groups[0]] + rest.push((name, seq![path])) =~= groups.push(
            (name, seq![path]),
        ));
    }
}

/// The grouping of some pairs holds a name exactly when one of the pairs has it.
proof fn lemma_group_by_name_names(sources: Seq<(Seq<char>, Seq<char>)>, other: Seq<char>)
    ensures
        (exists|k: int|
            0 <= k < group_by_name(sources).len() && #[trigger] group_by_name(sources)[k].0
                == other) <==> (exists|k: int|
            0 <= k < sources.len() && #[trigger] sources[k].0 == other),
    decreases sources.len(),
{
    if sources.len() > 0 {
        let init = sources.drop_last();
        let last = sources.last();
        let g = group_by_name(init);
        lemma_group_by_name_names(init, other);
        lemma_group_add_names(g, last.0, last.1, other);
        assert(group_by_name(sources) == group_add(g, last.0, last.1));
        if other == last.0 {
            assert(sources[sources.len() - 1].0 == other);
        }
        if exists|k: int| 0 <= k < init.len() && #[trigger] init[k].0 == other {
            let k = choose|k: int| 0 <= k < init.len() && #[trigger] init[k].0 == other;
            assert(sources[k].0 == other);
        }
        if exists|k: int| 0 <= k < sources.len() && #[trigger] sources[k].0 == other {
            let k = choose|k: int| 0 <= k < sources.len() && #[trigger] sources[k].0 == other;
            if k < init.len() {
                assert(init[k].0 == other);
            }
        }
    }
}

impl FilenameToPath {
    /// Groups the paths of `pairs` (each a name and a path) by name: each
    /// name, in the order in which it first occurs, with all the paths that
    /// have it, in order.
    pub fn from_pairs(pairs: Vec<(String, String)>) -> (groups: FilenameToPath)
        ensures
            groups@ == group_by_name(string_pairs_view(pairs@)),
            groups_well_formed(groups@),
    {
        let ghost src = string_pairs_view(pairs@);
        let mut groups: Vec<(String, Vec<String>)> = Vec::new();
        for pair in it: pairs
            invariant
                src == string_pairs_view(it.seq()),
                groups_view(groups@) == group_by_name(src.take(it.index() as int)),
        {
            let ghost i = it.index();
            assert(pair == it.seq()[i as int]);
            let (name, path) = pair;
            let ghost name_v = name@;
            let ghost path_v = path@;
            let ghost before = groups_view(groups@);
            assert(src.take(i + 1).drop_last() =~= src.take(i as int));
            assert(src.take(i + 1).last() == (name_v, path_v));
            let mut j: usize = 0;
            let mut found = false;
            while j < groups.len()
                invariant_except_break
                    !found,
                invariant
                    j <= groups@.len(),
                    name_v == name@,
                    before == groups_view(groups@),
                    forall|k: int| 0 <= k < j ==> before[k].0 != name_v,
                ensures
                    j <= groups@.len(),
                    found ==> j < groups@.len() && before[j as int].0 == name_v,
                    !found ==> j == groups@.len(),
                    forall|k: int| 0 <= k < j ==> before[k].0 != name_v,
                decreases groups@.len() - j,
            {
                if groups[j].0 == name {
                    found = true;
                    break;
                }
                j = j + 1;
            }
            if found {
                let ghost old_groups = groups@;
                let (group_name, mut paths) = groups.remove(j);
                let ghost old_paths = paths@;
                assert(old_paths == old_groups[j as int].1@);
                paths.push(path);
                assert(strings_view(paths@) =~= strings_view(old_paths).push(path_v));
                groups.insert(j, (group_name, paths));
                proof {
                    lemma_group_add_found(before, name_v, path_v, j as int);
                    assert(groups_view(groups@) =~= before.update(
                        j as int,
                        (name_v, before[j as int].1.push(path_v)),
                    ));
                }
            } else {
                let mut paths: Vec<String> = Vec::new();
                paths.push(path);
                assert(strings_view(paths@) =~= seq![path_v]);
                groups.push((name, paths));
                proof {
                    lemma_group_add_new(before, name_v, path_v);
                    assert(groups_view(groups@) =~= before.push((name_v, seq![path_v])));
                }
            }
        }
        assert(src.take(src.len() as int) =~= src);
        proof {
            theorem_grouping(src);
        }
        FilenameToPath(groups)
    }

    /// Whether some name of the grouping has two or more paths.
    pub fn has_shared_name(&self) -> (shared: bool)
        ensures
            shared == some_group_shared(self@),
    {
        let mut i: usize = 0;
        while i < self.0.len()
            invariant
                i <= self.0@.len(),
                forall|k: int| 0 <= k < i ==> #[trigger] self@[k].1.len() < 2,
            decreases self.0@.len() - i,
        {
            if self.0[i].1.len() >= 2 {
                assert(self@[i as int].1.len() >= 2);
                return true;
            }
            i = i + 1;
        }
        false
    }
}

impl Archive {
    /// Instantiates an [`Archive`] from files read from paths: each source is
    /// the path a file was read from and the record made of it. As long as
    /// there are no duplicate filenames, the [`Archive`] will include the
    /// records in the order given.
    ///
    /// # Errors
    /// Where two records have the same name (as text), the error is
    /// [`ArchiveCreationError::DuplicateFilenames`], which lists each name
    /// with all the paths that have it.
    pub fn from_paths(sources: Vec<(String, FileRecord)>) -> (archive: Result<
        Archive,
        ArchiveCreationError,
    >)
        ensures
            archive is Ok <==> !has_duplicates(
                source_names(sources@).map_values(|p: (Seq<char>, Seq<char>)| p.0),
            ),
            archive matches Ok(a) ==> a@ == source_records(sources@),
            archive matches Err(e) ==> e matches ArchiveCreationError::DuplicateFilenames(m) && m@
                == group_by_name(source_names(sources@)),
    {
        let ghost src = sources@;
        let mut records: Vec<FileRecord> = Vec::new();
        let mut pairs: Vec<(String, String)> = Vec::new();
        for source in it: sources
            invariant
                src == it.seq(),
                records_view(records@) == source_records(src).take(it.index() as int),
                string_pairs_view(pairs@) == source_names(src).take(it.index() as int),
        {
            let ghost i = it.index();
            assert(source == src[i as int]);
            let (path, record) = source;
            let ghost before_pairs = string_pairs_view(pairs@);
            let ghost before_records = records_view(records@);
            let name = record.filename_text();
            assert(source_names(src)[i as int] == (name@, path@));
            pairs.push((name, path));
            assert(string_pairs_view(pairs@) =~= before_pairs.push(source_names(src)[i as int]));
            assert(source_names(src).take(i + 1) =~= source_names(src).take(i as int).push(
                source_names(src)[i as int],
            ));
            assert(record@ == src[i as int].1@);
            records.push(record);
            assert(records_view(records@) =~= before_records.push(src[i as int].1@));
            assert(source_records(src).take(i + 1) =~= source_records(src).take(i as int).push(
                src[i as int].1@,
            ));
        }
        assert(source_names(src).take(src.len() as int) =~= source_names(src));
        assert(source_records(src).take(src.len() as int) =~= source_records(src));
        let groups = FilenameToPath::from_pairs(pairs);
        proof {
            theorem_grouping(source_names(src));
        }
        if groups.has_shared_name() {
            Err(ArchiveCreationError::DuplicateFilenames(groups))
        } else {
            Ok(Archive { records })
        }
    }
}

/// The bytes of a record's name may be extracted under: they are well-formed
/// UTF-8, and the text they encode is a [`valid_filename`].
pub open spec fn extractable_name(bytes: Seq<u8>) -> bool {
    valid_utf8(bytes) && valid_filename(decode_utf8(bytes))
}

/// A name that may stand for a file in the extraction directory: it holds no
/// path separator, `/` or `\`, and it is none of the names that stand for a
/// directory, the empty name, `.` and `..`.
pub open spec fn valid_filename(name: Seq<char>) -> bool {
    &&& !name.contains('/')
    &&& !name.contains('\\')
    &&& name != Seq::<char>::empty()
    &&& name != seq!['.']
    &&& name != seq!['.', '.']
}

impl Archive {
    /// Checks a filename before extraction, to avoid bad input such as path
    /// traversals: the name must hold no path separator (`/` or `\`) and be
    /// neither empty, `.` nor `..`. This is a lexical check only.
    pub fn filename_is_valid(filename: &str) -> (valid: bool)
        ensures
            valid == valid_filename(filename@),
    {
        let n = filename.unicode_len();
        let mut i: usize = 0;
        while i < n
            invariant
                n == filename@.len(),
                i <= n,
                forall|k: int| 0 <= k < i ==> filename@[k] != '/' && filename@[k] != '\\',
            decreases n - i,
        {
            let c = filename.get_char(i);
            if c == '/' || c == '\\' {
                assert(filename@.contains(c));
                return false;
            }
            i = i + 1;
        }
        if n == 0 {
            assert(filename@ =~= Seq::<char>::empty());
            return false;
        }
        if filename.get_char(0) == '.' {
            if n == 1 {
                assert(filename@ =~= seq!['.']);
                return false;
            }
            if n == 2 && filename.get_char(1) == '.' {
                assert(filename@ =~= seq!['.', '.']);
                return false;
            }
        }
        assert(filename@ != seq!['.'] && filename@ != seq!['.', '.']) by {
            if filename@ == seq!['.'] {
                assert(filename@[0] == '.');
            }
            if filename@ == seq!['.', '.'] {
                assert(filename@[0] == '.' && filename@[1] == '.');
            }
        }
        true
    }
}

/// The text that `format!("{:?}", paths)` gives for a `Vec<PathBuf>` of
/// paths with these texts.
pub uninterp spec fn debug_text(paths: Seq<Seq<char>>) -> Seq<char>;

/// The debug form of a list of paths, through `format!("{:?}", ..)` on the
/// paths as `PathBuf`s.
///
/// Trusted: the text depends on the paths alone (what it is, a bracketed,
/// comma-separated list of quoted and escaped paths, is left unsaid).
#[verifier::external_body]
fn paths_debug(paths: &Vec<String>) -> (text: String)
    ensures
        text@ == debug_text(strings_view(paths@)),
{
    let paths: Vec<std::path::PathBuf> = paths.iter().map(std::path::PathBuf::from).collect();
    format!("{:?}", paths)
}

/// The text that lists `entries`, pairs of a name and what is shown for it:
/// for each, in order, the name, `": "`, what is shown, and `"; "`.
pub open spec fn entries_text(entries: Seq<(Seq<char>, Seq<char>)>) -> Seq<char>
    decreases entries.len(),
{
    if entries.len() == 0 {
        seq![]
    } else {
        entries_text(entries.drop_last()) + entries.last().0 + ": "@ + entries.last().1 + "; "@
    }
}

/// The text of a grouping: each name listed with the debug form of its paths
/// (see [`entries_text`]).
pub open spec fn groups_text(groups: NameGroups) -> Seq<char> {
    entries_text(
        groups.map_values(|g: (Seq<char>, Seq<Seq<char>>)| (g.0, debug_text(g.1))),
    )
}

/// The texts of a list of pairs of strings.
pub open spec fn string_pairs_view(v: Seq<(String, String)>) -> Seq<(Seq<char>, Seq<char>)> {
    Seq::new(v.len(), |i: int| (v[i].0@, v[i].1@))
}

impl FilenameToPath {
    /// The text that lists `entries`: see [`entries_text`].
    pub fn join_entries(entries: &Vec<(String, String)>) -> (text: String)
        ensures
            text@ == entries_text(string_pairs_view(entries@)),
    {
        let ghost view = string_pairs_view(entries@);
        let mut text = String::new();
        let mut i: usize = 0;
        while i < entries.len()
            invariant
                i <= entries@.len(),
                view == string_pairs_view(entries@),
                text@ == entries_text(view.take(i as int)),
            decreases entries@.len() - i,
        {
            text.append(entries[i].0.as_str());
            text.append(": ");
            text.append(entries[i].1.as_str());
            text.append("; ");
            assert(view.take(i + 1).drop_last() =~= view.take(i as int));
            i = i + 1;
        }
        assert(view.take(entries@.len() as int) =~= view);
        text
    }

    /// The text that shows the grouping: see [`groups_text`].
    pub fn to_string(&self) -> (text: String)
        ensures
            text@ == groups_text(self@),
    {
        let mut entries: Vec<(String, String)> = Vec::new();
        let mut i: usize = 0;
        while i < self.0.len()
            invariant
                i <= self.0@.len(),
                string_pairs_view(entries@) == self@.take(i as int).map_values(
                    |g: (Seq<char>, Seq<Seq<char>>)| (g.0, debug_text(g.1)),
                ),
            decreases self.0@.len() - i,
        {
            let ghost before = string_pairs_view(entries@);
            let shown = paths_debug(&self.0[i].1);
            let name = self.0[i].0.clone();
            assert(name@ == self@[i as int].0);
            assert(shown@ == debug_text(self@[i as int].1));
            entries.push((name, shown));
            assert(string_pairs_view(entries@) =~= before.push((self@[i as int].0, debug_text(self@[i as int].1))));
            assert(string_pairs_view(entries@) =~= self@.take(i + 1).map_values(
                |g: (Seq<char>, Seq<Seq<char>>)| (g.0, debug_text(g.1)),
            ));
            i = i + 1;
        }
        assert(self@.take(self.0@.len() as int) =~= self@);
        Self::join_entries(&entries)
    }
}

/// What happened since the last step of an extraction.
pub enum ExtractEvent {
    /// The extraction begins.
    Start,
    /// The file asked for by the last step was created and filled.
    Written,
    /// The file asked for by the last step could not be created.
    CreateFailed(std::io::Error),
    /// The file was created, but the record's contents could not be written to it.
    WriteFailed,
}

/// What an extraction does next.
pub enum ExtractAction {
    /// Create a new file named `filename` in the extraction directory and
    /// write the contents of the record at `index` to it.
    Create { index: usize, filename: String },
    /// The extraction is over, with this result.
    Finish(Result<(), ArchiveExtractionError>),
}

/// What an extraction that has dealt with the records before `next`, all
/// written, does next: create the file of record `next` under the record's
/// name as text; stop with an error, naming the name as text, where the
/// name is not well-formed UTF-8 or its text is not a valid filename; stop
/// with success after the last record.
pub enum ExtractPlan {
    Create { index: int, filename: Seq<char> },
    Invalid { filename: Seq<char> },
    Done,
}

/// See [`ExtractPlan`].
pub open spec fn extract_plan(records: Seq<RecordView>, next: int) -> ExtractPlan {
    if next >= records.len() {
        ExtractPlan::Done
    } else if extractable_name(records[next].filename) {
        ExtractPlan::Create { index: next, filename: record_name_text(records[next].filename) }
    } else {
        ExtractPlan::Invalid { filename: record_name_text(records[next].filename) }
    }
}

impl Archive {
    /// One step of extracting the archive's contents into a directory, in
    /// record order: given the index of the next record and what happened to
    /// the last file asked for, what to do next. A failure to create or fill
    /// a file ends the extraction with the matching error; otherwise see
    /// [`extract_plan`]. Files of the records before a record with an
    /// invalid name stay extracted.
    pub fn extract_step(&self, next: usize, event: ExtractEvent) -> (action: ExtractAction)
        ensures
            event matches ExtractEvent::CreateFailed(e) ==> action matches ExtractAction::Finish(
                Err(ArchiveExtractionError::FileCreationError(e2)),
            ) && e2 == e,
            event is WriteFailed ==> action matches ExtractAction::Finish(
                Err(ArchiveExtractionError::FileRecordError),
            ),
            (event is Start || event is Written) ==> match extract_plan(self@, next as int) {
                ExtractPlan::Done => action matches ExtractAction::Finish(Ok(())),
                ExtractPlan::Create { index, filename } => action matches ExtractAction::Create {
                    index: i,
                    filename: f,
                } && i == index && f@ == filename,
                ExtractPlan::Invalid { filename } => action matches ExtractAction::Finish(
                    Err(ArchiveExtractionError::InvalidFilename(f)),
                ) && f@ == filename,
            },
    {
        match event {
            ExtractEvent::CreateFailed(e) => {
                return ExtractAction::Finish(Err(ArchiveExtractionError::FileCreationError(e)));
            },
            ExtractEvent::WriteFailed => {
                return ExtractAction::Finish(Err(ArchiveExtractionError::FileRecordError));
            },
            _ => {},
        }
        if next >= self.records.len() {
            return ExtractAction::Finish(Ok(()));
        }
        let record = &self.records[next];
        let filename = record.filename_text();
        if !record.filename_is_text() || !Self::filename_is_valid(filename.as_str()) {
            return ExtractAction::Finish(Err(ArchiveExtractionError::InvalidFilename(filename)));
        }
        ExtractAction::Create { index: next, filename }
    }
}

/// The names of a grouping are pairwise distinct and no group is empty.
pub open spec fn groups_well_formed(groups: NameGroups) -> bool {
    &&& forall|i: int, j: int|
        0 <= i < j < groups.len() ==> #[trigger] groups[i].0 != #[trigger] groups[j].0
    &&& forall|i: int| 0 <= i < groups.len() ==> #[trigger] groups[i].1.len() > 0
}

/// Some group of the grouping has two or more paths.
pub open spec fn some_group_shared(groups: NameGroups) -> bool {
    exists|i: int| 0 <= i < groups.len() && #[trigger] groups[i].1.len() >= 2
}

/// Grouping files by name lists each name once, with at least one path, and
/// two files share a name exactly when some name has two or more paths.
pub proof fn theorem_grouping(sources: Seq<(Seq<char>, Seq<char>)>)
    ensures
        groups_well_formed(group_by_name(sources)),
        has_duplicates(sources.map_values(|p: (Seq<char>, Seq<char>)| p.0)) <==> some_group_shared(
            group_by_name(sources),
        ),
    decreases sources.len(),
{
    let names = sources.map_values(|p: (Seq<char>, Seq<char>)| p.0);
    if sources.len() == 0 {
        assert(!has_duplicates(names));
    } else {
        let init = sources.drop_last();
        let (name, path) = sources.last();
        let g = group_by_name(init);
        let init_names = init.map_values(|p: (Seq<char>, Seq<char>)| p.0);
        theorem_grouping(init);
        lemma_group_by_name_names(init, name);
        assert(names =~= init_names.push(name));
        let g2 = group_by_name(sources);
        if exists|k: int| 0 <= k < g.len() && #[trigger] g[k].0 == name {
            let j = choose|j: int| 0 <= j < g.len() && #[trigger] g[j].0 == name;
            assert forall|k: int| 0 <= k < j implies g[k].0 != name by {
                assert(g[k].0 != g[j].0);
            }
            lemma_group_add_found(g, name, path, j);
            assert(g2 == g.update(j, (name, g[j].1.push(path))));
            assert(g2[j].1.len() >= 2);
            let k = choose|k: int| 0 <= k < init.len() && #[trigger] init[k].0 == name;
            assert(names[k] == names[init.len() as int]);
        } else {
            lemma_group_add_new(g, name, path);
            assert(g2 == g.push((name, seq![path])));
            if has_duplicates(names) {
                let (a, b) = choose|a: int, b: int|
                    0 <= a < b < names.len() && #[trigger] names[a] == #[trigger] names[b];
                if b < init.len() {
                    assert(init_names[a] == init_names[b]);
                } else {
                    assert(init[a].0 == name);
                }
            }
            if has_duplicates(init_names) {
                let (a, b) = choose|a: int, b: int|
                    0 <= a < b < init_names.len() && #[trigger] init_names[a]
                        == #[trigger] init_names[b];
                assert(names[a] == names[b]);
            }
            if some_group_shared(g) {
                let i = choose|i: int| 0 <= i < g.len() && #[trigger] g[i].1.len() >= 2;
                assert(g2[i].1.len() >= 2);
            }
            if some_group_shared(g2) {
                let i = choose|i: int| 0 <= i < g2.len() && #[trigger] g2[i].1.len() >= 2;
                assert(i < g.len());
                assert(g[i].1.len() >= 2);
            }
        }
    }
}

/// Extraction only ever creates files under valid names: well-formed UTF-8
/// names without a path separator that are neither empty, `.` nor `..`, so
/// that the files stay inside the extraction directory.
pub proof fn theorem_extract_creates_plain_names(records: Seq<RecordView>, next: int)
    requires
        0 <= next,
    ensures
        extract_plan(records, next) matches ExtractPlan::Create { index, filename } ==> {
            &&& index == next
            &&& 0 <= next < records.len()
            &&& valid_utf8(records[next].filename)
            &&& valid_filename(filename)
            &&& filename == decode_utf8(records[next].filename)
        },
{
}

/// The paths of the pairs of `sources` whose name is `name`, in order.
pub open spec fn paths_named(sources: Seq<(Seq<char>, Seq<char>)>, name: Seq<char>) -> Seq<Seq<char>>
    decreases sources.len(),
{
    if sources.len() == 0 {
        seq![]
    } else if sources.last().0 == name {
        paths_named(sources.drop_last(), name).push(sources.last().1)
    } else {
        paths_named(sources.drop_last(), name)
    }
}

/// A name that no pair has has no paths.
proof fn lemma_paths_named_absent(sources: Seq<(Seq<char>, Seq<char>)>, name: Seq<char>)
    requires
        forall|k: int| 0 <= k < sources.len() ==> #[trigger] sources[k].0 != name,
    ensures
        paths_named(sources, name) == Seq::<Seq<char>>::empty(),
    decreases sources.len(),
{
    if sources.len() > 0 {
        let init = sources.drop_last();
        assert forall|k: int| 0 <= k < init.len() implies #[trigger] init[k].0 != name by {
            assert(init[k] == sources[k]);
        }
        assert(sources[sources.len() - 1].0 != name);
        lemma_paths_named_absent(init, name);
    }
}

/// Each group of a grouping lists exactly the paths that have its name, in
/// the order given, and every name given has a group.
pub proof fn theorem_group_paths(sources: Seq<(Seq<char>, Seq<char>)>)
    ensures
        forall|i: int|
            0 <= i < group_by_name(sources).len() ==> (#[trigger] group_by_name(sources)[i]).1
                == paths_named(sources, group_by_name(sources)[i].0),
        forall|k: int|
            0 <= k < sources.len() ==> exists|i: int|
                0 <= i < group_by_name(sources).len() && #[trigger] group_by_name(sources)[i].0
                    == #[trigger] sources[k].0,
    decreases sources.len(),
{
    let g2 = group_by_name(sources);
    if sources.len() > 0 {
        let init = sources.drop_last();
        let (name, path) = sources.last();
        let g = group_by_name(init);
        theorem_group_paths(init);
        theorem_grouping(init);
        lemma_group_by_name_names(init, name);
        if exists|k: int| 0 <= k < g.len() && #[trigger] g[k].0 == name {
            let j = choose|j: int| 0 <= j < g.len() && #[trigger] g[j].0 == name;
            assert forall|k: int| 0 <= k < j implies g[k].0 != name by {
                assert(g[k].0 != g[j].0);
            }
            lemma_group_add_found(g, name, path, j);
            assert(g2 == g.update(j, (name, g[j].1.push(path))));
            assert forall|i: int| 0 <= i < g2.len() implies (#[trigger] g2[i]).1 == paths_named(
                sources,
                g2[i].0,
            ) by {
                assert(g2[i].0 == g[i].0);
            }
        } else {
            lemma_group_add_new(g, name, path);
            assert(g2 == g.push((name, seq![path])));
            assert forall|k: int| 0 <= k < init.len() implies #[trigger] init[k].0 != name by {
                if init[k].0 == name {
                    assert(exists|k: int| 0 <= k < init.len() && #[trigger] init[k].0 == name);
                }
            }
            lemma_paths_named_absent(init, name);
            assert forall|i: int| 0 <= i < g2.len() implies (#[trigger] g2[i]).1 == paths_named(
                sources,
                g2[i].0,
            ) by {
                if i < g.len() {
                    assert(g2[i] == g[i]);
                } else {
                    assert(paths_named(init, name).push(path) =~= seq![path]);
                }
            }
        }
        assert forall|k: int| 0 <= k < sources.len() implies exists|i: int|
            0 <= i < g2.len() && #[trigger] g2[i].0 == #[trigger] sources[k].0 by {
            lemma_group_by_name_names(sources, sources[k].0);
        }
    }
}

/// What an extraction that starts at record `next`, and in which every file
/// asked for is created and filled, leaves behind: the files created, in
/// order, each as its name and contents, and the invalid name it stopped at,
/// if any.
pub open spec fn extraction_run(records: Seq<RecordView>, next: int) -> (
    Seq<(Seq<char>, Seq<u8>)>,
    Option<Seq<char>>,
)
    decreases records.len() - next,
{
    if next < 0 || next >= records.len() {
        (seq![], None)
    } else if extractable_name(records[next].filename) {
        let rest = extraction_run(records, next + 1);
        (seq![(record_name_text(records[next].filename), records[next].content)] + rest.0, rest.1)
    } else {
        (seq![], Some(record_name_text(records[next].filename)))
    }
}

/// [`extraction_run`] follows the steps of [`extract_plan`].
pub proof fn theorem_extraction_run_follows_plan(records: Seq<RecordView>, next: int)
    requires
        0 <= next,
    ensures
        match extract_plan(records, next) {
            ExtractPlan::Done => extraction_run(records, next) == (
                Seq::<(Seq<char>, Seq<u8>)>::empty(),
                None::<Seq<char>>,
            ),
            ExtractPlan::Invalid { filename } => extraction_run(records, next) == (
                Seq::<(Seq<char>, Seq<u8>)>::empty(),
                Some(filename),
            ),
            ExtractPlan::Create { index, filename } => extraction_run(records, next) == (
                seq![(filename, records[index].content)] + extraction_run(records, next + 1).0,
                extraction_run(records, next + 1).1,
            ),
        },
{
}

/// The files of `sources`, each as its name in the archive and its contents.
pub open spec fn source_files(sources: Seq<(String, FileRecord)>) -> Seq<(Seq<char>, Seq<u8>)> {
    Seq::new(
        sources.len(),
        |i: int| (record_name_text(sources[i].1.filename@), sources[i].1.content@),
    )
}

/// An extraction of records whose names are all valid creates a file for
/// each of them from `next` on, in order.
proof fn lemma_extraction_run_all(sources: Seq<(String, FileRecord)>, next: int)
    requires
        0 <= next <= sources.len(),
        forall|i: int|
            0 <= i < sources.len() ==> extractable_name(#[trigger] sources[i].1.filename@),
    ensures
        extraction_run(source_records(sources), next) == (
            source_files(sources).skip(next),
            None::<Seq<char>>,
        ),
    decreases sources.len() - next,
{
    let rs = source_records(sources);
    if next < sources.len() {
        lemma_extraction_run_all(sources, next + 1);
        assert(extractable_name(sources[next].1.filename@));
        assert(source_files(sources).skip(next) =~= seq![source_files(sources)[next]]
            + source_files(sources).skip(next + 1));
    } else {
        assert(source_files(sources).skip(next) =~= Seq::<(Seq<char>, Seq<u8>)>::empty());
    }
}

/// An archive made from files (with no two names alike, every name
/// well-formed UTF-8 and valid for extraction, and every declared size the
/// length of the contents), written,
/// read back and extracted with every file created and filled, gives back
/// exactly those files: one file per source, under its name, with its
/// contents, all names distinct.
pub proof fn theorem_archive_extracts_sources(sources: Seq<(String, FileRecord)>)
    requires
        !has_duplicates(source_names(sources).map_values(|p: (Seq<char>, Seq<char>)| p.0)),
        all_well_formed(source_records(sources)),
        forall|i: int|
            0 <= i < sources.len() ==> extractable_name(#[trigger] sources[i].1.filename@),
        sources.len() <= u32::MAX,
    ensures
        encode_spec(source_records(sources)) is Ok,
        decode_spec(encode_spec(source_records(sources))->Ok_0) == Ok::<
            Seq<RecordView>,
            DecodeError,
        >(source_records(sources)),
        extraction_run(source_records(sources), 0) == (source_files(sources), None::<Seq<char>>),
        forall|i: int, j: int|
            0 <= i < j < sources.len() ==> #[trigger] source_files(sources)[i].0
                != #[trigger] source_files(sources)[j].0,
{
    theorem_decode_encode(source_records(sources));
    lemma_extraction_run_all(sources, 0);
    assert(source_files(sources).skip(0) =~= source_files(sources));
    let names = source_names(sources).map_values(|p: (Seq<char>, Seq<char>)| p.0);
    assert forall|i: int, j: int| 0 <= i < j < sources.len() implies #[trigger] source_files(
        sources,
    )[i].0 != #[trigger] source_files(sources)[j].0 by {
        if source_files(sources)[i].0 == source_files(sources)[j].0 {
            assert(names[i] == names[j]);
        }
    }
}

/// A name is refused for extraction exactly when it holds a path separator
/// (`/` or `\`) or is made of at most two dots (the empty name, `.` or
/// `..`); any other name, whatever else its characters are, is valid.
pub proof fn theorem_valid_filename_exactly(name: Seq<char>)
    ensures
        valid_filename(name) <==> !(exists|k: int|
            0 <= k < name.len() && (#[trigger] name[k] == '/' || name[k] == '\\')) && !(
        name.len() <= 2 && forall|k: int| 0 <= k < name.len() ==> #[trigger] name[k] == '.'),
{
    if name.len() <= 2 && forall|k: int| 0 <= k < name.len() ==> #[trigger] name[k] == '.' {
        if name.len() == 0 {
            assert(name =~= Seq::<char>::empty());
        } else if name.len() == 1 {
            assert(name =~= seq!['.']);
        } else {
            assert(name =~= seq!['.', '.']);
        }
    }
    if name == seq!['.'] {
        assert(name[0] == '.');
    }
    if name == seq!['.', '.'] {
        assert(name[0] == '.' && name[1] == '.');
    }
    if name.contains('/') {
        let k = choose|k: int| 0 <= k < name.len() && name[k] == '/';
        assert(name[k] == '/');
    }
    if name.contains('\\') {
        let k = choose|k: int| 0 <= k < name.len() && name[k] == '\\';
        assert(name[k] == '\\');
    }
    if exists|k: int| 0 <= k < name.len() && (#[trigger] name[k] == '/' || name[k] == '\\') {
        let k = choose|k: int| 0 <= k < name.len() && (#[trigger] name[k] == '/' || name[k] == '\\');
        assert(name.contains(name[k]));
    }
}

/// Extraction creates the file of a record exactly when the record's name is
/// well-formed UTF-8 whose text holds no path separator and is not made of at
/// most two dots; it then creates it under that text. Any other name stops
/// the extraction with that name reported as invalid.
pub proof fn theorem_extract_plan_exactly(records: Seq<RecordView>, next: int)
    requires
        0 <= next < records.len(),
    ensures
        ({
            let bytes = records[next].filename;
            let text = decode_utf8(bytes);
            let plain = valid_utf8(bytes) && !(exists|k: int|
                0 <= k < text.len() && (#[trigger] text[k] == '/' || text[k] == '\\')) && !(
            text.len() <= 2 && forall|k: int| 0 <= k < text.len() ==> #[trigger] text[k] == '.');
            &&& plain ==> extract_plan(records, next) == (ExtractPlan::Create {
                index: next,
                filename: text,
            })
            &&& !plain ==> extract_plan(records, next) == (ExtractPlan::Invalid {
                filename: record_name_text(bytes),
            })
        }),
{
    theorem_valid_filename_exactly(decode_utf8(records[next].filename));
}

/// Past the last record an extraction is done.
pub proof fn theorem_extract_plan_done(records: Seq<RecordView>, next: int)
    requires
        next >= records.len(),
    ensures
        extract_plan(records, next) == ExtractPlan::Done,
{
}

} // verus!
