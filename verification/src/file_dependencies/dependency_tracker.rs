//! Saved fingerprints per task, and the rule that decides whether a task is up to date.

use crate::file_dependencies::file_fingerprint::FileFingerprint;
use crate::file_dependencies::persistence::{
    bytes_equal, compress, decode_records, decompress, encode_records, is_stored_form,
    decoded_records, decompressed, lemma_plain_record, plain_record, read_as, record_from_entries, record_from_plain,
    record_to_plain, records_equal_plain, tracker_entries, tracker_from_plain, COMPRESSION_LEVEL,
};
use crate::string_map::{lemma_stored, stored};
use crate::string_map::StringMap;
use crate::config::task_registry::task_ids;
use crate::tasks::task::Task;
use vstd::prelude::*;
use vstd::set_lib::lemma_subset_equality;
use vstd::string::StringExecFns;

verus! {

/// Where the fingerprint cache is stored, below the project root.
pub const STANDARD_DEPENDENCY_FILE_PATH: &'static str = ".tessy/dependencies.bincode.zstd";

/// The path of the stored fingerprint cache, relative to the project root.
pub fn get_standard_dependency_file_path() -> (path: String)
    ensures
        path@ == STANDARD_DEPENDENCY_FILE_PATH@,
{
    String::from_str(STANDARD_DEPENDENCY_FILE_PATH)
}

/// The fingerprints of a task's input files, by path.
pub type DependencyRecord = StringMap<FileFingerprint>;

/// Whether two records hold the same paths with the same fingerprints.
pub fn records_equal(a: &DependencyRecord, b: &DependencyRecord) -> (res: bool)
    requires
        a.wf(),
        b.wf(),
    ensures
        res == (a@ == b@),
{
    if a.len() != b.len() {
        return false;
    }
    let mut i: usize = 0;
    while i < a.len()
        invariant
            a.wf(),
            b.wf(),
            i <= a.spec_keys().len(),
            forall|k: int|
                0 <= k < i ==> b@.contains_key(#[trigger] a.spec_keys()[k]) && b@[a.spec_keys()[k]]
                    == a@[a.spec_keys()[k]],
        decreases a.spec_keys().len() - i,
    {
        let value = a.value_at(i);
        match b.get(a.key_at(i)) {
            Some(other) => {
                if *other != *value {
                    return false;
                }
            },
            None => {
                return false;
            },
        }
        i += 1;
    }
    proof {
        a.lemma_domain();
        b.lemma_domain();
        assert forall|k: Seq<char>| a@.dom().contains(k) implies b@.dom().contains(k) by {
            let j = a.spec_keys().index_of(k);
            assert(0 <= j < a.spec_keys().len() && a.spec_keys()[j] == k);
        }
        lemma_subset_equality(a@.dom(), b@.dom());
        assert forall|k: Seq<char>| a@.contains_key(k) implies a@[k] == b@[k] by {
            let j = a.spec_keys().index_of(k);
            assert(0 <= j < a.spec_keys().len() && a.spec_keys()[j] == k);
        }
        assert(a@ =~= b@);
    }
    true
}

/// What the filesystem holds at a path.
#[derive(Debug)]
pub enum PathProbe {
    /// Nothing exists at the path.
    Missing,
    /// A regular file, with its fingerprint unless fingerprinting failed.
    File { path: String, fingerprint: Option<FileFingerprint> },
    /// A directory, with what it holds unless listing it failed.
    Directory { entries: Option<Vec<PathProbe>> },
    /// Something that is neither a regular file nor a directory.
    Other,
}

/// The files beneath `probe` that have a fingerprint, in listing order, each with its path.
pub open spec fn files_under(probe: PathProbe) -> Seq<(Seq<char>, FileFingerprint)>
    decreases probe, 0nat,
{
    match probe {
        PathProbe::File { path, fingerprint: Some(fingerprint) } => seq![(path@, fingerprint)],
        PathProbe::Directory { entries: Some(entries) } => files_among(entries, entries@.len()),
        _ => Seq::empty(),
    }
}

/// The files beneath the first `n` of `entries`.
pub open spec fn files_among(entries: Vec<PathProbe>, n: nat) -> Seq<(Seq<char>, FileFingerprint)>
    decreases entries, n,
{
    if n == 0 || n > entries@.len() {
        Seq::empty()
    } else {
        files_among(entries, (n - 1) as nat) + files_under(entries@[n - 1])
    }
}

/// The record that a list of files amounts to; of two entries for one path the later
/// one stays.
pub open spec fn record_of(files: Seq<(Seq<char>, FileFingerprint)>) -> Map<Seq<char>, FileFingerprint>
    decreases files.len(),
{
    if files.len() == 0 {
        Map::empty()
    } else {
        record_of(files.drop_last()).insert(files.last().0, files.last().1)
    }
}

/// The files that the first `n` inputs of a task amount to.
pub open spec fn files_of_inputs(inputs: Seq<PathProbe>, n: nat) -> Seq<(Seq<char>, FileFingerprint)>
    decreases n,
{
    if n == 0 || n > inputs.len() {
        Seq::empty()
    } else {
        files_of_inputs(inputs, (n - 1) as nat) + files_under(inputs[n - 1])
    }
}

/// The current record of a task whose inputs the filesystem answers with `inputs`.
pub open spec fn expand(inputs: Seq<PathProbe>) -> Map<Seq<char>, FileFingerprint> {
    record_of(files_of_inputs(inputs, inputs.len()))
}

/// The characters and fingerprints of a list of files.
pub open spec fn files_view(files: Seq<(String, FileFingerprint)>) -> Seq<(Seq<char>, FileFingerprint)> {
    Seq::new(files.len(), |i: int| (files[i].0@, files[i].1))
}

/// Appending one file to a list adds its entry to the record, over whatever the path
/// held before.
pub proof fn lemma_record_of_push(
    files: Seq<(Seq<char>, FileFingerprint)>,
    path: Seq<char>,
    fingerprint: FileFingerprint,
)
    ensures
        record_of(files.push((path, fingerprint))) == record_of(files).insert(path, fingerprint),
{
    assert(files.push((path, fingerprint)).drop_last() =~= files);
}

/// Whether no path occurs twice in a list of files.
pub open spec fn paths_distinct(files: Seq<(Seq<char>, FileFingerprint)>) -> bool {
    forall|i: int, j: int| 0 <= i < j < files.len() ==> files[i].0 != files[j].0
}

/// The record of a list of files in which no path occurs twice holds exactly the paths
/// of the list, each with its own fingerprint.
pub proof fn lemma_record_of_entries(files: Seq<(Seq<char>, FileFingerprint)>)
    requires
        paths_distinct(files),
    ensures
        forall|path: Seq<char>| #[trigger]
            record_of(files).contains_key(path) <==> exists|i: int|
                0 <= i < files.len() && (#[trigger] files[i]).0 == path,
        forall|i: int|
            0 <= i < files.len() ==> record_of(files).contains_key((#[trigger] files[i]).0)
                && record_of(files)[files[i].0] == files[i].1,
    decreases files.len(),
{
    if files.len() > 0 {
        let front = files.drop_last();
        let last = files.last();
        assert forall|i: int, j: int| 0 <= i < j < front.len() implies front[i].0 != front[j].0 by {
            assert(front[i] == files[i]);
            assert(front[j] == files[j]);
        }
        lemma_record_of_entries(front);
        assert forall|path: Seq<char>| #[trigger]
            record_of(files).contains_key(path) <==> exists|i: int|
                0 <= i < files.len() && (#[trigger] files[i]).0 == path by {
            if record_of(files).contains_key(path) {
                if path == last.0 {
                    assert(files[files.len() - 1].0 == path);
                } else {
                    assert(record_of(front).contains_key(path));
                    let i = choose|i: int| 0 <= i < front.len() && (#[trigger] front[i]).0 == path;
                    assert(front[i] == files[i]);
                    assert(files[i].0 == path);
                }
            }
            if exists|i: int| 0 <= i < files.len() && (#[trigger] files[i]).0 == path {
                let i = choose|i: int| 0 <= i < files.len() && (#[trigger] files[i]).0 == path;
                if i < front.len() {
                    assert(front[i] == files[i]);
                    assert(front[i].0 == path);
                    assert(record_of(front).contains_key(path));
                }
            }
        }
        assert forall|i: int| 0 <= i < files.len() implies record_of(files).contains_key(
            (#[trigger] files[i]).0,
        ) && record_of(files)[files[i].0] == files[i].1 by {
            if i < front.len() {
                assert(front[i] == files[i]);
                assert(files[i].0 != files[files.len() - 1].0);
            }
        }
    }
}

/// The order of the files does not matter: two lists that hold the same files, neither
/// holding a path twice, amount to the same record.
pub proof fn lemma_record_ignores_order(
    one: Seq<(Seq<char>, FileFingerprint)>,
    other: Seq<(Seq<char>, FileFingerprint)>,
)
    requires
        paths_distinct(one),
        paths_distinct(other),
        forall|file: (Seq<char>, FileFingerprint)| one.contains(file) <==> other.contains(file),
    ensures
        record_of(one) == record_of(other),
{
    lemma_record_of_entries(one);
    lemma_record_of_entries(other);
    assert forall|path: Seq<char>| record_of(one).contains_key(path) implies record_of(
        other,
    ).contains_key(path) && record_of(one)[path] == record_of(other)[path] by {
        let i = choose|i: int| 0 <= i < one.len() && (#[trigger] one[i]).0 == path;
        assert(one.contains(one[i]));
        assert(other.contains(one[i]));
        let j = choose|j: int| 0 <= j < other.len() && other[j] == one[i];
        assert(other[j].0 == path);
    }
    assert forall|path: Seq<char>| record_of(other).contains_key(path) implies record_of(
        one,
    ).contains_key(path) by {
        let j = choose|j: int| 0 <= j < other.len() && (#[trigger] other[j]).0 == path;
        assert(other.contains(other[j]));
        assert(one.contains(other[j]));
        let i = choose|i: int| 0 <= i < one.len() && one[i] == other[j];
        assert(one[i].0 == path);
    }
    assert(record_of(one) =~= record_of(other));
}

/// Collects the fingerprinted files beneath the entries of a directory, descending into
/// every subdirectory whose listing succeeded.
pub fn collect_files(entries: &Vec<PathProbe>) -> (files: Vec<(String, FileFingerprint)>)
    ensures
        files_view(files@) == files_among(*entries, entries@.len()),
    decreases entries,
{
    let mut out: Vec<(String, FileFingerprint)> = Vec::new();
    let mut i: usize = 0;
    assert(files_view(out@) =~= files_among(*entries, 0));
    while i < entries.len()
        invariant
            i <= entries.len(),
            files_view(out@) == files_among(*entries, i as nat),
        decreases entries.len() - i,
    {
        let ghost before = files_view(out@);
        proof {
            assert(files_among(*entries, (i + 1) as nat) == files_among(*entries, i as nat)
                + files_under(entries@[i as int]));
            match entries@[i as int] {
                PathProbe::Directory { entries: Some(inner) } => {
                    assert(files_under(entries@[i as int]) == files_among(inner, inner@.len()));
                },
                PathProbe::File { path, fingerprint: Some(found) } => {
                    assert(files_under(entries@[i as int]) == seq![(path@, found)]);
                },
                _ => {
                    assert(files_under(entries@[i as int]) == Seq::<
                        (Seq<char>, FileFingerprint),
                    >::empty());
                },
            }
        }
        match &entries[i] {
            PathProbe::File { path, fingerprint } => {
                match fingerprint {
                    Some(found) => {
                        out.push((path.clone(), *found));
                        assert(files_view(out@) =~= before + seq![(path@, *found)]);
                    },
                    None => {
                        assert(files_view(out@) =~= before + Seq::empty());
                    },
                }
            },
            PathProbe::Directory { entries: listing } => {
                match listing {
                    Some(inner) => {
                        let mut found = collect_files(inner);
                        let ghost added = files_view(found@);
                        out.append(&mut found);
                        assert(files_view(out@) =~= before + added);
                    },
                    None => {
                        assert(files_view(out@) =~= before + Seq::empty());
                    },
                }
            },
            _ => {
                assert(files_view(out@) =~= before + Seq::empty());
            },
        }
        i += 1;
    }
    out
}

/// The files beneath a directory, or `None` where listing the directory failed.
pub fn get_dependencies_from_directory(entries: &Option<Vec<PathProbe>>) -> (res: Option<
    Vec<(String, FileFingerprint)>,
>)
    ensures
        match *entries {
            Some(listing) => (res matches Some(files) && files_view(files@) == files_among(
                listing,
                listing@.len(),
            )),
            None => res is None,
        },
{
    match entries {
        Some(listing) => Some(collect_files(listing)),
        None => None,
    }
}

/// The files that one input amounts to: the file itself if it could be fingerprinted,
/// every file beneath a directory that could be listed, and `None` for a path that is
/// missing, is neither file nor directory, or could not be read.
pub fn get_dependencies_from_input(probe: &PathProbe) -> (res: Option<Vec<(String, FileFingerprint)>>)
    ensures
        res.is_some() == match *probe {
            PathProbe::File { fingerprint, .. } => fingerprint.is_some(),
            PathProbe::Directory { entries } => entries.is_some(),
            _ => false,
        },
        res matches Some(files) ==> files_view(files@) == files_under(*probe),
        res is None ==> files_under(*probe) == Seq::<(Seq<char>, FileFingerprint)>::empty(),
{
    match probe {
        PathProbe::Missing => None,
        PathProbe::File { path, fingerprint } => {
            match fingerprint {
                Some(found) => {
                    let mut files: Vec<(String, FileFingerprint)> = Vec::new();
                    files.push((path.clone(), *found));
                    assert(files_view(files@) =~= seq![(path@, *found)]);
                    Some(files)
                },
                None => None,
            }
        },
        PathProbe::Directory { entries } => get_dependencies_from_directory(entries),
        PathProbe::Other => None,
    }
}

/// The current record of a task from what the filesystem holds at each of its inputs.
/// Inputs without files add nothing; a path met twice keeps its later fingerprint.
pub fn get_dependencies_from_inputs(inputs: &Vec<PathProbe>) -> (record: DependencyRecord)
    ensures
        record.wf(),
        record@ == expand(inputs@),
{
    let mut record: DependencyRecord = StringMap::new();
    let mut i: usize = 0;
    while i < inputs.len()
        invariant
            i <= inputs.len(),
            record.wf(),
            record@ == record_of(files_of_inputs(inputs@, i as nat)),
        decreases inputs.len() - i,
    {
        let ghost done = files_of_inputs(inputs@, i as nat);
        match get_dependencies_from_input(&inputs[i]) {
            Some(files) => {
                let mut j: usize = 0;
                assert(done + files_view(files@).subrange(0, 0) =~= done);
                while j < files.len()
                    invariant
                        j <= files.len(),
                        record.wf(),
                        record@ == record_of(done + files_view(files@).subrange(0, j as int)),
                    decreases files.len() - j,
                {
                    let ghost seen = done + files_view(files@).subrange(0, j as int);
                    record.insert(files[j].0.clone(), files[j].1);
                    proof {
                        lemma_record_of_push(seen, files@[j as int].0@, files@[j as int].1);
                        assert(done + files_view(files@).subrange(0, j + 1) =~= seen.push(
                            (files@[j as int].0@, files@[j as int].1),
                        ));
                    }
                    j += 1;
                }
                assert(files_view(files@).subrange(0, j as int) =~= files_view(files@));
            },
            None => {
                assert(done + files_under(inputs@[i as int]) =~= done);
            },
        }
        i += 1;
    }
    record
}

/// Stored records that hold the keys of a map, each with entries that stand for the
/// value under that key, build what storing the values under the keys builds.
proof fn lemma_tracker_entries_stored(
    plain: Seq<(Seq<char>, Seq<(Seq<char>, (u32, u64, u32))>)>,
    keys: Seq<Seq<char>>,
    views: Seq<Map<Seq<char>, FileFingerprint>>,
    n: nat,
)
    requires
        n <= plain.len(),
        plain.len() == keys.len(),
        plain.len() == views.len(),
        forall|j: int| 0 <= j < plain.len() ==> (#[trigger] plain[j]).0 == keys[j],
        forall|j: int|
            0 <= j < plain.len() ==> record_from_plain((#[trigger] plain[j]).1) == Some(views[j]),
    ensures
        tracker_entries(plain, n) == stored(keys, views, n),
        tracker_from_plain(plain) == Some(tracker_entries(plain, plain.len())),
    decreases n,
{
    if n > 0 {
        lemma_tracker_entries_stored(plain, keys, views, (n - 1) as nat);
        assert(plain[n - 1].0 == keys[n - 1]);
        assert(record_from_plain(plain[n - 1].1) == Some(views[n - 1]));
    }
}

/// The fingerprints saved at the end of earlier runs, by task.
#[derive(Debug)]
pub struct DependencyTracker {
    dependencies: StringMap<DependencyRecord>,
}

/// The tracker after the first `n` of `tasks` have been recorded in turn, each with the
/// record that its inputs amount to.
pub open spec fn recorded(
    saved: Map<Seq<char>, Map<Seq<char>, FileFingerprint>>,
    tasks: Seq<Task>,
    inputs: Seq<Vec<PathProbe>>,
    n: nat,
) -> Map<Seq<char>, Map<Seq<char>, FileFingerprint>>
    decreases n,
{
    if n == 0 || n > tasks.len() || n > inputs.len() {
        saved
    } else {
        recorded(saved, tasks, inputs, (n - 1) as nat).insert(
            tasks[n - 1].spec_id(),
            expand(inputs[n - 1]@),
        )
    }
}

impl View for DependencyTracker {
    type V = Map<Seq<char>, Map<Seq<char>, FileFingerprint>>;

    /// The saved records: for each recorded task, the fingerprint of each of its files.
    closed spec fn view(&self) -> Map<Seq<char>, Map<Seq<char>, FileFingerprint>> {
        self.dependencies@.map_values(|record: DependencyRecord| record@)
    }
}

impl DependencyTracker {
    /// The tracker's invariant: no task is recorded twice, and no path twice in a record.
    pub closed spec fn wf(&self) -> bool {
        &&& self.dependencies.wf()
        &&& forall|i: int|
            0 <= i < self.dependencies.spec_values().len() ==> (
            #[trigger] self.dependencies.spec_values()[i]).wf()
    }

    /// The number of recorded tasks.
    pub fn len(&self) -> (n: usize)
        requires
            self.wf(),
        ensures
            n == self@.dom().len(),
    {
        assert(self@.dom() =~= self.dependencies@.dom());
        self.dependencies.len()
    }

    /// The saved record of the task named `task_id`, if it has one.
    pub fn record(&self, task_id: &str) -> (res: Option<&DependencyRecord>)
        requires
            self.wf(),
        ensures
            res.is_some() == self@.contains_key(task_id@),
            res matches Some(record) ==> record.wf() && record@ == self@[task_id@],
    {
        let owned = String::from_str(task_id);
        match self.dependencies.position(&owned) {
            Some(i) => Some(self.dependencies.value_at(i)),
            None => None,
        }
    }

    /// Whether the task named `task` is up to date: it has a saved record, and the
    /// record equals the one that `inputs` amount to, path for path and fingerprint for
    /// fingerprint.
    pub open spec fn is_up_to_date(&self, task: Seq<char>, inputs: Seq<PathProbe>) -> bool {
        self@.contains_key(task) && self@[task] == expand(inputs)
    }

    /// Whether the task need not run: it has a saved record, and the record equals the
    /// current one, path for path and fingerprint for fingerprint.
    pub fn is_task_up_to_date(&self, task: &Task, inputs: &Vec<PathProbe>) -> (res: bool)
        requires
            self.wf(),
        ensures
            res == self.is_up_to_date(task.spec_id(), inputs@),
    {
        let saved = match self.dependencies.position(task.id_ref()) {
            Some(i) => self.dependencies.value_at(i),
            None => {
                return false;
            },
        };
        let current = get_dependencies_from_inputs(inputs);
        records_equal(saved, &current)
    }

    /// Whether two trackers hold the same tasks with the same records.
    pub fn equals(&self, other: &Self) -> (res: bool)
        requires
            self.wf(),
            other.wf(),
        ensures
            res == (self@ == other@),
    {
        proof {
            self.dependencies.lemma_domain();
            other.dependencies.lemma_domain();
            assert(self@.dom() =~= self.dependencies@.dom());
            assert(other@.dom() =~= other.dependencies@.dom());
        }
        if self.dependencies.len() != other.dependencies.len() {
            return false;
        }
        let n = self.dependencies.len();
        let mut i: usize = 0;
        while i < n
            invariant
                self.wf(),
                other.wf(),
                n == self.dependencies.spec_keys().len(),
                i <= n,
                forall|k: int|
                    0 <= k < i ==> other@.contains_key(#[trigger] self.dependencies.spec_keys()[k])
                        && other@[self.dependencies.spec_keys()[k]]
                        == self@[self.dependencies.spec_keys()[k]],
            decreases n - i,
        {
            let key = self.dependencies.key_at(i);
            let record = self.dependencies.value_at(i);
            proof {
                self.dependencies.lemma_entry(i as int);
            }
            match other.dependencies.position(key) {
                Some(j) => {
                    if !records_equal(record, other.dependencies.value_at(j)) {
                        assert(self@[key@] != other@[key@]);
                        return false;
                    }
                },
                None => {
                    assert(self@.contains_key(key@) && !other@.contains_key(key@));
                    return false;
                },
            }
            i += 1;
        }
        proof {
            assert forall|k: Seq<char>| self@.dom().contains(k) implies other@.dom().contains(k) by {
                let j = self.dependencies.spec_keys().index_of(k);
                assert(0 <= j < n && self.dependencies.spec_keys()[j] == k);
            }
            lemma_subset_equality(self@.dom(), other@.dom());
            assert forall|k: Seq<char>| self@.contains_key(k) implies self@[k] == other@[k] by {
                let j = self.dependencies.spec_keys().index_of(k);
                assert(0 <= j < n && self.dependencies.spec_keys()[j] == k);
            }
            assert(self@ =~= other@);
        }
        true
    }

    /// Saves `record` as the record of `task_id`, in place of any earlier one.
    pub fn insert_record(&mut self, task_id: String, record: DependencyRecord)
        requires
            old(self).wf(),
            record.wf(),
        ensures
            final(self).wf(),
            final(self)@ == old(self)@.insert(task_id@, record@),
    {
        let ghost before = *self;
        self.dependencies.insert(task_id, record);
        proof {
            assert(self@ =~= before@.insert(task_id@, record@));
            assert forall|i: int| 0 <= i < self.dependencies.spec_values().len() implies (
            #[trigger] self.dependencies.spec_values()[i]).wf() by {
                self.dependencies.lemma_entry(i);
                let key = self.dependencies.spec_keys()[i];
                if key != task_id@ {
                    assert(before.dependencies@.contains_key(key));
                    let j = before.dependencies.spec_keys().index_of(key);
                    assert(0 <= j < before.dependencies.spec_keys().len()
                        && before.dependencies.spec_keys()[j] == key);
                    before.dependencies.lemma_entry(j);
                }
            }
        }
    }

    /// The stored records of the tracker: each task with the stored entries of its
    /// record, in the tracker's order.
    pub closed spec fn spec_records(&self) -> Seq<(Seq<char>, Seq<(Seq<char>, (u32, u64, u32))>)> {
        Seq::new(
            self.dependencies.spec_keys().len(),
            |i: int| (self.dependencies.spec_keys()[i], plain_record(&self.dependencies.spec_values()[i])),
        )
    }

    /// The stored records of a valid tracker stand for that tracker.
    pub proof fn lemma_spec_records(&self)
        requires
            self.wf(),
        ensures
            tracker_from_plain(self.spec_records()) == Some(self@),
    {
        let plain = self.spec_records();
        let keys = self.dependencies.spec_keys();
        let values = self.dependencies.spec_values();
        let views = Seq::new(values.len(), |i: int| values[i]@);
        assert forall|i: int| 0 <= i < plain.len() implies record_from_plain((#[trigger] plain[i]).1)
            == Some(views[i]) by {
            lemma_plain_record(&values[i]);
        }
        lemma_tracker_entries_stored(plain, keys, views, plain.len());
        lemma_stored(keys, views, keys.len());
        assert(keys.subrange(0, keys.len() as int) =~= keys);
        assert forall|k: Seq<char>| self@.contains_key(k) implies #[trigger] self@[k] == stored(
            keys,
            views,
            keys.len(),
        )[k] by {
            let j = keys.index_of(k);
            assert(0 <= j < keys.len() && keys[j] == k);
            self.dependencies.lemma_entry(j);
        }
        assert(self@ =~= stored(keys, views, keys.len()));
    }

    /// Writes the tracker as stored records, in the tracker's order.
    pub fn to_records(&self) -> (records: Vec<(String, Vec<(String, (u32, u64, u32))>)>)
        requires
            self.wf(),
        ensures
            records.deep_view() == self.spec_records(),
            tracker_from_plain(records.deep_view()) == Some(self@),
    {
        let mut out: Vec<(String, Vec<(String, (u32, u64, u32))>)> = Vec::new();
        let n = self.dependencies.len();
        let mut i: usize = 0;
        while i < n
            invariant
                self.wf(),
                n == self.dependencies.spec_keys().len(),
                i <= n,
                out@.len() == i,
                forall|j: int| 0 <= j < i ==> (#[trigger] out.deep_view()[j]) == self.spec_records()[j],
            decreases n - i,
        {
            let key = self.dependencies.key_at(i).clone();
            let entries = record_to_plain(self.dependencies.value_at(i));
            let ghost before = out;
            out.push((key, entries));
            proof {
                assert forall|j: int| 0 <= j < i + 1 implies (#[trigger] out.deep_view()[j])
                    == self.spec_records()[j] by {
                    assert(out.deep_view()[j] == (out@[j].0@, out@[j].1.deep_view()));
                    if j < i {
                        assert(out@[j] == before@[j]);
                        assert(before.deep_view()[j] == (before@[j].0@, before@[j].1.deep_view()));
                    }
                }
            }
            i += 1;
        }
        proof {
            assert(out.deep_view() =~= self.spec_records());
            self.lemma_spec_records();
        }
        out
    }

    /// Reads a tracker from stored records. A record stored twice keeps its later form;
    /// an entry that stands for no fingerprint makes the whole unreadable.
    pub fn from_records(records: &Vec<(String, Vec<(String, (u32, u64, u32))>)>) -> (res: Option<Self>)
        ensures
            match tracker_from_plain(records.deep_view()) {
                Some(tracker) => (res matches Some(found) && found.wf() && found@ == tracker),
                None => res is None,
            },
    {
        let ghost plain = records.deep_view();
        let mut tracker = DependencyTracker::default();
        let mut i: usize = 0;
        while i < records.len()
            invariant
                plain == records.deep_view(),
                i <= records.len(),
                tracker.wf(),
                tracker@ == tracker_entries(plain, i as nat),
                forall|j: int| 0 <= j < i ==> record_from_plain((#[trigger] plain[j]).1).is_some(),
            decreases records.len() - i,
        {
            assert(plain[i as int] == (records@[i as int].0@, records@[i as int].1.deep_view()));
            match record_from_entries(&records[i].1) {
                Some(record) => {
                    tracker.insert_record(records[i].0.clone(), record);
                },
                None => {
                    return None;
                },
            }
            i += 1;
        }
        Some(tracker)
    }

    /// The stored form of the tracker: its records encoded and compressed, and only if
    /// the result reads back as written.
    pub fn to_bytes(&self) -> (res: Option<Vec<u8>>)
        requires
            self.wf(),
        ensures
            res matches Some(bytes) ==> is_stored_form(self.spec_records(), bytes@) && read_as(
                bytes@,
            ) == self@,
            res is None ==> forall|bytes: Seq<u8>| !is_stored_form(self.spec_records(), bytes),
    {
        let records = self.to_records();
        let encoding = match encode_records(&records) {
            Some(encoding) => encoding,
            None => {
                return None;
            },
        };
        match decode_records(encoding.as_slice()) {
            Some(decoded) => {
                if !records_equal_plain(&decoded, &records) {
                    return None;
                }
            },
            None => {
                return None;
            },
        }
        let frame = match compress(encoding.as_slice(), COMPRESSION_LEVEL) {
            Some(frame) => frame,
            None => {
                return None;
            },
        };
        match decompress(frame.as_slice()) {
            Some(data) => {
                if !bytes_equal(&data, &encoding) {
                    return None;
                }
            },
            None => {
                return None;
            },
        }
        Some(frame)
    }

    /// Reads a tracker from its stored form. Bytes that cannot be decompressed or
    /// decoded, or that stand for no tracker, give the empty tracker.
    pub fn read_from_bytes(bytes: &[u8]) -> (tracker: Self)
        ensures
            tracker.wf(),
            tracker@ == read_as(bytes@),
    {
        let data = match decompress(bytes) {
            Some(data) => data,
            None => {
                return DependencyTracker::default();
            },
        };
        let records = match decode_records(data.as_slice()) {
            Some(records) => records,
            None => {
                return DependencyTracker::default();
            },
        };
        match Self::from_records(&records) {
            Some(tracker) => tracker,
            None => DependencyTracker::default(),
        }
    }

    /// Records each of `tasks` in turn with the record that its inputs amount to now.
    /// Records of other tasks stay as they are.
    pub fn add_tasks_dependencies(&mut self, tasks: &Vec<Task>, inputs: &Vec<Vec<PathProbe>>)
        requires
            old(self).wf(),
            tasks@.len() == inputs@.len(),
        ensures
            final(self).wf(),
            final(self)@ == recorded(old(self)@, tasks@, inputs@, tasks@.len()),
    {
        let mut i: usize = 0;
        while i < tasks.len()
            invariant
                i <= tasks.len(),
                tasks@.len() == inputs@.len(),
                self.wf(),
                self@ == recorded(old(self)@, tasks@, inputs@, i as nat),
            decreases tasks.len() - i,
        {
            let record = get_dependencies_from_inputs(&inputs[i]);
            self.insert_record(tasks[i].id(), record);
            i += 1;
        }
    }
}

/// Change detection: a task whose saved record and current record differ at some path,
/// in the fingerprint or in whether the path is there at all, is not up to date.
pub proof fn lemma_change_is_detected(
    tracker: &DependencyTracker,
    task: Seq<char>,
    inputs: Seq<PathProbe>,
    path: Seq<char>,
)
    requires
        tracker@.contains_key(task),
        tracker@[task].contains_key(path) != expand(inputs).contains_key(path) || (
        tracker@[task].contains_key(path) && tracker@[task][path] != expand(inputs)[path]),
    ensures
        !tracker.is_up_to_date(task, inputs),
{
}

/// A task without a saved record is not up to date, whatever its inputs hold.
pub proof fn lemma_unrecorded_is_out_of_date(
    tracker: &DependencyTracker,
    task: Seq<char>,
    inputs: Seq<PathProbe>,
)
    requires
        !tracker@.contains_key(task),
    ensures
        !tracker.is_up_to_date(task, inputs),
{
}

/// What recording the first `n` of `tasks` leaves: each of them holds the record of its
/// own inputs, and every other task what it held before.
pub proof fn lemma_recorded(
    saved: Map<Seq<char>, Map<Seq<char>, FileFingerprint>>,
    tasks: Seq<Task>,
    inputs: Seq<Vec<PathProbe>>,
    n: nat,
)
    requires
        tasks.len() == inputs.len(),
        n <= tasks.len(),
        task_ids(tasks).no_duplicates(),
    ensures
        forall|k: int|
            0 <= k < n ==> recorded(saved, tasks, inputs, n).contains_key(
                (#[trigger] tasks[k]).spec_id(),
            ) && recorded(saved, tasks, inputs, n)[tasks[k].spec_id()] == expand(inputs[k]@),
        forall|id: Seq<char>|
            !task_ids(tasks).subrange(0, n as int).contains(id) ==> (#[trigger] recorded(
                saved,
                tasks,
                inputs,
                n,
            ).contains_key(id)) == saved.contains_key(id) && (saved.contains_key(id) ==> recorded(
                saved,
                tasks,
                inputs,
                n,
            )[id] == saved[id]),
    decreases n,
{
    let ids = task_ids(tasks);
    if n > 0 {
        lemma_recorded(saved, tasks, inputs, (n - 1) as nat);
        let before = recorded(saved, tasks, inputs, (n - 1) as nat);
        let last = tasks[n - 1].spec_id();
        assert(ids[n - 1] == last);
        assert(ids.subrange(0, n as int) =~= ids.subrange(0, n - 1).push(last));
        assert forall|k: int| 0 <= k < n implies recorded(saved, tasks, inputs, n).contains_key(
            (#[trigger] tasks[k]).spec_id(),
        ) && recorded(saved, tasks, inputs, n)[tasks[k].spec_id()] == expand(inputs[k]@) by {
            if k < n - 1 {
                assert(ids[k] == tasks[k].spec_id());
                assert(ids[k] != ids[n - 1]);
                assert(before.contains_key(tasks[k].spec_id()));
            }
        }
        assert forall|id: Seq<char>|
            !ids.subrange(0, n as int).contains(id) implies (#[trigger] recorded(
            saved,
            tasks,
            inputs,
            n,
        ).contains_key(id)) == saved.contains_key(id) && (saved.contains_key(id) ==> recorded(
            saved,
            tasks,
            inputs,
            n,
        )[id] == saved[id]) by {
            vstd::seq_lib::lemma_seq_contains_after_push(ids.subrange(0, n - 1), last, id);
            assert(before.contains_key(id) == saved.contains_key(id));
        }
    } else {
        assert(ids.subrange(0, 0) =~= Seq::<Seq<char>>::empty());
    }
}

/// Skip idempotence: once the tasks of a run have been recorded, each of them is up to
/// date for as long as its inputs hold what they held when it was recorded.
pub proof fn lemma_recorded_task_is_up_to_date(
    before: &DependencyTracker,
    after: &DependencyTracker,
    tasks: Seq<Task>,
    inputs: Seq<Vec<PathProbe>>,
    k: int,
)
    requires
        tasks.len() == inputs.len(),
        task_ids(tasks).no_duplicates(),
        after@ == recorded(before@, tasks, inputs, tasks.len()),
        0 <= k < tasks.len(),
    ensures
        after.is_up_to_date(tasks[k].spec_id(), inputs[k]@),
{
    lemma_recorded(before@, tasks, inputs, tasks.len());
}

/// Recording the tasks of a run leaves the record of every other task as it was.
pub proof fn lemma_other_records_are_kept(
    before: &DependencyTracker,
    after: &DependencyTracker,
    tasks: Seq<Task>,
    inputs: Seq<Vec<PathProbe>>,
    id: Seq<char>,
)
    requires
        tasks.len() == inputs.len(),
        task_ids(tasks).no_duplicates(),
        after@ == recorded(before@, tasks, inputs, tasks.len()),
        !task_ids(tasks).contains(id),
    ensures
        after@.contains_key(id) == before@.contains_key(id),
        before@.contains_key(id) ==> after@[id] == before@[id],
{
    lemma_recorded(before@, tasks, inputs, tasks.len());
    assert(task_ids(tasks).subrange(0, tasks.len() as int) =~= task_ids(tasks));
}

/// Persistence round trip: the stored form of a tracker reads back as that tracker.
pub proof fn lemma_stored_form_reads_back(tracker: &DependencyTracker, bytes: Seq<u8>)
    requires
        tracker.wf(),
        is_stored_form(tracker.spec_records(), bytes),
    ensures
        read_as(bytes) == tracker@,
{
    tracker.lemma_spec_records();
}

/// Bytes that cannot be decompressed, or whose contents cannot be decoded or stand for
/// no tracker, read as the empty tracker.
pub proof fn lemma_unreadable_bytes_read_as_empty(bytes: Seq<u8>)
    requires
        match decompressed(bytes) {
            Some(data) => match decoded_records(data) {
                Some(records) => tracker_from_plain(records) is None,
                None => true,
            },
            None => true,
        },
    ensures
        read_as(bytes) == Map::<Seq<char>, Map<Seq<char>, FileFingerprint>>::empty(),
{
}

impl Default for DependencyTracker {
    /// The tracker that holds no record.
    fn default() -> (tracker: Self)
        ensures
            tracker.wf(),
            tracker@ == Map::<Seq<char>, Map<Seq<char>, FileFingerprint>>::empty(),
    {
        let tracker = DependencyTracker { dependencies: StringMap::new() };
        assert(tracker@ =~= Map::<Seq<char>, Map<Seq<char>, FileFingerprint>>::empty());
        tracker
    }
}

} // verus!
