//! The workspace before and after a build, and the outputs chosen from it.

use crate::file_identity::{hash_file_contents, FileProbe};
use crate::order;
use crate::order::sort_order;
use crate::paths;
use crate::paths::{absolutize, join_path, path_components, path_is_under, strip_base};
use crate::text;
use crate::text::{concat, text_eq};
use vstd::hash_map::*;
use vstd::hash_set::*;
use vstd::prelude::*;
use vstd::string::*;

verus! {

/// A file that a build produced.
#[derive(Debug, Clone, PartialEq, Eq)]
pub struct OutputFile {
    pub path: String,
    pub hash: String,
}

/// An output as mathematical data.
pub struct Output {
    pub path: Seq<char>,
    pub hash: Seq<char>,
}

impl View for OutputFile {
    type V = Output;

    open spec fn view(&self) -> Output {
        Output { path: self.path@, hash: self.hash@ }
    }
}

/// The outputs of a list as mathematical data.
pub open spec fn output_views(outputs: Seq<OutputFile>) -> Seq<Output> {
    Seq::new(outputs.len(), |i: int| outputs[i]@)
}

impl OutputFile {
    /// A copy of the output.
    pub fn duplicate(&self) -> (copy: OutputFile)
        ensures
            copy@ == self@,
    {
        OutputFile { path: self.path.clone(), hash: self.hash.clone() }
    }
}

// ---------------------------------------------------------------------------
// Snapshots
// ---------------------------------------------------------------------------

/// What stands at a path.
#[derive(Debug, Clone, Copy, PartialEq, Eq, Structural)]
pub enum EntryKind {
    File,
    Symlink,
    Directory,
}

/// What is recorded of a path.
#[derive(Debug, Clone)]
pub struct SnapshotEntry {
    pub kind: EntryKind,
    pub hash: Option<String>,
    pub target: Option<String>,
}

/// What is recorded of a path, as mathematical data.
pub struct Entry {
    pub kind: EntryKind,
    pub hash: Option<Seq<char>>,
    pub target: Option<Seq<char>>,
}

impl View for SnapshotEntry {
    type V = Entry;

    open spec fn view(&self) -> Entry {
        Entry {
            kind: self.kind,
            hash: text::opt_text(self.hash),
            target: text::opt_text(self.target),
        }
    }
}

/// What was found at a path of the file system.
pub enum Found {
    /// Nothing, or nothing that could be looked at.
    Absent,
    /// A symbolic link: where it leads, if that could be read, and the content
    /// of the regular file that it leads to, if it leads to one.
    Symlink { target: Option<String>, content: Option<FileProbe> },
    /// A directory: its canonical path, if it has one, and what it holds, in
    /// the order in which it is walked.
    Directory { canonical: Option<String>, children: Vec<Child> },
    /// A regular file.
    File(FileProbe),
    /// Anything else.
    Other,
}

/// Something in a directory.
pub struct Child {
    pub name: String,
    pub found: Found,
}

/// What has been gathered on a walk.
#[verifier::ext_equal]
pub struct Walked {
    /// What is recorded, by path.
    pub entries: Map<Seq<char>, Entry>,
    /// The canonical paths of the directories that were walked.
    pub seen: Set<Seq<char>>,
    /// Whether no directory was without a canonical path.
    pub complete: bool,
}

/// The hash of what a probe read, where it read the content.
pub open spec fn probe_hash(probe: FileProbe) -> Option<Seq<char>> {
    match probe {
        FileProbe::Content(data) => Some(crate::digest::hash_text(data@)),
        _ => None,
    }
}

impl Walked {
    /// With a path recorded.
    pub open spec fn record(self, path: Seq<char>, entry: Entry) -> Walked {
        Walked { entries: self.entries.insert(path, entry), ..self }
    }

    /// With a file recorded, where its content was read.
    pub open spec fn record_file(
        self,
        path: Seq<char>,
        probe: FileProbe,
        target: Option<Seq<char>>,
    ) -> Walked {
        match probe_hash(probe) {
            Some(h) => self.record(path, Entry { kind: EntryKind::File, hash: Some(h), target }),
            None => self,
        }
    }
}

/// Whether a path is that of a version control directory, which is not walked.
pub open spec fn is_git(path: Seq<char>) -> bool {
    let parts = paths::components(path);
    parts.len() > 0 && parts.last() == ".git"@
}

/// Whether a path is that of a version control directory, which is not walked.
pub fn is_git_dir(path: &str) -> (yes: bool)
    ensures
        yes == is_git(path@),
{
    let parts = path_components(path);
    let ghost t = text::texts(parts@);
    assert(t.len() == parts@.len());
    assert(t.len() > 0 ==> t.last() == parts@[parts@.len() - 1]@);
    parts.len() > 0 && text_eq(parts[parts.len() - 1].as_str(), ".git")
}

/// What a walk from a path gathers. A link to a regular file is recorded as that
/// file, a directory that was walked before is not walked again, and a directory
/// without a canonical path ends the walk.
pub open spec fn walked(s: Walked, path: Seq<char>, found: Found) -> Walked
    decreases found,
{
    if !s.complete {
        s
    } else {
        match found {
            Found::Absent => s,
            Found::Other => s,
            Found::File(probe) => s.record_file(path, probe, None),
            Found::Symlink { target, content } => {
                let t = text::opt_text(target);
                let r = s.record(path, Entry { kind: EntryKind::Symlink, hash: None, target: t });
                match content {
                    Some(probe) => r.record_file(path, probe, t),
                    None => r,
                }
            },
            Found::Directory { canonical, children } => if is_git(path) {
                s
            } else {
                let r = s.record(
                    path,
                    Entry { kind: EntryKind::Directory, hash: None, target: None },
                );
                match canonical {
                    None => Walked { complete: false, ..r },
                    Some(c) => if r.seen.contains(c@) {
                        r
                    } else {
                        walked_all(Walked { seen: r.seen.insert(c@), ..r }, path, children@)
                    },
                }
            },
        }
    }
}

/// What a walk over what a directory holds gathers.
pub open spec fn walked_all(s: Walked, dir: Seq<char>, children: Seq<Child>) -> Walked
    decreases children,
{
    if children.len() == 0 {
        s
    } else {
        let c = children[children.len() - 1];
        walked(
            walked_all(s, dir, children.subrange(0, children.len() - 1)),
            paths::joined(dir, c.name@),
            c.found,
        )
    }
}

/// Before a walk.
pub open spec fn unwalked() -> Walked {
    Walked { entries: Map::empty(), seen: Set::empty(), complete: true }
}

/// What stands at which path.
struct Entries {
    paths: Vec<String>,
    entries: Vec<SnapshotEntry>,
    index: StringHashMap<usize>,
}

impl View for Entries {
    type V = Map<Seq<char>, Entry>;

    closed spec fn view(&self) -> Map<Seq<char>, Entry> {
        Map::new(
            |p: Seq<char>| self.index@.contains_key(p),
            |p: Seq<char>| self.entries@[self.index@[p] as int]@,
        )
    }
}

impl Entries {
    /// Every path has one entry.
    spec fn well_formed(self) -> bool {
        &&& self.paths@.len() == self.entries@.len()
        &&& forall|t: Seq<char>| #[trigger]
            self.index@.contains_key(t) ==> self.index@[t] < self.paths@.len()
                && self.paths@[self.index@[t] as int]@ == t
        &&& forall|i: int|
            0 <= i < self.paths@.len() ==> self.index@.contains_key((#[trigger] self.paths@[i])@)
                && self.index@[self.paths@[i]@] == i
    }

    fn new() -> (s: Entries)
        ensures
            s.well_formed(),
            s@ == Map::<Seq<char>, Entry>::empty(),
    {
        let s = Entries { paths: Vec::new(), entries: Vec::new(), index: StringHashMap::new() };
        assert(s@ =~= Map::<Seq<char>, Entry>::empty());
        s
    }

    fn insert(&mut self, path: &str, entry: SnapshotEntry)
        requires
            old(self).well_formed(),
        ensures
            final(self).well_formed(),
            final(self)@ == old(self)@.insert(path@, entry@),
    {
        match self.index.get(path) {
            Some(at) => {
                let at = *at;
                self.entries.set(at, entry);
            },
            None => {
                let at = self.paths.len();
                self.paths.push(path.to_string());
                self.entries.push(entry);
                self.index.insert(path.to_string(), at);
            },
        }
        assert(self@ =~= old(self)@.insert(path@, entry@));
    }

    fn get(&self, path: &str) -> (entry: Option<&SnapshotEntry>)
        requires
            self.well_formed(),
        ensures
            match entry {
                Some(e) => self@.contains_key(path@) && e@ == self@[path@],
                None => !self@.contains_key(path@),
            },
    {
        match self.index.get(path) {
            Some(at) => Some(&self.entries[*at]),
            None => None,
        }
    }
}

/// The state of a workspace: what stands at which path.
pub struct Snapshot {
    entries: Entries,
}

impl View for Snapshot {
    type V = Map<Seq<char>, Entry>;

    closed spec fn view(&self) -> Map<Seq<char>, Entry> {
        self.entries@
    }
}

impl Snapshot {
    #[verifier::type_invariant]
    spec fn well_formed(self) -> bool {
        self.entries.well_formed()
    }

    /// What is recorded of a path.
    pub fn get(&self, path: &str) -> (entry: Option<&SnapshotEntry>)
        ensures
            match entry {
                Some(e) => self@.contains_key(path@) && e@ == self@[path@],
                None => !self@.contains_key(path@),
            },
    {
        proof {
            use_type_invariant(self);
        }
        self.entries.get(path)
    }
}

struct Walker {
    entries: Entries,
    seen: StringHashSet,
    complete: bool,
}

impl Walker {
    spec fn state(self) -> Walked {
        Walked { entries: self.entries@, seen: self.seen@, complete: self.complete }
    }

    fn record_file(&mut self, path: &str, probe: &FileProbe, target: Option<String>)
        requires
            old(self).entries.well_formed(),
        ensures
            final(self).entries.well_formed(),
            final(self).state() == old(self).state().record_file(
                path@,
                *probe,
                text::opt_text(target),
            ),
    {
        if let Some(hash) = hash_file_contents(probe) {
            self.entries.insert(
                path,
                SnapshotEntry { kind: EntryKind::File, hash: Some(hash), target },
            );
        }
    }

    fn walk(&mut self, path: &str, found: &Found)
        requires
            old(self).entries.well_formed(),
        ensures
            final(self).entries.well_formed(),
            final(self).state() == walked(old(self).state(), path@, *found),
        decreases found,
    {
        if !self.complete {
            return;
        }
        match found {
            Found::Absent => {},
            Found::Other => {},
            Found::File(probe) => {
                self.record_file(path, probe, None);
            },
            Found::Symlink { target, content } => {
                self.entries.insert(
                    path,
                    SnapshotEntry { kind: EntryKind::Symlink, hash: None, target: target.clone() },
                );
                if let Some(probe) = content {
                    self.record_file(path, probe, target.clone());
                }
            },
            Found::Directory { canonical, children } => {
                if is_git_dir(path) {
                    return;
                }
                self.entries.insert(
                    path,
                    SnapshotEntry { kind: EntryKind::Directory, hash: None, target: None },
                );
                match canonical {
                    None => {
                        self.complete = false;
                    },
                    Some(canonical) => {
                        let ghost before = self.state();
                        if self.seen.insert(canonical.clone()) {
                            assert(self.state() =~= (Walked {
                                seen: before.seen.insert(canonical@),
                                ..before
                            }));
                            self.walk_dir(path, children);
                        } else {
                            assert(self.state() =~= before);
                        }
                    },
                }
            },
        }
    }

    fn walk_dir(&mut self, path: &str, children: &Vec<Child>)
        requires
            old(self).entries.well_formed(),
        ensures
            final(self).entries.well_formed(),
            final(self).state() == walked_all(old(self).state(), path@, children@),
        decreases children,
    {
        let ghost start = self.state();
        assert(children@.subrange(0, 0) =~= Seq::empty());
        for i in 0..children.len()
            invariant
                self.entries.well_formed(),
                self.state() == walked_all(start, path@, children@.subrange(0, i as int)),
        {
            proof {
                let p = children@.subrange(0, i as int + 1);
                assert(p.subrange(0, p.len() - 1) =~= children@.subrange(0, i as int));
                assert(p[p.len() - 1] == children@[i as int]);
            }
            let place = join_path(path, children[i].name.as_str());
            self.walk(place.as_str(), &children[i].found);
        }
        assert(children@.subrange(0, children@.len() as int) =~= children@);
    }
}

/// Takes a snapshot of a workspace, given what was found at its root. There is
/// none where a directory has no canonical path.
pub fn snapshot(root: &str, found: &Found) -> (result: Option<Snapshot>)
    ensures
        match result {
            Some(s) => walked(unwalked(), root@, *found).complete && s@
                == walked(unwalked(), root@, *found).entries,
            None => !walked(unwalked(), root@, *found).complete,
        },
{
    let mut walker = Walker { entries: Entries::new(), seen: StringHashSet::new(), complete: true };
    assert(walker.state() =~= unwalked());
    walker.walk(root, found);
    if walker.complete {
        Some(Snapshot { entries: walker.entries })
    } else {
        None
    }
}

// ---------------------------------------------------------------------------
// Changed outputs
// ---------------------------------------------------------------------------

/// Whether a regular file is new or different after the build.
pub open spec fn is_changed(
    before: Map<Seq<char>, Entry>,
    after: Map<Seq<char>, Entry>,
    path: Seq<char>,
) -> bool {
    &&& after.contains_key(path)
    &&& after[path].kind == EntryKind::File
    &&& after[path].hash is Some
    &&& !(before.contains_key(path) && before[path] == after[path])
}

/// The paths of the regular files that are new or different after the build.
pub open spec fn changed_paths(
    before: Map<Seq<char>, Entry>,
    after: Map<Seq<char>, Entry>,
) -> Set<Seq<char>> {
    Set::new(|p: Seq<char>| is_changed(before, after, p))
}

/// The output at a path.
pub open spec fn output_at(after: Map<Seq<char>, Entry>, path: Seq<char>) -> Output {
    Output { path, hash: after[path].hash->0 }
}

/// The changed files in ascending order of their paths.
pub open spec fn changed(
    before: Map<Seq<char>, Entry>,
    after: Map<Seq<char>, Entry>,
) -> Seq<Output> {
    order::text_listing(changed_paths(before, after)).map_values(
        |p: Seq<char>| output_at(after, p),
    )
}

fn same_option(a: &Option<String>, b: &Option<String>) -> (same: bool)
    ensures
        same == (text::opt_text(*a) == text::opt_text(*b)),
{
    match (a, b) {
        (Some(a), Some(b)) => text_eq(a.as_str(), b.as_str()),
        (None, None) => true,
        _ => false,
    }
}

fn same_entry(a: &SnapshotEntry, b: &SnapshotEntry) -> (same: bool)
    ensures
        same == (a@ == b@),
{
    a.kind == b.kind && same_option(&a.hash, &b.hash) && same_option(&a.target, &b.target)
}

/// The key of an output: its path.
pub open spec fn path_key() -> spec_fn(Output) -> Seq<char> {
    |o: Output| o.path
}

/// The key by which outputs are told apart: path and hash.
pub open spec fn whole_key() -> spec_fn(Output) -> Output {
    |o: Output| o
}

/// The outputs in ascending order of their paths, without repetitions.
pub open spec fn arranged(outputs: Seq<Output>) -> Seq<Output> {
    order::dedup(order::stable_sort(outputs, path_key()), whole_key())
}

fn same_output(a: &OutputFile, b: &OutputFile) -> (same: bool)
    ensures
        same == (a@ == b@),
{
    text_eq(a.path.as_str(), b.path.as_str()) && text_eq(a.hash.as_str(), b.hash.as_str())
}

fn arrange(outputs: &Vec<OutputFile>) -> (result: Vec<OutputFile>)
    ensures
        output_views(result@) == arranged(output_views(outputs@)),
{
    let ghost views = output_views(outputs@);
    let mut keys: Vec<String> = Vec::new();
    for i in 0..outputs.len()
        invariant
            keys@.len() == i,
            forall|k: int| 0 <= k < i ==> (#[trigger] keys@[k])@ == outputs@[k].path@,
    {
        keys.push(outputs[i].path.clone());
    }
    let order = sort_order(&keys);
    let ghost sorted = Seq::new(views.len(), |i: int| views[order@[i] as int]);
    proof {
        order::lemma_order_sorts(views, path_key(), text::texts(keys@), order@);
        assert(sorted == order::stable_sort(views, path_key()));
    }
    let mut result: Vec<OutputFile> = Vec::new();
    assert(output_views(result@) =~= order::dedup(sorted.take(0), whole_key()));
    for i in 0..order.len()
        invariant
            order@.len() == outputs@.len(),
            views == output_views(outputs@),
            sorted == Seq::new(views.len(), |i: int| views[order@[i] as int]),
            forall|k: int| 0 <= k < order@.len() ==> 0 <= #[trigger] order@[k] < outputs@.len(),
            output_views(result@) == order::dedup(sorted.take(i as int), whole_key()),
    {
        let ghost prefix = sorted.take(i as int + 1);
        proof {
            assert(prefix.drop_last() =~= sorted.take(i as int));
            assert(order@[i as int] < outputs@.len());
        }
        let here = order[i];
        let repeats = if i > 0 {
            assert(order@[i - 1] < outputs@.len());
            same_output(&outputs[order[i - 1]], &outputs[here])
        } else {
            false
        };
        proof {
            if i > 0 {
                assert(prefix[i - 1] == views[order@[i - 1] as int]);
            }
            assert(prefix.last() == views[here as int]);
        }
        if !repeats {
            let ghost seen = result@;
            result.push(outputs[here].duplicate());
            assert(output_views(result@) =~= output_views(seen).push(views[here as int]));
        }
    }
    assert(sorted.take(sorted.len() as int) =~= sorted);
    result
}

fn collect_changed(before: &Entries, after: &Entries) -> (outputs: Vec<OutputFile>)
    requires
        before.well_formed(),
        after.well_formed(),
    ensures
        forall|o: Output| #[trigger]
            output_views(outputs@).contains(o) <==> is_changed(before@, after@, o.path) && o
                == output_at(after@, o.path),
{
    let ghost b = before@;
    let ghost a = after@;
    let ghost upto = |n: int, o: Output|
        exists|k: int|
            0 <= k < n && (#[trigger] after.paths@[k])@ == o.path && is_changed(b, a, o.path) && o
                == output_at(a, o.path);
    let mut outputs: Vec<OutputFile> = Vec::new();
    for i in 0..after.paths.len()
        invariant
            b == before@,
            a == after@,
            before.well_formed(),
            after.well_formed(),
            upto == |n: int, o: Output|
                exists|k: int|
                    0 <= k < n && (#[trigger] after.paths@[k])@ == o.path && is_changed(b, a, o.path)
                        && o == output_at(a, o.path),
            forall|o: Output| #[trigger] output_views(outputs@).contains(o) <==> upto(i as int, o),
    {
        let ghost path = after.paths@[i as int]@;
        let ghost seen = outputs@;
        let entry = &after.entries[i];
        assert(a.contains_key(path) && a[path] == entry@);
        if entry.kind == EntryKind::File {
            let unchanged = match before.get(after.paths[i].as_str()) {
                Some(old) => same_entry(old, entry),
                None => false,
            };
            if !unchanged {
                if let Some(hash) = &entry.hash {
                    outputs.push(
                        OutputFile { path: after.paths[i].clone(), hash: hash.clone() },
                    );
                }
            }
        }
        proof {
            let s = output_views(seen);
            let t = output_views(outputs@);
            let fresh = output_at(a, path);
            if is_changed(b, a, path) {
                assert(t =~= s.push(fresh));
            } else {
                assert(t == s);
            }
            assert forall|o: Output| #[trigger] t.contains(o) <==> upto(i as int + 1, o) by {
                assert(s.contains(o) <==> upto(i as int, o));
                if t.contains(o) {
                    let k = choose|k: int| 0 <= k < t.len() && t[k] == o;
                    if k < s.len() {
                        assert(s[k] == o);
                        assert(s.contains(o));
                        let m = choose|m: int|
                            0 <= m < i && (#[trigger] after.paths@[m])@ == o.path && is_changed(
                                b,
                                a,
                                o.path,
                            ) && o == output_at(a, o.path);
                        assert(after.paths@[m]@ == o.path);
                    } else {
                        assert(after.paths@[i as int]@ == o.path);
                    }
                }
                if upto(i as int + 1, o) {
                    let m = choose|m: int|
                        0 <= m < i + 1 && (#[trigger] after.paths@[m])@ == o.path && is_changed(
                            b,
                            a,
                            o.path,
                        ) && o == output_at(a, o.path);
                    if m < i {
                        assert(after.paths@[m]@ == o.path);
                        assert(upto(i as int, o));
                        let k = choose|k: int| 0 <= k < s.len() && s[k] == o;
                        assert(t[k] == o);
                    } else {
                        assert(o == fresh);
                        assert(t[s.len() as int] == o);
                    }
                }
            }
        }
    }
    proof {
        assert forall|o: Output| #[trigger] output_views(outputs@).contains(o) <==> is_changed(
            b,
            a,
            o.path,
        ) && o == output_at(a, o.path) by {
            let n = after.paths@.len() as int;
            assert(output_views(outputs@).contains(o) <==> upto(n, o));
            if is_changed(b, a, o.path) && o == output_at(a, o.path) {
                let k = after.index@[o.path] as int;
                assert(after.paths@[k]@ == o.path);
                assert(upto(n, o));
            }
        }
    }
    outputs
}

/// Whether outputs stand in strictly ascending order of their paths.
pub open spec fn paths_ascend(outputs: Seq<Output>) -> bool {
    order::strictly_ascending(outputs, path_key())
}

/// Where paths determine hashes, arranging leaves each output once, in strictly
/// ascending order of the paths.
pub proof fn lemma_arranged(outputs: Seq<Output>)
    requires
        forall|i: int, j: int|
            0 <= i < outputs.len() && 0 <= j < outputs.len() && (#[trigger] outputs[i]).path == (
            #[trigger] outputs[j]).path ==> outputs[i] == outputs[j],
    ensures
        paths_ascend(arranged(outputs)),
        forall|o: Output| #[trigger] arranged(outputs).contains(o) <==> outputs.contains(o),
{
    let sorted = order::stable_sort(outputs, path_key());
    order::law_sort_is_an_ascending_rearrangement(outputs, path_key());
    assert forall|i: int, j: int|
        0 <= i < sorted.len() && 0 <= j < sorted.len() && (#[trigger] sorted[i]).path == (
        #[trigger] sorted[j]).path implies sorted[i] == sorted[j] by {
        assert(sorted.contains(sorted[i]) && sorted.contains(sorted[j]));
        let k = choose|k: int| 0 <= k < outputs.len() && outputs[k] == sorted[i];
        let l = choose|l: int| 0 <= l < outputs.len() && outputs[l] == sorted[j];
        assert(outputs[k] == outputs[l]);
    }
    lemma_same_dedup(sorted);
    order::law_dedup_of_ascending(sorted, path_key());
    let r = order::dedup(sorted, path_key());
    assert forall|o: Output| #[trigger] r.contains(o) <==> outputs.contains(o) by {
        if r.contains(o) {
            let i = choose|i: int| 0 <= i < r.len() && r[i] == o;
            let j = choose|j: int|
                #[trigger] order::is_first(sorted, path_key(), j) && sorted[j] == r[i];
            assert(sorted.contains(o));
        }
        if outputs.contains(o) {
            assert(sorted.contains(o));
            let j = choose|j: int| 0 <= j < sorted.len() && sorted[j] == o;
            assert(path_key()(sorted[j]) == o.path);
            assert(order::has_key(sorted, path_key(), o.path));
            let i = choose|i: int| 0 <= i < r.len() && path_key()(#[trigger] r[i]) == o.path;
            let m = choose|m: int|
                #[trigger] order::is_first(sorted, path_key(), m) && sorted[m] == r[i];
            assert(sorted[m] == sorted[j]);
            assert(r[i] == o);
        }
    }
}

proof fn lemma_same_dedup(s: Seq<Output>)
    requires
        forall|i: int, j: int|
            0 <= i < s.len() && 0 <= j < s.len() && (#[trigger] s[i]).path == (
            #[trigger] s[j]).path ==> s[i] == s[j],
    ensures
        order::dedup(s, whole_key()) == order::dedup(s, path_key()),
    decreases s.len(),
{
    if s.len() > 0 {
        let d = s.drop_last();
        assert forall|i: int, j: int|
            0 <= i < d.len() && 0 <= j < d.len() && (#[trigger] d[i]).path == (
            #[trigger] d[j]).path implies d[i] == d[j] by {
            assert(s[i] == d[i] && s[j] == d[j]);
        }
        lemma_same_dedup(d);
        if s.len() > 1 {
            assert(s[s.len() - 2].path == s[s.len() - 1].path ==> s[s.len() - 2] == s[s.len() - 1]);
        }
    }
}

/// The regular files that are new or different after the build, in ascending
/// order of their paths.
pub fn changed_outputs(before: &Snapshot, after: &Snapshot) -> (outputs: Vec<OutputFile>)
    ensures
        output_views(outputs@) == changed(before@, after@),
        paths_ascend(output_views(outputs@)),
        forall|o: Output| #[trigger]
            output_views(outputs@).contains(o) <==> is_changed(before@, after@, o.path) && o
                == output_at(after@, o.path),
{
    proof {
        use_type_invariant(before);
        use_type_invariant(after);
    }
    let collected = collect_changed(&before.entries, &after.entries);
    let outputs = arrange(&collected);
    proof {
        let c = output_views(collected@);
        let r = output_views(outputs@);
        assert forall|i: int, j: int|
            0 <= i < c.len() && 0 <= j < c.len() && (#[trigger] c[i]).path == (
            #[trigger] c[j]).path implies c[i] == c[j] by {
            assert(c.contains(c[i]) && c.contains(c[j]));
        }
        lemma_arranged(c);
        let listed = r.map_values(|o: Output| o.path);
        assert forall|i: int, j: int| 0 <= i < j < listed.len() implies text::text_lt(
            #[trigger] listed[i],
            #[trigger] listed[j],
        ) by {
            assert(text::text_lt(path_key()(r[i]), path_key()(r[j])));
        }
        let set = changed_paths(before@, after@);
        assert forall|p: Seq<char>| #[trigger] listed.contains(p) <==> set.contains(p) by {
            if listed.contains(p) {
                let i = choose|i: int| 0 <= i < listed.len() && listed[i] == p;
                assert(r.contains(r[i]));
            }
            if set.contains(p) {
                let o = output_at(after@, p);
                assert(c.contains(o));
                assert(r.contains(o));
                let i = choose|i: int| 0 <= i < r.len() && r[i] == o;
                assert(listed[i] == p);
            }
        }
        order::lemma_text_listing(listed, set);
        assert forall|i: int| 0 <= i < r.len() implies #[trigger] r[i] == changed(
            before@,
            after@,
        )[i] by {
            assert(r.contains(r[i]));
            assert(c.contains(r[i]));
            assert(listed[i] == r[i].path);
        }
        assert(r =~= changed(before@, after@));
    }
    outputs
}

// ---------------------------------------------------------------------------
// Selected outputs
// ---------------------------------------------------------------------------

/// How outputs are selected.
#[derive(Debug, Clone, Copy, PartialEq, Eq, Structural)]
pub enum OutputMode {
    /// All changed files.
    Inferred,
    /// Named artifacts, and changed files below named directories.
    Explicit,
}

/// The outputs that were selected.
#[derive(Debug, Clone)]
pub struct SelectedOutputs {
    pub mode: OutputMode,
    pub outputs: Vec<OutputFile>,
}

/// What is wrong with a named artifact.
#[derive(Debug, Clone, Copy, PartialEq, Eq, Structural)]
pub enum ArtifactProblem {
    /// It does not exist after the build.
    Missing,
    /// It is not a regular file.
    NotRegular,
    /// Its content could not be hashed.
    NotHashed,
}

/// A named artifact with which something is wrong.
#[derive(Debug, PartialEq, Eq)]
pub struct ArtifactError {
    pub problem: ArtifactProblem,
    pub artifact: String,
}

/// What is wrong with an artifact at a path, if anything.
pub open spec fn problem_at(after: Map<Seq<char>, Entry>, path: Seq<char>) -> Option<
    ArtifactProblem,
> {
    if !after.contains_key(path) {
        Some(ArtifactProblem::Missing)
    } else if after[path].kind != EntryKind::File {
        Some(ArtifactProblem::NotRegular)
    } else if after[path].hash is None {
        Some(ArtifactProblem::NotHashed)
    } else {
        None
    }
}

/// What is wrong with the artifact at a position of a list, if anything.
pub open spec fn problem_of(
    after: Map<Seq<char>, Entry>,
    root: Seq<char>,
    artifacts: Seq<Seq<char>>,
    i: int,
) -> Option<ArtifactProblem> {
    problem_at(after, paths::absolute(root, artifacts[i]))
}

/// Whether a path lies at or below one of the named directories.
pub open spec fn under_any(path: Seq<char>, root: Seq<char>, dirs: Seq<Seq<char>>) -> bool {
    exists|i: int|
        0 <= i < dirs.len() && paths::is_under(path, paths::absolute(root, #[trigger] dirs[i]))
}

/// The changed files below the named directories, then the named artifacts.
pub open spec fn named_outputs(
    before: Map<Seq<char>, Entry>,
    after: Map<Seq<char>, Entry>,
    root: Seq<char>,
    artifacts: Seq<Seq<char>>,
    dirs: Seq<Seq<char>>,
) -> Seq<Output> {
    changed(before, after).filter(|o: Output| under_any(o.path, root, dirs)) + artifacts.map_values(
        |a: Seq<char>| output_at(after, paths::absolute(root, a)),
    )
}

/// The outputs that are selected where nothing is wrong with the artifacts.
pub open spec fn selected(
    before: Map<Seq<char>, Entry>,
    after: Map<Seq<char>, Entry>,
    root: Seq<char>,
    artifacts: Seq<Seq<char>>,
    dirs: Seq<Seq<char>>,
) -> Seq<Output> {
    if artifacts.len() == 0 && dirs.len() == 0 {
        changed(before, after)
    } else {
        arranged(named_outputs(before, after, root, artifacts, dirs))
    }
}

/// Whether a result of selection is the right one.
pub open spec fn is_selection(
    result: Result<SelectedOutputs, ArtifactError>,
    before: Map<Seq<char>, Entry>,
    after: Map<Seq<char>, Entry>,
    root: Seq<char>,
    artifacts: Seq<Seq<char>>,
    dirs: Seq<Seq<char>>,
) -> bool {
    match result {
        Ok(s) => {
            &&& forall|i: int|
                0 <= i < artifacts.len() ==> #[trigger] problem_of(after, root, artifacts, i) is None
            &&& s.mode == (if artifacts.len() == 0 && dirs.len() == 0 {
                OutputMode::Inferred
            } else {
                OutputMode::Explicit
            })
            &&& output_views(s.outputs@) == selected(before, after, root, artifacts, dirs)
        },
        Err(e) => exists|i: int|
            {
                &&& 0 <= i < artifacts.len()
                &&& #[trigger] problem_of(after, root, artifacts, i) == Some(e.problem)
                &&& e.artifact@ == artifacts[i]
                &&& forall|k: int|
                    0 <= k < i ==> #[trigger] problem_of(after, root, artifacts, k) is None
            },
    }
}

fn is_under_any(path: &str, roots: &Vec<String>) -> (yes: bool)
    ensures
        yes == exists|i: int|
            0 <= i < roots@.len() && paths::is_under(path@, (#[trigger] roots@[i])@),
{
    for i in 0..roots.len()
        invariant
            forall|k: int| 0 <= k < i ==> !paths::is_under(path@, (#[trigger] roots@[k])@),
    {
        if path_is_under(path, roots[i].as_str()) {
            return true;
        }
    }
    false
}

/// Selects the outputs of a build: all changed files, or, where artifacts or
/// output directories are named, these artifacts and the changed files below
/// these directories.
pub fn select_outputs(
    before: &Snapshot,
    after: &Snapshot,
    workspace_root: &str,
    artifacts: &[String],
    output_roots: &[String],
) -> (result: Result<SelectedOutputs, ArtifactError>)
    ensures
        is_selection(
            result,
            before@,
            after@,
            workspace_root@,
            text::texts(artifacts@),
            text::texts(output_roots@),
        ),
{
    let changed_files = changed_outputs(before, after);
    if artifacts.len() == 0 && output_roots.len() == 0 {
        return Ok(SelectedOutputs { mode: OutputMode::Inferred, outputs: changed_files });
    }
    let ghost b = before@;
    let ghost a = after@;
    let ghost root = workspace_root@;
    let ghost arts = text::texts(artifacts@);
    let ghost dirs = text::texts(output_roots@);
    let mut roots: Vec<String> = Vec::new();
    for i in 0..output_roots.len()
        invariant
            root == workspace_root@,
            dirs == text::texts(output_roots@),
            roots@.len() == i,
            forall|k: int| 0 <= k < i ==> (#[trigger] roots@[k])@ == paths::absolute(root, dirs[k]),
    {
        roots.push(absolutize(workspace_root, output_roots[i].as_str()));
    }
    let ghost keep = |o: Output| under_any(o.path, root, dirs);
    let ghost files = output_views(changed_files@);
    let mut outputs: Vec<OutputFile> = Vec::new();
    proof {
        reveal(Seq::filter);
        assert(output_views(outputs@) =~= files.take(0).filter(keep));
    }
    for i in 0..changed_files.len()
        invariant
            keep == |o: Output| under_any(o.path, root, dirs),
            files == output_views(changed_files@),
            roots@.len() == dirs.len(),
            forall|k: int|
                0 <= k < dirs.len() ==> (#[trigger] roots@[k])@ == paths::absolute(root, dirs[k]),
            output_views(outputs@) == files.take(i as int).filter(keep),
    {
        proof {
            assert(files.take(i as int + 1).drop_last() =~= files.take(i as int));
            reveal(Seq::filter);
        }
        let inside = is_under_any(changed_files[i].path.as_str(), &roots);
        proof {
            let path = files[i as int].path;
            if inside {
                let k = choose|k: int|
                    0 <= k < roots@.len() && paths::is_under(path, (#[trigger] roots@[k])@);
                assert(paths::is_under(path, paths::absolute(root, dirs[k])));
            }
            if under_any(path, root, dirs) {
                let k = choose|k: int|
                    0 <= k < dirs.len() && paths::is_under(
                        path,
                        paths::absolute(root, #[trigger] dirs[k]),
                    );
                assert(paths::is_under(path, roots@[k]@));
            }
            assert(inside == keep(files[i as int]));
        }
        if inside {
            let ghost seen = outputs@;
            outputs.push(changed_files[i].duplicate());
            assert(output_views(outputs@) =~= output_views(seen).push(files[i as int]));
        }
    }
    assert(files.take(files.len() as int) =~= files);
    let ghost filtered = files.filter(keep);
    let ghost named = arts.map_values(|p: Seq<char>| output_at(a, paths::absolute(root, p)));
    assert(output_views(outputs@) =~= filtered + named.take(0));
    for i in 0..artifacts.len()
        invariant
            a == after@,
            root == workspace_root@,
            arts == text::texts(artifacts@),
            dirs == text::texts(output_roots@),
            named == arts.map_values(|p: Seq<char>| output_at(a, paths::absolute(root, p))),
            output_views(outputs@) == filtered + named.take(i as int),
            forall|k: int| 0 <= k < i ==> #[trigger] problem_of(a, root, arts, k) is None,
    {
        let path = absolutize(workspace_root, artifacts[i].as_str());
        assert(problem_of(a, root, arts, i as int) == problem_at(a, path@));
        let entry = match after.get(path.as_str()) {
            Some(entry) => entry,
            None => {
                return Err(
                    ArtifactError {
                        problem: ArtifactProblem::Missing,
                        artifact: artifacts[i].clone(),
                    },
                );
            },
        };
        if entry.kind != EntryKind::File {
            return Err(
                ArtifactError {
                    problem: ArtifactProblem::NotRegular,
                    artifact: artifacts[i].clone(),
                },
            );
        }
        match &entry.hash {
            Some(hash) => {
                let ghost seen = outputs@;
                outputs.push(OutputFile { path, hash: hash.clone() });
                proof {
                    assert(output_views(outputs@) =~= output_views(seen).push(named[i as int]));
                    assert(output_views(outputs@) =~= filtered + named.take(i as int + 1));
                }
            },
            None => {
                return Err(
                    ArtifactError {
                        problem: ArtifactProblem::NotHashed,
                        artifact: artifacts[i].clone(),
                    },
                );
            },
        }
    }
    assert(named.take(named.len() as int) =~= named);
    Ok(SelectedOutputs { mode: OutputMode::Explicit, outputs: arrange(&outputs) })
}

impl ArtifactError {
    /// The error in words.
    pub fn message(&self) -> (text: String)
        ensures
            text@ == (match self.problem {
                ArtifactProblem::Missing => "explicit artifact does not exist after build: "@,
                ArtifactProblem::NotRegular => "explicit artifact is not a regular file: "@,
                ArtifactProblem::NotHashed => "explicit artifact could not be hashed: "@,
            }) + self.artifact@,
    {
        match self.problem {
            ArtifactProblem::Missing => concat(
                "explicit artifact does not exist after build: ",
                self.artifact.as_str(),
            ),
            ArtifactProblem::NotRegular => concat(
                "explicit artifact is not a regular file: ",
                self.artifact.as_str(),
            ),
            ArtifactProblem::NotHashed => concat(
                "explicit artifact could not be hashed: ",
                self.artifact.as_str(),
            ),
        }
    }
}

/// A path as it is shown: relative to the workspace where it lies in it.
pub open spec fn shown_path(root: Seq<char>, path: Seq<char>) -> Seq<char> {
    match paths::relative_to(path, root) {
        Some(p) => p,
        None => path,
    }
}

/// A path as it is shown: relative to the workspace where it lies in it.
pub fn display_path(workspace_root: &str, path: &str) -> (shown: String)
    ensures
        shown@ == shown_path(workspace_root@, path@),
{
    match strip_base(path, workspace_root) {
        Some(shown) => shown,
        None => path.to_string(),
    }
}

// ---------------------------------------------------------------------------
// Laws
// ---------------------------------------------------------------------------

/// Nothing changed, nothing inferred: two snapshots that are alike have no
/// changed files.
pub proof fn law_unchanged_workspaces_have_no_outputs(s: Map<Seq<char>, Entry>)
    ensures
        changed(s, s) == Seq::<Output>::empty(),
{
    let none = Seq::<Seq<char>>::empty();
    assert forall|p: Seq<char>| #[trigger] none.contains(p) <==> changed_paths(s, s).contains(p) by {}
    order::lemma_text_listing(none, changed_paths(s, s));
    assert(changed(s, s) =~= Seq::<Output>::empty());
}

/// A named artifact is selected whether it changed or not, where nothing is
/// wrong with the named artifacts.
pub proof fn law_named_artifacts_are_selected(
    before: Map<Seq<char>, Entry>,
    after: Map<Seq<char>, Entry>,
    root: Seq<char>,
    artifacts: Seq<Seq<char>>,
    dirs: Seq<Seq<char>>,
    i: int,
)
    requires
        changed_paths(before, after).finite(),
        0 <= i < artifacts.len(),
        forall|k: int|
            0 <= k < artifacts.len() ==> #[trigger] problem_of(after, root, artifacts, k) is None,
    ensures
        selected(before, after, root, artifacts, dirs).contains(
            output_at(after, paths::absolute(root, artifacts[i])),
        ),
        paths_ascend(selected(before, after, root, artifacts, dirs)),
{
    let outs = named_outputs(before, after, root, artifacts, dirs);
    let keep = |o: Output| under_any(o.path, root, dirs);
    let files = changed(before, after);
    let filtered = files.filter(keep);
    let named = artifacts.map_values(|a: Seq<char>| output_at(after, paths::absolute(root, a)));
    let o = output_at(after, paths::absolute(root, artifacts[i]));
    assert(outs[filtered.len() + i] == o);
    assert(outs.contains(o));
    order::lemma_texts_listed(changed_paths(before, after));
    assert forall|k: int| 0 <= k < outs.len() implies #[trigger] outs[k] == output_at(
        after,
        outs[k].path,
    ) by {
        if k < filtered.len() {
            assert(filtered.contains(filtered[k]));
            files.lemma_filter_contains_rev(keep, filtered[k]);
            let m = choose|m: int| 0 <= m < files.len() && files[m] == filtered[k];
        } else {
            assert(outs[k] == named[k - filtered.len()]);
        }
    }
    assert forall|k: int, l: int|
        0 <= k < outs.len() && 0 <= l < outs.len() && (#[trigger] outs[k]).path == (
        #[trigger] outs[l]).path implies outs[k] == outs[l] by {}
    lemma_arranged(outs);
}

/// Whether a regular file with this content stands at a path.
pub open spec fn is_file_with(
    entries: Map<Seq<char>, Entry>,
    path: Seq<char>,
    hash: Seq<char>,
) -> bool {
    entries.contains_key(path) && entries[path].kind == EntryKind::File && entries[path].hash
        == Some(hash)
}

/// Whether what stands at a path is not what stood there before: nothing did, or
/// the kind, the content or the target of a link is another.
pub open spec fn is_other(
    before: Map<Seq<char>, Entry>,
    after: Map<Seq<char>, Entry>,
    path: Seq<char>,
) -> bool {
    !before.contains_key(path) || before[path].kind != after[path].kind || before[path].hash
        != after[path].hash || before[path].target != after[path].target
}

/// Whether a path is one that was asked for by name.
pub open spec fn is_named(path: Seq<char>, root: Seq<char>, artifacts: Seq<Seq<char>>) -> bool {
    exists|i: int|
        0 <= i < artifacts.len() && paths::absolute(root, #[trigger] artifacts[i]) == path
}

/// Whether a path lies in a directory that was asked for by name.
pub open spec fn is_in_named_directory(
    path: Seq<char>,
    root: Seq<char>,
    dirs: Seq<Seq<char>>,
) -> bool {
    exists|i: int|
        0 <= i < dirs.len() && paths::is_under(path, paths::absolute(root, #[trigger] dirs[i]))
}

proof fn lemma_changed_holds(
    before: Map<Seq<char>, Entry>,
    after: Map<Seq<char>, Entry>,
    o: Output,
)
    requires
        after.dom().finite(),
    ensures
        changed_paths(before, after).finite(),
        changed(before, after).contains(o) <==> is_file_with(after, o.path, o.hash) && is_other(
            before,
            after,
            o.path,
        ),
{
    let set = changed_paths(before, after);
    assert(set.subset_of(after.dom()));
    vstd::set_lib::lemma_len_subset(set, after.dom());
    order::lemma_texts_listed(set);
    let listed = order::text_listing(set);
    let files = changed(before, after);
    if files.contains(o) {
        let k = choose|k: int| 0 <= k < files.len() && files[k] == o;
        assert(listed.contains(listed[k]));
        assert(o == output_at(after, listed[k]));
    }
    if is_file_with(after, o.path, o.hash) && is_other(before, after, o.path) {
        assert(set.contains(o.path));
        assert(listed.contains(o.path));
        let k = choose|k: int| 0 <= k < listed.len() && listed[k] == o.path;
        assert(files[k] == o);
    }
}

proof fn lemma_arranged_holds(outputs: Seq<Output>, o: Output)
    requires
        forall|k: int, l: int|
            0 <= k < outputs.len() && 0 <= l < outputs.len() && (#[trigger] outputs[k]).path == (
            #[trigger] outputs[l]).path ==> outputs[k] == outputs[l],
    ensures
        arranged(outputs).contains(o) <==> outputs.contains(o),
        forall|i: int, j: int|
            0 <= i < j < arranged(outputs).len() ==> text::text_lt(
                (#[trigger] arranged(outputs)[i]).path,
                (#[trigger] arranged(outputs)[j]).path,
            ),
{
    lemma_arranged(outputs);
    let r = arranged(outputs);
    assert forall|i: int, j: int| 0 <= i < j < r.len() implies text::text_lt(
        (#[trigger] r[i]).path,
        (#[trigger] r[j]).path,
    ) by {
        assert(text::text_lt(path_key()(r[i]), path_key()(r[j])));
    }
}

/// What is selected where nothing was asked for: every regular file that is new or
/// other than before, and nothing else.
pub proof fn law_inferred_outputs_are_the_changed_files(
    s: SelectedOutputs,
    before: Map<Seq<char>, Entry>,
    after: Map<Seq<char>, Entry>,
    root: Seq<char>,
    o: Output,
)
    requires
        after.dom().finite(),
        is_selection(Ok(s), before, after, root, Seq::empty(), Seq::empty()),
    ensures
        s.mode == OutputMode::Inferred,
        output_views(s.outputs@).contains(o) <==> is_file_with(after, o.path, o.hash) && is_other(
            before,
            after,
            o.path,
        ),
{
    lemma_changed_holds(before, after, o);
}

/// What is selected where artifacts or directories were asked for, in whatever
/// numbers: the regular files in the directories that are new or other than
/// before, the artifacts, changed or not, and nothing else.
pub proof fn law_explicit_outputs_are_those_asked_for(
    s: SelectedOutputs,
    before: Map<Seq<char>, Entry>,
    after: Map<Seq<char>, Entry>,
    root: Seq<char>,
    artifacts: Seq<Seq<char>>,
    dirs: Seq<Seq<char>>,
    o: Output,
)
    requires
        after.dom().finite(),
        artifacts.len() > 0 || dirs.len() > 0,
        is_selection(Ok(s), before, after, root, artifacts, dirs),
    ensures
        s.mode == OutputMode::Explicit,
        output_views(s.outputs@).contains(o) <==> is_file_with(after, o.path, o.hash) && (is_named(
            o.path,
            root,
            artifacts,
        ) || (is_other(before, after, o.path) && is_in_named_directory(o.path, root, dirs))),
        forall|i: int, j: int|
            0 <= i < j < s.outputs@.len() ==> text::text_lt(
                (#[trigger] s.outputs@[i])@.path,
                (#[trigger] s.outputs@[j])@.path,
            ),
{
    let outs = named_outputs(before, after, root, artifacts, dirs);
    let keep = |o: Output| under_any(o.path, root, dirs);
    let files = changed(before, after);
    let filtered = files.filter(keep);
    let named = artifacts.map_values(|a: Seq<char>| output_at(after, paths::absolute(root, a)));
    lemma_changed_holds(before, after, o);
    assert forall|k: int| 0 <= k < outs.len() implies #[trigger] outs[k] == output_at(
        after,
        outs[k].path,
    ) by {
        if k < filtered.len() {
            assert(outs[k] == filtered[k]);
            assert(filtered.contains(filtered[k]));
            files.lemma_filter_contains_rev(keep, filtered[k]);
            lemma_changed_holds(before, after, filtered[k]);
        } else {
            assert(outs[k] == named[k - filtered.len()]);
        }
    }
    assert forall|k: int, l: int|
        0 <= k < outs.len() && 0 <= l < outs.len() && (#[trigger] outs[k]).path == (
        #[trigger] outs[l]).path implies outs[k] == outs[l] by {}
    lemma_arranged_holds(outs, o);
    let r = output_views(s.outputs@);
    assert(r == arranged(outs));
    assert forall|i: int, j: int| 0 <= i < j < s.outputs@.len() implies text::text_lt(
        (#[trigger] s.outputs@[i])@.path,
        (#[trigger] s.outputs@[j])@.path,
    ) by {
        assert(r[i] == s.outputs@[i]@ && r[j] == s.outputs@[j]@);
    }
    if outs.contains(o) {
        let k = choose|k: int| 0 <= k < outs.len() && outs[k] == o;
        if k < filtered.len() {
            assert(outs[k] == filtered[k]);
            assert(filtered.contains(o));
            files.lemma_filter_contains_rev(keep, o);
            assert(keep(o)) by {
                files.lemma_filter_pred(keep, k);
            }
            let i = choose|i: int|
                0 <= i < dirs.len() && paths::is_under(
                    o.path,
                    paths::absolute(root, #[trigger] dirs[i]),
                );
            assert(is_in_named_directory(o.path, root, dirs));
        } else {
            let i = k - filtered.len();
            assert(outs[k] == named[i]);
            assert(problem_of(after, root, artifacts, i) is None);
            assert(paths::absolute(root, artifacts[i]) == o.path);
        }
    }
    if is_file_with(after, o.path, o.hash) && is_named(o.path, root, artifacts) {
        let i = choose|i: int|
            0 <= i < artifacts.len() && paths::absolute(root, #[trigger] artifacts[i]) == o.path;
        assert(outs[filtered.len() + i] == named[i]);
        assert(named[i] == o);
        assert(outs.contains(o));
    }
    if is_file_with(after, o.path, o.hash) && is_other(before, after, o.path)
        && is_in_named_directory(o.path, root, dirs) {
        let i = choose|i: int|
            0 <= i < dirs.len() && paths::is_under(
                o.path,
                paths::absolute(root, #[trigger] dirs[i]),
            );
        assert(keep(o));
        assert(files.contains(o));
        let m = choose|m: int| 0 <= m < files.len() && files[m] == o;
        files.lemma_filter_contains(keep, m);
        let k = choose|k: int| 0 <= k < filtered.len() && filtered[k] == o;
        assert(outs[k] == o);
    }
}

/// Selection fails exactly where something is wrong with an artifact, and reports
/// the first one: it does not exist, it is no regular file, or its content is not
/// known.
pub proof fn law_the_first_bad_artifact_is_reported(
    result: Result<SelectedOutputs, ArtifactError>,
    before: Map<Seq<char>, Entry>,
    after: Map<Seq<char>, Entry>,
    root: Seq<char>,
    artifacts: Seq<Seq<char>>,
    dirs: Seq<Seq<char>>,
    i: int,
)
    requires
        is_selection(result, before, after, root, artifacts, dirs),
        0 <= i < artifacts.len(),
        forall|h: Seq<char>| !#[trigger] is_file_with(
            after,
            paths::absolute(root, artifacts[i]),
            h,
        ),
        forall|k: int|
            0 <= k < i ==> exists|h: Seq<char>| #[trigger]
                is_file_with(after, paths::absolute(root, #[trigger] artifacts[k]), h),
    ensures
        match result {
            Ok(_) => false,
            Err(e) => {
                let path = paths::absolute(root, artifacts[i]);
                &&& e.artifact@ == artifacts[i]
                &&& e.problem == (if !after.contains_key(path) {
                    ArtifactProblem::Missing
                } else if after[path].kind == EntryKind::File {
                    ArtifactProblem::NotHashed
                } else {
                    ArtifactProblem::NotRegular
                })
            },
        },
{
    let path = paths::absolute(root, artifacts[i]);
    assert(problem_of(after, root, artifacts, i) is Some) by {
        if problem_at(after, path) is None {
            assert(is_file_with(after, path, after[path].hash->0));
        }
    }
    if let Err(e) = result {
        let k = choose|k: int|
            {
                &&& 0 <= k < artifacts.len()
                &&& #[trigger] problem_of(after, root, artifacts, k) == Some(e.problem)
                &&& e.artifact@ == artifacts[k]
                &&& forall|l: int|
                    0 <= l < k ==> #[trigger] problem_of(after, root, artifacts, l) is None
            };
        if i < k {
            assert(problem_of(after, root, artifacts, i) is None);
        }
        if k < i {
            let h = choose|h: Seq<char>| #[trigger]
                is_file_with(after, paths::absolute(root, artifacts[k]), h);
            assert(problem_of(after, root, artifacts, k) is None);
        }
    }
}

/// Where every artifact is a regular file with known content, selection succeeds.
pub proof fn law_good_artifacts_are_accepted(
    result: Result<SelectedOutputs, ArtifactError>,
    before: Map<Seq<char>, Entry>,
    after: Map<Seq<char>, Entry>,
    root: Seq<char>,
    artifacts: Seq<Seq<char>>,
    dirs: Seq<Seq<char>>,
)
    requires
        is_selection(result, before, after, root, artifacts, dirs),
        forall|k: int|
            0 <= k < artifacts.len() ==> exists|h: Seq<char>| #[trigger]
                is_file_with(after, paths::absolute(root, #[trigger] artifacts[k]), h),
    ensures
        result is Ok,
{
    if let Err(e) = result {
        let k = choose|k: int|
            {
                &&& 0 <= k < artifacts.len()
                &&& #[trigger] problem_of(after, root, artifacts, k) == Some(e.problem)
                &&& e.artifact@ == artifacts[k]
                &&& forall|l: int|
                    0 <= l < k ==> #[trigger] problem_of(after, root, artifacts, l) is None
            };
        let h = choose|h: Seq<char>| #[trigger]
            is_file_with(after, paths::absolute(root, artifacts[k]), h);
    }
}

/// Whether a walk records one thing at a path and changes nothing else.
pub open spec fn only_records(before: Walked, after: Walked, path: Seq<char>, entry: Entry) -> bool {
    &&& after.seen == before.seen
    &&& after.complete == before.complete
    &&& after.entries.contains_key(path)
    &&& after.entries[path] == entry
    &&& forall|other: Seq<char>|
        other != path ==> (#[trigger] after.entries.contains_key(other)
            == before.entries.contains_key(other) && after.entries[other] == before.entries[other])
}

/// A regular file is recorded by its content where that could be read, and not at
/// all otherwise; nothing is recorded of what is absent or of another kind.
pub proof fn law_files_are_recorded_by_content(s: Walked, path: Seq<char>, data: Vec<u8>)
    requires
        s.complete,
    ensures
        only_records(
            s,
            walked(s, path, Found::File(FileProbe::Content(data))),
            path,
            (Entry {
                kind: EntryKind::File,
                hash: Some(crate::digest::hash_text(data@)),
                target: None,
            }),
        ),
        walked(s, path, Found::File(FileProbe::Missing)) == s,
        walked(s, path, Found::File(FileProbe::Unreadable)) == s,
        walked(s, path, Found::File(FileProbe::NonRegular)) == s,
        walked(s, path, Found::Absent) == s,
        walked(s, path, Found::Other) == s,
{
}

/// A link that leads to a regular file is recorded as that file, with where it
/// leads; any other link is recorded as a link.
pub proof fn law_links_are_followed_to_files(
    s: Walked,
    path: Seq<char>,
    target: Option<String>,
    data: Vec<u8>,
)
    requires
        s.complete,
    ensures
        only_records(
            s,
            walked(
                s,
                path,
                Found::Symlink { target, content: Some(FileProbe::Content(data)) },
            ),
            path,
            (Entry {
                kind: EntryKind::File,
                hash: Some(crate::digest::hash_text(data@)),
                target: text::opt_text(target),
            }),
        ),
        only_records(
            s,
            walked(s, path, Found::Symlink { target, content: None }),
            path,
            (Entry { kind: EntryKind::Symlink, hash: None, target: text::opt_text(target) }),
        ),
        only_records(
            s,
            walked(s, path, Found::Symlink { target, content: Some(FileProbe::Unreadable) }),
            path,
            (Entry { kind: EntryKind::Symlink, hash: None, target: text::opt_text(target) }),
        ),
{
}

/// A directory is recorded and what it holds is walked in order, one thing after
/// the other, each at its name in the directory; but one whose canonical path was
/// walked before is only recorded, and one of version control is passed over.
pub proof fn law_directories_are_walked_once(
    s: Walked,
    path: Seq<char>,
    canonical: String,
    children: Vec<Child>,
    before: Seq<Child>,
    child: Child,
)
    requires
        s.complete,
    ensures
        ({
            let found = Found::Directory { canonical: Some(canonical), children };
            let entered = Walked {
                entries: s.entries.insert(
                    path,
                    Entry { kind: EntryKind::Directory, hash: None, target: None },
                ),
                ..s
            };
            let names = paths::components(path);
            let hidden = names.len() > 0 && names[names.len() - 1] == ".git"@;
            &&& hidden ==> walked(s, path, found) == s
            &&& !hidden && s.seen.contains(canonical@) ==> walked(s, path, found) == entered
            &&& !hidden && !s.seen.contains(canonical@) ==> walked(s, path, found) == walked_all(
                Walked { seen: s.seen.insert(canonical@), ..entered },
                path,
                children@,
            )
            &&& walked_all(s, path, Seq::empty()) == s
            &&& walked_all(s, path, before.push(child)) == walked(
                walked_all(s, path, before),
                paths::joined(path, child.name@),
                child.found,
            )
        }),
{
    let longer = before.push(child);
    assert(longer.subrange(0, longer.len() - 1) =~= before);
    assert(longer[longer.len() - 1] == child);
}

/// A directory without a canonical path ends a walk: nothing that comes later is
/// recorded, and there is no snapshot.
pub proof fn law_a_broken_walk_stays_broken(
    s: Walked,
    path: Seq<char>,
    children: Vec<Child>,
    found: Found,
    later: Seq<char>,
)
    requires
        s.complete,
        !is_git(path),
    ensures
        ({
            let broken = walked(s, path, Found::Directory { canonical: None, children });
            !broken.complete && walked(broken, later, found) == broken
        }),
{
}

} // verus!
