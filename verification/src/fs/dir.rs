//! A directory tree as a walk recorded it, and searches and totals over it.

use vstd::prelude::*;
use dashmap::DashMap;
use std::path::PathBuf;
use crate::error::{Error, FileSystemError};
use crate::fs::file::File;

verus! {

/// `PathBuf::from` applied to a name: the path made of that one component.
#[verifier::external_body]
fn path_of(name: &str) -> (p: PathBuf) {
    PathBuf::from(name)
}

/// The size and the number of files and directories below a directory.
pub struct DirStats {
    pub total_size: u64,
    pub file_count: u64,
    pub dir_count: u64,
}

/// What a name index holds: the slot recorded for each name in it.
pub uninterp spec fn named_slots(index: DashMap<String, usize>) -> Map<Seq<char>, usize>;

/// `DashMap::new` makes an empty map.
#[verifier::external_body]
fn names_new() -> (r: DashMap<String, usize>)
    ensures
        forall|name: Seq<char>| !named_slots(r).contains_key(name),
{
    DashMap::new()
}

/// `DashMap::insert` records `slot` for `name`, in place of the slot
/// recorded before, which it returns.
#[verifier::external_body]
fn names_insert(index: &mut DashMap<String, usize>, name: String, slot: usize) -> (prev: Option<
    usize,
>)
    ensures
        named_slots(*final(index)) == named_slots(*old(index)).insert(name@, slot),
        prev == if named_slots(*old(index)).contains_key(name@) {
            Some(named_slots(*old(index))[name@])
        } else {
            None::<usize>
        },
{
    index.insert(name, slot)
}

/// `DashMap::get` looks up the slot recorded for `name`; the map stays as it
/// is.
#[verifier::external_body]
fn names_get(index: &DashMap<String, usize>, name: &str) -> (slot: Option<usize>)
    ensures
        slot == if named_slots(*index).contains_key(name@) {
            Some(named_slots(*index)[name@])
        } else {
            None::<usize>
        },
{
    match index.get(name) {
        Some(entry) => Some(*entry),
        None => None,
    }
}

/// `DashMap::remove` takes the entry of `name` out of the map and returns
/// the slot it recorded.
#[verifier::external_body]
fn names_remove(index: &mut DashMap<String, usize>, name: &str) -> (slot: Option<usize>)
    ensures
        named_slots(*final(index)) == named_slots(*old(index)).remove(name@),
        slot == if named_slots(*old(index)).contains_key(name@) {
            Some(named_slots(*old(index))[name@])
        } else {
            None::<usize>
        },
{
    match index.remove(name) {
        Some((_, slot)) => Some(slot),
        None => None,
    }
}

/// A directory with what a walk recorded below it. Files are known by their
/// name and subdirectories by their path, one of each name; two hash
/// indexes find the slot an entry stands in.
pub struct Directory {
    pub path: String,
    pub subdirectories: Vec<Directory>,
    pub subfiles: Vec<File>,
    pub file_slots: DashMap<String, usize>,
    pub dir_slots: DashMap<String, usize>,
}

/// Whether `index` records for each of `names` the slot it stands in, and
/// for no other name.
pub open spec fn indexed(names: Seq<Seq<char>>, index: DashMap<String, usize>) -> bool {
    &&& forall|i: int|
        0 <= i < names.len() ==> named_slots(index).contains_key(#[trigger] names[i])
            && named_slots(index)[names[i]] == i
    &&& forall|name: Seq<char>| #[trigger]
        named_slots(index).contains_key(name) ==> named_slots(index)[name] < names.len()
            && names[named_slots(index)[name] as int] == name
}

/// The entries `items` once the one in slot `slot` is taken out and the last
/// is moved into its place.
pub open spec fn without_slot<A>(items: Seq<A>, slot: int) -> Seq<A> {
    items.update(slot, items.last()).drop_last()
}

/// An entry of a tree: a directory or a file in it.
#[derive(Clone, Copy)]
pub enum Node<'a> {
    Dir(&'a Directory),
    File(&'a File),
}

/// What was taken out of a directory.
pub enum Detached {
    File(File),
    Dir(Directory),
}

/// Whether `names` holds `name` nowhere.
pub open spec fn absent(names: Seq<Seq<char>>, name: Seq<char>) -> bool {
    forall|j: int| 0 <= j < names.len() ==> names[j] != name
}

/// The names of `files`, in order.
pub open spec fn file_names(files: Seq<File>) -> Seq<Seq<char>> {
    Seq::new(files.len(), |i: int| files[i].name@)
}

/// The paths of `dirs`, in order.
pub open spec fn dir_paths(dirs: Seq<Directory>) -> Seq<Seq<char>> {
    Seq::new(dirs.len(), |i: int| dirs[i].path@)
}

/// Exact totals of a tree.
pub struct Totals {
    pub size: int,
    pub files: int,
    pub dirs: int,
}

impl Totals {
    /// The sum of two totals, count by count.
    pub open spec fn plus(self, other: Totals) -> Totals {
        Totals {
            size: self.size + other.size,
            files: self.files + other.files,
            dirs: self.dirs + other.dirs,
        }
    }

    /// Whether every count fits a `u64`.
    pub open spec fn fits(self) -> bool {
        self.size <= u64::MAX && self.files <= u64::MAX && self.dirs <= u64::MAX
    }

    /// Whether no count is below the corresponding count of `other`.
    pub open spec fn at_least(self, other: Totals) -> bool {
        self.size >= other.size && self.files >= other.files && self.dirs >= other.dirs
    }
}

/// The sum of the sizes of the first `n` of `files`.
pub open spec fn files_size(files: Seq<File>, n: int) -> int
    decreases n,
{
    if n <= 0 || n > files.len() {
        0
    } else {
        files_size(files, n - 1) + files[n - 1].size
    }
}

/// The totals of everything below `d`: its own files and directories and
/// those of every directory under it.
pub open spec fn totals(d: Directory) -> Totals
    decreases d,
{
    (Totals {
        size: files_size(d.subfiles@, d.subfiles@.len() as int),
        files: d.subfiles@.len() as int,
        dirs: d.subdirectories@.len() as int,
    }).plus(totals_below(d, d.subdirectories@.len() as int))
}

/// The totals of the first `n` subdirectories of `parent`.
pub open spec fn totals_below(parent: Directory, n: int) -> Totals
    decreases parent, n,
{
    if n <= 0 || n > parent.subdirectories@.len() {
        Totals { size: 0, files: 0, dirs: 0 }
    } else {
        totals_below(parent, n - 1).plus(totals(parent.subdirectories@[n - 1]))
    }
}

/// The entries of a tree in the order a search visits them: the files of the
/// directory, then each subdirectory followed by its own entries.
pub open spec fn walk<'a>(d: &'a Directory) -> Seq<Node<'a>>
    decreases d,
{
    Seq::new(d.subfiles@.len(), |i: int| Node::File(&d.subfiles@[i])) + walk_below(
        d,
        d.subdirectories@.len() as int,
    )
}

/// The entries of the first `n` subdirectories of `parent`, in visiting
/// order.
pub open spec fn walk_below<'a>(parent: &'a Directory, n: int) -> Seq<Node<'a>>
    decreases parent, n,
{
    if n <= 0 || n > parent.subdirectories@.len() {
        Seq::empty()
    } else {
        walk_below(parent, n - 1) + seq![Node::Dir(&parent.subdirectories@[n - 1])] + walk(
            &parent.subdirectories@[n - 1],
        )
    }
}

/// The entries visited once the files and the first `n` subdirectories of
/// `d` have been searched; with all subdirectories, the whole walk.
pub open spec fn visited<'a>(d: &'a Directory, n: int) -> Seq<Node<'a>> {
    Seq::new(d.subfiles@.len(), |i: int| Node::File(&d.subfiles@[i])) + walk_below(d, n)
}

/// The entries of `entries` whose verdict is `true`, in order.
pub open spec fn chosen<'a>(entries: Seq<Node<'a>>, verdicts: Seq<bool>) -> Seq<Node<'a>>
    decreases entries.len(),
{
    if entries.len() == 0 || verdicts.len() != entries.len() {
        Seq::empty()
    } else if verdicts.last() {
        chosen(entries.drop_last(), verdicts.drop_last()).push(entries.last())
    } else {
        chosen(entries.drop_last(), verdicts.drop_last())
    }
}

/// Whether `verdicts` holds, entry by entry, an answer that `predicate` may
/// give.
pub open spec fn answers<'a, P: Fn(&Node<'a>) -> bool>(
    predicate: &P,
    entries: Seq<Node<'a>>,
    verdicts: Seq<bool>,
) -> bool {
    &&& verdicts.len() == entries.len()
    &&& forall|j: int|
        0 <= j < entries.len() ==> predicate.ensures((&#[trigger] entries[j],), verdicts[j])
}

/// What was visited after `k` subdirectories is the beginning of what is
/// visited after `n`.
pub proof fn lemma_visited_prefix(d: &Directory, k: int, n: int)
    requires
        0 <= k <= n <= d.subdirectories@.len(),
    ensures
        visited(d, k).len() <= visited(d, n).len(),
        forall|j: int| 0 <= j < visited(d, k).len() ==> visited(d, n)[j] == visited(d, k)[j],
    decreases n - k,
{
    if k < n {
        lemma_visited_prefix(d, k, n - 1);
        assert(visited(d, n) =~= visited(d, n - 1) + seq![Node::Dir(&d.subdirectories@[n - 1])]
            + walk(&d.subdirectories@[n - 1]));
    }
}

/// Choosing from a concatenation is concatenating the choices.
pub proof fn lemma_chosen_concat<'a>(
    a: Seq<Node<'a>>,
    va: Seq<bool>,
    b: Seq<Node<'a>>,
    vb: Seq<bool>,
)
    requires
        a.len() == va.len(),
        b.len() == vb.len(),
    ensures
        chosen(a + b, va + vb) == chosen(a, va) + chosen(b, vb),
    decreases b.len(),
{
    if b.len() == 0 {
        assert(a + b =~= a);
        assert(va + vb =~= va);
        assert(chosen(a, va) + chosen(b, vb) =~= chosen(a, va));
    } else {
        assert((a + b).drop_last() =~= a + b.drop_last());
        assert((va + vb).drop_last() =~= va + vb.drop_last());
        assert((a + b).last() == b.last());
        assert((va + vb).last() == vb.last());
        lemma_chosen_concat(a, va, b.drop_last(), vb.drop_last());
        let x = chosen(a, va);
        let y = chosen(b.drop_last(), vb.drop_last());
        assert((x + y).push(b.last()) =~= x + y.push(b.last()));
    }
}

/// No count of a tree is negative.
pub proof fn lemma_totals_nonneg(d: Directory)
    ensures
        totals(d).at_least(Totals { size: 0, files: 0, dirs: 0 }),
    decreases d,
{
    lemma_files_size_nonneg(d.subfiles@, d.subfiles@.len() as int);
    lemma_totals_below_nonneg(d, d.subdirectories@.len() as int);
}

/// No count of the first `n` subdirectories is negative, and the counts
/// never shrink as `n` grows.
pub proof fn lemma_totals_below_nonneg(parent: Directory, n: int)
    ensures
        totals_below(parent, n).at_least(Totals { size: 0, files: 0, dirs: 0 }),
        0 < n <= parent.subdirectories@.len() ==> totals_below(parent, n).at_least(
            totals_below(parent, n - 1),
        ) && totals_below(parent, n).at_least(totals(parent.subdirectories@[n - 1])),
    decreases parent, n,
{
    if 0 < n <= parent.subdirectories@.len() {
        lemma_totals_below_nonneg(parent, n - 1);
        lemma_totals_nonneg(parent.subdirectories@[n - 1]);
    }
}

/// The sizes summed are never negative and never shrink as `n` grows.
pub proof fn lemma_files_size_nonneg(files: Seq<File>, n: int)
    ensures
        files_size(files, n) >= 0,
        0 < n <= files.len() ==> files_size(files, n) >= files_size(files, n - 1),
    decreases n,
{
    if 0 < n <= files.len() {
        lemma_files_size_nonneg(files, n - 1);
    }
}

/// The counts of a prefix of the subdirectories are no more than those of
/// all of them.
pub proof fn lemma_totals_below_monotone(parent: Directory, n: int, m: int)
    requires
        0 <= n <= m <= parent.subdirectories@.len(),
    ensures
        totals_below(parent, m).at_least(totals_below(parent, n)),
    decreases m - n,
{
    if n < m {
        lemma_totals_below_monotone(parent, n, m - 1);
        lemma_totals_below_nonneg(parent, m);
    }
}

/// The sizes of a prefix of the files sum to no more than those of all.
pub proof fn lemma_files_size_monotone(files: Seq<File>, n: int, m: int)
    requires
        0 <= n <= m <= files.len(),
    ensures
        files_size(files, m) >= files_size(files, n),
    decreases m - n,
{
    if n < m {
        lemma_files_size_monotone(files, n, m - 1);
        lemma_files_size_nonneg(files, m);
    }
}

impl DirStats {
    /// The totals of a directory that directly holds `file_count` files and
    /// `dir_count` directories, before any size is counted.
    pub fn new(file_count: u64, dir_count: u64) -> (r: Self)
        ensures
            r.total_size == 0,
            r.file_count == file_count,
            r.dir_count == dir_count,
    {
        DirStats { total_size: 0, file_count, dir_count }
    }

    /// The counts as exact totals.
    pub open spec fn view(&self) -> Totals {
        Totals {
            size: self.total_size as int,
            files: self.file_count as int,
            dirs: self.dir_count as int,
        }
    }

    /// Whether `sub` can be added without a count leaving the `u64` range.
    pub open spec fn fits(&self, sub: &DirStats) -> bool {
        self@.plus(sub@).fits()
    }

    /// Counts the size of one file.
    pub fn add_file(&mut self, size: u64)
        requires
            old(self).total_size + size <= u64::MAX,
        ensures
            final(self).total_size == old(self).total_size + size,
            final(self).file_count == old(self).file_count,
            final(self).dir_count == old(self).dir_count,
    {
        self.total_size += size;
    }

    /// Adds the totals of a subdirectory.
    pub fn add_subdirectory(&mut self, sub: &DirStats)
        requires
            old(self).fits(sub),
        ensures
            final(self)@ == old(self)@.plus(sub@),
    {
        self.total_size += sub.total_size;
        self.file_count += sub.file_count;
        self.dir_count += sub.dir_count;
    }

    /// Adds the totals of a subdirectory if every count stays in range, and
    /// says whether it did.
    pub fn try_add_subdirectory(&mut self, sub: &DirStats) -> (done: bool)
        ensures
            done == old(self).fits(sub),
            done ==> final(self)@ == old(self)@.plus(sub@),
            !done ==> *final(self) == *old(self),
    {
        if sub.total_size <= u64::MAX - self.total_size && sub.file_count <= u64::MAX
            - self.file_count && sub.dir_count <= u64::MAX - self.dir_count {
            self.add_subdirectory(sub);
            true
        } else {
            false
        }
    }
}

impl Directory {
    /// The directory invariant: the two indexes record the slot of every
    /// file by its name and of every subdirectory by its path.
    pub open spec fn wf(&self) -> bool {
        &&& indexed(file_names(self.subfiles@), self.file_slots)
        &&& indexed(dir_paths(self.subdirectories@), self.dir_slots)
    }

    /// An empty directory at `path`.
    pub fn new(path: String) -> (r: Self)
        ensures
            r.wf(),
            r.path == path,
            r.subdirectories@.len() == 0,
            r.subfiles@.len() == 0,
    {
        Directory {
            path,
            subdirectories: Vec::new(),
            subfiles: Vec::new(),
            file_slots: names_new(),
            dir_slots: names_new(),
        }
    }

    /// Records `file`: in the slot of the file of the same name, which it
    /// replaces, or else in a new slot at the end.
    pub fn add_file(&mut self, file: File)
        requires
            old(self).wf(),
        ensures
            final(self).wf(),
            final(self).path == old(self).path,
            final(self).subdirectories == old(self).subdirectories,
            final(self).subfiles@ == if named_slots(old(self).file_slots).contains_key(file.name@) {
                old(self).subfiles@.update(
                    named_slots(old(self).file_slots)[file.name@] as int,
                    file,
                )
            } else {
                old(self).subfiles@.push(file)
            },
    {
        let ghost before = file_names(self.subfiles@);
        match names_get(&self.file_slots, file.name.as_str()) {
            Some(slot) => {
                self.subfiles.set(slot, file);
                proof {
                    assert(file_names(self.subfiles@) =~= before);
                }
            },
            None => {
                let slot: usize = self.subfiles.len();
                let _ = names_insert(&mut self.file_slots, file.name.clone(), slot);
                self.subfiles.push(file);
                proof {
                    assert(file_names(self.subfiles@) =~= before.push(file.name@));
                    lemma_indexed_push(before, old(self).file_slots, self.file_slots, file.name@);
                }
            },
        }
    }

    /// Records the subdirectory `dir`: in the slot of the subdirectory of the
    /// same path, which it replaces, or else in a new slot at the end.
    pub fn add_directory(&mut self, dir: Directory)
        requires
            old(self).wf(),
        ensures
            final(self).wf(),
            final(self).path == old(self).path,
            final(self).subfiles == old(self).subfiles,
            final(self).subdirectories@ == if named_slots(old(self).dir_slots).contains_key(
                dir.path@,
            ) {
                old(self).subdirectories@.update(
                    named_slots(old(self).dir_slots)[dir.path@] as int,
                    dir,
                )
            } else {
                old(self).subdirectories@.push(dir)
            },
    {
        let ghost before = dir_paths(self.subdirectories@);
        match names_get(&self.dir_slots, dir.path.as_str()) {
            Some(slot) => {
                self.subdirectories.set(slot, dir);
                proof {
                    assert(dir_paths(self.subdirectories@) =~= before);
                }
            },
            None => {
                let slot: usize = self.subdirectories.len();
                let _ = names_insert(&mut self.dir_slots, dir.path.clone(), slot);
                self.subdirectories.push(dir);
                proof {
                    assert(dir_paths(self.subdirectories@) =~= before.push(dir.path@));
                    lemma_indexed_push(before, old(self).dir_slots, self.dir_slots, dir.path@);
                }
            },
        }
    }

    /// The totals of the tree, or `None` where one of them exceeds the `u64`
    /// range.
    pub fn stats(&self) -> (r: Option<DirStats>)
        ensures
            match r {
                Some(s) => s@ == totals(*self),
                None => !totals(*self).fits(),
            },
        decreases self,
    {
        let files: usize = self.subfiles.len();
        let dirs: usize = self.subdirectories.len();
        let mut stats = DirStats::new(files as u64, dirs as u64);
        let mut i: usize = 0;
        proof {
            lemma_totals_below_nonneg(*self, dirs as int);
        }
        while i < files
            invariant
                0 <= i <= files,
                files == self.subfiles@.len(),
                dirs == self.subdirectories@.len(),
                stats.total_size == files_size(self.subfiles@, i as int),
                stats.file_count == files,
                stats.dir_count == dirs,
                totals_below(*self, dirs as int).at_least(Totals { size: 0, files: 0, dirs: 0 }),
            decreases files - i,
        {
            let size: u64 = self.subfiles[i].size;
            if size > u64::MAX - stats.total_size {
                proof {
                    lemma_files_size_monotone(self.subfiles@, i + 1, files as int);
                }
                return None;
            }
            stats.add_file(size);
            i += 1;
        }
        let mut k: usize = 0;
        while k < dirs
            invariant
                0 <= k <= dirs,
                files == self.subfiles@.len(),
                dirs == self.subdirectories@.len(),
                stats@ == (Totals {
                    size: files_size(self.subfiles@, files as int),
                    files: files as int,
                    dirs: dirs as int,
                }).plus(totals_below(*self, k as int)),
            decreases dirs - k,
        {
            proof {
                lemma_totals_below_monotone(*self, k + 1, dirs as int);
                lemma_totals_below_nonneg(*self, k + 1);
            }
            match self.subdirectories[k].stats() {
                Some(sub) => {
                    if !stats.try_add_subdirectory(&sub) {
                        return None;
                    }
                },
                None => {
                    return None;
                },
            }
            k += 1;
        }
        Some(stats)
    }

    /// The first entry, in visiting order, for which `predicate` answers
    /// `true`; `None` where it answers `false` for every entry.
    pub fn find<'a, P: Fn(&Node<'a>) -> bool>(&'a self, predicate: &P) -> (r: Option<Node<'a>>)
        requires
            forall|n: Node<'a>| #[trigger] predicate.requires((&n,)),
        ensures
            match r {
                Some(found) => exists|i: int|
                    {
                        &&& 0 <= i < walk(self).len()
                        &&& #[trigger] walk(self)[i] == found
                        &&& predicate.ensures((&found,), true)
                        &&& forall|j: int|
                            0 <= j < i ==> predicate.ensures((&#[trigger] walk(self)[j],), false)
                    },
                None => forall|j: int|
                    0 <= j < walk(self).len() ==> predicate.ensures(
                        (&#[trigger] walk(self)[j],),
                        false,
                    ),
            },
        decreases self,
    {
        let files: usize = self.subfiles.len();
        let dirs: usize = self.subdirectories.len();
        proof {
            assert(visited(self, dirs as int) =~= walk(self));
            assert(visited(self, 0).len() == files);
        }
        let mut i: usize = 0;
        while i < files
            invariant
                0 <= i <= files,
                files == self.subfiles@.len(),
                dirs == self.subdirectories@.len(),
                visited(self, dirs as int) == walk(self),
                forall|n: Node<'a>| #[trigger] predicate.requires((&n,)),
                forall|j: int| 0 <= j < i ==> predicate.ensures((&#[trigger] walk(self)[j],), false),
            decreases files - i,
        {
            let node = Node::File(&self.subfiles[i]);
            proof {
                lemma_visited_prefix(self, 0, dirs as int);
                assert(visited(self, 0)[i as int] == node);
                assert(walk(self)[i as int] == node);
            }
            if predicate(&node) {
                return Some(node);
            }
            i += 1;
        }
        let mut k: usize = 0;
        while k < dirs
            invariant
                0 <= k <= dirs,
                files == self.subfiles@.len(),
                dirs == self.subdirectories@.len(),
                visited(self, dirs as int) == walk(self),
                forall|n: Node<'a>| #[trigger] predicate.requires((&n,)),
                forall|j: int|
                    0 <= j < visited(self, k as int).len() ==> predicate.ensures(
                        (&#[trigger] walk(self)[j],),
                        false,
                    ),
            decreases dirs - k,
        {
            let sub = &self.subdirectories[k];
            let node = Node::Dir(sub);
            let ghost seen = visited(self, k as int).len() as int;
            proof {
                lemma_visited_prefix(self, k as int, dirs as int);
                lemma_visited_prefix(self, k + 1, dirs as int);
                assert(visited(self, k + 1) =~= visited(self, k as int) + seq![node] + walk(sub));
                assert(visited(self, k + 1)[seen] == node);
                assert(walk(self)[seen] == node);
            }
            if predicate(&node) {
                return Some(node);
            }
            match sub.find(predicate) {
                Some(found) => {
                    proof {
                        let inner = choose|inner: int|
                            {
                                &&& 0 <= inner < walk(sub).len()
                                &&& #[trigger] walk(sub)[inner] == found
                                &&& predicate.ensures((&found,), true)
                                &&& forall|j: int|
                                    0 <= j < inner ==> predicate.ensures(
                                        (&#[trigger] walk(sub)[j],),
                                        false,
                                    )
                            };
                        let at = seen + 1 + inner;
                        assert(visited(self, k + 1)[at] == walk(sub)[inner]);
                        assert(walk(self)[at] == found);
                        assert forall|j: int| 0 <= j < at implies predicate.ensures(
                            (&#[trigger] walk(self)[j],),
                            false,
                        ) by {
                            if j > seen {
                                assert(visited(self, k + 1)[j] == walk(sub)[j - seen - 1]);
                                assert(walk(self)[j] == walk(sub)[j - seen - 1]);
                            }
                        }
                    }
                    return Some(found);
                },
                None => {
                    proof {
                        assert forall|j: int| 0 <= j < visited(self, k + 1).len() implies predicate.ensures(
                            (&#[trigger] walk(self)[j],),
                            false,
                        ) by {
                            if j > seen {
                                assert(visited(self, k + 1)[j] == walk(sub)[j - seen - 1]);
                                assert(walk(self)[j] == walk(sub)[j - seen - 1]);
                            }
                        }
                    }
                },
            }
            k += 1;
        }
        None
    }

    /// Appends to `results` every entry for which `predicate` answers
    /// `true`, in visiting order.
    pub fn find_all<'a, P: Fn(&Node<'a>) -> bool>(
        &'a self,
        predicate: &P,
        results: &mut Vec<Node<'a>>,
    )
        requires
            forall|n: Node<'a>| #[trigger] predicate.requires((&n,)),
        ensures
            exists|verdicts: Seq<bool>| #[trigger]
                answers(predicate, walk(self), verdicts) && final(results)@ == old(results)@
                    + chosen(walk(self), verdicts),
        decreases self,
    {
        let files: usize = self.subfiles.len();
        let dirs: usize = self.subdirectories.len();
        let ghost mut verdicts: Seq<bool> = Seq::empty();
        let ghost mut entries: Seq<Node<'a>> = Seq::empty();
        proof {
            assert(visited(self, dirs as int) =~= walk(self));
            assert(old(results)@ + chosen(entries, verdicts) =~= old(results)@);
        }
        let mut i: usize = 0;
        while i < files
            invariant
                0 <= i <= files,
                files == self.subfiles@.len(),
                dirs == self.subdirectories@.len(),
                forall|n: Node<'a>| #[trigger] predicate.requires((&n,)),
                entries == visited(self, 0).take(i as int),
                answers(predicate, entries, verdicts),
                results@ == old(results)@ + chosen(entries, verdicts),
            decreases files - i,
        {
            let node = Node::File(&self.subfiles[i]);
            let keep = predicate(&node);
            proof {
                let grown = entries.push(node);
                let told = verdicts.push(keep);
                assert(visited(self, 0).take(i + 1) =~= grown);
                assert(grown.drop_last() =~= entries);
                assert(told.drop_last() =~= verdicts);
                assert forall|j: int| 0 <= j < grown.len() implies predicate.ensures(
                    (&#[trigger] grown[j],),
                    told[j],
                ) by {
                    if j < entries.len() {
                        assert(grown[j] == entries[j]);
                    }
                }
                if keep {
                    assert(old(results)@ + chosen(grown, told) =~= (old(results)@ + chosen(
                        entries,
                        verdicts,
                    )).push(node));
                }
                entries = grown;
                verdicts = told;
            }
            if keep {
                results.push(node);
            }
            i += 1;
        }
        proof {
            assert(visited(self, 0).take(files as int) =~= visited(self, 0));
        }
        let mut k: usize = 0;
        while k < dirs
            invariant
                0 <= k <= dirs,
                files == self.subfiles@.len(),
                dirs == self.subdirectories@.len(),
                forall|n: Node<'a>| #[trigger] predicate.requires((&n,)),
                entries == visited(self, k as int),
                answers(predicate, entries, verdicts),
                results@ == old(results)@ + chosen(entries, verdicts),
            decreases dirs - k,
        {
            let sub = &self.subdirectories[k];
            let node = Node::Dir(sub);
            let keep = predicate(&node);
            let ghost before = results@;
            if keep {
                results.push(node);
            }
            let ghost mid = results@;
            sub.find_all(predicate, results);
            proof {
                let inner = choose|inner: Seq<bool>| #[trigger]
                    answers(predicate, walk(sub), inner) && results@ == mid + chosen(walk(sub), inner);
                let one = seq![node];
                let one_told = seq![keep];
                assert(one.drop_last() =~= Seq::<Node<'a>>::empty());
                assert(one_told.drop_last() =~= Seq::<bool>::empty());
                assert(chosen(one.drop_last(), one_told.drop_last()) =~= Seq::<Node<'a>>::empty());
                assert(one.last() == node && one_told.last() == keep);
                assert(chosen(one, one_told) =~= if keep {
                    one
                } else {
                    Seq::<Node<'a>>::empty()
                });
                lemma_chosen_concat(entries, verdicts, one, one_told);
                lemma_chosen_concat(entries + one, verdicts + one_told, walk(sub), inner);
                let grown = entries + one + walk(sub);
                let told = verdicts + one_told + inner;
                assert(visited(self, k + 1) =~= grown);
                assert(mid =~= old(results)@ + chosen(entries + one, verdicts + one_told));
                assert(results@ =~= old(results)@ + chosen(grown, told));
                assert forall|j: int| 0 <= j < grown.len() implies predicate.ensures(
                    (&#[trigger] grown[j],),
                    told[j],
                ) by {
                    if j < entries.len() {
                        assert(grown[j] == entries[j]);
                    } else if j == entries.len() {
                        assert(grown[j] == node);
                    } else {
                        assert(grown[j] == walk(sub)[j - entries.len() - 1]);
                        assert(told[j] == inner[j - entries.len() - 1]);
                    }
                }
                entries = grown;
                verdicts = told;
            }
            k += 1;
        }
        proof {
            assert(entries == walk(self));
            assert(answers(predicate, walk(self), verdicts));
        }
    }

    /// Takes the entry called `name` out of the directory: the file of that
    /// name, or where there is none the subdirectory recorded under that
    /// path. The last entry of its kind moves into the slot left free. Where
    /// neither exists nothing changes and the path is reported as not found.
    pub fn remove(&mut self, name: &String) -> (r: Result<Detached, Error>)
        requires
            old(self).wf(),
        ensures
            final(self).wf(),
            final(self).path == old(self).path,
            match r {
                Ok(Detached::File(f)) => {
                    &&& named_slots(old(self).file_slots).contains_key(name@)
                    &&& f == old(self).subfiles@[named_slots(old(self).file_slots)[name@] as int]
                    &&& f.name@ == name@
                    &&& final(self).subfiles@ == without_slot(
                        old(self).subfiles@,
                        named_slots(old(self).file_slots)[name@] as int,
                    )
                    &&& final(self).subdirectories == old(self).subdirectories
                    &&& final(self).dir_slots == old(self).dir_slots
                },
                Ok(Detached::Dir(d)) => {
                    &&& absent(file_names(old(self).subfiles@), name@)
                    &&& named_slots(old(self).dir_slots).contains_key(name@)
                    &&& d == old(self).subdirectories@[named_slots(old(self).dir_slots)[name@] as int]
                    &&& d.path@ == name@
                    &&& final(self).subdirectories@ == without_slot(
                        old(self).subdirectories@,
                        named_slots(old(self).dir_slots)[name@] as int,
                    )
                    &&& final(self).subfiles == old(self).subfiles
                },
                Err(e) => {
                    &&& e matches Error::FileSystemError(FileSystemError::PathNotFound(_))
                    &&& absent(file_names(old(self).subfiles@), name@)
                    &&& absent(dir_paths(old(self).subdirectories@), name@)
                    &&& final(self).subfiles == old(self).subfiles
                    &&& final(self).subdirectories == old(self).subdirectories
                },
            },
    {
        let ghost files = file_names(self.subfiles@);
        let ghost dirs = dir_paths(self.subdirectories@);
        match names_remove(&mut self.file_slots, name.as_str()) {
            Some(slot) => {
                let last: usize = self.subfiles.len() - 1;
                let moved = self.subfiles[last].name.clone();
                let file = self.subfiles.swap_remove(slot);
                if slot != last {
                    let _ = names_insert(&mut self.file_slots, moved, slot);
                }
                proof {
                    assert(files[last as int] == moved@);
                    assert(file_names(self.subfiles@) =~= without_slot(files, slot as int));
                    lemma_indexed_without(files, old(self).file_slots, self.file_slots, name@);
                }
                return Ok(Detached::File(file));
            },
            None => {
                proof {
                    assert(named_slots(self.file_slots) =~= named_slots(old(self).file_slots));
                    assert(absent(files, name@)) by {
                        assert forall|j: int| 0 <= j < files.len() implies files[j] != name@ by {
                            assert(named_slots(old(self).file_slots).contains_key(files[j]));
                        }
                    }
                }
            },
        }
        match names_remove(&mut self.dir_slots, name.as_str()) {
            Some(slot) => {
                let last: usize = self.subdirectories.len() - 1;
                let moved = self.subdirectories[last].path.clone();
                let dir = self.subdirectories.swap_remove(slot);
                if slot != last {
                    let _ = names_insert(&mut self.dir_slots, moved, slot);
                }
                proof {
                    assert(dirs[last as int] == moved@);
                    assert(dir_paths(self.subdirectories@) =~= without_slot(dirs, slot as int));
                    lemma_indexed_without(dirs, old(self).dir_slots, self.dir_slots, name@);
                }
                Ok(Detached::Dir(dir))
            },
            None => {
                proof {
                    assert(named_slots(self.dir_slots) =~= named_slots(old(self).dir_slots));
                    assert(absent(dirs, name@)) by {
                        assert forall|j: int| 0 <= j < dirs.len() implies dirs[j] != name@ by {
                            assert(named_slots(old(self).dir_slots).contains_key(dirs[j]));
                        }
                    }
                }
                Err(Error::FileSystemError(FileSystemError::PathNotFound(path_of(name.as_str()))))
            },
        }
    }
}

/// An index of `names` with a new name recorded in the slot behind them is
/// an index of the names with the new one appended.
pub proof fn lemma_indexed_push(
    names: Seq<Seq<char>>,
    before: DashMap<String, usize>,
    after: DashMap<String, usize>,
    name: Seq<char>,
)
    requires
        indexed(names, before),
        !named_slots(before).contains_key(name),
        names.len() <= usize::MAX,
        named_slots(after) == named_slots(before).insert(name, names.len() as usize),
    ensures
        indexed(names.push(name), after),
{
    let grown = names.push(name);
    assert forall|i: int| 0 <= i < grown.len() implies named_slots(after).contains_key(
        #[trigger] grown[i],
    ) && named_slots(after)[grown[i]] == i by {
        if i < names.len() {
            assert(grown[i] == names[i]);
            assert(named_slots(before).contains_key(names[i]));
        }
    }
    assert forall|k: Seq<char>| #[trigger] named_slots(after).contains_key(k) implies named_slots(
        after,
    )[k] < grown.len() && grown[named_slots(after)[k] as int] == k by {
        if k != name {
            assert(named_slots(before).contains_key(k));
            assert(grown[named_slots(before)[k] as int] == names[named_slots(before)[k] as int]);
        }
    }
}

/// An index of `names` from which `name` was taken out, with the last name
/// recorded anew in the slot left free, is an index of the names without
/// that slot.
pub proof fn lemma_indexed_without(
    names: Seq<Seq<char>>,
    before: DashMap<String, usize>,
    after: DashMap<String, usize>,
    name: Seq<char>,
)
    requires
        indexed(names, before),
        named_slots(before).contains_key(name),
        named_slots(after) == if named_slots(before)[name] == names.len() - 1 {
            named_slots(before).remove(name)
        } else {
            named_slots(before).remove(name).insert(names.last(), named_slots(before)[name])
        },
    ensures
        indexed(without_slot(names, named_slots(before)[name] as int), after),
{
    let slot = named_slots(before)[name] as int;
    let last = names.len() - 1;
    let rest = without_slot(names, slot);
    assert(names[slot] == name);
    assert(named_slots(before).contains_key(names[last]) && named_slots(before)[names[last]] == last);
    assert forall|i: int| 0 <= i < rest.len() implies named_slots(after).contains_key(
        #[trigger] rest[i],
    ) && named_slots(after)[rest[i]] == i by {
        if i == slot {
            assert(rest[i] == names[last]);
        } else {
            assert(rest[i] == names[i]);
            assert(named_slots(before).contains_key(names[i]));
            assert(named_slots(before)[names[i]] == i);
        }
    }
    assert forall|k: Seq<char>| #[trigger] named_slots(after).contains_key(k) implies named_slots(
        after,
    )[k] < rest.len() && rest[named_slots(after)[k] as int] == k by {
        assert(named_slots(before).contains_key(k));
        assert(names[named_slots(before)[k] as int] == k);
        if k != names[last] {
            assert(named_slots(before)[k] != last);
        }
    }
}

} // verus!
