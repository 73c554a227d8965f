//! Which directory entries a walk keeps.

use vstd::prelude::*;
use vstd::string::StringSliceAdditionalSpecFns;
use vstd::utf8::encode_utf8;
use std::ops::Bound;
use crate::fs::text::{begins_with, ends_with, finishes_with, has_extension, is_listed, starts_with};

verus! {

/// `std::ops::Bound`, an end of a range: included, excluded or absent.
#[verifier::external_type_specification]
#[verifier::reject_recursive_types(T)]
pub struct ExBound<T>(Bound<T>);

/// How an entry may be opened.
#[derive(Debug, Clone, Copy, PartialEq, Eq, Structural)]
pub enum AccessMode {
    ReadOnly,
    WriteOnly,
    ReadWrite,
}

/// What kind of thing a directory entry is.
#[derive(Debug, Clone, Copy, PartialEq, Eq, Structural)]
pub enum FileType {
    Dir,
    File,
    Symlink,
}

/// What a walk knows of one directory entry. Times are nanoseconds since the
/// epoch and absent where the platform does not record them; `mode` holds
/// the permission bits where the platform has them.
pub struct EntryInfo {
    pub name: String,
    pub is_dir: bool,
    pub size: u64,
    pub readonly: bool,
    pub mode: Option<u32>,
    pub accessed: Option<u128>,
    pub modified: Option<u128>,
    pub created: Option<u128>,
}

/// What a walk does with an entry.
#[derive(Debug, Clone, Copy, PartialEq, Eq, Structural)]
pub enum ScanStep {
    /// The entry is left out.
    Skip,
    /// The entry is a directory to record and walk in turn.
    Descend,
    /// The entry is recorded as a file.
    Keep,
}

/// The conditions an entry must meet. A condition that is `None` admits
/// every entry.
pub struct Filter {
    pub target_name: Option<String>,
    pub name_prefix: Option<String>,
    pub name_suffix: Option<String>,
    pub target_path: Option<String>,
    pub recursive: bool,
    pub recursive_depth: Option<u64>,
    pub created_after: Option<u128>,
    pub created_before: Option<u128>,
    pub modified_after: Option<u128>,
    pub modified_before: Option<u128>,
    pub accessed_after: Option<u128>,
    pub accessed_before: Option<u128>,
    pub max_size: Option<u64>,
    pub min_size: Option<u64>,
    pub target_type: Option<FileType>,
    pub extension: Option<String>,
    pub access_mode: Option<AccessMode>,
    pub exclude_dirs: Option<Vec<String>>,
    pub exclude_patterns: Option<Vec<String>>,
    pub include_hidden: bool,
    pub exclude_extensions: Option<Vec<String>>,
    pub exclude_types: Option<Vec<FileType>>,
}

/// Whether `time` lies in the closed interval whose ends, where given, are
/// `after` and `before`.
pub open spec fn in_window(after: Option<u128>, before: Option<u128>, time: u128) -> bool {
    &&& after matches Some(a) ==> time >= a
    &&& before matches Some(b) ==> time <= b
}

/// Whether an entry with the given write protection meets the wanted access
/// mode: a read-only filter wants the entry write-protected; a filter for
/// writing wants some write bit set where there are permission bits, and the
/// entry not write-protected where there are none.
pub open spec fn access_admits(want: Option<AccessMode>, readonly: bool, mode: Option<u32>) -> bool {
    match want {
        None => true,
        Some(AccessMode::ReadOnly) => readonly,
        Some(_) => match mode {
            Some(bits) => bits & 0o222 != 0,
            None => !readonly,
        },
    }
}

/// Whether `name` is among the names in `list`.
pub open spec fn listed(list: Seq<String>, name: Seq<char>) -> bool {
    exists|i: int| 0 <= i < list.len() && (#[trigger] list[i])@ == name
}

fn window_admits(after: Option<u128>, before: Option<u128>, time: u128) -> (b: bool)
    ensures
        b == in_window(after, before, time),
{
    if let Some(a) = after {
        if time < a {
            return false;
        }
    }
    if let Some(b) = before {
        if time > b {
            return false;
        }
    }
    true
}

impl Default for Filter {
    /// The filter that admits every visible entry and does not descend.
    fn default() -> (r: Self)
        ensures
            r.is_blank(),
    {
        Filter {
            target_name: None,
            name_prefix: None,
            name_suffix: None,
            target_path: None,
            recursive: false,
            recursive_depth: None,
            created_after: None,
            created_before: None,
            modified_after: None,
            modified_before: None,
            accessed_after: None,
            accessed_before: None,
            max_size: None,
            min_size: None,
            target_type: None,
            extension: None,
            access_mode: None,
            exclude_dirs: None,
            exclude_patterns: None,
            include_hidden: false,
            exclude_extensions: None,
            exclude_types: None,
        }
    }
}

impl Filter {
    /// Whether no condition is set.
    pub open spec fn is_blank(&self) -> bool {
        &&& self.target_name is None
        &&& self.name_prefix is None
        &&& self.name_suffix is None
        &&& self.target_path is None
        &&& !self.recursive
        &&& self.recursive_depth is None
        &&& self.created_after is None
        &&& self.created_before is None
        &&& self.modified_after is None
        &&& self.modified_before is None
        &&& self.accessed_after is None
        &&& self.accessed_before is None
        &&& self.max_size is None
        &&& self.min_size is None
        &&& self.target_type is None
        &&& self.extension is None
        &&& self.access_mode is None
        &&& self.exclude_dirs is None
        &&& self.exclude_patterns is None
        &&& !self.include_hidden
        &&& self.exclude_extensions is None
        &&& self.exclude_types is None
    }

    /// Whether the filter admits `entry`: its name, size, visibility, access
    /// mode and times each meet the condition set for them.
    pub open spec fn admits(&self, entry: &EntryInfo) -> bool {
        let name = entry.name@;
        let bytes = encode_utf8(entry.name@);
        &&& self.target_name matches Some(t) ==> name == t@
        &&& self.name_prefix matches Some(p) ==> begins_with(bytes, encode_utf8(p@))
        &&& self.name_suffix matches Some(s) ==> finishes_with(bytes, encode_utf8(s@))
        &&& self.extension matches Some(e) ==> finishes_with(
            bytes,
            seq![46u8] + encode_utf8(e@),
        )
        &&& self.exclude_dirs matches Some(ex) ==> !(entry.is_dir && listed(ex@, name))
        &&& self.max_size matches Some(max) ==> entry.size <= max
        &&& self.min_size matches Some(min) ==> entry.size >= min
        &&& self.include_hidden || !begins_with(bytes, seq![46u8])
        &&& access_admits(self.access_mode, entry.readonly, entry.mode)
        &&& entry.accessed matches Some(t) ==> in_window(self.accessed_after, self.accessed_before, t)
        &&& entry.modified matches Some(t) ==> in_window(self.modified_after, self.modified_before, t)
        &&& entry.created matches Some(t) ==> in_window(self.created_after, self.created_before, t)
    }

    /// What a walk at `depth` does with `entry`: it skips an entry whose name
    /// is excluded or that the filter does not admit, descends into an
    /// admitted directory when the filter is recursive, and keeps the rest.
    pub open spec fn step(&self, entry: &EntryInfo) -> ScanStep {
        if (self.exclude_dirs matches Some(ex) && listed(ex@, entry.name@)) || !self.admits(entry) {
            ScanStep::Skip
        } else if entry.is_dir && self.recursive {
            ScanStep::Descend
        } else {
            ScanStep::Keep
        }
    }

    /// A builder starting from the blank filter.
    pub fn builder() -> (r: FilterBuilder)
        ensures
            r.filter.is_blank(),
    {
        FilterBuilder::new()
    }

    /// Whether a modification time lies in the filter's window.
    pub fn check_modified(&self, file_time: u128) -> (b: bool)
        ensures
            b == in_window(self.modified_after, self.modified_before, file_time),
    {
        window_admits(self.modified_after, self.modified_before, file_time)
    }

    /// Whether an access time lies in the filter's window.
    pub fn check_accessed(&self, file_time: u128) -> (b: bool)
        ensures
            b == in_window(self.accessed_after, self.accessed_before, file_time),
    {
        window_admits(self.accessed_after, self.accessed_before, file_time)
    }

    /// Whether a creation time lies in the filter's window.
    pub fn check_created(&self, file_time: u128) -> (b: bool)
        ensures
            b == in_window(self.created_after, self.created_before, file_time),
    {
        window_admits(self.created_after, self.created_before, file_time)
    }

    /// Whether an entry's write protection meets the wanted access mode.
    pub fn matches_access(&self, readonly: bool, mode: Option<u32>) -> (b: bool)
        ensures
            b == access_admits(self.access_mode, readonly, mode),
    {
        match self.access_mode {
            None => true,
            Some(AccessMode::ReadOnly) => readonly,
            Some(_) => match mode {
                Some(bits) => bits & 0o222 != 0,
                None => !readonly,
            },
        }
    }

    /// Whether a walk may still read a directory at `depth`: always, unless a
    /// depth limit is set and `depth` is beyond it.
    pub fn within_depth(&self, depth: u64) -> (b: bool)
        ensures
            b == (self.recursive_depth matches Some(max) ==> depth <= max),
    {
        match self.recursive_depth {
            Some(max) => depth <= max,
            None => true,
        }
    }

    /// Whether the filter admits `entry`.
    pub fn allows(&self, entry: &EntryInfo) -> (b: bool)
        ensures
            b == self.admits(entry),
    {
        let name = entry.name.as_str();
        if let Some(target) = &self.target_name {
            if entry.name != *target {
                return false;
            }
        }
        if let Some(prefix) = &self.name_prefix {
            if !starts_with(name, prefix.as_str()) {
                return false;
            }
        }
        if let Some(suffix) = &self.name_suffix {
            if !ends_with(name, suffix.as_str()) {
                return false;
            }
        }
        if let Some(ext) = &self.extension {
            if !has_extension(name, ext.as_str()) {
                return false;
            }
        }
        if let Some(excludes) = &self.exclude_dirs {
            if entry.is_dir && is_listed(excludes, &entry.name) {
                return false;
            }
        }
        if let Some(max) = self.max_size {
            if entry.size > max {
                return false;
            }
        }
        if let Some(min) = self.min_size {
            if entry.size < min {
                return false;
            }
        }
        if !self.include_hidden && starts_with(name, ".") {
            proof {
                reveal_strlit(".");
                dot_bytes();
            }
            return false;
        }
        proof {
            reveal_strlit(".");
            dot_bytes();
        }
        if !self.matches_access(entry.readonly, entry.mode) {
            return false;
        }
        if let Some(accessed) = entry.accessed {
            if !self.check_accessed(accessed) {
                return false;
            }
        }
        if let Some(modified) = entry.modified {
            if !self.check_modified(modified) {
                return false;
            }
        }
        if let Some(created) = entry.created {
            if !self.check_created(created) {
                return false;
            }
        }
        true
    }

    /// Decides what a walk does with `entry`.
    pub fn scan_step(&self, entry: &EntryInfo) -> (s: ScanStep)
        ensures
            s == self.step(entry),
    {
        if let Some(excludes) = &self.exclude_dirs {
            if is_listed(excludes, &entry.name) {
                return ScanStep::Skip;
            }
        }
        if !self.allows(entry) {
            return ScanStep::Skip;
        }
        if entry.is_dir && self.recursive {
            ScanStep::Descend
        } else {
            ScanStep::Keep
        }
    }
}

/// The string `"."` is the single byte 46.
proof fn dot_bytes()
    ensures
        ".".spec_bytes() == seq![46u8],
{
    reveal_strlit(".");
    assert("."@ =~= seq!['.']);
    vstd::utf8::is_ascii_chars_encode_utf8("."@);
    assert(".".spec_bytes() =~= seq![46u8]);
}

/// Builds a [`Filter`] condition by condition.
pub struct FilterBuilder {
    pub filter: Filter,
}

/// The list that results from adding `more` behind what `list` holds.
pub open spec fn extended<A>(list: Option<Vec<A>>, more: Seq<A>) -> Seq<A> {
    match list {
        Some(v) => v@ + more,
        None => more,
    }
}

/// The least size that a range starting at `start` admits, if it has one.
pub open spec fn least_size(start: Bound<u64>) -> Option<u64> {
    match start {
        Bound::Included(s) => Some(s),
        Bound::Excluded(s) => Some((s + 1) as u64),
        Bound::Unbounded => None,
    }
}

/// The greatest size that a range ending at `end` admits, if it has one. A
/// range that ends before zero is taken to end at zero.
pub open spec fn greatest_size(end: Bound<u64>) -> Option<u64> {
    match end {
        Bound::Included(e) => Some(e),
        Bound::Excluded(e) => Some(if e == 0 { 0 } else { (e - 1) as u64 }),
        Bound::Unbounded => None,
    }
}

impl FilterBuilder {
    /// A builder holding the blank filter.
    pub fn new() -> (r: Self)
        ensures
            r.filter.is_blank(),
    {
        FilterBuilder { filter: Filter::default() }
    }

    /// Admits only entries that can be opened in `mode`.
    pub fn access(self, mode: AccessMode) -> (r: Self)
        ensures
            r.filter == (Filter { access_mode: Some(mode), ..self.filter }),
    {
        let mut b = self;
        b.filter.access_mode = Some(mode);
        b
    }

    /// Says whether entries whose name begins with a dot are admitted.
    pub fn include_hidden(self, is_include_hidden: bool) -> (r: Self)
        ensures
            r.filter == (Filter { include_hidden: is_include_hidden, ..self.filter }),
    {
        let mut b = self;
        b.filter.include_hidden = is_include_hidden;
        b
    }

    /// Adds kinds of entries to leave out.
    pub fn exclude_types(self, types: Vec<FileType>) -> (r: Self)
        ensures
            r.filter == (Filter { exclude_types: r.filter.exclude_types, ..self.filter }),
            r.filter.exclude_types matches Some(list) && list@ == extended(self.filter.exclude_types, types@),
    {
        let mut b = self;
        let mut added = types;
        let list = match b.filter.exclude_types {
            Some(mut list) => {
                list.append(&mut added);
                list
            },
            None => added,
        };
        b.filter.exclude_types = Some(list);
        b
    }

    /// Adds names of directories to leave out.
    pub fn exclude_dirs(self, dirs: Vec<String>) -> (r: Self)
        ensures
            r.filter == (Filter { exclude_dirs: r.filter.exclude_dirs, ..self.filter }),
            r.filter.exclude_dirs matches Some(list) && list@ == extended(self.filter.exclude_dirs, dirs@),
    {
        let mut b = self;
        let mut added = dirs;
        let list = match b.filter.exclude_dirs {
            Some(mut list) => {
                list.append(&mut added);
                list
            },
            None => added,
        };
        b.filter.exclude_dirs = Some(list);
        b
    }

    /// Adds extensions to leave out.
    pub fn exclude_extensions(self, extensions: Vec<String>) -> (r: Self)
        ensures
            r.filter == (Filter { exclude_extensions: r.filter.exclude_extensions, ..self.filter }),
            r.filter.exclude_extensions matches Some(list) && list@ == extended(self.filter.exclude_extensions, extensions@),
    {
        let mut b = self;
        let mut added = extensions;
        let list = match b.filter.exclude_extensions {
            Some(mut list) => {
                list.append(&mut added);
                list
            },
            None => added,
        };
        b.filter.exclude_extensions = Some(list);
        b
    }

    /// Adds name patterns to leave out.
    pub fn exclude_patterns(self, patterns: Vec<String>) -> (r: Self)
        ensures
            r.filter == (Filter { exclude_patterns: r.filter.exclude_patterns, ..self.filter }),
            r.filter.exclude_patterns matches Some(list) && list@ == extended(self.filter.exclude_patterns, patterns@),
    {
        let mut b = self;
        let mut added = patterns;
        let list = match b.filter.exclude_patterns {
            Some(mut list) => {
                list.append(&mut added);
                list
            },
            None => added,
        };
        b.filter.exclude_patterns = Some(list);
        b
    }

    /// Admits only entries with exactly this name.
    pub fn name(self, name: String) -> (r: Self)
        ensures
            r.filter == (Filter { target_name: Some(name), ..self.filter }),
    {
        let mut b = self;
        b.filter.target_name = Some(name);
        b
    }

    /// Sets the path the walk is meant for.
    pub fn target_path(self, path: String) -> (r: Self)
        ensures
            r.filter == (Filter { target_path: Some(path), ..self.filter }),
    {
        let mut b = self;
        b.filter.target_path = Some(path);
        b
    }

    /// Admits only names that end with a dot and this extension.
    pub fn target_extension(self, extension: String) -> (r: Self)
        ensures
            r.filter == (Filter { extension: Some(extension), ..self.filter }),
    {
        let mut b = self;
        b.filter.extension = Some(extension);
        b
    }

    /// Sets the kind of entry looked for.
    pub fn target_type(self, ty: FileType) -> (r: Self)
        ensures
            r.filter == (Filter { target_type: Some(ty), ..self.filter }),
    {
        let mut b = self;
        b.filter.target_type = Some(ty);
        b
    }

    /// Admits only names that begin with `prefix`.
    pub fn name_prefix(self, prefix: String) -> (r: Self)
        ensures
            r.filter == (Filter { name_prefix: Some(prefix), ..self.filter }),
    {
        let mut b = self;
        b.filter.name_prefix = Some(prefix);
        b
    }

    /// Admits only names that end with `suffix`.
    pub fn name_suffix(self, suffix: String) -> (r: Self)
        ensures
            r.filter == (Filter { name_suffix: Some(suffix), ..self.filter }),
    {
        let mut b = self;
        b.filter.name_suffix = Some(suffix);
        b
    }

    /// Makes the walk descend into directories, down to `depth` levels below
    /// the root.
    pub fn recursive(self, depth: u64) -> (r: Self)
        ensures
            r.filter == (Filter { recursive: true, recursive_depth: Some(depth), ..self.filter }),
    {
        let mut b = self;
        b.filter.recursive = true;
        b.filter.recursive_depth = Some(depth);
        b
    }

    /// Admits only entries whose size lies in the range from `start` to
    /// `end`.
    pub fn size_limit(self, start: Bound<u64>, end: Bound<u64>) -> (r: Self)
        requires
            start matches Bound::Excluded(s) ==> s < u64::MAX,
        ensures
            r.filter == (Filter {
                min_size: least_size(start),
                max_size: greatest_size(end),
                ..self.filter
            }),
    {
        let mut b = self;
        b.filter.min_size = match start {
            Bound::Included(s) => Some(s),
            Bound::Excluded(s) => Some(s + 1),
            Bound::Unbounded => None,
        };
        b.filter.max_size = match end {
            Bound::Included(e) => Some(e),
            Bound::Excluded(e) => Some(if e == 0 { 0 } else { e - 1 }),
            Bound::Unbounded => None,
        };
        b
    }

    /// The filter built.
    pub fn build(self) -> (r: Filter)
        ensures
            r == self.filter,
    {
        self.filter
    }
}

} // verus!
