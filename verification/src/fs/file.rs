//! Names and sizes of files.

use vstd::prelude::*;
use vstd::string::StrSliceExecFns;
use vstd::string::StringSliceAdditionalSpecFns;
use crate::fs::error::{Error, ErrorKind, SearchErrorKind};
use crate::fs::text::{matches_at, occurs_at};

verus! {

/// The index of the last `c` in `s`, if `c` occurs.
pub open spec fn last_index(s: Seq<char>, c: char) -> Option<int>
    decreases s.len(),
{
    if s.len() == 0 {
        None
    } else if s.last() == c {
        Some(s.len() - 1)
    } else {
        last_index(s.drop_last(), c)
    }
}

/// The last separator of `path`: the last slash, or else the last backslash.
pub open spec fn last_separator(path: Seq<char>) -> Option<int> {
    match last_index(path, '/') {
        Some(p) => Some(p),
        None => last_index(path, '\\'),
    }
}

/// The part of `path` from its last separator up to its last dot, or to the
/// end where there is no dot; nothing for a path without a separator.
pub open spec fn name_spec(path: Seq<char>) -> Option<Seq<char>> {
    match last_separator(path) {
        Some(p) => match last_index(path, '.') {
            Some(e) => Some(path.subrange(p, e)),
            None => Some(path.subrange(p, path.len() as int)),
        },
        None => None,
    }
}

/// The part of `path` from its last dot on; nothing for a path without a
/// dot.
pub open spec fn extension_spec(path: Seq<char>) -> Option<Seq<char>> {
    match last_index(path, '.') {
        Some(e) => Some(path.subrange(e, path.len() as int)),
        None => None,
    }
}

/// Whether the last dot of `path`, if it has one, stands behind its last
/// separator.
pub open spec fn dot_follows_separator(path: Seq<char>) -> bool {
    match (last_separator(path), last_index(path, '.')) {
        (Some(p), Some(e)) => p <= e,
        _ => true,
    }
}

/// What `last_index` finds is in range.
pub proof fn lemma_last_index_in_range(s: Seq<char>, c: char)
    ensures
        last_index(s, c) matches Some(i) ==> 0 <= i < s.len() && s[i] == c,
    decreases s.len(),
{
    if s.len() > 0 && s.last() != c {
        lemma_last_index_in_range(s.drop_last(), c);
    }
}

/// Finds the last `c` in `s`, counting in characters.
fn rfind_char(s: &str, c: char) -> (r: Option<usize>)
    ensures
        match r {
            Some(i) => last_index(s@, c) == Some(i as int),
            None => last_index(s@, c) is None,
        },
{
    let n: usize = s.unicode_len();
    let mut i: usize = n;
    proof {
        assert(s@.take(n as int) =~= s@);
    }
    while i > 0
        invariant
            0 <= i <= n,
            n == s@.len(),
            last_index(s@, c) == last_index(s@.take(i as int), c),
        decreases i,
    {
        proof {
            assert(s@.take(i as int).drop_last() =~= s@.take(i - 1));
            assert(s@.take(i as int).last() == s@[i - 1]);
        }
        if s.get_char(i - 1) == c {
            return Some(i - 1);
        }
        i -= 1;
    }
    None
}

/// Whether [`name`] can be asked of `path`: whether its last dot, if it has
/// one, stands behind its last separator.
pub fn can_name(path: &String) -> (b: bool)
    ensures
        b == dot_follows_separator(path@),
{
    let text = path.as_str();
    let sep = match rfind_char(text, '/') {
        Some(p) => Some(p),
        None => rfind_char(text, '\\'),
    };
    match (sep, rfind_char(text, '.')) {
        (Some(p), Some(e)) => p <= e,
        _ => true,
    }
}

/// The name in `path`: from the last separator, which it includes, to the
/// last dot, which it leaves out. A path without a separator has no name.
pub fn name(path: &String) -> (r: Result<String, ()>)
    requires
        dot_follows_separator(path@),
    ensures
        match r {
            Ok(s) => name_spec(path@) == Some(s@),
            Err(_) => name_spec(path@) is None,
        },
{
    let text = path.as_str();
    let len: usize = text.unicode_len();
    let sep = match rfind_char(text, '/') {
        Some(p) => Some(p),
        None => rfind_char(text, '\\'),
    };
    proof {
        lemma_last_index_in_range(path@, '/');
        lemma_last_index_in_range(path@, '\\');
        lemma_last_index_in_range(path@, '.');
    }
    match sep {
        Some(pos) => {
            let end: usize = match rfind_char(text, '.') {
                Some(pos_ext) => pos_ext,
                None => len,
            };
            Ok(text.substring_char(pos, end).to_owned())
        },
        None => Err(()),
    }
}

/// The extension in `path`: from the last dot, which it includes, to the
/// end. A path without a dot has no extension.
pub fn extension(path: &String) -> (r: Result<String, ()>)
    ensures
        match r {
            Ok(s) => extension_spec(path@) == Some(s@),
            Err(_) => extension_spec(path@) is None,
        },
{
    let text = path.as_str();
    let len: usize = text.unicode_len();
    proof {
        lemma_last_index_in_range(path@, '.');
    }
    match rfind_char(text, '.') {
        Some(pos) => Ok(text.substring_char(pos, len).to_owned()),
        None => Err(()),
    }
}

/// The name in `path`, or `UNKNOWN` for a path without a separator.
pub fn name_or_unknown(path: &String) -> (r: String)
    requires
        dot_follows_separator(path@),
    ensures
        r@ == match name_spec(path@) {
            Some(s) => s,
            None => "UNKNOWN"@,
        },
{
    match name(path) {
        Ok(s) => s,
        Err(_) => "UNKNOWN".to_owned(),
    }
}

/// The extension in `path`, or `UNKNOWN` for a path without a dot.
pub fn extension_or_unknown(path: &String) -> (r: String)
    ensures
        r@ == match extension_spec(path@) {
            Some(s) => s,
            None => "UNKNOWN"@,
        },
{
    match extension(path) {
        Ok(s) => s,
        Err(_) => "UNKNOWN".to_owned(),
    }
}

/// Finds where `content` first stands in `body`, as a byte index. Where it
/// stands nowhere, the search fails as not found.
pub fn find_in(body: &str, content: &str) -> (r: Result<usize, Error>)
    ensures
        match r {
            Ok(at) => {
                &&& occurs_at(body.spec_bytes(), content.spec_bytes(), at as int)
                &&& forall|j: int| 0 <= j < at ==> !occurs_at(body.spec_bytes(), content.spec_bytes(), j)
            },
            Err(e) => {
                &&& e.kind == ErrorKind::SearchError(SearchErrorKind::NotFound)
                &&& forall|j: int| !occurs_at(body.spec_bytes(), content.spec_bytes(), j)
            },
        },
{
    let hay = body.as_bytes();
    let needle = content.as_bytes();
    let n: usize = hay.len();
    let m: usize = needle.len();
    if m <= n {
        let last: usize = n - m;
        let mut at: usize = 0;
        while at < last
            invariant
                0 <= at <= last,
                last == n - m,
                n == hay@.len(),
                m == needle@.len(),
                hay@ == body.spec_bytes(),
                needle@ == content.spec_bytes(),
                forall|j: int| 0 <= j < at ==> !occurs_at(hay@, needle@, j),
            decreases last - at,
        {
            if matches_at(hay, at, needle) {
                return Ok(at);
            }
            at += 1;
        }
        if matches_at(hay, last, needle) {
            return Ok(last);
        }
    }
    Err(Error::new(ErrorKind::SearchError(SearchErrorKind::NotFound)))
}

/// Whether `content` stands somewhere in `body`; the search fails as not
/// found where it does not.
pub fn contains_in(body: &str, content: &str) -> (r: Result<(), Error>)
    ensures
        r is Ok <==> exists|j: int| occurs_at(body.spec_bytes(), content.spec_bytes(), j),
        r matches Err(e) ==> e.kind == ErrorKind::SearchError(SearchErrorKind::NotFound),
{
    match find_in(body, content) {
        Ok(_) => Ok(()),
        Err(e) => Err(e),
    }
}

/// What a walk recorded of one file. Times are nanoseconds since the epoch.
pub struct File {
    pub name: String,
    pub path: String,
    pub last_edit: u128,
    pub created_at: u128,
    pub accessed_at: u128,
    pub extension: String,
    pub size: u64,
    pub readonly: bool,
}

impl File {
    /// The record of a file just created under `name` with `size` bytes of
    /// content, at time `now`. Its extension is taken from `name`.
    pub fn new(name: &str, path: &str, size: u64, now: u128) -> (r: Self)
        ensures
            r.name@ == name@,
            r.path@ == path@,
            r.extension@ == match extension_spec(name@) {
                Some(s) => s,
                None => "UNKNOWN"@,
            },
            r.last_edit == now,
            r.created_at == now,
            r.accessed_at == now,
            r.size == size,
            !r.readonly,
    {
        let name = name.to_owned();
        let extension = extension_or_unknown(&name);
        File {
            name,
            extension,
            path: path.to_owned(),
            last_edit: now,
            created_at: now,
            accessed_at: now,
            size,
            readonly: false,
        }
    }

    /// The record of an existing file opened at `path`. Its name and its
    /// extension are taken from `path`.
    pub fn open(
        path: &str,
        size: u64,
        readonly: bool,
        modified: u128,
        accessed: u128,
        created: u128,
    ) -> (r: Self)
        requires
            dot_follows_separator(path@),
        ensures
            r.path@ == path@,
            r.name@ == match name_spec(path@) {
                Some(s) => s,
                None => "UNKNOWN"@,
            },
            r.extension@ == match extension_spec(path@) {
                Some(s) => s,
                None => "UNKNOWN"@,
            },
            r.last_edit == modified,
            r.accessed_at == accessed,
            r.created_at == created,
            r.size == size,
            r.readonly == readonly,
    {
        let path = path.to_owned();
        let name = name_or_unknown(&path);
        let extension = extension_or_unknown(&path);
        File {
            name,
            extension,
            path,
            last_edit: modified,
            created_at: created,
            accessed_at: accessed,
            size,
            readonly,
        }
    }

    /// The record of a file met in a walk. Its extension is taken from
    /// `path`; a time the platform does not record counts as `now`.
    pub fn from_entry(
        name: String,
        path: String,
        size: u64,
        readonly: bool,
        modified: Option<u128>,
        created: Option<u128>,
        accessed: Option<u128>,
        now: u128,
    ) -> (r: Self)
        ensures
            r.name == name,
            r.path == path,
            r.extension@ == match extension_spec(path@) {
                Some(s) => s,
                None => "UNKNOWN"@,
            },
            r.last_edit == match modified {
                Some(t) => t,
                None => now,
            },
            r.created_at == match created {
                Some(t) => t,
                None => now,
            },
            r.accessed_at == match accessed {
                Some(t) => t,
                None => now,
            },
            r.size == size,
            r.readonly == readonly,
    {
        let extension = extension_or_unknown(&path);
        File {
            name,
            path,
            last_edit: match modified {
                Some(t) => t,
                None => now,
            },
            created_at: match created {
                Some(t) => t,
                None => now,
            },
            accessed_at: match accessed {
                Some(t) => t,
                None => now,
            },
            extension,
            size,
            readonly,
        }
    }

    /// The size in bytes.
    pub fn size(&self) -> (r: u64)
        ensures
            r == self.size,
    {
        self.size
    }

    /// The size in bits.
    pub fn size_bits(&self) -> (r: u64)
        requires
            self.size * 8 <= u64::MAX,
        ensures
            r == self.size * 8,
    {
        self.size * 8
    }

    /// The size in whole kibibytes.
    pub fn size_kb(&self) -> (r: u64)
        ensures
            r == self.size / 1024,
    {
        self.size / 1024
    }

    /// The size in whole mebibytes.
    pub fn size_mb(&self) -> (r: u64)
        ensures
            r == self.size / 1_048_576,
    {
        self.size / 1_048_576
    }

    /// The size in whole gibibytes.
    pub fn size_gb(&self) -> (r: u64)
        ensures
            r == self.size / 1_073_741_824,
    {
        self.size / 1_073_741_824
    }
}

} // verus!
