//! Comparisons of names, byte for byte.

use vstd::prelude::*;
use vstd::string::StringSliceAdditionalSpecFns;

verus! {

/// Whether `s` begins with the bytes `prefix`.
pub open spec fn begins_with(s: Seq<u8>, prefix: Seq<u8>) -> bool {
    prefix.len() <= s.len() && s.subrange(0, prefix.len() as int) == prefix
}

/// Whether `s` ends with the bytes `suffix`.
pub open spec fn finishes_with(s: Seq<u8>, suffix: Seq<u8>) -> bool {
    suffix.len() <= s.len() && s.subrange(s.len() - suffix.len(), s.len() as int) == suffix
}

/// Whether `part` stands in `s` at index `at`.
pub open spec fn occurs_at(s: Seq<u8>, part: Seq<u8>, at: int) -> bool {
    0 <= at && at + part.len() <= s.len() && s.subrange(at, at + part.len()) == part
}

/// Whether the bytes of `s` from `at` on begin with `part`.
pub fn matches_at(s: &[u8], at: usize, part: &[u8]) -> (b: bool)
    requires
        at + part@.len() <= s@.len(),
    ensures
        b == (s@.subrange(at as int, at + part@.len()) == part@),
{
    let total: usize = s.len();
    let mut i: usize = 0;
    while i < part.len()
        invariant
            0 <= i <= part@.len(),
            at + part@.len() <= s@.len(),
            s@.len() == total,
            forall|j: int| 0 <= j < i ==> s@[at + j] == part@[j],
        decreases part@.len() - i,
    {
        if s[at + i] != part[i] {
            proof {
                assert(s@.subrange(at as int, at + part@.len())[i as int] == s@[at + i]);
            }
            return false;
        }
        i += 1;
    }
    proof {
        assert(s@.subrange(at as int, at + part@.len()) =~= part@);
    }
    true
}

/// Whether `name` starts with `prefix`.
pub fn starts_with(name: &str, prefix: &str) -> (b: bool)
    ensures
        b == begins_with(name.spec_bytes(), prefix.spec_bytes()),
{
    let s = name.as_bytes();
    let p = prefix.as_bytes();
    if p.len() > s.len() {
        return false;
    }
    matches_at(s, 0, p)
}

/// Whether `name` ends with `suffix`.
pub fn ends_with(name: &str, suffix: &str) -> (b: bool)
    ensures
        b == finishes_with(name.spec_bytes(), suffix.spec_bytes()),
{
    let s = name.as_bytes();
    let p = suffix.as_bytes();
    if p.len() > s.len() {
        return false;
    }
    matches_at(s, s.len() - p.len(), p)
}

/// Whether `name` ends with a dot followed by `extension`.
pub fn has_extension(name: &str, extension: &str) -> (b: bool)
    ensures
        b == finishes_with(name.spec_bytes(), seq![46u8] + extension.spec_bytes()),
{
    let s = name.as_bytes();
    let e = extension.as_bytes();
    if e.len() >= s.len() {
        return false;
    }
    let dot: usize = s.len() - e.len() - 1;
    let ghost want = seq![46u8] + extension.spec_bytes();
    proof {
        let tail = s@.subrange(s@.len() - want.len(), s@.len() as int);
        assert(tail[0] == s@[dot as int]);
        assert(want[0] == 46u8);
        assert(tail.subrange(1, tail.len() as int) =~= s@.subrange(dot + 1, dot + 1 + e@.len()));
        assert(want.subrange(1, want.len() as int) =~= e@);
        if s@[dot as int] == 46u8 && s@.subrange(dot + 1, dot + 1 + e@.len()) == e@ {
            assert(tail =~= want);
        }
    }
    s[dot] == 46u8 && matches_at(s, dot + 1, e)
}

/// Whether `name` is one of `names`.
pub fn is_listed(names: &Vec<String>, name: &String) -> (b: bool)
    ensures
        b == exists|i: int| 0 <= i < names@.len() && (#[trigger] names@[i])@ == name@,
{
    let mut i: usize = 0;
    while i < names.len()
        invariant
            0 <= i <= names@.len(),
            forall|j: int| 0 <= j < i ==> (#[trigger] names@[j])@ != name@,
        decreases names@.len() - i,
    {
        if names[i] == *name {
            return true;
        }
        i += 1;
    }
    false
}

} // verus!
