//! Byte strings: searching, comparing, and the components of a path.

use vstd::prelude::*;

verus! {

/// The byte that separates the components of a path.
pub const PATH_SEPARATOR: u8 = 47;

/// The byte `.`.
pub const DOT: u8 = 46;

/// `i` is the last position at which `s` holds `needle`.
pub open spec fn is_last_index(s: Seq<u8>, needle: u8, i: int) -> bool {
    &&& 0 <= i < s.len()
    &&& s[i] == needle
    &&& forall|j: int| i < j < s.len() ==> s[j] != needle
}

/// The last position at which `s` holds `needle`, if it holds it at all.
pub open spec fn last_index(s: Seq<u8>, needle: u8) -> Option<int> {
    if exists|i: int| is_last_index(s, needle, i) {
        Some(choose|i: int| is_last_index(s, needle, i))
    } else {
        None
    }
}

/// A position that qualifies as the last one is the one that `last_index` gives.
pub proof fn lemma_last_index(s: Seq<u8>, needle: u8, i: int)
    requires
        is_last_index(s, needle, i),
    ensures
        last_index(s, needle) == Some(i),
{
    let k = choose|k: int| is_last_index(s, needle, k);
    assert(is_last_index(s, needle, k));
    if k < i {
        assert(s[i] != needle);
    } else if i < k {
        assert(s[k] != needle);
    }
}

/// A byte string that does not hold `needle` has no last position of it.
pub proof fn lemma_no_last_index(s: Seq<u8>, needle: u8)
    requires
        forall|j: int| 0 <= j < s.len() ==> s[j] != needle,
    ensures
        last_index(s, needle) is None,
{
    if exists|i: int| is_last_index(s, needle, i) {
        let k = choose|k: int| is_last_index(s, needle, k);
        assert(s[k] != needle);
    }
}

/// `memchr::memrchr`: the last position at which `haystack` holds `needle`, or `None` where it
/// does not hold it.
#[verifier::external_body]
pub(crate) fn find_last(needle: u8, haystack: &[u8]) -> (r: Option<usize>)
    ensures
        match r {
            Some(i) => is_last_index(haystack@, needle, i as int),
            None => forall|j: int| 0 <= j < haystack@.len() ==> haystack@[j] != needle,
        },
{
    memchr::memrchr(needle, haystack)
}

/// The first `n` bytes.
pub(crate) fn prefix(s: &[u8], n: usize) -> (r: &[u8])
    requires
        n <= s@.len(),
    ensures
        r@ == s@.take(n as int),
{
    let (head, _tail) = s.split_at(n);
    assert(head@ =~= s@.take(n as int));
    head
}

/// Whether two byte strings are the same.
pub fn same_bytes(a: &[u8], b: &[u8]) -> (r: bool)
    ensures
        r == (a@ == b@),
{
    if a.len() != b.len() {
        return false;
    }
    let mut i: usize = 0;
    while i < a.len()
        invariant
            i <= a@.len() == b@.len(),
            forall|j: int| 0 <= j < i ==> a@[j] == b@[j],
        decreases a@.len() - i,
    {
        if a[i] != b[i] {
            return false;
        }
        i += 1;
    }
    assert(a@ =~= b@);
    true
}

/// Whether `s` begins with `head`.
pub fn starts_with(s: &[u8], head: &[u8]) -> (r: bool)
    ensures
        r == head@.is_prefix_of(s@),
{
    if s.len() < head.len() {
        return false;
    }
    same_bytes(prefix(s, head.len()), head)
}

} // verus!
