//! Canonical paths and the order in which a tree of them is walked.

use crate::bytes::{
    find_last, last_index, lemma_last_index, lemma_no_last_index, prefix, same_bytes, starts_with,
    DOT, PATH_SEPARATOR,
};
use crate::eco::{
    bytes_clone, bytes_extend, bytes_limit, bytes_new, bytes_pop, bytes_push, bytes_reserve,
    bytes_slice, bytes_truncate, bytes_with_capacity, eco_bytes,
};
use ecow::EcoVec;
use std::cmp::Ordering;
use std::hash::{Hash, Hasher};
use vstd::prelude::*;

verus! {

/// A stored path is either without any bytes or ends with the NUL byte that a C string needs.
pub open spec fn terminated(raw: Seq<u8>) -> bool {
    raw.len() == 0 || raw.last() == 0
}

/// The text ends with a separator.
pub open spec fn ends_with_separator(text: Seq<u8>) -> bool {
    text.len() > 0 && text.last() == PATH_SEPARATOR
}

/// The text without the separators at its end.
pub open spec fn without_separators(text: Seq<u8>) -> Seq<u8>
    decreases text.len(),
{
    if ends_with_separator(text) {
        without_separators(text.drop_last())
    } else {
        text
    }
}

/// The bytes are those of a path: they end with a NUL, and what they say does not end with a
/// separator. The root directory, `/`, is stored as a lone NUL: it says nothing before the
/// separator that everything beneath it starts with.
pub open spec fn is_stored(raw: Seq<u8>) -> bool {
    terminated(raw) && !ends_with_separator(path_text(raw))
}

/// What a stored path says: the bytes without the final NUL. The path without any bytes says `.`,
/// the current directory.
pub open spec fn path_text(raw: Seq<u8>) -> Seq<u8> {
    if raw.len() == 0 {
        seq![DOT]
    } else {
        raw.drop_last()
    }
}

/// The bytes of a stored path that another component is added behind.
pub open spec fn path_stem(raw: Seq<u8>) -> Seq<u8> {
    if raw.len() == 0 {
        raw
    } else {
        raw.drop_last()
    }
}

/// The stored path with `src` added as it is.
pub open spec fn pushed_raw(raw: Seq<u8>, src: Seq<u8>) -> Seq<u8> {
    (path_stem(raw) + src).push(0)
}

/// The stored path with `src` added behind a separator, which is left out where `src` brings one.
pub open spec fn pushed(raw: Seq<u8>, src: Seq<u8>) -> Seq<u8> {
    if src.len() > 0 && src[0] == PATH_SEPARATOR {
        pushed_raw(raw, src)
    } else {
        pushed_raw(raw, seq![PATH_SEPARATOR] + src)
    }
}

/// The stored path with `src` added as one component or more. Separators at the end of `src` are
/// left out, and nothing is added where nothing else is in it; but a separator makes the path
/// without any bytes the root directory.
pub open spec fn joined(raw: Seq<u8>, src: Seq<u8>) -> Seq<u8> {
    let text = without_separators(src);
    if text.len() > 0 {
        pushed(raw, text)
    } else if raw.len() == 0 && src.len() > 0 {
        seq![0u8]
    } else {
        raw
    }
}

/// The stored path without its last component, if there is a separator before it. Nothing is left
/// where there are only separators before the component.
pub open spec fn popped(raw: Seq<u8>) -> Option<Seq<u8>> {
    match last_index(raw, PATH_SEPARATOR) {
        Some(i) => Some(
            if without_separators(raw.take(i)).len() == 0 {
                Seq::empty()
            } else {
                without_separators(raw.take(i)).push(0)
            },
        ),
        None => None,
    }
}

/// What precedes the last separator.
pub open spec fn parent_text(raw: Seq<u8>) -> Option<Seq<u8>> {
    match last_index(raw, PATH_SEPARATOR) {
        Some(i) => Some(raw.take(i)),
        None => None,
    }
}

/// `child` is `parent`, a separator, and more.
pub open spec fn is_beneath(parent: Seq<u8>, child: Seq<u8>) -> bool {
    &&& parent.len() < child.len()
    &&& child.take(parent.len() as int) == parent
    &&& child[parent.len() as int] == PATH_SEPARATOR
}

/// The stored path `parent` is a proper ancestor of the stored path `child`.
pub open spec fn is_ancestor(parent: Seq<u8>, child: Seq<u8>) -> bool {
    parent.len() > 0 && is_beneath(path_text(parent), path_text(child))
}

/// Adding `more` bytes to a stored path stays within what can be allocated.
pub open spec fn has_room_for(raw: Seq<u8>, more: int) -> bool {
    raw.len() + more + 3 <= bytes_limit()
}

/// The place of a byte in the order of paths: the separator comes before every other byte.
pub open spec fn byte_rank(byte: u8) -> int {
    if byte == PATH_SEPARATOR {
        0
    } else {
        byte + 1
    }
}

/// `a` comes before `b`, and position `i` shows it: they agree up to `i`, and there `a` ends or
/// goes on with a byte of lower rank.
pub open spec fn precedes_at(a: Seq<u8>, b: Seq<u8>, i: int) -> bool {
    &&& 0 <= i <= a.len()
    &&& i < b.len()
    &&& forall|j: int| 0 <= j < i ==> a[j] == b[j]
    &&& i < a.len() ==> byte_rank(a[i]) < byte_rank(b[i])
}

/// `a` comes before `b` in tree order.
pub open spec fn precedes(a: Seq<u8>, b: Seq<u8>) -> bool {
    exists|i: int| precedes_at(a, b, i)
}

/// How `a` compares with `b` in tree order.
pub open spec fn tree_order(a: Seq<u8>, b: Seq<u8>) -> Ordering {
    if precedes(a, b) {
        Ordering::Less
    } else if a == b {
        Ordering::Equal
    } else {
        Ordering::Greater
    }
}

/// The bytes that are compared: those before the NUL that a stored path ends with.
pub open spec fn without_nul(raw: Seq<u8>) -> Seq<u8> {
    if raw.len() > 0 && raw.last() == 0 {
        raw.drop_last()
    } else {
        raw
    }
}

/// Ranks a byte so that the path separator sorts before every other byte.
pub fn rank(byte: u8) -> (r: u16)
    ensures
        r == byte_rank(byte),
{
    if byte == PATH_SEPARATOR {
        0
    } else {
        byte as u16 + 1
    }
}

/// Strips the NUL that a stored path ends with.
pub fn strip_nul(buf: &[u8]) -> (r: &[u8])
    ensures
        r@ == without_nul(buf@),
{
    let n = buf.len();
    if n > 0 && buf[n - 1] == 0 {
        let r = prefix(buf, n - 1);
        assert(r@ =~= buf@.drop_last());
        r
    } else {
        buf
    }
}

/// Compares two stored paths in tree order: a directory comes before what is beneath it, and what
/// is beneath it comes before every other path that starts with the same bytes.
pub fn cmp(lhs: &[u8], rhs: &[u8]) -> (r: Ordering)
    ensures
        r == tree_order(without_nul(lhs@), without_nul(rhs@)),
{
    let a = strip_nul(lhs);
    let b = strip_nul(rhs);
    let common = if a.len() < b.len() {
        a.len()
    } else {
        b.len()
    };
    let mut i: usize = 0;
    while i < common
        invariant
            i <= common,
            a@ == without_nul(lhs@),
            b@ == without_nul(rhs@),
            common <= a@.len(),
            common <= b@.len(),
            forall|j: int| 0 <= j < i ==> a@[j] == b@[j],
        decreases common - i,
    {
        if a[i] != b[i] {
            let l: u16 = rank(a[i]);
            let r: u16 = rank(b[i]);
            if l < r {
                proof {
                    lemma_precedes_shown(a@, b@, i);
                }
                return Ordering::Less;
            } else {
                proof {
                    lemma_precedes_shown(b@, a@, i);
                    lemma_precedes_asymmetric(b@, a@);
                }
                return Ordering::Greater;
            }
        }
        i += 1;
    }
    if a.len() < b.len() {
        proof {
            lemma_precedes_shown(a@, b@, i);
        }
        Ordering::Less
    } else if a.len() == b.len() {
        proof {
            assert(a@ =~= b@);
            lemma_precedes_irreflexive(a@);
        }
        Ordering::Equal
    } else {
        proof {
            lemma_precedes_shown(b@, a@, i);
            lemma_precedes_asymmetric(b@, a@);
        }
        Ordering::Greater
    }
}

/// A position that shows the order shows it for the whole byte strings.
proof fn lemma_precedes_shown(a: Seq<u8>, b: Seq<u8>, i: usize)
    requires
        precedes_at(a, b, i as int),
    ensures
        precedes(a, b),
{
}

/// No byte string comes before itself.
pub proof fn lemma_precedes_irreflexive(a: Seq<u8>)
    ensures
        !precedes(a, a),
{
}

/// Of two byte strings at most one comes before the other.
pub proof fn lemma_precedes_asymmetric(a: Seq<u8>, b: Seq<u8>)
    requires
        precedes(a, b),
    ensures
        !precedes(b, a),
        a != b,
{
    let i = choose|i: int| precedes_at(a, b, i);
    if precedes(b, a) {
        let k = choose|k: int| precedes_at(b, a, k);
        if k < i {
            assert(a[k] == b[k]);
        } else if i < k {
            assert(b[i] == a[i]);
        }
    }
    if a == b {
        assert(precedes_at(a, a, i));
    }
}

/// Leaving out the separators at the end of a text leaves its beginning.
pub proof fn lemma_without_separators(text: Seq<u8>)
    ensures
        without_separators(text).len() <= text.len(),
        without_separators(text) == text.take(without_separators(text).len() as int),
        !ends_with_separator(without_separators(text)),
    decreases text.len(),
{
    if ends_with_separator(text) {
        lemma_without_separators(text.drop_last());
        let n = without_separators(text).len() as int;
        assert(text.drop_last().take(n) =~= text.take(n));
    } else {
        assert(text.take(text.len() as int) =~= text);
    }
}

/// The text without the separators at its end.
pub fn trim_separators(text: &[u8]) -> (r: &[u8])
    ensures
        r@ == without_separators(text@),
        !ends_with_separator(r@),
        r@.len() <= text@.len(),
{
    let mut n = text.len();
    proof {
        assert(text@.take(n as int) =~= text@);
    }
    while n > 0 && text[n - 1] == PATH_SEPARATOR
        invariant
            n <= text@.len(),
            without_separators(text@.take(n as int)) == without_separators(text@),
        decreases n,
    {
        proof {
            assert(text@.take(n as int).drop_last() =~= text@.take(n - 1));
        }
        n = n - 1;
    }
    proof {
        lemma_without_separators(text@);
    }
    prefix(text, n)
}

/// A path in the form in which it is stored, borrowed.
#[derive(Clone, Copy, Debug)]
pub struct CannonicalPath<'a> {
    bytes: &'a [u8],
}

impl<'a> View for CannonicalPath<'a> {
    type V = Seq<u8>;

    /// The stored bytes.
    closed spec fn view(&self) -> Seq<u8> {
        self.bytes@
    }
}

impl<'a> CannonicalPath<'a> {
    #[verifier::type_invariant]
    spec fn is_valid(self) -> bool {
        is_stored(self.bytes@)
    }

    /// What precedes the last separator, if there is one.
    pub fn parent(&self) -> (r: Option<&'a [u8]>)
        ensures
            match r {
                Some(text) => parent_text(self@) == Some(text@),
                None => parent_text(self@) is None,
            },
    {
        match find_last(PATH_SEPARATOR, self.bytes) {
            Some(i) => {
                proof {
                    lemma_last_index(self.bytes@, PATH_SEPARATOR, i as int);
                }
                Some(prefix(self.bytes, i))
            },
            None => {
                proof {
                    lemma_no_last_index(self.bytes@, PATH_SEPARATOR);
                }
                None
            },
        }
    }

    /// This path with `other` added as a component.
    pub fn join(&self, other: &[u8]) -> (r: CanonicalPathBuf)
        requires
            has_room_for(self@, other@.len() as int),
        ensures
            r@ == joined(self@, other@),
            is_stored(r@),
    {
        proof {
            use_type_invariant(*self);
        }
        if self.is_empty() {
            let mut res = CanonicalPathBuf::new();
            res.push(other);
            assert(self@ =~= Seq::<u8>::empty());
            res
        } else {
            let mut buf = bytes_with_capacity(self.bytes.len() + other.len());
            bytes_extend(&mut buf, self.bytes);
            assert(eco_bytes(buf) =~= self@);
            let mut res = CanonicalPathBuf { buf };
            res.push(other);
            res
        }
    }

    fn as_raw_bytes(&self) -> (r: &'a [u8])
        ensures
            r@ == if self@.len() == 0 {
                seq![DOT, 0u8]
            } else {
                self@
            },
    {
        if self.bytes.len() == 0 {
            &[46u8, 0u8]
        } else {
            self.bytes
        }
    }

    /// What the path says.
    pub fn as_bytes(&self) -> (r: &'a [u8])
        ensures
            r@ == path_text(self@),
            is_stored(self@),
    {
        proof {
            use_type_invariant(*self);
        }
        let bytes = self.as_raw_bytes();
        let r = prefix(bytes, bytes.len() - 1);
        assert(r@ =~= path_text(self@));
        r
    }

    /// Whether no bytes are stored.
    pub fn is_empty(&self) -> (r: bool)
        ensures
            r == (self@.len() == 0),
    {
        self.bytes.len() == 0
    }

    /// The number of bytes before the final NUL.
    pub fn len(&self) -> (r: usize)
        ensures
            r == path_stem(self@).len(),
    {
        let n = self.bytes.len();
        if n == 0 {
            0
        } else {
            n - 1
        }
    }

    /// The bytes as they are stored, with the NUL at the end. The path without any bytes gives
    /// the C string of what it says.
    pub fn as_bytes_with_nul(&self) -> (r: &'a [u8])
        ensures
            r@ == path_text(self@).push(0),
    {
        proof {
            use_type_invariant(*self);
        }
        let r = self.as_raw_bytes();
        assert(r@ =~= path_text(self@).push(0));
        r
    }

    /// Whether this path is a proper ancestor of `other`.
    pub fn is_parent_of(&self, other: CannonicalPath<'_>) -> (r: bool)
        ensures
            r == is_ancestor(self@, other@),
    {
        proof {
            use_type_invariant(*self);
            use_type_invariant(other);
        }
        let n = self.len();
        let starts = starts_with(other.as_bytes(), self.as_bytes());
        let next = n < other.bytes.len() && other.bytes[n] == PATH_SEPARATOR;
        proof {
            let p = path_text(self@);
            let c = path_text(other@);
            if starts && next && self@.len() > 0 {
                assert(c.take(p.len() as int) =~= p);
            }
            if is_ancestor(self@, other@) {
                assert(c.take(p.len() as int) =~= p);
                assert(p.is_prefix_of(c));
            }
            if starts && self@.len() == 0 {
                assert(p[0] == c[0]);
            }
        }
        starts && next
    }
}

impl<'a> PartialEq for CannonicalPath<'a> {
    fn eq(&self, other: &Self) -> (r: bool) {
        same_bytes(self.bytes, other.bytes)
    }
}

impl<'a> vstd::std_specs::cmp::PartialEqSpecImpl for CannonicalPath<'a> {
    open spec fn obeys_eq_spec() -> bool {
        true
    }

    open spec fn eq_spec(&self, other: &Self) -> bool {
        self@ == other@
    }
}

impl<'a> Eq for CannonicalPath<'a> {

}

/// `<[u8] as Hash>::hash`: feeds bytes to a hasher. Nothing is stated of the state of the hasher
/// after it, which is up to the hasher.
#[verifier::external_body]
fn hash_bytes<H: Hasher>(bytes: &[u8], state: &mut H) {
    bytes.hash(state)
}

impl<'a> Hash for CannonicalPath<'a> {
    /// Hashes what the path says, so that a path without a NUL at its end has the same hash.
    fn hash<H: Hasher>(&self, state: &mut H) {
        hash_bytes(self.as_bytes(), state)
    }
}

/// A path that owns its bytes, shares them between copies, and copies them on the first change.
///
/// The bytes are kept canonical by whoever puts them in, so that equal paths have equal bytes, and
/// they end with a NUL.
#[derive(Debug)]
pub struct CanonicalPathBuf {
    buf: EcoVec<u8>,
}

impl View for CanonicalPathBuf {
    type V = Seq<u8>;

    /// The stored bytes.
    closed spec fn view(&self) -> Seq<u8> {
        eco_bytes(self.buf)
    }
}

impl CanonicalPathBuf {
    #[verifier::type_invariant]
    spec fn is_valid(self) -> bool {
        is_stored(eco_bytes(self.buf)) && eco_bytes(self.buf).len() <= bytes_limit()
    }

    /// The path without any bytes.
    pub fn new() -> (r: CanonicalPathBuf)
        ensures
            r@ == Seq::<u8>::empty(),
    {
        Self { buf: bytes_new() }
    }

    /// The path that `path` says, which the caller knows to be canonical.
    pub fn assert_canonicalized(path: &[u8]) -> (r: CanonicalPathBuf)
        requires
            has_room_for(Seq::empty(), path@.len() as int),
        ensures
            r@ == joined(Seq::empty(), path@),
            is_stored(r@),
    {
        let mut res = Self::new();
        res.push(path);
        res
    }

    /// The path, borrowed.
    pub fn deref(&self) -> (r: CannonicalPath<'_>)
        ensures
            r@ == self@,
            is_stored(self@),
    {
        proof {
            use_type_invariant(self);
        }
        CannonicalPath { bytes: bytes_slice(&self.buf) }
    }

    /// Takes the bytes out and leaves the path without any.
    fn take_buf(&mut self) -> (buf: EcoVec<u8>)
        ensures
            eco_bytes(buf) == old(self)@,
            is_stored(old(self)@),
            old(self)@.len() <= bytes_limit(),
            final(self)@ == Seq::<u8>::empty(),
    {
        proof {
            use_type_invariant(&*self);
        }
        let mut buf = bytes_new();
        core::mem::swap(&mut buf, &mut self.buf);
        buf
    }

    /// Removes the last component and the separator before it. Says whether there was a
    /// separator; without one the path stays as it is.
    pub fn pop(&mut self) -> (r: bool)
        ensures
            r == (popped(old(self)@) is Some),
            final(self)@ == (match popped(old(self)@) {
                Some(rest) => rest,
                None => old(self)@,
            }),
    {
        let i: usize = match find_last(PATH_SEPARATOR, bytes_slice(&self.buf)) {
            Some(i) => i,
            None => {
                proof {
                    lemma_no_last_index(self@, PATH_SEPARATOR);
                }
                return false;
            },
        };
        proof {
            lemma_last_index(self@, PATH_SEPARATOR, i as int);
        }
        let mut buf = self.take_buf();
        proof {
            assert(i + 1 < old(self)@.len());
        }
        let n = trim_separators(prefix(bytes_slice(&buf), i)).len();
        proof {
            lemma_without_separators(old(self)@.take(i as int));
        }
        bytes_truncate(&mut buf, n);
        assert(eco_bytes(buf) =~= without_separators(old(self)@.take(i as int)));
        if n > 0 {
            bytes_push(&mut buf, 0);
            assert(path_text(eco_bytes(buf)) =~= without_separators(old(self)@.take(i as int)));
        }
        assert(n == 0 ==> eco_bytes(buf) =~= Seq::<u8>::empty());
        self.buf = buf;
        true
    }

    /// Adds `src` behind the last byte, without a separator. Separators at its end are left out.
    pub fn push_raw(&mut self, src: &[u8])
        requires
            has_room_for(old(self)@, src@.len() as int),
        ensures
            final(self)@ == pushed_raw(old(self)@, without_separators(src@)),
            !ends_with_separator(path_text(final(self)@)),
    {
        let text = trim_separators(src);
        let mut buf = self.take_buf();
        let _removed = bytes_pop(&mut buf);
        bytes_reserve(&mut buf, text.len() + 2);
        bytes_extend(&mut buf, text);
        bytes_push(&mut buf, 0);
        assert(eco_bytes(buf) =~= pushed_raw(old(self)@, text@));
        assert(path_text(eco_bytes(buf)) =~= path_stem(old(self)@) + text@);
        self.buf = buf;
    }

    /// Adds `src` as a component. Separators at its end are left out.
    pub fn push(&mut self, src: &[u8])
        requires
            has_room_for(old(self)@, src@.len() as int),
        ensures
            final(self)@ == joined(old(self)@, src@),
            !ends_with_separator(path_text(final(self)@)),
    {
        let text = trim_separators(src);
        let mut buf = self.take_buf();
        if text.len() == 0 {
            if src.len() > 0 && bytes_slice(&buf).len() == 0 {
                bytes_push(&mut buf, 0);
            }
            assert(eco_bytes(buf) =~= joined(old(self)@, src@));
            self.buf = buf;
            return;
        }
        let _removed = bytes_pop(&mut buf);
        bytes_reserve(&mut buf, text.len() + 2);
        if text[0] != PATH_SEPARATOR {
            bytes_push(&mut buf, PATH_SEPARATOR);
        }
        bytes_extend(&mut buf, text);
        bytes_push(&mut buf, 0);
        assert(eco_bytes(buf) =~= pushed(old(self)@, text@));
        assert(path_text(eco_bytes(buf)).last() == text@.last());
        self.buf = buf;
    }

    /// What the path says.
    pub fn as_bytes(&self) -> (r: &[u8])
        ensures
            r@ == path_text(self@),
            is_stored(self@),
    {
        self.deref().as_bytes()
    }

    /// The stored bytes, without the path around them.
    pub(crate) fn into_buf(self) -> (buf: EcoVec<u8>)
        ensures
            eco_bytes(buf) == self@,
            is_stored(self@),
    {
        proof {
            use_type_invariant(&self);
        }
        self.buf
    }

    /// The path with these stored bytes.
    pub(crate) fn from_buf(buf: EcoVec<u8>) -> (r: CanonicalPathBuf)
        requires
            is_stored(eco_bytes(buf)),
            eco_bytes(buf).len() <= bytes_limit(),
        ensures
            r@ == eco_bytes(buf),
    {
        CanonicalPathBuf { buf }
    }

    /// How many bytes are stored.
    pub fn stored_len(&self) -> (r: usize)
        ensures
            r == self@.len(),
    {
        bytes_slice(&self.buf).len()
    }

    /// Whether a component of this length can be added.
    pub fn fits(&self, len: usize) -> (r: bool)
        ensures
            r == has_room_for(self@, len as int),
    {
        let limit: usize = usize::MAX / 8 - 3;
        let stored = self.stored_len();
        stored <= limit && len <= limit - stored
    }

    /// Whether this path comes before `other` in tree order.
    pub fn comes_before(&self, other: &CanonicalPathBuf) -> (r: bool)
        ensures
            r == precedes(path_stem(self@), path_stem(other@)),
    {
        *self < *other
    }

    /// Whether this path is a proper ancestor of `other`.
    pub fn is_parent_of(&self, other: &CanonicalPathBuf) -> (r: bool)
        ensures
            r == is_ancestor(self@, other@),
    {
        self.deref().is_parent_of(other.deref())
    }

    /// Compares two paths in tree order.
    pub fn cmp(&self, other: &CanonicalPathBuf) -> (r: Ordering)
        ensures
            r == tree_order(path_stem(self@), path_stem(other@)),
    {
        proof {
            use_type_invariant(self);
            use_type_invariant(other);
        }
        self::cmp(bytes_slice(&self.buf), bytes_slice(&other.buf))
    }
}

impl Default for CanonicalPathBuf {
    fn default() -> (r: Self)
        ensures
            r@ == Seq::<u8>::empty(),
    {
        Self::new()
    }
}

impl Clone for CanonicalPathBuf {
    fn clone(&self) -> (r: Self)
        ensures
            r@ == self@,
    {
        proof {
            use_type_invariant(self);
        }
        Self { buf: bytes_clone(&self.buf) }
    }
}

impl Hash for CanonicalPathBuf {
    /// Hashes what the path says, so that a path without a NUL at its end has the same hash.
    fn hash<H: Hasher>(&self, state: &mut H) {
        hash_bytes(self.as_bytes(), state)
    }
}

impl PartialEq for CanonicalPathBuf {
    fn eq(&self, other: &Self) -> (r: bool) {
        same_bytes(bytes_slice(&self.buf), bytes_slice(&other.buf))
    }
}

impl vstd::std_specs::cmp::PartialEqSpecImpl for CanonicalPathBuf {
    open spec fn obeys_eq_spec() -> bool {
        true
    }

    open spec fn eq_spec(&self, other: &Self) -> bool {
        self@ == other@
    }
}

impl Eq for CanonicalPathBuf {

}

impl PartialOrd for CanonicalPathBuf {
    fn partial_cmp(&self, other: &Self) -> (r: Option<Ordering>) {
        Some(self.cmp(other))
    }
}

impl vstd::std_specs::cmp::PartialOrdSpecImpl for CanonicalPathBuf {
    open spec fn obeys_partial_cmp_spec() -> bool {
        true
    }

    open spec fn partial_cmp_spec(&self, other: &Self) -> Option<Ordering> {
        Some(tree_order(path_stem(self@), path_stem(other@)))
    }
}

} // verus!
