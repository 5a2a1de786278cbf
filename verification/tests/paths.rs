use filesentry::components::{ends_with_name, parent_of};
use filesentry::path::{cmp, rank, strip_nul, trim_separators, CanonicalPathBuf};
use std::cmp::Ordering;
use std::collections::hash_map::DefaultHasher;
use std::hash::{Hash, Hasher};
use std::path::Path;

fn p(s: &str) -> CanonicalPathBuf {
    CanonicalPathBuf::assert_canonicalized(s.as_bytes())
}

#[test]
fn is_parent_of_basic() {
    let foo = p("/foo");
    let foo_bar = p("/foo/bar");
    let foo_baz = p("/foo/baz");
    let foobar = p("/foobar");

    // /foo is parent of /foo/bar
    assert!(foo.is_parent_of(&foo_bar));
    // /foo is parent of /foo/baz
    assert!(foo.is_parent_of(&foo_baz));
    // /foo is NOT parent of /foobar (no separator)
    assert!(!foo.is_parent_of(&foobar));
}

#[test]
fn is_parent_of_same_path() {
    let foo = p("/foo");
    let foo2 = p("/foo");

    // /foo is NOT parent of /foo (same path)
    assert!(!foo.is_parent_of(&foo2));
}

#[test]
fn is_parent_of_longer_self() {
    let foo_bar = p("/foo/bar");
    let foo = p("/foo");

    // /foo/bar is NOT parent of /foo (self is longer)
    assert!(!foo_bar.is_parent_of(&foo));
}

#[test]
fn is_parent_of_nested() {
    let foo = p("/foo");
    let foo_bar = p("/foo/bar");
    let foo_bar_baz = p("/foo/bar/baz");

    // /foo is parent of /foo/bar/baz
    assert!(foo.is_parent_of(&foo_bar_baz));
    // /foo/bar is parent of /foo/bar/baz
    assert!(foo_bar.is_parent_of(&foo_bar_baz));
}

#[test]
fn is_parent_of_null_terminator_safety() {
    let foo = p("/foo");

    assert_eq!(foo.deref().as_bytes_with_nul().last(), Some(&0u8)); // null terminated
    assert_eq!(foo.deref().as_bytes_with_nul().len(), 5); // includes null
    assert_eq!(foo.deref().len(), 4); // excludes null
    assert!(!foo.is_parent_of(&foo));
}

#[test]
fn tree_order() {
    assert!(p("/foo") < p("/foo/bar")); // parent before child
    assert!(p("/foo") < p("/foobar")); // prefix before longer sibling
    assert!(p("/foo/bar") < p("/foo/baz")); // siblings by name
    assert!(p("/foo/a") < p("/foo-x")); // child of foo before sibling foo-x
    assert!(p("/foo/bar") < p("/foobar")); // descendant before prefix-sibling
}

#[test]
fn total_order_axioms() {
    let set: Vec<_> = [
        "/foo", "/foo/a", "/foo/b", "/foo/a/x", "/foo-x", "/foobar", "/bar", "/bar/baz", "/a",
        "/a/b/c", "/foo/a/y", "/foo/aa",
    ]
    .into_iter()
    .map(p)
    .collect();

    for a in &set {
        // reflexive + antisymmetric
        assert_eq!(a.cmp(a), Ordering::Equal);
        for b in &set {
            assert_eq!(a.cmp(b), b.cmp(a).reverse(), "antisymmetry {a:?} {b:?}");
            for c in &set {
                // transitivity of <=
                if a.cmp(b) != Ordering::Greater && b.cmp(c) != Ordering::Greater {
                    assert_ne!(
                        a.cmp(c),
                        Ordering::Greater,
                        "transitivity {a:?} {b:?} {c:?}"
                    );
                }
            }
        }
    }
}

#[test]
fn sort_large_tree_does_not_panic() {
    let mut paths: Vec<CanonicalPathBuf> = Vec::new();
    for d in 0..120 {
        paths.push(p(&format!("/repo/dir{d:03}")));
        for f in 0..120 {
            paths.push(p(&format!("/repo/dir{d:03}/file{f:03}.rs")));
        }
    }
    // shuffle-ish so the input isn't already ordered
    paths.reverse();
    paths.sort_unstable_by(|a, b| a.cmp(b));
    // parents precede their descendants after sorting
    let repo = p("/repo/dir000");
    let child = p("/repo/dir000/file000.rs");
    let i = paths.iter().position(|x| *x == repo).unwrap();
    let j = paths.iter().position(|x| *x == child).unwrap();
    assert!(i < j);
}

#[test]
fn the_separator_ranks_below_every_other_byte() {
    assert_eq!(rank(b'/'), 0);
    assert_eq!(rank(0), 1);
    assert_eq!(rank(b'-'), 46);
    assert_eq!(rank(255), 256);
}

#[test]
fn one_nul_is_stripped() {
    assert_eq!(strip_nul(b"/a\0"), b"/a");
    assert_eq!(strip_nul(b"/a"), b"/a");
    assert_eq!(strip_nul(b"/a\0\0"), b"/a\0");
    assert_eq!(strip_nul(b""), b"");
}

#[test]
fn bytes_are_compared_without_the_nul() {
    assert_eq!(cmp(b"/a\0", b"/a"), Ordering::Equal);
    assert_eq!(cmp(b"/a\0", b"/a/b\0"), Ordering::Less);
    assert_eq!(cmp(b"/a-b\0", b"/a/b\0"), Ordering::Greater);
}

#[test]
fn components_are_pushed_and_popped() {
    let mut path = CanonicalPathBuf::new();
    assert!(path.deref().is_empty());
    assert_eq!(path.as_bytes(), b".");
    assert_eq!(path.deref().as_bytes_with_nul(), b".\0");
    path.push(b"usr");
    assert_eq!(path.as_bytes(), b"/usr");
    path.push(b"/lib");
    assert_eq!(path.as_bytes(), b"/usr/lib");
    path.push_raw(b"64");
    assert_eq!(path.as_bytes(), b"/usr/lib64");
    assert!(path.pop());
    assert_eq!(path.as_bytes(), b"/usr");
    assert_eq!(path.deref().as_bytes_with_nul(), b"/usr\0");
    assert!(path.pop());
    assert!(path.deref().is_empty());
    assert!(!path.pop());
}

#[test]
fn the_parent_ends_before_the_last_separator() {
    assert_eq!(p("/usr/lib").deref().parent(), Some(&b"/usr"[..]));
    assert_eq!(p("/usr").deref().parent(), Some(&b""[..]));
    assert_eq!(CanonicalPathBuf::new().deref().parent(), None);
}

#[test]
fn a_component_is_joined_to_a_path() {
    assert_eq!(p("/usr").deref().join(b"lib"), p("/usr/lib"));
    assert!(p("/usr").is_parent_of(&p("/usr").deref().join(b"lib")));
    assert_eq!(
        CanonicalPathBuf::new().deref().join(b"lib").as_bytes(),
        b"/lib"
    );
}

#[test]
fn a_copy_is_independent() {
    let path = p("/usr");
    let mut copy = path.clone();
    assert!(copy == path);
    copy.push(b"lib");
    assert!(copy != path);
    assert_eq!(path.as_bytes(), b"/usr");
    assert_eq!(copy.as_bytes(), b"/usr/lib");
}

#[test]
fn lengths_and_room() {
    let path = p("/usr");
    assert_eq!(path.stored_len(), 5);
    assert!(path.fits(100));
    assert!(!path.fits(usize::MAX));
    assert!(path.comes_before(&p("/usr/lib")));
    assert!(!path.comes_before(&path));
}

#[test]
fn ancestors_are_found_by_components() {
    assert_eq!(parent_of(b"/a/b"), Some(&b"/a"[..]));
    assert_eq!(parent_of(b"/a//b/"), Some(&b"/a"[..]));
    assert_eq!(parent_of(b"/a"), Some(&b"/"[..]));
    assert_eq!(parent_of(b"/"), None);
    assert_eq!(parent_of(b"a"), Some(&b""[..]));
    assert_eq!(parent_of(b""), None);
}

#[test]
fn a_name_is_the_last_component() {
    assert!(ends_with_name(b"/proj/.git", b".git"));
    assert!(ends_with_name(b"/proj/.git/", b".git"));
    assert!(!ends_with_name(b"/proj/x.git", b".git"));
    assert!(!ends_with_name(b"/proj/.git/objects", b".git"));
}

#[test]
fn what_is_beneath_a_directory_follows_it_without_a_gap() {
    let mut paths: Vec<_> = ["/a-b", "/a/c", "/b", "/a/b/x", "/a", "/a/b", "/ab"]
        .into_iter()
        .map(p)
        .collect();
    paths.sort_by(|a, b| a.cmp(b));
    let sorted: Vec<_> = paths.iter().map(|path| path.as_bytes()).collect();
    assert_eq!(
        sorted,
        [&b"/a"[..], b"/a/b", b"/a/b/x", b"/a/c", b"/a-b", b"/ab", b"/b"]
    );
}

#[test]
fn ancestry_is_transitive_and_asymmetric() {
    let (a, b, c) = (p("/a"), p("/a/b"), p("/a/b/c"));
    assert!(a.is_parent_of(&b) && b.is_parent_of(&c) && a.is_parent_of(&c));
    assert!(!b.is_parent_of(&a) && !c.is_parent_of(&a));
}

#[test]
fn a_path_does_not_end_with_a_separator() {
    let mut path = p("/usr/lib");
    path.push(b"x");
    assert_ne!(path.as_bytes().last(), Some(&b'/'));
    path.pop();
    assert_eq!(path, p("/usr/lib"));
    assert_eq!(CanonicalPathBuf::assert_canonicalized(b"/usr/lib//"), path);
    assert_eq!(trim_separators(b"/usr//"), b"/usr");
    assert_eq!(trim_separators(b"//"), b"");
    let mut doubled = p("/usr//lib");
    doubled.pop();
    assert_eq!(doubled, p("/usr"));
}

#[test]
fn whatever_is_added_a_path_does_not_end_with_a_separator() {
    let mut path = p("/foo");
    path.push(b"");
    assert_eq!(path, p("/foo"));
    path.push(b"//");
    assert_eq!(path, p("/foo"));
    path.push(b"bar/");
    assert_eq!(path, p("/foo/bar"));
    path.push_raw(b"x//");
    assert_eq!(path, p("/foo/barx"));
    path.push_raw(b"/");
    assert_eq!(path, p("/foo/barx"));
    assert_eq!(p("/foo").deref().join(b"a/b/"), p("/foo/a/b"));
    assert_eq!(p("/foo/"), p("/foo"));
}

#[test]
fn a_path_has_the_hash_of_what_it_says() {
    fn hash<T: Hash + ?Sized>(value: &T) -> u64 {
        let mut hasher = DefaultHasher::new();
        value.hash(&mut hasher);
        hasher.finish()
    }
    let path = p("/foo/bar");
    assert_eq!(hash(&path), hash(&b"/foo/bar"[..]));
    assert_eq!(hash(&path.deref()), hash(&b"/foo/bar"[..]));
    assert_ne!(hash(&path), hash(&b"/foo/bar\0"[..]));
    assert_eq!(hash(&CanonicalPathBuf::new()), hash(&b"."[..]));
}

#[test]
fn a_drive_or_a_share_has_no_parent() {
    assert_eq!(parent_of(b"//?/C:/x/y"), Some(&b"//?/C:/x"[..]));
    assert_eq!(parent_of(b"//?/C:/x"), Some(&b"//?/C:/"[..]));
    assert_eq!(parent_of(b"//?/C:/"), None);
    assert_eq!(parent_of(b"//?/C:"), None);
    assert_eq!(
        parent_of(b"//?/UNC/server/share/x"),
        Some(&b"//?/UNC/server/share/"[..])
    );
    assert_eq!(parent_of(b"//?/UNC/server/share"), None);
    assert!(ends_with_name(b"//?/C:/x/.git", b".git"));
    assert!(!ends_with_name(b"//?/C:", b"C:"));
}

#[test]
fn the_root_directory_is_above_everything() {
    let root = CanonicalPathBuf::assert_canonicalized(b"/");
    assert_eq!(root.as_bytes(), b"");
    assert_eq!(root.stored_len(), 1);
    assert!(root.is_parent_of(&p("/usr")));
    assert!(root < p("/usr"));
    assert_eq!(root.deref().join(b"usr"), p("/usr"));
    assert!(CanonicalPathBuf::assert_canonicalized(b"").deref().is_empty());
}

#[test]
fn joining_a_name_and_taking_the_parent_gives_the_path_back() {
    let path = p("/usr/lib");
    let child = path.deref().join(b"x.so");
    assert_eq!(child.as_bytes(), b"/usr/lib/x.so");
    assert_eq!(child.deref().parent(), Some(path.as_bytes()));
    assert!(path.is_parent_of(&child));
    assert!(path.deref() == p("/usr/lib").deref());
}

#[test]
fn an_absolute_path_says_what_was_put_in() {
    for text in ["/a", "/a/b", "/a//b", "/x y/."] {
        let path = p(text);
        assert_eq!(path.as_bytes(), text.as_bytes());
        assert_eq!(CanonicalPathBuf::assert_canonicalized(path.as_bytes()), path);
    }
}

#[test]
fn components_are_read_as_the_standard_library_reads_them() {
    let mut texts = vec![String::new()];
    for i in 0..3000 {
        for byte in ['/', '.', 'a'] {
            let longer = format!("{}{}", texts[i], byte);
            texts.push(longer);
        }
    }
    for text in &texts {
        let path = Path::new(text);
        assert_eq!(
            parent_of(text.as_bytes()),
            path.parent().map(|parent| parent.to_str().unwrap().as_bytes()),
            "{text:?}"
        );
        for name in ["a", "aa", ".a", ".."] {
            assert_eq!(
                ends_with_name(text.as_bytes(), name.as_bytes()),
                path.ends_with(name),
                "{text:?} {name:?}"
            );
        }
    }
}
