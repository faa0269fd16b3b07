use std::path::{Path, PathBuf};

use kosu::paths::{
    component_count, copy_bytes, extension, file_name, join, lead, leads_to, place_paths,
    same_bytes, Lead, Place,
};

const PATHS: [&str; 22] = [
    "", "/", ".", "..", "a", "a/", "/a", "a/b", "a//b", "a/./b", "./a", "a/..", "a.b", "a-b",
    "ab", "/a/b", "//a/b/", "../a", "a/b/c", "A", "a/b.", "/.",
];

#[test]
fn paths_are_ordered_as_std_orders_them() {
    for a in PATHS {
        for b in PATHS {
            let place = place_paths(a.as_bytes(), b.as_bytes());
            let expected = Path::new(a).cmp(Path::new(b));
            let got = match place {
                Place::Before => std::cmp::Ordering::Less,
                Place::Same => std::cmp::Ordering::Equal,
                Place::After => std::cmp::Ordering::Greater,
            };
            assert_eq!(got, expected, "{:?} {:?}", a, b);
        }
    }
}

#[test]
fn components_are_counted_as_std_counts_them() {
    for a in PATHS {
        assert_eq!(component_count(a.as_bytes()), Path::new(a).components().count(), "{:?}", a);
    }
}

#[test]
fn leading_is_being_an_ancestor() {
    for a in PATHS {
        for b in PATHS {
            let mut expected = false;
            let mut at = Path::new(b).parent();
            while let Some(p) = at {
                if p == Path::new(a) {
                    expected = true;
                }
                at = p.parent();
            }
            assert_eq!(leads_to(a.as_bytes(), b.as_bytes()), expected, "{:?} {:?}", a, b);
        }
    }
}

#[test]
fn leads_of_prefixes() {
    assert_eq!(lead(b"a/b", b"a//b"), Lead::Same);
    assert_eq!(lead(b"a", b"a/b/c"), Lead::Above);
    assert_eq!(lead(b"a/b", b"a"), Lead::Apart);
    assert_eq!(lead(b"a", b"ab"), Lead::Apart);
    assert_eq!(lead(b"", b"/a"), Lead::Above);
    assert!(!leads_to(b"", b"/a"));
}

#[test]
fn joining_is_pushing() {
    for dir in PATHS {
        for name in ["x", "x/y", "/abs", "..", ""] {
            let mut expected = PathBuf::from(dir);
            if !name.is_empty() {
                expected.push(name);
                let got = String::from_utf8(join(dir.as_bytes(), name.as_bytes())).unwrap();
                assert_eq!(got, expected.to_str().unwrap(), "{:?} {:?}", dir, name);
            }
        }
    }
    assert_eq!(join(b"a/", b"b"), b"a/b".to_vec());
    assert_eq!(join(b"/", b"b"), b"/b".to_vec());
}

#[test]
fn file_names_are_those_of_std() {
    for a in PATHS {
        let expected = Path::new(a).file_name().map(|n| n.to_str().unwrap().as_bytes().to_vec());
        assert_eq!(file_name(a.as_bytes()), expected, "{:?}", a);
    }
}

#[test]
fn extensions_are_those_of_std() {
    for name in ["a.csproj", ".csproj", "a", "a.", "..", "a.b.c", "x.fsproj", ".a.b", "...", "."] {
        let expected = Path::new(name).extension().map(|e| e.to_str().unwrap().as_bytes().to_vec());
        if name != "." {
            assert_eq!(extension(name.as_bytes()), expected, "{:?}", name);
        }
    }
}

#[test]
fn bytes_compare_and_copy() {
    assert!(same_bytes(b"abc", b"abc"));
    assert!(!same_bytes(b"abc", b"abd"));
    assert!(!same_bytes(b"abc", b"ab"));
    assert_eq!(copy_bytes(b"\xff\x00"), vec![0xff, 0]);
}

#[test]
fn sorted_paths_keep_a_directory_together() {
    // In byte order `a-b` stands between `a` and `a/b`.
    assert_eq!(place_paths(b"a", b"a/b"), Place::Before);
    assert_eq!(place_paths(b"a/b", b"a-b"), Place::Before);
    assert_eq!(place_paths(b"a/z", b"a-b"), Place::Before);
}
