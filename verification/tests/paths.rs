use cargo_dyndrv::path::{
    component_names, file_name, find_components, join, normal, parent, rest_from, same_bytes,
    same_path, starts_with_names, strip_base, UnixPath,
};
use cargo_dyndrv::util::{CloneBytes, IntoBytes};
use std::path::{Path, PathBuf};

const SAMPLES: [&str; 34] = [
    "", "/", "//", ".", "..", "./", "../", "/.", "/..", "a", "a/", "/a", "/a/", "a/b", "a//b",
    "a/./b", "./a", "././a", "a/.", "a/..", "a/../b", "/a/b/c", "/a//b/./c/", "//a/b", "...",
    "a/.../b", ".a", "a/.b/", "/nix/store", "/nix/store/", "/nix/store/x-y/bin/z", "src",
    "a/src/lib.rs", "/a/src",
];

fn text(bytes: Vec<u8>) -> String {
    String::from_utf8(bytes).unwrap()
}

#[test]
fn parent_agrees_with_std() {
    for p in SAMPLES {
        let ours = parent(p.as_bytes()).map(text);
        let theirs = Path::new(p).parent().map(|d| d.to_str().unwrap().to_owned());
        assert_eq!(ours, theirs, "parent of {:?}", p);
    }
}

#[test]
fn file_name_agrees_with_std() {
    for p in SAMPLES {
        let ours = file_name(p.as_bytes()).map(text);
        let theirs = Path::new(p).file_name().map(|d| d.to_str().unwrap().to_owned());
        assert_eq!(ours, theirs, "file name of {:?}", p);
    }
}

#[test]
fn components_agree_with_std() {
    for p in SAMPLES {
        let ours: Vec<String> = component_names(p.as_bytes()).into_iter().map(text).collect();
        let theirs: Vec<String> = Path::new(p)
            .components()
            .map(|c| c.as_os_str().to_str().unwrap().to_owned())
            .collect();
        assert_eq!(ours, theirs, "components of {:?}", p);
    }
}

#[test]
fn equality_agrees_with_std() {
    for p in SAMPLES {
        for q in SAMPLES {
            assert_eq!(
                same_path(p.as_bytes(), q.as_bytes()),
                Path::new(p) == Path::new(q),
                "{:?} and {:?}",
                p,
                q
            );
        }
    }
}

#[test]
fn strip_base_agrees_with_std() {
    for p in SAMPLES {
        for q in SAMPLES {
            let ours = strip_base(p.as_bytes(), q.as_bytes()).map(text);
            let theirs = Path::new(p)
                .strip_prefix(q)
                .ok()
                .map(|d| d.to_str().unwrap().to_owned());
            assert_eq!(ours, theirs, "{:?} below {:?}", p, q);
        }
    }
}

#[test]
fn join_agrees_with_std() {
    for p in SAMPLES {
        for q in SAMPLES {
            let mut theirs = PathBuf::from(p);
            theirs.push(q);
            assert_eq!(
                text(join(p.as_bytes(), q.as_bytes())),
                theirs.to_str().unwrap(),
                "{:?} and {:?}",
                p,
                q
            );
        }
    }
}

#[test]
fn rest_agrees_with_std() {
    for p in SAMPLES {
        let n = Path::new(p).components().count();
        for k in 0..n + 1 {
            let mut theirs = Path::new(p).components();
            for _ in 0..k {
                theirs.next();
            }
            assert_eq!(
                text(rest_from(p.as_bytes(), k)),
                theirs.as_path().to_str().unwrap(),
                "{:?} from {}",
                p,
                k
            );
        }
    }
}

#[test]
fn components_are_spans() {
    assert_eq!(find_components(b"/a//b/./c/"), vec![(0, 1), (1, 2), (4, 5), (8, 9)]);
    assert_eq!(find_components(b""), vec![]);
    assert_eq!(find_components(b"./x"), vec![(0, 1), (2, 3)]);
}

#[test]
fn plain_names() {
    assert!(normal(&b"src".to_vec()));
    assert!(normal(&b"...".to_vec()));
    assert!(normal(&b"..a".to_vec()));
    assert!(!normal(&b".".to_vec()));
    assert!(!normal(&b"..".to_vec()));
    assert!(!normal(&b"/".to_vec()));
}

#[test]
fn bytes_that_are_not_utf8_are_kept() {
    let p = [b'/', 0xff, b'/', b'a'];
    assert_eq!(parent(&p), Some(vec![b'/', 0xff]));
    assert_eq!(file_name(&p[..2]), Some(vec![0xff]));
    assert!(same_bytes(&p, &p));
    assert!(!same_bytes(&p, &p[..3]));
    assert!(!same_bytes(b"ab", b"ac"));
}

#[test]
fn prefixes_of_lists() {
    let long = component_names(b"/a/b");
    let short = component_names(b"/a");
    let other = component_names(b"/b");
    assert!(starts_with_names(&long, &short));
    assert!(!starts_with_names(&long, &other));
}

#[test]
fn parent_leads_through_all_but_the_last_component() {
    for p in SAMPLES {
        if let Some(dir) = parent(p.as_bytes()) {
            let mut all = component_names(p.as_bytes());
            all.pop();
            assert_eq!(component_names(&dir), all, "{:?}", p);
        }
    }
}

#[test]
fn a_moved_path_keeps_its_place() {
    let rest = strip_base(b"/home/me/foo/src/./lib.rs", b"/home//me/foo/").unwrap();
    assert_eq!(rest, b"src/./lib.rs");
    let moved = join(b"/nix/store/h-foo-src", &rest);
    assert_eq!(moved, b"/nix/store/h-foo-src/src/./lib.rs");
    let mut expected = component_names(b"/nix/store/h-foo-src");
    expected.extend(component_names(b"src/lib.rs"));
    assert_eq!(component_names(&moved), expected);
}

#[test]
fn paths_become_byte_strings() {
    let p = UnixPath { bytes: b"/a/b".to_vec() };
    assert_eq!(p.clone_bytes().as_ref(), b"/a/b");
    assert_eq!(p.clone().bytes, b"/a/b");
    assert_eq!(p.into_bytes().as_ref(), b"/a/b");
}
