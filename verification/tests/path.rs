use std::path::{Path, PathBuf};
use yarn_berry_fetcher::path;

const PATHS: [&str; 22] = [
    "", "/", "//", ".", "./", "..", "a", "a/", "/a", "//a", "a/b", "a//b", "a/./b", "./a", "././a",
    "a/..", "../a", "/.", "/./a", "a/b/c/", "a/.", ".a/b.",
];

fn components(s: &str) -> Vec<Vec<u8>> {
    Path::new(s)
        .components()
        .map(|c| c.as_os_str().to_str().unwrap().as_bytes().to_vec())
        .collect()
}

#[test]
fn components_are_those_of_the_system() {
    for s in PATHS {
        assert_eq!(path::split(s.as_bytes()), components(s), "{s}");
    }
}

#[test]
fn parents_are_those_of_the_system() {
    for s in PATHS {
        let parent = Path::new(s)
            .parent()
            .map(|p| p.to_str().unwrap().as_bytes().to_vec());
        assert_eq!(path::parent_of(s.as_bytes()), parent, "{s}");
    }
}

#[test]
fn joins_are_those_of_the_system() {
    for a in PATHS {
        for b in PATHS {
            let joined = PathBuf::from(a).join(b);
            assert_eq!(
                path::join(a.as_bytes(), b.as_bytes()),
                joined.to_str().unwrap().as_bytes(),
                "{a} {b}"
            );
        }
    }
}

#[test]
fn names_are_put_below_one_another() {
    let names = |list: &[&str]| -> Vec<Vec<u8>> {
        list.iter().map(|n| n.as_bytes().to_vec()).collect()
    };
    assert_eq!(path::join_all(&names(&[])), b"");
    assert_eq!(path::join_all(&names(&["a"])), b"a");
    assert_eq!(path::join_all(&names(&["a", "..", "b"])), b"a/../b");
}

#[test]
fn a_line_leads_from_the_outermost_directory() {
    let line = |s: &str| -> Vec<String> {
        path::lineage_of(s.as_bytes())
            .into_iter()
            .map(|d| String::from_utf8(d).unwrap())
            .collect()
    };
    assert_eq!(line(""), Vec::<String>::new());
    assert_eq!(line("a//b/c/"), ["a", "a//b", "a//b/c/"]);
    assert_eq!(line("/a/b"), ["/", "/a", "/a/b"]);
    assert_eq!(line("./a"), [".", "./a"]);
}

#[test]
fn a_line_goes_through_the_parents() {
    for s in PATHS {
        let mut expected: Vec<Vec<u8>> = Path::new(s)
            .ancestors()
            .map(|p| p.to_str().unwrap().as_bytes().to_vec())
            .filter(|p| !p.is_empty())
            .collect();
        expected.reverse();
        assert_eq!(path::lineage_of(s.as_bytes()), expected, "{s}");
    }
}

#[test]
fn dots_are_no_components_behind_the_first() {
    for s in PATHS {
        let parts = path::split(s.as_bytes());
        assert!(parts.iter().skip(1).all(|p| p != b"."), "{s}");
    }
}
