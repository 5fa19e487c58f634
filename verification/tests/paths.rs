use helix_workspace::normalize::normalize_path;
use helix_workspace::path::PathBuf;
use helix_workspace::path_set::PathSet;
use helix_workspace::text::{
    ends_with, parse_number, split_lines, starts_with, to_ascii_lowercase, to_decimal, to_hex, trim,
};
use std::path::Path;

const SAMPLES: [&str; 31] = [
    "", "/", "//", ".", "..", "./", "../", "a", "a/", "/a", "//a", "/a/", "/a//b", "a/b/c", "a/./b",
    "./a", "./a/b", "/.", "/./a", "/..", "/../a", "a/..", "a/../b", "a/.", "a//", "/a/b/../c/.",
    "a.txt", "dir/a.txt", ".git", "été/ü", "a b/c d",
];

fn text(path: &Path) -> String {
    path.to_str().unwrap().to_string()
}

#[test]
fn paths_are_taken_apart_as_std_does() {
    for s in SAMPLES {
        let (ours, std) = (PathBuf::from(s), Path::new(s));
        assert_eq!(ours.component_count(), std.components().count(), "components of {s:?}");
        assert_eq!(
            ours.file_name(),
            std.file_name().map(|n| n.to_str().unwrap().to_string()),
            "file name of {s:?}"
        );
        assert_eq!(ours.parent().map(|p| p.text), std.parent().map(text), "parent of {s:?}");
        let ancestors: Vec<String> = ours.ancestors().into_iter().map(|p| p.text).collect();
        let expected: Vec<String> = std.ancestors().map(text).collect();
        assert_eq!(ancestors, expected, "ancestors of {s:?}");
    }
}

#[test]
fn paths_are_put_together_as_std_does() {
    for a in SAMPLES {
        for b in SAMPLES {
            assert_eq!(PathBuf::from(a).join(b).text, text(&Path::new(a).join(b)), "{a:?} + {b:?}");
        }
    }
}

#[test]
fn paths_are_compared_as_std_does() {
    for a in SAMPLES {
        for b in SAMPLES {
            let (ours, other) = (PathBuf::from(a), PathBuf::from(b));
            let (std, std_other) = (Path::new(a), Path::new(b));
            assert_eq!(ours.same_as(&other), std == std_other, "{a:?} == {b:?}");
            assert_eq!(ours == other, std == std_other, "{a:?} == {b:?}");
            assert_eq!(ours.comes_before(&other), std < std_other, "{a:?} < {b:?}");
            assert_eq!(ours.starts_with(&other), std.starts_with(std_other), "{a:?} in {b:?}");
            assert_eq!(
                ours.strip_prefix(&other).map(|p| p.text),
                std.strip_prefix(std_other).ok().map(text),
                "{a:?} - {b:?}"
            );
        }
    }
}

#[test]
fn sets_of_paths_are_kept_in_order() {
    let mut set = PathSet::new();
    assert!(set.is_empty());
    for s in ["/b", "/a/c", "/a", "/a/", "/b"] {
        set.insert(PathBuf::from(s));
    }
    let paths: Vec<&str> = set.paths.iter().map(|p| p.text.as_str()).collect();
    assert_eq!(paths, ["/a", "/a/c", "/b"]);
    assert!(set.contains(&PathBuf::from("/a//c")));
    set.remove(&PathBuf::from("/a/"));
    assert_eq!(set.len(), 2);
    set.clear();
    assert!(set.is_empty());
}

fn number(s: &str) -> Option<usize> {
    let chars: Vec<char> = s.chars().collect();
    let len = chars.len();
    parse_number(&chars, 0, len)
}

#[test]
fn texts_are_handled_as_std_does() {
    for s in ["", "0", "7", "+7", "++7", "-7", "007", "12a", "18446744073709551616", "+", "٣"] {
        assert_eq!(number(s), s.parse::<usize>().ok(), "{s:?}");
    }
    assert_eq!(number(&usize::MAX.to_string()), Some(usize::MAX));
    for s in ["", " a b ", "\t\u{3000}a\n", "\u{a0}", "a", " \u{200b} "] {
        assert_eq!(trim(s), s.trim(), "{s:?}");
    }
    for s in ["", "a", "a\n", "a\nb", "a\r\nb\r", "\n\n", "a\n\r\n"] {
        let expected: Vec<&str> = s.lines().collect();
        assert_eq!(split_lines(s), expected, "{s:?}");
    }
    for n in [0, 9, 10, 1234567890, usize::MAX] {
        assert_eq!(to_decimal(n), n.to_string());
    }
    assert_eq!(to_hex(0xdead_beef, 16), format!("{:016x}", 0xdead_beef_u64));
    assert_eq!(to_hex(u64::MAX, 16), "ffffffffffffffff");
    assert_eq!(to_ascii_lowercase("OfF É"), "OfF É".to_ascii_lowercase());
    assert!(starts_with("--x", "--") && !starts_with("-", "--"));
    assert!(ends_with("a.toml", ".toml") && !ends_with("toml", ".toml"));
}

#[test]
fn paths_are_normalized() {
    let home = Some(PathBuf::from("/home/u"));
    let at_home = |s: &str| normalize_path(&PathBuf::from(s), &home).text;
    let homeless = |s: &str| normalize_path(&PathBuf::from(s), &None).text;
    assert_eq!(at_home("~"), "/home/u");
    assert_eq!(at_home("~/a/../b"), "/home/u/b");
    assert_eq!(at_home("~/.."), "/home");
    assert_eq!(at_home("~user/a"), "~user/a");
    assert_eq!(at_home("/~/a"), "/~/a");
    assert_eq!(homeless("~/a"), "~/a");
    assert_eq!(homeless("/a/./b//c/"), "/a/b/c");
    assert_eq!(homeless("/.."), "/");
    assert_eq!(homeless("/../../a/b/.."), "/a");
    assert_eq!(homeless("../a"), "a");
    assert_eq!(homeless("./a/.."), "");
    for s in SAMPLES {
        let once = homeless(s);
        assert_eq!(homeless(&once), once, "{s:?}");
    }
}
