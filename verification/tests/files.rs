//! Paths, what Git prints, and the files that are parsed.

use commentlint::discover::{discover_files, file_source, Found, Given, Source};
use commentlint::git::{changed_entries, changed_files, nul_pieces, relative_files, split_nul, tracked_files};
use commentlint::languages::Lang;
use commentlint::paths::{absolute, normalize, path_precedes, render, same_path, strip_prefix};
use std::path::{Component, Path, PathBuf};

const SAMPLES: [&str; 24] = [
    "", ".", "./", "..", "/", "//", "a", "a/", "a/b", "a//b", "a/./b", "./a", "././a", "a/.", "a/..", "/a", "/a/../b",
    "./a/b/", "..a", ".a", "a/b/c", "a-b", "a.b", "/./a/.",
];

fn bytes(list: &[&str]) -> Vec<Vec<u8>> {
    list.iter().map(|s| s.as_bytes().to_vec()).collect()
}

#[test]
fn normalizing_strips_a_leading_dot() {
    for p in SAMPLES {
        let path = Path::new(p);
        let want = path.strip_prefix(".").map(Path::to_path_buf).unwrap_or_else(|_| path.to_path_buf());
        let got = normalize(p.as_bytes());
        assert_eq!(String::from_utf8(got.clone()).unwrap(), want.to_str().unwrap(), "{}", p);
        assert_eq!(normalize(&got), got);
    }
}

#[test]
fn prefixes_are_stripped_by_parts() {
    for p in SAMPLES {
        for prefix in SAMPLES {
            if prefix.is_empty() {
                continue;
            }
            let want = Path::new(p).strip_prefix(prefix).ok().map(|r| r.to_str().unwrap().to_string());
            let got = strip_prefix(p.as_bytes(), prefix.as_bytes()).map(|r| String::from_utf8(r).unwrap());
            assert_eq!(got, want, "{} {}", p, prefix);
        }
    }
}

#[test]
fn paths_are_ordered_by_parts() {
    for a in SAMPLES {
        for b in SAMPLES {
            assert_eq!(path_precedes(a.as_bytes(), b.as_bytes()), Path::new(a) < Path::new(b), "{} {}", a, b);
            assert_eq!(same_path(a.as_bytes(), b.as_bytes()), Path::new(a) == Path::new(b), "{} {}", a, b);
        }
    }
}

#[test]
fn absolute_paths_lose_their_dots() {
    for p in SAMPLES {
        if !p.starts_with('/') {
            continue;
        }
        let mut want = PathBuf::new();
        for c in Path::new(p).components() {
            match c {
                Component::CurDir => {}
                Component::ParentDir => {
                    want.pop();
                }
                other => want.push(other),
            }
        }
        let got = render(&absolute(p.as_bytes()));
        assert_eq!(String::from_utf8(got.clone()).unwrap(), want.to_str().unwrap(), "{}", p);
        assert_eq!(render(&absolute(&got)), got);
    }
    assert_eq!(render(&absolute(b"/../../a/../b/./c")), b"/b/c".to_vec());
    assert_eq!(absolute(b"/x/y"), bytes(&["x", "y"]));
    assert_eq!(render(&absolute(b"/a/./b/../c")), b"/a/c".to_vec());
    assert_eq!(render(&absolute(b"/..")), b"/".to_vec());
}

#[test]
fn detours_lead_to_the_same_place() {
    for p in SAMPLES {
        if !p.starts_with('/') {
            continue;
        }
        for detour in [".", "x/..", "x/../.", "./x/.."] {
            let longer = Path::new(p).join(detour);
            assert_eq!(absolute(longer.to_str().unwrap().as_bytes()), absolute(p.as_bytes()), "{} {}", p, detour);
        }
    }
}

#[test]
fn git_lists_are_split_at_zero_bytes() {
    assert_eq!(split_nul(b"a\0b/c\0\0d"), bytes(&["a", "b/c", "d"]));
    assert!(split_nul(b"").is_empty());
    assert!(split_nul(b"\0\0").is_empty());
    assert_eq!(tracked_files(b"src/a.rs\0b.py\0"), bytes(&["src/a.rs", "b.py"]));
    assert_eq!(tracked_files(b"x\xffy\0"), bytes(&["x\u{fffd}y"]));
    assert_eq!(split_nul(b"x\xffy\0"), bytes(&["x\u{fffd}y"]));
    assert_eq!(nul_pieces(b"\0x\xffy\0"), vec![b"x\xffy".to_vec()]);
}

#[test]
fn deleted_and_ignored_entries_are_omitted() {
    let status = b" M a.rs\0?? new.rs\0 D gone.rs\0D  gone2.rs\0!! target\0A  c.rs\0MD half.rs\0x\0AM d e.rs\0";
    assert_eq!(changed_entries(status), bytes(&["a.rs", "new.rs", "c.rs", "d e.rs"]));
    assert_eq!(changed_files(status, b"\n"), bytes(&["a.rs", "new.rs", "c.rs", "d e.rs"]));
}

#[test]
fn changed_files_are_relative_to_the_working_directory() {
    let status = b" M sub/a.rs\0 M b.rs\0?? sub/deep/c.rs\0 M subway/d.rs\0";
    assert_eq!(changed_files(status, b"sub/\n"), bytes(&["a.rs", "deep/c.rs"]));
    assert_eq!(changed_files(status, b""), bytes(&["sub/a.rs", "b.rs", "sub/deep/c.rs", "subway/d.rs"]));
    assert_eq!(changed_files(b" M \xfe/a\0", b"\xff\n"), bytes(&["a"]));
    assert_eq!(relative_files(bytes(&["p/q", "p", "q"]), "p"), bytes(&["q", ""]));
}

#[test]
fn sources_follow_the_command_line() {
    assert_eq!(file_source(false, false), Source::Listed);
    assert_eq!(file_source(false, true), Source::Changed);
    assert_eq!(file_source(true, false), Source::Given);
    assert_eq!(file_source(true, true), Source::GivenChanged);
}

#[test]
fn files_are_listed_once_and_in_order() {
    let found = Found::Listed(bytes(&["b", "./a/z", "a//b", "a/b", "a-b", "./b", "a/b/"]));
    assert_eq!(discover_files(found), bytes(&["a//b", "a/z", "a-b", "b"]));
    assert!(discover_files(Found::Listed(vec![])).is_empty());
}

#[test]
fn given_directories_are_flattened() {
    let given = vec![
        Given::File(b"z.rs".to_vec()),
        Given::Dir(bytes(&["./src/b.rs", "./src/a.rs"])),
        Given::File(b"src/a.rs".to_vec()),
        Given::Dir(vec![]),
    ];
    assert_eq!(discover_files(Found::Given(given)), bytes(&["src/a.rs", "src/b.rs", "z.rs"]));
}

#[test]
fn only_changed_files_are_kept() {
    let given = vec![
        Given::Dir(bytes(&["./src/b.rs", "./src/a.rs", "./c.rs"])),
        Given::File(b"./d.rs".to_vec()),
        Given::File(b"e.rs".to_vec()),
    ];
    let changed = bytes(&["d.rs", "src/a.rs", "./e.rs", "other"]);
    assert_eq!(discover_files(Found::GivenChanged(given, changed)), bytes(&["d.rs", "e.rs", "src/a.rs"]));
}

#[test]
fn long_lists_are_sorted() {
    let mut names: Vec<String> = (0..500).map(|i| format!("d{}/f{}", (i * 7919) % 97, (i * 104729) % 41)).collect();
    let found = discover_files(Found::Listed(names.iter().map(|n| n.as_bytes().to_vec()).collect()));
    names.sort_by(|a, b| Path::new(a).cmp(Path::new(b)));
    names.dedup();
    let got: Vec<String> = found.into_iter().map(|p| String::from_utf8(p).unwrap()).collect();
    assert_eq!(got, names);
}

#[test]
fn unsupported_extension_is_none() {
    assert!(Lang::from_path(b"foo.unknownext").is_none());
    assert_eq!(Lang::from_path(b"a/b/c.rs"), Some(Lang::Rust));
}

#[test]
fn languages_follow_extensions() {
    let names = [
        "x.py", "x.tar.go", ".rs", "rs", "x.", "x.RS", "a.rs/", "a.rs/..", "a.rs/.", "a/.b.c", "..", "/", "", "x.mli",
        "a.b/c", "lib.d.ts",
    ];
    for name in names {
        let extension = Path::new(name).extension().map(|e| e.to_str().unwrap());
        let want = match extension {
            Some("py") => Some(Lang::Python),
            Some("go") => Some(Lang::Go),
            Some("rs") => Some(Lang::Rust),
            Some("c") => Some(Lang::C),
            Some("mli") => Some(Lang::OCamlInterface),
            Some("ts") => Some(Lang::TypeScript),
            _ => None,
        };
        assert_eq!(Lang::from_path(name.as_bytes()), want, "{}", name);
    }
    let more = [
        ("CMakeLists.txt", Lang::CMake),
        ("sub/CMakeLists.txt", Lang::CMake),
        ("x.cmake", Lang::CMake),
        ("x.dart", Lang::Dart),
        ("x.exs", Lang::Elixir),
        ("x.elm", Lang::Elm),
        ("x.fs", Lang::FSharp),
        ("x.fsi", Lang::FSharpSignature),
        ("main.tf", Lang::Hcl),
        ("a.kt", Lang::Kotlin),
        ("x.nix", Lang::Nix),
        ("x.m", Lang::ObjC),
        ("x.R", Lang::R),
        ("x.scala", Lang::Scala),
        ("Cargo.toml", Lang::Toml),
        ("x.yml", Lang::Yaml),
    ];
    for (name, lang) in more {
        assert_eq!(Lang::from_path(name.as_bytes()), Some(lang), "{}", name);
    }
    assert_eq!(Lang::from_path(b"notes.txt"), None);
    assert_eq!(Lang::ObjC.name(), "Objective-C");
    assert_eq!(Lang::OCamlInterface.name(), "OCaml interface");
    assert_eq!(Lang::Cpp.name(), "C++");
}
