//! Comments out of source texts, through the real grammars.

use commentlint::extract::{
    clean, collect, comments_in, extract_comments, extract_from_file, is_comment_kind, line_prefix,
    merge_and_clean, Comment, RawComment,
};
use commentlint::grammar::{parse_source, SyntaxNode};
use tree_sitter::Language;

fn extract(grammar: Language, source: &str) -> Vec<Comment> {
    extract_comments(&grammar, source).unwrap()
}

fn texts(comments: &[Comment]) -> Vec<&str> {
    comments.iter().map(|c| c.text.as_str()).collect()
}

#[test]
fn rust_line_comments_merge() {
    let src = "// The parser reads the file.\n// It then emits tokens.\nfn main() {}\n\n/// Docs here.\nfn f() {}\n";
    let cs = extract(tree_sitter_rust::LANGUAGE.into(), src);
    assert_eq!(cs.len(), 2);
    assert_eq!(cs[0].line, 1);
    assert_eq!(cs[0].column, 1);
    assert_eq!(cs[0].text, "The parser reads the file.\nIt then emits tokens.");
    assert_eq!(cs[1].line, 5);
    assert_eq!(cs[1].text, "Docs here.");
}

#[test]
fn rust_doc_comments_merge() {
    let src = "/// Reads the file.\n/// Emits tokens.\nfn f() {}\n//! Inner one.\n//! Second inner.\n";
    let cs = extract(tree_sitter_rust::LANGUAGE.into(), src);
    assert_eq!(cs.len(), 2);
    assert_eq!(cs[0].text, "Reads the file.\nEmits tokens.");
    assert_eq!(cs[1].line, 4);
    assert_eq!(cs[1].text, "Inner one.\nSecond inner.");
}

#[test]
fn block_comment_is_cleaned() {
    let src = "int x; /* The value was set by the caller. */\n/**\n * Line one.\n * Line two.\n */\nvoid f(void);\n";
    let cs = extract(tree_sitter_c::LANGUAGE.into(), src);
    assert_eq!(cs.len(), 2);
    assert_eq!(cs[0].line, 1);
    assert_eq!(cs[0].column, 8);
    assert_eq!(cs[0].text, "The value was set by the caller.");
    assert_eq!(cs[1].text, "Line one.\nLine two.");
}

#[test]
fn python_hash_comments() {
    let src = "#!/usr/bin/env python3\nx = 1  # trailing note\n\n# first\n# second\ny = 2\n";
    let cs = extract(tree_sitter_python::LANGUAGE.into(), src);
    assert_eq!(texts(&cs), vec!["/usr/bin/env python3", "trailing note", "first\nsecond"]);
    assert_eq!(cs[1].line, 2);
    assert_eq!(cs[1].column, 8);
}

#[test]
fn ocaml_and_haskell_block_delimiters() {
    let cs = extract(
        tree_sitter_ocaml::LANGUAGE_OCAML.into(),
        "(* The lexer reads bytes. *)\nlet x = 1\n(** Doc\n    comment *)\n",
    );
    assert_eq!(cs.len(), 2);
    assert_eq!(cs[0].text, "The lexer reads bytes.");
    assert_eq!(cs[1].text, "Doc\ncomment");
    let cs = extract(
        tree_sitter_haskell::LANGUAGE.into(),
        "{- The parser emits tokens. -}\n-- first\n-- second\nx = 1\n",
    );
    assert_eq!(cs.len(), 2);
    assert_eq!(cs[0].text, "The parser emits tokens.");
    assert_eq!(cs[1].text, "first\nsecond");
}

#[test]
fn erlang_julia_gleam_zig_swift() {
    let cs = extract(tree_sitter_erlang::LANGUAGE.into(), "%% Module doc.\n% Another.\n-module(m).\n");
    assert_eq!(texts(&cs), vec!["Module doc.", "Another."]);
    let cs = extract(tree_sitter_julia::LANGUAGE.into(), "#= Block\n   here =#\nx = 1 # tail\n");
    assert_eq!(texts(&cs), vec!["Block\nhere", "tail"]);
    let cs = extract(tree_sitter_gleam::LANGUAGE.into(), "//// Module doc.\n/// Fn doc.\npub fn f() { 1 }\n");
    assert_eq!(texts(&cs), vec!["Module doc.", "Fn doc."]);
    let cs = extract(tree_sitter_zig::LANGUAGE.into(), "//! Root doc.\n/// Fn doc.\npub fn f() void {}\n");
    assert_eq!(texts(&cs), vec!["Root doc.", "Fn doc."]);
    let cs = extract(
        tree_sitter_swift::LANGUAGE.into(),
        "/* Block. */\n// Line one.\n// Line two.\nlet x = 1\n",
    );
    assert_eq!(texts(&cs), vec!["Block.", "Line one.\nLine two."]);
}

// The grammars of CMake, Dart, Elixir, Elm, F#, HCL, Kotlin, Nix, Objective-C,
// R, Scala, TOML and YAML are no dependencies of this package, so they cannot be
// loaded here.
#[test]
fn every_language_loads_its_grammar() {
    let grammars: Vec<(&str, Language)> = vec![
        ("Bash", tree_sitter_bash::LANGUAGE.into()),
        ("C", tree_sitter_c::LANGUAGE.into()),
        ("C#", tree_sitter_c_sharp::LANGUAGE.into()),
        ("C++", tree_sitter_cpp::LANGUAGE.into()),
        ("CSS", tree_sitter_css::LANGUAGE.into()),
        ("Erlang", tree_sitter_erlang::LANGUAGE.into()),
        ("Gleam", tree_sitter_gleam::LANGUAGE.into()),
        ("Go", tree_sitter_go::LANGUAGE.into()),
        ("Haskell", tree_sitter_haskell::LANGUAGE.into()),
        ("HTML", tree_sitter_html::LANGUAGE.into()),
        ("Java", tree_sitter_java::LANGUAGE.into()),
        ("JavaScript", tree_sitter_javascript::LANGUAGE.into()),
        ("Julia", tree_sitter_julia::LANGUAGE.into()),
        ("Lua", tree_sitter_lua::LANGUAGE.into()),
        ("OCaml", tree_sitter_ocaml::LANGUAGE_OCAML.into()),
        ("OCaml interface", tree_sitter_ocaml::LANGUAGE_OCAML_INTERFACE.into()),
        ("PHP", tree_sitter_php::LANGUAGE_PHP.into()),
        ("Python", tree_sitter_python::LANGUAGE.into()),
        ("Ruby", tree_sitter_ruby::LANGUAGE.into()),
        ("Rust", tree_sitter_rust::LANGUAGE.into()),
        ("Swift", tree_sitter_swift::LANGUAGE.into()),
        ("TypeScript", tree_sitter_typescript::LANGUAGE_TYPESCRIPT.into()),
        ("TSX", tree_sitter_typescript::LANGUAGE_TSX.into()),
        ("Zig", tree_sitter_zig::LANGUAGE.into()),
    ];
    for (name, grammar) in grammars {
        extract_comments(&grammar, "").unwrap_or_else(|e| panic!("{}: {:?}", name, e));
    }
}

#[test]
fn different_columns_do_not_merge() {
    let src = "// a comment here\n    // an indented one\n";
    let cs = extract(tree_sitter_javascript::LANGUAGE.into(), src);
    assert_eq!(cs.len(), 2);
}

#[test]
fn files_that_are_not_utf8_are_left_out() {
    let grammar: Language = tree_sitter_go::LANGUAGE.into();
    assert!(matches!(extract_from_file(&grammar, b"// \xff\xfe\n"), Ok(None)));
    let cs = extract_from_file(&grammar, "package main\n// Grüße an alle.\n".as_bytes());
    let cs = cs.unwrap().unwrap();
    assert_eq!(texts(&cs), vec!["Grüße an alle."]);
    assert_eq!((cs[0].line, cs[0].column), (2, 1));
}

#[test]
fn columns_count_bytes() {
    let cs = extract(tree_sitter_javascript::LANGUAGE.into(), "\"ü\"; // note here\n");
    assert_eq!((cs[0].line, cs[0].column), (1, 7));
    assert_eq!(cs[0].text, "note here");
}

fn raw(row: usize, col: usize, text: &str, line_run: bool) -> RawComment {
    RawComment { start_row: row, start_col: col, end_row: row, raw: text.to_string(), line_run }
}

#[test]
fn runs_end_where_row_column_or_delimiter_change() {
    let blocks = merge_and_clean(vec![
        raw(0, 0, "// a", true),
        raw(1, 0, "// b", true),
        raw(2, 0, "/// c", true),
        raw(4, 0, "/// d", true),
        raw(5, 2, "/// e", true),
        raw(6, 2, "/* f */", false),
        raw(7, 2, "/// g", true),
    ]);
    assert_eq!(texts(&blocks), vec!["a\nb", "c", "d", "e", "f", "g"]);
    let places: Vec<(usize, usize)> = blocks.iter().map(|c| (c.line, c.column)).collect();
    assert_eq!(places, vec![(1, 1), (3, 1), (5, 1), (6, 3), (7, 3), (8, 3)]);
}

#[test]
fn comments_without_prose_are_dropped() {
    assert!(merge_and_clean(vec![raw(0, 0, "//", true), raw(3, 0, "/* */", false)]).is_empty());
}

#[test]
fn merged_run_keeps_all_lines() {
    let blocks = merge_and_clean(vec![
        raw(0, 4, "# one", true),
        raw(1, 4, "#", true),
        raw(2, 4, "# three", true),
    ]);
    assert_eq!(texts(&blocks), vec!["one\n\nthree"]);
}

#[test]
fn cleaning_strips_comment_syntax() {
    assert_eq!(clean("/**\n * First.\n *\n * Second.\n */"), "First.\n\nSecond.");
    assert_eq!(clean("<!-- Note -->"), "Note");
    assert_eq!(clean("=begin\nDocs here.\n=end"), "Docs here.");
    assert_eq!(clean("--[[ Lua block ]]"), "Lua block");
    assert_eq!(clean("{-| Haddock -}"), "Haddock");
    assert_eq!(clean("// // twice"), "// twice");
    assert_eq!(clean("  ;; lisp  "), "; lisp");
    assert_eq!(clean("# crlf\r\n# line\r\n"), "crlf\nline");
    assert_eq!(clean("plain words"), "plain words");
    assert_eq!(clean("\n\n"), "");
    assert_eq!(clean(""), "");
}

#[test]
fn texts_are_cleaned_line_by_line() {
    let cases = [("// one", "// two\n"), ("/* a\n * b", "* c */"), ("# x\r", "# y\n#\n# z"), ("\n# x", "# y\n\n")];
    for (a, b) in cases {
        let both = format!("{}\n{}", a, b);
        assert_eq!(clean(&both), format!("{}\n{}", clean(a), clean(b)), "{:?}", both);
    }
    assert_eq!(clean("=begin\nx"), "x");
}

#[test]
fn space_around_lines_and_line_endings_do_not_matter() {
    for raw in ["/**\n * First.\n *\n * Second.\n */", "# a\n\n# b\n", "// x", "", "\n", "<!-- a\nb -->\n"] {
        assert_eq!(clean(&raw.replace('\n', "\r\n")), clean(raw), "{:?}", raw);
        let spaced: Vec<String> = raw.lines().map(|l| format!("\t {} \t", l)).collect();
        assert_eq!(clean(&spaced.join("\n")), clean(raw), "{:?}", raw);
    }
}

#[test]
fn line_prefixes_prefer_the_longer_delimiter() {
    assert_eq!(line_prefix("//// x"), "////");
    assert_eq!(line_prefix("//! x"), "//!");
    assert_eq!(line_prefix("/// x"), "///");
    assert_eq!(line_prefix("// x"), "//");
    assert_eq!(line_prefix("#! x"), "#!");
    assert_eq!(line_prefix(";; x"), ";;");
    assert_eq!(line_prefix("%% x"), "%%");
    assert_eq!(line_prefix("(* x *)"), "(*");
    assert_eq!(line_prefix("/* x */"), "");
    assert_eq!(line_prefix(""), "");
}

#[test]
fn comment_kinds_end_in_comment() {
    assert!(is_comment_kind("comment"));
    assert!(is_comment_kind("line_comment"));
    assert!(!is_comment_kind("comment_group"));
    assert!(!is_comment_kind("identifier"));
}

fn leaf(kind: &str, bytes: (usize, usize), start: (usize, usize), end: (usize, usize)) -> SyntaxNode {
    SyntaxNode {
        kind: kind.to_string(),
        start_byte: bytes.0,
        end_byte: bytes.1,
        start_row: start.0,
        start_col: start.1,
        end_row: end.0,
        end_col: end.1,
        children: vec![],
    }
}

#[test]
fn trees_are_walked_down_to_comments() {
    let source = "x // one\n// two\n";
    let mut inner = leaf("statement", (0, 9), (0, 0), (1, 0));
    inner.children.push(leaf("identifier", (0, 1), (0, 0), (0, 1)));
    inner.children.push(leaf("line_comment", (2, 9), (0, 2), (1, 0)));
    let mut root = leaf("program", (0, 16), (0, 0), (2, 0));
    root.children.push(inner);
    root.children.push(leaf("line_comment", (9, 16), (1, 0), (2, 0)));
    let mut found = vec![];
    collect(&root, source, &mut found);
    assert_eq!(found.len(), 2);
    assert_eq!((found[0].raw.as_str(), found[0].end_row, found[0].line_run), ("// one", 0, true));
    assert_eq!((found[1].raw.as_str(), found[1].start_row, found[1].start_col), ("// two", 1, 0));
    assert_eq!(texts(&comments_in(&root, source)), vec!["one", "two"]);
}

#[test]
fn nodes_outside_the_text_are_empty() {
    let mut found = vec![];
    collect(&leaf("comment", (2, 40), (0, 2), (0, 40)), "// é", &mut found);
    collect(&leaf("comment", (0, 4), (0, 0), (0, 4)), "// é", &mut found);
    assert_eq!(found.len(), 2);
    assert_eq!(found[0].raw, "");
    assert_eq!(found[1].raw, "");
    assert!(!found[0].line_run);
}

#[test]
fn parsed_trees_mirror_the_source() {
    let grammar: Language = tree_sitter_go::LANGUAGE.into();
    let root = parse_source(&grammar, "package main\n// Hi.\n").unwrap();
    assert_eq!(root.kind, "source_file");
    assert_eq!((root.start_byte, root.end_byte), (0, 20));
    let comment = root.children.iter().find(|c| c.kind == "comment").unwrap();
    assert_eq!((comment.start_byte, comment.end_byte), (13, 19));
    assert_eq!((comment.start_row, comment.start_col), (1, 0));
    assert_eq!((comment.end_row, comment.end_col), (1, 6));
}
