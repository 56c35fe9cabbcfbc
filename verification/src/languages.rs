//! The supported languages, and the files that are written in them.

use vstd::prelude::*;

use crate::paths::{bytes_in, parts_of, same_bytes, PathPart, DOT};

#[allow(unused_imports)]
use crate::paths::{part_views, parts, Part};
#[allow(unused_imports)]
use crate::text::{lemma_span_is, span};
#[allow(unused_imports)]
use vstd::utf8::encode_utf8;

verus! {

/// The name of the build file of CMake in each directory.
pub const CMAKE_FILE_NAME: &'static str = "CMakeLists.txt";

/// A supported language.
#[derive(Clone, Copy, Debug, PartialEq, Eq, Structural)]
pub enum Lang {
    Bash,
    C,
    CMake,
    CSharp,
    Cpp,
    Css,
    Dart,
    Elixir,
    Elm,
    Erlang,
    FSharp,
    FSharpSignature,
    Gleam,
    Go,
    Haskell,
    Hcl,
    Html,
    Java,
    JavaScript,
    Julia,
    Kotlin,
    Lua,
    Nix,
    ObjC,
    OCaml,
    OCamlInterface,
    Php,
    Python,
    R,
    Ruby,
    Rust,
    Scala,
    Swift,
    Toml,
    TypeScript,
    Tsx,
    Yaml,
    Zig,
}

/// The extensions of file names that tell their languages.
pub open spec fn extensions() -> Seq<(Seq<char>, Lang)> {
    seq![
        ("sh"@, Lang::Bash),
        ("bash"@, Lang::Bash),
        ("zsh"@, Lang::Bash),
        ("c"@, Lang::C),
        ("h"@, Lang::C),
        ("cmake"@, Lang::CMake),
        ("cs"@, Lang::CSharp),
        ("cc"@, Lang::Cpp),
        ("cpp"@, Lang::Cpp),
        ("cxx"@, Lang::Cpp),
        ("hh"@, Lang::Cpp),
        ("hpp"@, Lang::Cpp),
        ("hxx"@, Lang::Cpp),
        ("css"@, Lang::Css),
        ("dart"@, Lang::Dart),
        ("ex"@, Lang::Elixir),
        ("exs"@, Lang::Elixir),
        ("elm"@, Lang::Elm),
        ("erl"@, Lang::Erlang),
        ("hrl"@, Lang::Erlang),
        ("fs"@, Lang::FSharp),
        ("fsx"@, Lang::FSharp),
        ("fsi"@, Lang::FSharpSignature),
        ("gleam"@, Lang::Gleam),
        ("go"@, Lang::Go),
        ("hs"@, Lang::Haskell),
        ("hcl"@, Lang::Hcl),
        ("tf"@, Lang::Hcl),
        ("tfvars"@, Lang::Hcl),
        ("html"@, Lang::Html),
        ("htm"@, Lang::Html),
        ("java"@, Lang::Java),
        ("js"@, Lang::JavaScript),
        ("jsx"@, Lang::JavaScript),
        ("mjs"@, Lang::JavaScript),
        ("cjs"@, Lang::JavaScript),
        ("jl"@, Lang::Julia),
        ("kt"@, Lang::Kotlin),
        ("kts"@, Lang::Kotlin),
        ("lua"@, Lang::Lua),
        ("nix"@, Lang::Nix),
        ("m"@, Lang::ObjC),
        ("mm"@, Lang::ObjC),
        ("ml"@, Lang::OCaml),
        ("mli"@, Lang::OCamlInterface),
        ("php"@, Lang::Php),
        ("py"@, Lang::Python),
        ("pyi"@, Lang::Python),
        ("r"@, Lang::R),
        ("R"@, Lang::R),
        ("rb"@, Lang::Ruby),
        ("rs"@, Lang::Rust),
        ("scala"@, Lang::Scala),
        ("sc"@, Lang::Scala),
        ("sbt"@, Lang::Scala),
        ("swift"@, Lang::Swift),
        ("toml"@, Lang::Toml),
        ("ts"@, Lang::TypeScript),
        ("mts"@, Lang::TypeScript),
        ("cts"@, Lang::TypeScript),
        ("tsx"@, Lang::Tsx),
        ("yaml"@, Lang::Yaml),
        ("yml"@, Lang::Yaml),
        ("zig"@, Lang::Zig),
    ]
}

/// The extension of a file name: what stands behind its last dot, where there
/// is one behind the first character.
pub open spec fn extension_of(name: Seq<u8>) -> Option<Seq<u8>> {
    let n = span(name.reverse(), DOT);
    if n + 1 < name.len() {
        Some(name.skip(name.len() - n))
    } else {
        None
    }
}

/// The name of the file that a path leads to.
pub open spec fn file_name(path: Seq<u8>) -> Option<Seq<u8>> {
    if parts(path).len() > 0 {
        match parts(path).last() {
            Part::Name(name) => Some(name),
            _ => None,
        }
    } else {
        None
    }
}

/// The language of the first entry of `table` with this extension.
pub open spec fn language_in(table: Seq<(Seq<char>, Lang)>, extension: Seq<u8>) -> Option<Lang>
    decreases table.len(),
{
    if table.len() == 0 {
        None
    } else if encode_utf8(table[0].0) == extension {
        Some(table[0].1)
    } else {
        language_in(table.skip(1), extension)
    }
}

/// The language of a file with this name. The build files of CMake are known by
/// their whole name, all others by their extension.
pub open spec fn language_named(name: Seq<u8>) -> Option<Lang> {
    if name == encode_utf8(CMAKE_FILE_NAME@) {
        Some(Lang::CMake)
    } else {
        match extension_of(name) {
            Some(extension) => language_in(extensions(), extension),
            None => None,
        }
    }
}

/// The language that a file is written in, by its name.
pub open spec fn language_of(path: Seq<u8>) -> Option<Lang> {
    match file_name(path) {
        Some(name) => language_named(name),
        None => None,
    }
}

/// The extension of a file name.
fn find_extension(name: &[u8]) -> (r: Option<Vec<u8>>)
    ensures
        match r {
            Some(extension) => extension_of(name@) == Some(extension@),
            None => extension_of(name@) is None,
        },
{
    let mut at: usize = name.len();
    while at > 0 && name[at - 1] != DOT
        invariant
            at <= name@.len(),
            forall|i: int| at <= i < name@.len() ==> name@[i] != DOT,
        decreases at,
    {
        at -= 1;
    }
    proof {
        let n = (name@.len() - at) as nat;
        assert forall|i: int| 0 <= i < n implies name@.reverse()[i] != DOT by {
            assert(name@.reverse()[i] == name@[name@.len() - 1 - i]);
        }
        lemma_span_is(name@.reverse(), DOT, n);
    }
    if at > 1 {
        let extension = bytes_in(name, at, name.len());
        assert(extension@ =~= name@.skip(at as int));
        Some(extension)
    } else {
        None
    }
}

/// The language with this extension.
fn find_language(extension: &[u8]) -> (r: Option<Lang>)
    ensures
        r == language_in(extensions(), extension@),
{
    let list: [(&str, Lang); 64] = [
        ("sh", Lang::Bash), ("bash", Lang::Bash), ("zsh", Lang::Bash), ("c", Lang::C), ("h", Lang::C),
        ("cmake", Lang::CMake), ("cs", Lang::CSharp), ("cc", Lang::Cpp), ("cpp", Lang::Cpp), ("cxx", Lang::Cpp),
        ("hh", Lang::Cpp), ("hpp", Lang::Cpp), ("hxx", Lang::Cpp), ("css", Lang::Css), ("dart", Lang::Dart),
        ("ex", Lang::Elixir), ("exs", Lang::Elixir), ("elm", Lang::Elm), ("erl", Lang::Erlang),
        ("hrl", Lang::Erlang), ("fs", Lang::FSharp), ("fsx", Lang::FSharp), ("fsi", Lang::FSharpSignature),
        ("gleam", Lang::Gleam), ("go", Lang::Go), ("hs", Lang::Haskell), ("hcl", Lang::Hcl), ("tf", Lang::Hcl),
        ("tfvars", Lang::Hcl), ("html", Lang::Html), ("htm", Lang::Html), ("java", Lang::Java),
        ("js", Lang::JavaScript), ("jsx", Lang::JavaScript), ("mjs", Lang::JavaScript),
        ("cjs", Lang::JavaScript), ("jl", Lang::Julia), ("kt", Lang::Kotlin), ("kts", Lang::Kotlin),
        ("lua", Lang::Lua), ("nix", Lang::Nix), ("m", Lang::ObjC), ("mm", Lang::ObjC), ("ml", Lang::OCaml),
        ("mli", Lang::OCamlInterface), ("php", Lang::Php), ("py", Lang::Python), ("pyi", Lang::Python),
        ("r", Lang::R), ("R", Lang::R), ("rb", Lang::Ruby), ("rs", Lang::Rust), ("scala", Lang::Scala),
        ("sc", Lang::Scala), ("sbt", Lang::Scala), ("swift", Lang::Swift), ("toml", Lang::Toml),
        ("ts", Lang::TypeScript), ("mts", Lang::TypeScript), ("cts", Lang::TypeScript), ("tsx", Lang::Tsx),
        ("yaml", Lang::Yaml), ("yml", Lang::Yaml), ("zig", Lang::Zig),
    ];
    let ghost all = extensions();
    assert forall|k: int| 0 <= k < 64 implies (#[trigger] list@[k]).0@ == all[k].0 && list@[k].1 == all[k].1 by {}
    assert(all.skip(0) =~= all);
    let mut i: usize = 0;
    while i < 64
        invariant
            i <= 64 == all.len(),
            all == extensions(),
            forall|k: int| 0 <= k < 64 ==> (#[trigger] list@[k]).0@ == all[k].0 && list@[k].1 == all[k].1,
            language_in(all, extension@) == language_in(all.skip(i as int), extension@),
        decreases 64 - i,
    {
        let (text, lang): (&str, Lang) = list[i];
        assert(all.skip(i as int)[0] == all[i as int]);
        assert(all.skip(i as int).skip(1) =~= all.skip(i + 1));
        if same_bytes(text.as_bytes(), extension) {
            return Some(lang);
        }
        i += 1;
    }
    assert(all.skip(64) =~= Seq::<(Seq<char>, Lang)>::empty());
    None
}

impl Lang {
    /// Chooses the language of a file from its name.
    pub fn from_path(path: &[u8]) -> (r: Option<Lang>)
        ensures
            r == language_of(path@),
    {
        let whole = parts_of(path);
        if whole.len() == 0 {
            return None;
        }
        assert(part_views(whole@).last() == whole@[whole@.len() - 1]@);
        match &whole[whole.len() - 1] {
            PathPart::Name(name) => {
                if same_bytes(name.as_slice(), CMAKE_FILE_NAME.as_bytes()) {
                    return Some(Lang::CMake);
                }
                match find_extension(name.as_slice()) {
                    Some(extension) => find_language(extension.as_slice()),
                    None => None,
                }
            },
            _ => None,
        }
    }

    /// The name of the language.
    pub open spec fn spelled(self) -> Seq<char> {
        match self {
            Lang::Bash => "Bash"@,
            Lang::C => "C"@,
            Lang::CMake => "CMake"@,
            Lang::CSharp => "C#"@,
            Lang::Cpp => "C++"@,
            Lang::Css => "CSS"@,
            Lang::Dart => "Dart"@,
            Lang::Elixir => "Elixir"@,
            Lang::Elm => "Elm"@,
            Lang::Erlang => "Erlang"@,
            Lang::FSharp => "F#"@,
            Lang::FSharpSignature => "F# signature"@,
            Lang::Gleam => "Gleam"@,
            Lang::Go => "Go"@,
            Lang::Haskell => "Haskell"@,
            Lang::Hcl => "HCL"@,
            Lang::Html => "HTML"@,
            Lang::Java => "Java"@,
            Lang::JavaScript => "JavaScript"@,
            Lang::Julia => "Julia"@,
            Lang::Kotlin => "Kotlin"@,
            Lang::Lua => "Lua"@,
            Lang::Nix => "Nix"@,
            Lang::ObjC => "Objective-C"@,
            Lang::OCaml => "OCaml"@,
            Lang::OCamlInterface => "OCaml interface"@,
            Lang::Php => "PHP"@,
            Lang::Python => "Python"@,
            Lang::R => "R"@,
            Lang::Ruby => "Ruby"@,
            Lang::Rust => "Rust"@,
            Lang::Scala => "Scala"@,
            Lang::Swift => "Swift"@,
            Lang::Toml => "TOML"@,
            Lang::TypeScript => "TypeScript"@,
            Lang::Tsx => "TSX"@,
            Lang::Yaml => "YAML"@,
            Lang::Zig => "Zig"@,
        }
    }

    /// The name of the language.
    pub fn name(self) -> (r: &'static str)
        ensures
            r@ == self.spelled(),
    {
        match self {
            Lang::Bash => "Bash",
            Lang::C => "C",
            Lang::CMake => "CMake",
            Lang::CSharp => "C#",
            Lang::Cpp => "C++",
            Lang::Css => "CSS",
            Lang::Dart => "Dart",
            Lang::Elixir => "Elixir",
            Lang::Elm => "Elm",
            Lang::Erlang => "Erlang",
            Lang::FSharp => "F#",
            Lang::FSharpSignature => "F# signature",
            Lang::Gleam => "Gleam",
            Lang::Go => "Go",
            Lang::Haskell => "Haskell",
            Lang::Hcl => "HCL",
            Lang::Html => "HTML",
            Lang::Java => "Java",
            Lang::JavaScript => "JavaScript",
            Lang::Julia => "Julia",
            Lang::Kotlin => "Kotlin",
            Lang::Lua => "Lua",
            Lang::Nix => "Nix",
            Lang::ObjC => "Objective-C",
            Lang::OCaml => "OCaml",
            Lang::OCamlInterface => "OCaml interface",
            Lang::Php => "PHP",
            Lang::Python => "Python",
            Lang::R => "R",
            Lang::Ruby => "Ruby",
            Lang::Rust => "Rust",
            Lang::Scala => "Scala",
            Lang::Swift => "Swift",
            Lang::Toml => "TOML",
            Lang::TypeScript => "TypeScript",
            Lang::Tsx => "TSX",
            Lang::Yaml => "YAML",
            Lang::Zig => "Zig",
        }
    }
}

/// Whether files with this extension are written in this language.
pub open spec fn written_in(language: Lang, ext: Seq<char>) -> bool {
    match language {
        Lang::Bash => ext == "sh"@ || ext == "bash"@ || ext == "zsh"@,
        Lang::C => ext == "c"@ || ext == "h"@,
        Lang::CMake => ext == "cmake"@,
        Lang::CSharp => ext == "cs"@,
        Lang::Cpp => ext == "cc"@ || ext == "cpp"@ || ext == "cxx"@ || ext == "hh"@ || ext == "hpp"@ || ext == "hxx"@,
        Lang::Css => ext == "css"@,
        Lang::Dart => ext == "dart"@,
        Lang::Elixir => ext == "ex"@ || ext == "exs"@,
        Lang::Elm => ext == "elm"@,
        Lang::Erlang => ext == "erl"@ || ext == "hrl"@,
        Lang::FSharp => ext == "fs"@ || ext == "fsx"@,
        Lang::FSharpSignature => ext == "fsi"@,
        Lang::Gleam => ext == "gleam"@,
        Lang::Go => ext == "go"@,
        Lang::Haskell => ext == "hs"@,
        Lang::Hcl => ext == "hcl"@ || ext == "tf"@ || ext == "tfvars"@,
        Lang::Html => ext == "html"@ || ext == "htm"@,
        Lang::Java => ext == "java"@,
        Lang::JavaScript => ext == "js"@ || ext == "jsx"@ || ext == "mjs"@ || ext == "cjs"@,
        Lang::Julia => ext == "jl"@,
        Lang::Kotlin => ext == "kt"@ || ext == "kts"@,
        Lang::Lua => ext == "lua"@,
        Lang::Nix => ext == "nix"@,
        Lang::ObjC => ext == "m"@ || ext == "mm"@,
        Lang::OCaml => ext == "ml"@,
        Lang::OCamlInterface => ext == "mli"@,
        Lang::Php => ext == "php"@,
        Lang::Python => ext == "py"@ || ext == "pyi"@,
        Lang::R => ext == "r"@ || ext == "R"@,
        Lang::Ruby => ext == "rb"@,
        Lang::Rust => ext == "rs"@,
        Lang::Scala => ext == "scala"@ || ext == "sc"@ || ext == "sbt"@,
        Lang::Swift => ext == "swift"@,
        Lang::Toml => ext == "toml"@,
        Lang::TypeScript => ext == "ts"@ || ext == "mts"@ || ext == "cts"@,
        Lang::Tsx => ext == "tsx"@,
        Lang::Yaml => ext == "yaml"@ || ext == "yml"@,
        Lang::Zig => ext == "zig"@,
    }
}

/// The place of the first entry with an extension, where there is one.
proof fn lemma_language_in(table: Seq<(Seq<char>, Lang)>, ext: Seq<char>)
    ensures
        match language_in(table, encode_utf8(ext)) {
            Some(language) => exists|i: int| 0 <= i < table.len() && #[trigger] table[i] == (ext, language),
            None => forall|i: int| 0 <= i < table.len() ==> (#[trigger] table[i]).0 != ext,
        },
    decreases table.len(),
{
    if table.len() > 0 {
        let rest = table.skip(1);
        vstd::utf8::encode_utf8_decode_utf8(ext);
        vstd::utf8::encode_utf8_decode_utf8(table[0].0);
        lemma_language_in(rest, ext);
        if table[0].0 == ext {
            assert(table[0] == (ext, table[0].1));
        } else {
            match language_in(rest, encode_utf8(ext)) {
                Some(language) => {
                    let i = choose|i: int| 0 <= i < rest.len() && #[trigger] rest[i] == (ext, language);
                    assert(table[i + 1] == (ext, language));
                },
                None => {
                    assert forall|i: int| 0 <= i < table.len() implies (#[trigger] table[i]).0 != ext by {
                        if i > 0 {
                            assert(rest[i - 1] == table[i]);
                        }
                    }
                },
            }
        }
    }
}

/// What stands behind the last dot of a name decides on its language, whatever
/// stands before it.
pub proof fn extension_decides_on_the_language(stem: Seq<u8>, ext: Seq<char>, language: Lang)
    requires
        stem.len() > 0,
        forall|i: int| 0 <= i < encode_utf8(ext).len() ==> #[trigger] encode_utf8(ext)[i] != 0x2e,
        stem.push(0x2e) + encode_utf8(ext) != encode_utf8("CMakeLists.txt"@),
    ensures
        language_named(stem.push(0x2e) + encode_utf8(ext)) == language_in(extensions(), encode_utf8(ext)),
        language_named(stem.push(0x2e) + encode_utf8(ext)) == Some(language) ==> written_in(language, ext),
        language_named(stem.push(0x2e) + encode_utf8(ext)) is None ==> !written_in(language, ext),
        language_named(encode_utf8("CMakeLists.txt"@)) == Some(Lang::CMake),
{
    let tail = encode_utf8(ext);
    let name = stem.push(DOT) + tail;
    let back = name.reverse();
    let n = tail.len();
    assert forall|i: int| 0 <= i < n implies back[i] != DOT by {
        assert(back[i] == name[name.len() - 1 - i]);
        assert(name[name.len() - 1 - i] == tail[n - 1 - i]);
    }
    assert(back[n as int] == name[name.len() - 1 - n]);
    lemma_span_is(back, DOT, n);
    assert(name.skip(name.len() - n) =~= tail);
    lemma_extensions(ext, language);
}

proof fn lemma_extensions(ext: Seq<char>, language: Lang)
    ensures
        language_in(extensions(), encode_utf8(ext)) == Some(language) ==> written_in(language, ext),
        language_in(extensions(), encode_utf8(ext)) is None ==> !written_in(language, ext),
{
    let all = extensions();
    lemma_language_in(all, ext);
    assert(all[0] == ("sh"@, Lang::Bash));
    assert(all[1] == ("bash"@, Lang::Bash));
    assert(all[2] == ("zsh"@, Lang::Bash));
    assert(all[3] == ("c"@, Lang::C));
    assert(all[4] == ("h"@, Lang::C));
    assert(all[5] == ("cmake"@, Lang::CMake));
    assert(all[6] == ("cs"@, Lang::CSharp));
    assert(all[7] == ("cc"@, Lang::Cpp));
    assert(all[8] == ("cpp"@, Lang::Cpp));
    assert(all[9] == ("cxx"@, Lang::Cpp));
    assert(all[10] == ("hh"@, Lang::Cpp));
    assert(all[11] == ("hpp"@, Lang::Cpp));
    assert(all[12] == ("hxx"@, Lang::Cpp));
    assert(all[13] == ("css"@, Lang::Css));
    assert(all[14] == ("dart"@, Lang::Dart));
    assert(all[15] == ("ex"@, Lang::Elixir));
    assert(all[16] == ("exs"@, Lang::Elixir));
    assert(all[17] == ("elm"@, Lang::Elm));
    assert(all[18] == ("erl"@, Lang::Erlang));
    assert(all[19] == ("hrl"@, Lang::Erlang));
    assert(all[20] == ("fs"@, Lang::FSharp));
    assert(all[21] == ("fsx"@, Lang::FSharp));
    assert(all[22] == ("fsi"@, Lang::FSharpSignature));
    assert(all[23] == ("gleam"@, Lang::Gleam));
    assert(all[24] == ("go"@, Lang::Go));
    assert(all[25] == ("hs"@, Lang::Haskell));
    assert(all[26] == ("hcl"@, Lang::Hcl));
    assert(all[27] == ("tf"@, Lang::Hcl));
    assert(all[28] == ("tfvars"@, Lang::Hcl));
    assert(all[29] == ("html"@, Lang::Html));
    assert(all[30] == ("htm"@, Lang::Html));
    assert(all[31] == ("java"@, Lang::Java));
    assert(all[32] == ("js"@, Lang::JavaScript));
    assert(all[33] == ("jsx"@, Lang::JavaScript));
    assert(all[34] == ("mjs"@, Lang::JavaScript));
    assert(all[35] == ("cjs"@, Lang::JavaScript));
    assert(all[36] == ("jl"@, Lang::Julia));
    assert(all[37] == ("kt"@, Lang::Kotlin));
    assert(all[38] == ("kts"@, Lang::Kotlin));
    assert(all[39] == ("lua"@, Lang::Lua));
    assert(all[40] == ("nix"@, Lang::Nix));
    assert(all[41] == ("m"@, Lang::ObjC));
    assert(all[42] == ("mm"@, Lang::ObjC));
    assert(all[43] == ("ml"@, Lang::OCaml));
    assert(all[44] == ("mli"@, Lang::OCamlInterface));
    assert(all[45] == ("php"@, Lang::Php));
    assert(all[46] == ("py"@, Lang::Python));
    assert(all[47] == ("pyi"@, Lang::Python));
    assert(all[48] == ("r"@, Lang::R));
    assert(all[49] == ("R"@, Lang::R));
    assert(all[50] == ("rb"@, Lang::Ruby));
    assert(all[51] == ("rs"@, Lang::Rust));
    assert(all[52] == ("scala"@, Lang::Scala));
    assert(all[53] == ("sc"@, Lang::Scala));
    assert(all[54] == ("sbt"@, Lang::Scala));
    assert(all[55] == ("swift"@, Lang::Swift));
    assert(all[56] == ("toml"@, Lang::Toml));
    assert(all[57] == ("ts"@, Lang::TypeScript));
    assert(all[58] == ("mts"@, Lang::TypeScript));
    assert(all[59] == ("cts"@, Lang::TypeScript));
    assert(all[60] == ("tsx"@, Lang::Tsx));
    assert(all[61] == ("yaml"@, Lang::Yaml));
    assert(all[62] == ("yml"@, Lang::Yaml));
    assert(all[63] == ("zig"@, Lang::Zig));
}

/// A name without a dot behind its first character has no extension, and a file
/// with it no language.
pub proof fn name_without_extension_has_no_language(name: Seq<u8>)
    requires
        forall|i: int| 0 < i < name.len() ==> #[trigger] name[i] != 0x2e,
        name != encode_utf8("CMakeLists.txt"@),
    ensures
        language_named(name) is None,
{
    let back = name.reverse();
    crate::text::lemma_span(back, DOT);
    let n = span(back, DOT) as int;
    if n + 1 < name.len() {
        assert(back[n] == name[name.len() - 1 - n]);
    }
}

/// The last part of a path is what its language goes by.
pub proof fn language_goes_by_the_last_part(path: Seq<u8>)
    ensures
        parts(path).len() > 0 && parts(path).last() is Name ==> language_of(path) == language_named(
            parts(path).last()->Name_0,
        ),
        parts(path).len() == 0 || !(parts(path).last() is Name) ==> language_of(path) is None,
{
}

} // verus!
