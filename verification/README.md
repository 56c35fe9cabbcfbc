# commentlint

Static analysis for code comments: comments are taken out of source files with
tree-sitter, put to TypeSafe.ai as yes/no questions, and reported where an answer
lies below its threshold.

The library in `src/` holds the logic and is verified with Verus. It reads no
files and opens no connections; the program in `app/` does that and hands plain
values in and out.

| Module | What it decides |
| --- | --- |
| `config` | what a configuration may say, and what layers of it resolve to |
| `loader` | which configuration files apply to a directory, and which to read next |
| `extract`, `grammar` | the comments of a source text, merged and stripped of syntax |
| `languages` | which language a file is written in |
| `discover`, `git` | which files are parsed |
| `jobs` | which comments are evaluated, and how a run ends |
| `typesafe` | the key, the request, when it is sent again, what the answers say |
| `report` | what is found, in what order and in what words |
| `paths`, `text`, `number`, `order`, `sort`, `score`, `table` | what the above are stated over |

Beside the contracts of the functions, public proof functions state what holds of
several of them together: that the nearest configuration has the final say, that
merging is complete and loses no line, that files are listed once and in order,
that the order in which answers arrive does not show in the report, and others.

What is taken on trust is a handful of items, each with a comment that says what
it claims: the tree-sitter calls in `grammar`, and three functions of the standard
library in `text`.

## Languages

Bash, C, C++, C#, CMake, CSS, Dart, Elixir, Elm, Erlang, F#, Gleam, Go, Haskell,
HCL (including Terraform), HTML, Java, JavaScript, Julia, Kotlin, Lua, Nix,
Objective-C, OCaml, PHP, Python, R, Ruby, Rust, Scala, Swift, TOML, TypeScript,
TSX, YAML, and Zig. Files with other names are ignored.

`Cargo.toml` names as many grammar crates as it can hold. `tree-sitter-cmake`,
`-dart`, `-elixir`, `-elm`, `-fsharp`, `-hcl`, `-kotlin-ng`, `-nix`, `-objc`,
`-r`, `-scala`, `-toml-ng` and `-yaml` are to be added where the program is built.
