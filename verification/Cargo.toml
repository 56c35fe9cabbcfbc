[package]
name = "commentlint"
version = "0.1.0"
edition = "2021"
publish = false

[dependencies]
anyhow = "1"
clap = { version = "4", features = ["derive"] }
ignore = "0.4"
serde = { version = "1", features = ["derive"] }
serde_yaml_ng = "0.10"
toml = "*"
tree-sitter = "*"
ureq = { version = "3", features = ["json"] }
tree-sitter-bash = "*"
tree-sitter-c = "*"
tree-sitter-c-sharp = "*"
tree-sitter-cpp = "*"
tree-sitter-css = "*"
tree-sitter-erlang = "*"
tree-sitter-gleam = "*"
tree-sitter-go = "*"
tree-sitter-haskell = "*"
tree-sitter-html = "*"
tree-sitter-java = "*"
tree-sitter-javascript = "*"
tree-sitter-julia = "*"
tree-sitter-lua = "*"
tree-sitter-ocaml = "*"
tree-sitter-php = "*"
tree-sitter-python = "*"
tree-sitter-ruby = "*"
tree-sitter-rust = "*"
tree-sitter-swift = "*"
tree-sitter-typescript = "*"
tree-sitter-zig = "*"
