[package]
name = "nnd"
version = "0.1.0"
edition = "2021"
publish = false

[dependencies]
unicode-segmentation = "1"
unicode-width = "*"
libc = "*"
tree-sitter = "*"
tree-sitter-highlight = "*"
tree-sitter-c = "*"
tree-sitter-cpp = "*"
tree-sitter-rust = "*"
tree-sitter-zig = "*"
tree-sitter-odin = "*"
