[package]
name = "vue_oxlint_parser"
version = "0.1.0"
edition = "2021"
publish = false
rust-version = "1.95"

[dependencies]
memchr = "=2.8.3"
regex = "=1.13.1"
oxc_allocator = "=0.143.0"
oxc_ast = "=0.143.0"
oxc_ast_visit = "=0.143.0"
oxc_diagnostics = "=0.143.0"
oxc_estree_tokens = "=0.143.0"
oxc_parser = "=0.143.0"
oxc_span = "=0.143.0"
oxc_syntax = "=0.143.0"
