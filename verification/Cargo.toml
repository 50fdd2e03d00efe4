[package]
name = "kv_crud_in_memory"
version = "0.1.0"
edition = "2021"
publish = false

[dependencies]
kv-crud-core = "*"
failure = "*"
