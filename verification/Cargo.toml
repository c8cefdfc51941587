[package]
name = "heuristic_solver_eweidner"
version = "0.1.0"
edition = "2021"
publish = false

[dependencies]
peak_alloc = "*"
signal-hook = "*"
