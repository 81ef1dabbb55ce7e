[package]
name = "freq_motif_fastq"
version = "0.1.0"
edition = "2021"
publish = false

[dependencies]
clap = { version = "*", features = ["derive"] }
flate2 = "*"
uuid = { version = "*", features = ["v4"] }
