[package]
name = "mpqs"
version = "0.1.0"
edition = "2021"
publish = false

[dependencies]
rug = { version = "=1.19.2", default-features = false, features = ["integer"] }
# The backend of rug; it is named only to have rug link against the GMP of the system.
gmp-mpfr-sys = { version = "=1.5.3", default-features = false, features = ["use-system-libs"] }
primal-sieve = "=0.3.7"
chashmap = "=2.2.2"
crossbeam = "=0.8.5"
num_cpus = "=1.17.0"
clap = "=2.34.0"
