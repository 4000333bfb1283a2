[package]
name = "alpha_zero"
version = "0.1.0"
edition = "2021"
publish = false

[dependencies]
rand = "=0.8.8"
serde-pickle = "=1.2.0"
burn = { version = "=0.13.2", default-features = false, features = ["std", "autodiff", "ndarray"] }
# Nothing here calls bincode. burn-core 0.13 asks for "2.0.0-rc.3", which also admits the
# releases after it; those have changed the functions that burn-core calls, so the version is held.
bincode = { version = "=2.0.0-rc.3", default-features = false }
