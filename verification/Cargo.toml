[package]
name = "wqc_recursion"
version = "0.1.0"
edition = "2021"
publish = false

[dependencies]
p3-air = "=0.6.3"
p3-challenger = "=0.6.3"
p3-circle = "=0.6.3"
p3-commit = "=0.6.3"
p3-field = "=0.6.3"
p3-fri = "=0.6.3"
p3-keccak = "=0.6.3"
p3-matrix = "=0.6.3"
p3-merkle-tree = "=0.6.3"
p3-mersenne-31 = "=0.6.3"
p3-symmetric = "=0.6.3"
p3-uni-stark = { version = "=0.6.3", features = ["parallel"] }
p3-util = "=0.6.3"
postcard = { version = "=1.1.3", features = ["alloc"] }
serde = { version = "=1.0.229", features = ["derive"] }
sha3 = "=0.10.9"

[dev-dependencies]
rand = "0.8"
