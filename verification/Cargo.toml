[package]
name = "eevee"
version = "0.1.0"
edition = "2021"
publish = false

[dependencies]
rand = "0.9"
rand_distr = "0.5"
fxhash = "0.2"
serde = { version = "1", features = ["derive"] }
serde_json = "1"
bincode = "1"
rulinalg = "0.4"
nalgebra = "0.33"
ratatui = "0.29"
rayon = "1"
find-fold = "*"
paste = "1"
