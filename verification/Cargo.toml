[package]
name = "namegraph"
version = "0.1.0"
edition = "2021"
publish = false

[dependencies]
anyhow = "1"
arg_enum_proc_macro = "*"
console = "*"
crossbeam = "0.8"
csv = "1"
dialoguer = "*"
heck = "*"
indicatif = "*"
log = "0.4"
num_cpus = "1"
rand = "0.8"
serde = { version = "1", features = ["derive"] }
simple_logger = "*"
strsim = "*"
structopt = "0.3"
unidecode = "*"
xdg = "*"
zip = { version = "*", default-features = false, features = ["deflate"] }
