[package]
name = "rua"
version = "0.1.0"
edition = "2021"
publish = false

[dependencies]
chrono = "=0.4.45"
colored = "*"
directories = "*"
env_logger = "*"
fs2 = "*"
fs_extra = "*"
libc = "*"
libflate = "*"
log = "*"
prettytable-rs = "*"
raur = { version = "=8.0.0", features = ["blocking"] }
rm_rf = "*"
ruzstd = "*"
structopt = "*"
tar = "*"
term_size = "*"
uname = "*"
users = "*"
xz2 = "*"
