[package]
name = "init_supervisor"
version = "0.1.0"
edition = "2021"
publish = false

[dependencies]
chashmap = "*"
generational-arena = "*"
libredox = "*"
log = "*"
redox_syscall = "*"
redox_users = "*"
serde = "*"
serde_derive = "*"
toml = "*"
