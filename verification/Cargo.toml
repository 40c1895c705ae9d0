[package]
name = "shmalloc"
version = "0.1.0"
edition = "2021"
publish = false

[dependencies]
libc = "*"
once_cell = "*"
spin = "*"
