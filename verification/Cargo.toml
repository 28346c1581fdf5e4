[package]
name = "axfs_root"
version = "0.1.0"
edition = "2021"
publish = false

[dependencies]
handler_table = "*"
ns16550a = "*"
kernel_guard = "*"
kspin = "*"
lazyinit = "*"
spin = "*"
axerrno = "*"
axfs_vfs = "*"
axfs_devfs = "*"
axfs_ramfs = "*"
loongArch64 = "*"
