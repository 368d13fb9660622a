[package]
name = "gstscream"
version = "0.1.0"
edition = "2021"
publish = false

[dependencies]
array-init = "=2.1.0"
hashbrown = "=0.17.1"
once_cell = "=1.21.4"
gstreamer = "=0.25.4"
gstreamer-rtp = "=0.25.0"
gstreamer-video = "=0.25.4"
gstreamer-sys = "=0.25.4"
glib = "=0.22.10"
kstring = "=2.0.2"
libc = "=0.2.191"
clap = { version = "=4.6.7", features = ["derive", "env"] }
failure = "=0.1.8"
chrono = "=0.4.45"
lazy_static = "=1.5.1"
gtypes = "=0.2.0"
