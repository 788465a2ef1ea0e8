[package]
name = "tslatency"
version = "0.1.0"
edition = "2021"
publish = false

[dependencies]
glib = "0.19"
gstreamer = "0.22"
gstreamer-base = "0.22"
gstreamer-video = "0.22"
itertools = "0.12"
once_cell = "1"
