[package]
name = "braille_render"
version = "0.1.0"
edition = "2021"
publish = false

[dependencies]
argparse = "0.2"
ffmpeg-next = "*"
libc = "0.2"
