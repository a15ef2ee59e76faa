[package]
name = "pio"
version = "0.1.0"
edition = "2021"
publish = false

[dependencies]
rand = "0.8"
clap = { version = "3", features = ["derive"] }
rgb = "0.8"
imgref = "*"
image = "*"
rayon = "*"
kamadak-exif = "*"
mozjpeg = "*"
lodepng = "*"
imagequant = "*"
lcms2 = "*"
libwebp-sys = "*"
dssim-core = "*"
dssim = "*"
