[package]
name = "imageindex"
version = "0.1.0"
edition = "2021"
publish = false

[dependencies]
base64 = "=0.22.1"
clap = { version = "=4.6.7", features = ["derive"] }
csv = "=1.4.0"
image = { version = "=0.25.6", default-features = false, features = ["jpeg", "png", "bmp", "tiff"] }
imagepipe = "=0.5.1"
kamadak-exif = "=0.5.5"
# Used by tract-onnx; later versions need a newer compiler.
kstring = "=2.0.2"
libloading = "=0.8.9"
rayon = "=1.12.0"
serde_json = "=1.0.154"
tract-onnx = "=0.21.19"
ureq = { version = "=2.12.1", features = ["json"] }
