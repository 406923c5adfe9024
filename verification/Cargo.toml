[package]
name = "rustmap"
version = "0.1.0"
edition = "2021"
publish = false

[dependencies]
cairo-rs = "0.4"
gdk = "0.8"
gdk-pixbuf = "0.4"
gdk-sys = "0.6"
gtk = "0.4"
serde = "1"
serde_derive = "1"
toml = "0.4"
