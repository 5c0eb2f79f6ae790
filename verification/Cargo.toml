[package]
name = "svg2pts"
version = "0.1.5"
edition = "2021"
publish = false

[dependencies]
kurbo = "*"
lyon_geom = "*"
ryu = "*"
usvg = { version = "*", default-features = false }
