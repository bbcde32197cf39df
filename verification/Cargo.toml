[package]
name = "automations"
version = "0.1.0"
edition = "2021"
publish = false

[dependencies]
rand = "=0.10.3"
rand_chacha = "=0.10.0"
rayon = "=1.12.0"
bevy = { version = "=0.18.1", default-features = false, features = ["bevy_sprite", "bevy_window"] }
# The texture description types of bevy's `Image` (`Extent3d`,
# `TextureDimension`, `TextureFormat`): bevy itself re-exports them only from
# `bevy::render`, which the features above leave out.
wgpu-types = "=27.0.1"
