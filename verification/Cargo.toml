[package]
name = "game_core"
version = "0.1.0"
edition = "2021"
publish = false

[dependencies]
itertools = "0.14"
glam = "0.30"
serde = { version = "1", features = ["derive"] }
ron = "0.10"
bytemuck = { version = "1", features = ["derive"] }
bevy_math = "0.17"
bevy_ecs = "0.17"
tracing = "0.1"
