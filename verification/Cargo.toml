[package]
name = "reactive_graph"
version = "0.1.0"
edition = "2021"

[dependencies]
bevy_app = "*"
bevy_ecs = "*"
