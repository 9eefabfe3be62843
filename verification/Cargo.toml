[package]
name = "gradient_cache"
version = "0.1.0"
edition = "2021"
publish = false

[dependencies]
bytemuck = "*"
hashbrown = "*"
vello_common = "*"
