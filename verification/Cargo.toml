[package]
name = "lidar_point_cloud_classifier"
version = "0.1.0"
edition = "2021"
publish = false

[dependencies]
bytemuck = "1.25"
kdtree = "0.7"
ndarray = "0.16"
rand = { version = "0.9", features = ["small_rng"] }
rayon = "1.10"
serde = { version = "1", features = ["derive"] }
serde_json = "1"
thiserror = "2"
wblidar = "0.1"
wbraster = "0.1"
