[package]
name = "ntrancerator"
version = "0.1.0"
edition = "2021"
publish = false

[dependencies]
anyhow = "1"
bytemuck = { version = "1", features = ["derive"] }
clap = { version = "4", default-features = false, features = ["std", "derive", "help", "usage", "error-context"] }
env_logger = { version = "0.11", default-features = false }
log = "0.4"
pollster = "0.3"
realfft = "3"
rtrb = "0.3"
symphonia = { version = "0.5", default-features = false, features = ["mp3", "wav", "pcm"] }
thiserror = "1"
wgpu = { version = "0.20", default-features = false, features = ["wgsl"] }
winit = { version = "0.30", default-features = false, features = ["rwh_06", "wayland", "wayland-dlopen"] }

[dev-dependencies]
hound = "3"
