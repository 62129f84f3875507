[package]
name = "hyprlog"
version = "0.1.0"
edition = "2021"
publish = false

[dependencies]
anyhow = "1"
chrono = "0.4"
color-eyre = "0.6"
crossterm = "0.29"
csv = "1"
directories = "6"
futures-util = "0.3"
hyprland = "*"
postcard = { version = "1", features = ["use-std"] }
ratatui = "0.30"
serde = { version = "1", features = ["derive"] }
terminal_size = "0.4"
tokio = { version = "1", features = ["full"] }
uuid = { version = "1", features = ["v4", "serde"] }
zbus = "5"
