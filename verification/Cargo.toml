[package]
name = "resolvo_apt_solver"
version = "0.1.0"
edition = "2021"
publish = false

[dependencies]
apt-edsp = "*"
resolvo = "0.7"
