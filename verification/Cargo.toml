[package]
name = "edit_roblox_model"
version = "0.1.0"
edition = "2021"
publish = false

[dependencies]
anyhow = "1"
clap = { version = "3", features = ["derive"] }
fs-err = "2"
msgbox = "0.7"
notify = "4"
rbx_binary = "0.6"
rbx_dom_weak = "2"
rbx_xml = "0.12"
roblox_install = "1"
tempfile = "3"
