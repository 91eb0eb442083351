[package]
name = "id_tree_layout"
version = "0.1.0"
edition = "2021"
publish = false

[dependencies]
id_tree = "*"
xml_writer = "*"
