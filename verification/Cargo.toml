[package]
name = "sugarcubes-core"
version = "0.1.0"
edition = "2021"
publish = false

[dependencies]
slotmap = "=1.1.1"
macroquad = "=0.4.16"
egui-macroquad = "=0.17.3"
egui = "=0.31.1"
glam = "=0.27.0"
sapp-jsutils = "=0.1.7"
xmltree = "=0.12.0"
