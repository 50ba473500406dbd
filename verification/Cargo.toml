[package]
name = "viewport_lib_io"
version = "0.1.0"
edition = "2021"
publish = false

[dependencies]
glam = "=0.34.2"
gltf = { version = "=1.4.1", features = ["KHR_materials_pbrSpecularGlossiness"] }
hdf5 = "=0.8.1"
image = { version = "=0.25.10", default-features = false, features = ["bmp", "exr", "hdr", "jpeg", "png"] }
netcdf-reader = "=0.12.1"
serde = { version = "=1.0.229", features = ["derive"] }
thiserror = "=2.0.21"
