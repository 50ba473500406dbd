//! Source-format decoding logic for scientific and scene files.
use vstd::prelude::*;

pub mod bvh;
pub mod cgns;
pub mod ensight;
pub mod ensight_geo;
pub mod error;
pub mod exodus;
pub mod fbx;
pub mod gltf;
pub mod gltf_material;
pub mod gltf_mesh;
pub mod gltf_scene;
pub mod gltf_skin;
pub mod lightmap;
pub mod mesh;
pub mod netcdf;
pub mod tecplot;
pub mod text;
pub mod texture;

verus! {

} // verus!
