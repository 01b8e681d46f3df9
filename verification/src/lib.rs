use vstd::prelude::*;

pub mod boundary;
pub mod classify;
pub mod components;
pub mod cad;
pub mod element;
pub mod extract;
pub mod face_loop;
pub mod faces;
pub mod faces_laws;
pub mod hxt;
pub mod laplacian;
pub mod merge;
pub mod mesh;
pub mod meshing;
pub mod msh;
pub mod msh_laws;
pub mod msh_laws_v4;
pub mod msh_laws_keep;
pub mod msh_spec;
pub mod msh_write;
pub mod msh_write_v4;
pub mod save;
pub mod std_ext;
pub mod step;
pub mod surface_loop;
pub mod tetra;
pub mod text;
pub mod text_laws;
pub mod topology;
