//! Decision logic of a 3D view mod for Factorio: what is recorded from the
//! game, which model stands for which prototype, how captures are scheduled
//! and how draws are reordered. Everything here is a function of plain values;
//! the rendering and hooking program around it lives in `app/`.

pub mod billboards;
pub mod camera;
pub mod capture;
pub mod connect;
pub mod daynight;
pub mod draw;
pub mod entities;
pub mod explore;
pub mod frame;
pub mod geometry;
pub mod getters;
pub mod gltf_model;
pub mod grid;
pub mod hooks;
pub mod idmap;
pub mod item_draws;
pub mod items;
pub mod machines;
pub mod mem;
pub mod model_plan;
pub mod models;
pub mod namemap;
pub mod order;
pub mod paths;
pub mod picking;
pub mod player;
pub mod pose;
pub mod present;
pub mod quads;
pub mod renderer;
pub mod sky;
pub mod split;
pub mod sprites;
pub mod symbols;
pub mod text;
pub mod textures;
pub mod track;
pub mod tuning;
pub mod util;
pub mod view_cull;
pub mod warp;
pub mod wires;
