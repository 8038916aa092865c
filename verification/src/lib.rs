//! Engine core of a Backrooms game: asset lifetimes, scene trees, content packs and input.
pub mod aabb;
pub mod asset;
pub mod bounds;
pub mod budget;
pub mod client_load;
pub mod client_scene;
pub mod config;
pub mod controller;
pub mod demo;
pub mod dependency;
pub mod description;
pub mod document;
pub mod environment;
pub mod frame;
pub mod game_path;
pub mod gc;
pub mod glb;
pub mod handle;
pub mod hierarchy;
pub mod input;
pub mod jpeg;
pub mod jpeg_scan;
pub mod lists;
pub mod material;
pub mod memory;
pub mod mesh;
pub mod number;
pub mod pack;
pub mod path_index;
pub mod pinning;
pub mod pins;
pub mod png;
pub mod protocol;
pub mod radiance;
pub mod registry;
pub mod renderer;
pub mod residency;
pub mod resource;
pub mod scene;
pub mod scene_laws;
pub mod scene_load;
pub mod scene_merge;
pub mod server;
pub mod slots;
pub mod spawn;
pub mod sync;
pub mod sync_laws;
pub mod template;
pub mod text;
pub mod texture;
pub mod timestep;
pub mod tree;
pub mod window;
