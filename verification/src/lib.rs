//! Feather: the verified core of a small game engine.
pub mod args;
pub mod bake;
pub mod bench;
pub mod bytes;
pub mod config;
pub mod controls;
pub mod demo;
pub mod device;
pub mod draws;
pub mod extract;
pub mod float;
pub mod frames;
pub mod game;
pub mod graphics;
pub mod hash;
pub mod images;
pub mod jpeg;
pub mod json;
pub mod keys;
pub mod layout;
pub mod level;
pub mod lod;
pub mod material;
pub mod menu;
pub mod mesh;
pub mod mip;
pub mod png;
pub mod prefab;
pub mod runs;
pub mod scene;
pub mod slots;
pub mod text;
pub mod texture;
pub mod ui;
pub mod uploads;
pub mod worklist;
