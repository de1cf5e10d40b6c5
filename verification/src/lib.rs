//! Slide2D engine core: tile maps, blueprint graphs, plugins, assets and project data.

pub mod animation;
pub mod app_state;
pub mod assets;
pub mod blueprint;
pub mod game_ui;
pub mod launch;
pub mod localization;
pub mod paths;
pub mod plugins;
pub mod project;
pub mod text;
pub mod tilemap;
