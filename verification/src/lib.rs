//! The verified core of a viewer and browser for MagicaVoxel `.vox` files.

pub mod browse;
pub mod calendar;
pub mod edge;
pub mod fixtures;
pub mod geom;
pub mod gfx;
pub mod hud;
pub mod input;
pub mod keys;
pub mod library;
pub mod loader;
pub mod material;
pub mod menu;
pub mod mesh;
pub mod model;
pub mod names;
pub mod order;
pub mod overlay;
pub mod palette;
pub mod panels;
pub mod paths;
pub mod rail;
pub mod report;
pub mod rows;
pub mod scan;
pub mod scene;
pub mod selection;
pub mod session;
pub mod settings;
pub mod sysfont;
pub mod text;
pub mod thumb;
pub mod ui;
pub mod viewer;
pub mod voxfile;
pub mod walk;
pub mod watch;
