pub mod app;
pub mod draw;
pub mod encoding;
pub mod frame;
pub mod keys;
pub mod laws;
pub mod model;
pub mod nav;
pub mod pattern;
pub mod reader;
pub mod rows;
pub mod settings;
pub mod text;
pub mod view;
