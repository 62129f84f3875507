pub mod clock;
pub mod interval;
pub mod model;
pub mod sorting;
pub mod text;
pub mod timeline_cache;
pub mod format;
pub mod settings;
pub mod view;
pub mod tables;
pub mod timeline_sections;
pub mod materialize;
pub mod model_building;
pub mod ticks;
pub mod stream;
pub mod tui;
pub mod render;
pub mod reading;
pub mod interval_change;
pub mod cli;
