//! Core of a terminal markdown reader with line-anchored comments.

pub mod app;
pub mod cards;
pub mod comments;
pub mod composer;
pub mod config;
pub mod delivery;
pub mod docview;
pub mod elide;
pub mod events;
pub mod export;
pub mod file_list;
pub mod fold;
pub mod footer;
pub mod geometry;
pub mod keys;
pub mod listing;
pub mod markdown;
pub mod model;
pub mod mouse;
pub mod offsets;
pub mod order;
pub mod paging;
pub mod pane;
pub mod render;
pub mod rows;
pub mod scroll;
pub mod shift;
pub mod snippet;
pub mod style;
pub mod text;
pub mod theme;
pub mod ui;
pub mod width;
