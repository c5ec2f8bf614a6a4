//! roses: a terminal feed reader backed by Feedbin — the verified core.

pub mod batch;
pub mod browser;
pub mod commands;
pub mod config;
pub mod decimal;
pub mod feedbin;
pub mod html;
pub mod images;
pub mod laws;
pub mod opml;
pub mod reader;
pub mod store;
pub mod text;
pub mod theme;
pub mod tui;
pub mod ui;
