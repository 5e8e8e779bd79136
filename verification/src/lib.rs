//! Sorting, culling, rating and backing up photos from a camera card.
pub mod area;
pub mod calendar;
pub mod cli;
pub mod config;
pub mod drive;
pub mod exif;
pub mod files;
pub mod grouping;
pub mod naming;
pub mod number;
pub mod occasion;
pub mod order;
pub mod paths;
pub mod plan;
pub mod progress;
pub mod relocate;
pub mod review;
pub mod screen;
pub mod session;
pub mod sorting;
pub mod state;
pub mod text;
pub mod upright;
pub mod views;
pub mod worker;
pub mod xmp;
