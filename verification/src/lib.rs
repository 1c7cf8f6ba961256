//! Layout and validation logic for printable card sheets.
pub mod error;
pub mod layout;
pub mod plan;
pub mod writer;
pub mod document;
pub mod guides;
pub mod images;
pub mod gui;
pub mod archive;
pub mod web;
