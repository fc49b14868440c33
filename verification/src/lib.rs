//! Error-catalogue management: the data model of a project's errors and
//! categories, identifier generation, and rendering of the catalogue
//! through text templates.

pub mod idgen;
pub mod model;
pub mod numeric;
pub mod pattern;
pub mod project;
pub mod template;
pub mod text;
