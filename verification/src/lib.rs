//! Cumulo: reach a half-remembered resource by association from a few clues.
//!
//! The verified core of the Cumulo web app: colours, locales, the URL query
//! format, the filter set, the keyboard-driven palette, the matrix selection and
//! the grouping of resources into the map's cluster tree.

pub mod text;
pub mod locale;
pub mod color;
pub mod ids;
pub mod filters;
pub mod params;
pub mod query;
pub mod platform;
pub mod palette;
pub mod matrix;
pub mod layout;
pub mod layout_laws;
pub mod category;
pub mod resource;
pub mod facet;
pub mod settings;
pub mod rng;
pub mod storage;
