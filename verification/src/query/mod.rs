//! Every piece of UI state that the URL query carries, in one struct, and its
//! conversion to and from the router's query map.
//!
//! The query namespace is kept here: `view=<facet|map>`, one
//! `filters.<root>=<value>` per filter, `zoom_axis=<root>`, `lang=<code>`.
//! Keys that no field models (`utm_source`, ...) are kept aside and written
//! back, so that writing the whole state never drops somebody else's key.

pub mod error;
pub mod format;
pub mod state;
pub mod laws;
