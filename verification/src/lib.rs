pub mod model;
pub mod refinement_mapping;
pub mod checker;
pub mod text;
pub mod svg;
pub mod tags;
