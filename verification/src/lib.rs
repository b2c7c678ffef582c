//! Verified core of the KiCad intent-language compiler: diagnostics, source
//! mapping, structural validation, module elaboration, net selection, routing
//! acceptance and the textual rules that generated KiCad artifacts follow.
pub mod board;
pub mod build_run;
pub mod connectivity;
pub mod diagnostic;
pub mod elaboration;
pub mod footprint;
pub mod generate;
pub mod kicad;
pub mod layout;
pub mod library;
pub mod lock;
pub mod model;
pub mod modules;
pub mod pipeline;
pub mod route_run;
pub mod project_file;
pub mod repair;
pub mod route_workflow;
pub mod schematic;
pub mod routing;
pub mod rules;
pub mod source;
pub mod source_map;
pub mod stackup;
pub mod text;
pub mod validate;
