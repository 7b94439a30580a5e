pub mod catalog;
pub mod download;
pub mod error;
pub mod install;
pub mod json;
pub mod model;
pub mod paths;
pub mod profiles;
pub mod resolve;
pub mod selection;
pub mod sorting;
pub mod text;
