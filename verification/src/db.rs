pub mod history;
pub mod laws;
pub mod liveness;
pub mod model;
pub mod names;
pub mod paint;
pub mod store;
pub mod version_controller;
