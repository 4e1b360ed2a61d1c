pub mod entity;
pub mod order;
pub mod render;
pub mod report;
