pub mod system;
pub mod canvas;
pub mod scene;
pub mod controls;
