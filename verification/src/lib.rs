pub mod board;
pub mod ext;
pub mod game;
pub mod input;
pub mod laws;
pub mod shape;
pub mod view;
