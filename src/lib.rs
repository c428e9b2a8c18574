pub mod tiles;
