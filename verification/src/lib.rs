pub mod heap;
pub mod menu;
pub mod order;
pub mod text;
