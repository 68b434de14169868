pub mod bytes;
pub mod header;
pub mod layout_laws;
pub mod level0;
pub mod pyramid;
pub mod spill;
pub mod typed;
