pub mod frame;
pub mod mix;
pub mod guard;
pub mod intern_cache;
pub mod slots;
