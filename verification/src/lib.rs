pub mod bit_storage;
pub mod bitmap;
pub mod dialog;
pub mod filmloop_probe;
pub mod grid;
pub mod host_text;
pub mod manager;
pub mod mask;
pub mod member_names;
pub mod stage;
pub mod text;
