pub mod composite;
pub mod encrypt;
pub mod gate;
pub mod tee;
