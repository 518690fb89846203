pub mod actor;
pub mod ctl;
pub mod gate;
pub mod rebuild;
pub mod restore;
pub mod states;
