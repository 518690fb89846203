pub mod age;
pub mod bloom;
pub mod debris;
pub mod evict;
pub mod ladder;
pub mod orphans;
pub mod pass;
pub mod ring;
pub mod scan;
pub mod store;
pub mod usage;
