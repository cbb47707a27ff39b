pub mod fat_tree;
pub mod service;
pub mod model;
pub mod mapping;
pub mod operators;
pub mod standard;
pub mod previous;
pub mod ca_operators;
pub mod evaluation;
pub mod weights;
pub mod constraint_aware;
pub mod esp_vdce;
pub mod random;
pub mod instances;
pub mod round_robin;
pub mod bfs;
pub mod binary;
pub mod args;
pub mod bfdsu;
