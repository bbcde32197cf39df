//! Grid automata that grow tectonic plates on a square table and trace their
//! borders on a hexagonal table.

pub mod hex_table;
pub mod plate_automation;
pub mod rng;
pub mod seed_automation;
pub mod subplate_automation;
pub mod table;
