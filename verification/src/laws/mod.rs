//! What the operations of the library are for: relations between what goes
//! into them and what comes out, over all inputs.

pub mod asked;
pub mod details;
pub mod files;
pub mod forms;
pub mod kept;
pub mod lists;
pub mod meet;
pub mod modules;
pub mod names;
pub mod order;
pub mod pieces;
pub mod refused;
pub mod rows;
pub mod rules;
pub mod sent;
pub mod shown;
pub mod signs;
pub mod steps;
pub mod told;
pub mod wire;
pub mod words;
