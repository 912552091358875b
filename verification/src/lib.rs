pub mod instructions;
pub mod semantics;
pub mod tape;
pub mod laws;
pub mod decimal;
