pub mod circuit;
pub mod cloak;
pub mod conservation;
pub mod field;
pub mod gadgets;
pub mod polynomial;
pub mod r1cs;
pub mod scalar;
pub mod semantics;
pub mod soundness;
pub mod spacesuit;
pub mod value;
