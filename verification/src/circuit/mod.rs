pub mod algebraic;
pub mod reactive;
pub mod adaptation;
pub mod lifting;
pub mod scheduling;
pub mod pruning;
pub mod semantics;
pub mod lift_values;
