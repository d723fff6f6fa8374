//! What the operations are for, said of what goes into a call and what comes out of
//! it.

pub mod changing;
pub mod columns;
pub mod marking;
pub mod measuring;
pub mod moving;
pub mod orphaned;
pub mod standing_in;
pub mod tables;
pub mod tidying;
pub mod turning_up;
pub mod viewing;
