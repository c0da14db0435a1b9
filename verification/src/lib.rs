//! A 9x9 number-placement puzzle solver.
//!
//! The grid is modelled as 81 `Square`s grouped into 9 `Line`s (rows),
//! 9 `Column`s and 9 `ABox`es (3x3 blocks).  A `Table` owns all of them
//! and drives constraint propagation (`update`), a prioritised set of
//! deduction rules (`engine`), and a snapshot/guess/rollback search that
//! completes the solver when deduction stalls.

pub mod abox;
pub mod column;
pub mod enums;
pub mod helpers;
pub mod laws;
pub mod line;
pub mod model;
pub mod square;
pub mod table;
