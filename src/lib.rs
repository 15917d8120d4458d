//! A Datalog evaluator that compiles each rule into SQL and runs it to a
//! fixpoint against an embedded relational database.

pub mod ast;
pub mod eval;
pub mod mir;
pub mod sql;
pub mod text;
