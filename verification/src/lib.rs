//! A checker for the core type theory of an interactive theorem prover.

pub mod admission;
pub mod answers;
pub mod certs;
pub mod closed;
pub mod commring;
pub mod computing;
pub mod conv;
pub mod counting;
pub mod ctx;
pub mod decl;
pub mod deriving;
pub mod env;
pub mod errors;
pub mod evaluating;
pub mod expr;
pub mod ext;
pub mod inductive;
pub mod infer;
pub mod intlinear;
pub mod ints;
pub mod iota;
pub mod judge;
pub mod kernel;
pub mod level;
pub mod linear;
pub mod lists;
pub mod lookup;
pub mod members;
pub mod names;
pub mod natext;
pub mod nbe;
pub mod normal;
pub mod num;
pub mod numeral;
pub mod omega;
pub mod positive;
pub mod pp;
pub mod ratio;
pub mod recursor;
pub mod reduce;
pub mod reflecting;
pub mod related;
pub mod report;
pub mod ring;
pub mod ringform;
pub mod sameness;
pub mod share;
pub mod substituting;
pub mod text;
pub mod typing;
pub mod value;
pub mod verdicts;
