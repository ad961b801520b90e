//! Inverse force-density solving and rigidity analysis for pin-jointed networks.

pub mod arithmetic;
pub mod array;
pub mod backend;
pub mod balance;
pub mod basis;
pub mod bidiagonal;
pub mod bounds;
pub mod conic;
pub mod constants;
pub mod creation;
pub mod direct;
pub mod double;
pub mod eigen;
pub mod entries;
pub mod equilibrium;
pub mod error;
pub mod exact;
pub mod force_stage;
pub mod form;
pub mod geometric_stage;
pub mod geometry;
pub mod handle;
pub mod inner;
pub mod inverse;
pub mod irls;
pub mod lengths;
pub mod lifecycle;
pub mod likeness;
pub mod loads;
pub mod lsqr;
pub mod measures;
pub mod nullspace;
pub mod objectives;
pub mod optimality;
pub mod options;
pub mod particulars;
pub mod prestress;
pub mod probe;
pub mod programs;
pub mod pseudoinverse;
pub mod qr;
pub mod reactions;
pub mod retraction;
pub mod reweighting;
pub mod rigid;
pub mod saddle;
pub mod solving;
pub mod sparse;
pub mod spg;
pub mod stages;
pub mod steady;
pub mod stiffness;
pub mod stripping;
pub mod supports;
pub mod turning;
pub mod types;
pub mod uniqueness;
pub mod unknowns;
pub mod vector;
pub mod verdicts;
pub mod weight;
pub mod weighted_lsqr;
