//! Polynomial commitments over the Pasta curves: evaluation domains and their transforms,
//! an evaluator of gate expressions, commitments, and openings of committed polynomials.

pub mod arith;
pub mod field;
pub mod dft;
pub mod poly;
pub mod fft;
pub mod scalars;
pub mod ast;
pub mod shapes;
pub mod plan;
pub mod values;
pub mod lowering;
pub mod pieces;
pub mod partition;
pub mod unique;
pub mod written;
pub mod compile;
pub mod schedule;
pub mod occurrence;
pub mod apply;
pub mod layout;
pub mod occupancy;
pub mod retained;
pub mod cse;
pub mod again;
pub mod domain;
pub mod transform;
pub mod convert;
pub mod quotient;
pub mod lagrange;
pub mod basis;
pub mod fold;
pub mod scratch;
pub mod running;
pub mod rows;
pub mod evaluate;
pub mod selectors;
pub mod evaluator;
pub mod collapse;
pub mod division;
pub mod qprime;
pub mod curve;
pub mod queries;
pub mod windows;
pub mod tables;
pub mod shared;
pub mod params;
pub mod commit;
pub mod encoding;
pub mod instance;
pub mod msm;
pub mod ipa;
pub mod acceptance;
pub mod multiopen;
pub mod blind;
pub mod sums;
pub mod recognised;
pub mod holdings;
pub mod figures;
pub mod caching;
pub mod ledger;
pub mod choices;
pub mod spelling;
pub mod weights;
pub mod combining;
pub mod exchange;
pub mod groups;
pub mod generators;
pub mod retention;
pub mod meaning;
pub mod points;
pub mod multiexp;
