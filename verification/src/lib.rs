//! Overlapping wave function collapse: a constraint-propagation solver that
//! grows an image whose every small window occurs in a seed image.
//!
//! The seed is cut into square patterns (`texturesource`, `symmetry`), and
//! for each pair of patterns and each displacement it is worked out whether
//! the two agree where they overlap (`patch`, `compatibility`). The output
//! is a wave of cells (`possibilitycell`, `wave`), each holding the set of
//! patterns still allowed at its site. The solver (`overlappingmodel`)
//! decides one site after the other and propagates each decision until the
//! wave is at rest; `consistency` says what is meant by that.
//!
//! Three outside crates do part of the work: `bit_vec` holds the pattern
//! sets (`bitset`), `ndarray` holds images and the wave (`grid`, `wave`),
//! and `rand` draws the numbers by which patterns are chosen (`utils`).
//! What is assumed of them is stated where they are called.

pub mod bitset;
pub mod compatibility;
pub mod consistency;
pub mod grid;
pub mod offset;
pub mod overlappingmodel;
pub mod patch;
pub mod pixel;
pub mod possibilitycell;
pub mod shape;
pub mod symmetry;
pub mod texturesource;
pub mod utils;
pub mod wave;
