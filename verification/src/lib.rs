//! Pickup placement for a vibrating string.
//!
//! A string of a given length vibrates in harmonic modes; harmonic `h` has
//! `h` anti-nodes (points of maximum amplitude) evenly spaced along the
//! string.  Given a weight per harmonic, the library scores every position by
//! its proximity to the anti-nodes of the weighted harmonics, searches the
//! scored samples for the two best pickup placements, and builds the heat map
//! and colour gradient used to display the score field.
//!
//! All quantities are exact integers.  A position along the string is a
//! fraction `pos / len` of the string length, a falloff value is a fraction
//! of `FALLOFF_ONE`, and the falloff curve itself is a rational
//! approximation of the half-wave cosine.

pub mod anti_node;
pub mod color;
pub mod defaults;
pub mod heat_map;
pub mod score;
pub mod search;
