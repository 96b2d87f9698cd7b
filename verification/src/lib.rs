//! The sequencing and synth-definition logic of the garlic_crust synthesizer.
//!
//! Sample arithmetic (oscillators, envelopes, edges between operators) works on
//! floating-point values and lives outside this crate; what stands here is the
//! integer and structural logic around it: the note sequence, the order in which
//! a render block interleaves sequence events with rendered samples, and the
//! reading of a synthesizer definition out of its parsed file.
pub mod garlic_crust;
pub mod knober;
