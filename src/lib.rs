//! Grapheme-aware string similarity and edit-distance metrics.
//!
//! Every metric works on extended grapheme clusters rather than on bytes or
//! code points. The similarity metrics (Sørensen–Dice and Jaro) are returned
//! as exact integer components from which the real-valued score is one
//! division away; the two edit distances are returned as integers.
pub mod metrics;
