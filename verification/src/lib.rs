//! Native implementation of the MQOM v2 post-quantum signature scheme,
//! profile `MQOM2-L1-gf16-short-r5`, with its arithmetic, transcripts and
//! encodings specified and proved with Verus.

pub mod field;
pub mod params;
pub mod xof;
pub mod prg;
pub mod mq;
pub mod keygen;
pub mod blc;
pub mod verify;
pub mod sign;
pub mod kat;
pub mod algebra;
pub mod hidden_point;
pub mod completeness;
pub mod mqom2_l1_gf16_short_r5;
