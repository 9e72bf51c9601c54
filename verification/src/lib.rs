//! A two-party generator of vector oblivious linear evaluation correlations over the STARK-252 prime field.
//!
//! A sender, who holds a key `delta`, and a receiver end up with vectors `y_S`, `y_R`, `z_R` that are meant
//! to satisfy `y_S = y_R + delta * z_R`. Every round keeps that correlation at the places that are not the
//! receiver's own place of a tree; at those places the point sharing, as it is defined here, gives another
//! difference, and with the checks switched on honest parties abort (see `vole_triple::VoleTriple`). The
//! library holds every layer of the pipeline: base oblivious transfers over
//! P-256, their extension to correlated transfers, a buffer of precomputed transfers, single-point and
//! multi-point function sharing over a tree of pseudorandom nodes, the expansion of a short seed by a
//! sparse matrix, and the session that bootstraps itself and then extends round by round.
//!
//! A party never blocks. Its protocol is cut into steps, each of which reads what the peer's last step
//! wrote to an in-memory channel and writes what the peer's next step reads; whoever owns the connection
//! moves the bytes between two steps.

pub mod error;
pub mod role;
pub mod field;
pub mod field_laws;
pub mod block;
pub mod collect;
pub mod comm_channel;
pub mod crypto;
pub mod prg;
pub mod hash;
pub mod two_key_prp;
pub mod prp;
pub mod ot;
pub mod clmul;
pub mod clmul_laws;
pub mod iknp;
pub mod preot;
pub mod base_cot;
pub mod cope;
pub mod base_svole;
pub mod ggm;
pub mod spfss_sender;
pub mod spfss_receiver;
pub mod mpfss_reg;
pub mod lpn;
pub mod utils;
pub mod vole_triple;
