//! t-SNE on precomputed affinity graphs: sparse symmetric CSR graphs built from edge lists,
//! from validated CSR triples or by pooling several views; hop-distance neighbor tables; and
//! the exact t-SNE fit. The structure of every graph (offsets, columns, rows, symmetry,
//! errors) and the shape of every buffer are proved; the weight arithmetic runs on any
//! `num_traits::Float` type and is carried through the proofs as opaque values.

pub mod affinities;
pub mod demo;
pub mod error;
pub mod fit;
mod weight;

pub use affinities::{Affinities, AffinitiesBuilder, Neighbor};
pub use demo::{EchoWorker, PingRequest, PingResponse};
pub use error::FromCsrError;
pub use fit::{
    CallbackFn, EpochCallback, ExactBuilder, FittedExact, NoCallback, TsneBuilder,
    TsneReady,
};
