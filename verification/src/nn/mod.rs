//! Integer side of the move-ordering network: the feature and policy
//! indices shared with the trainer, and the checks on a weight file's
//! header. The floating-point forward pass is not part of this library.

pub mod features;
pub mod weights;
