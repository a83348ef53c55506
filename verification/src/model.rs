//! What the network's custom operations decide before any tensor is touched.

pub mod chunked_loss;
pub mod head;
