//! Builder-pattern configuration record for a product-quantization index:
//! a plain bag of tunable knobs, set fluently and read directly.

use vstd::prelude::*;

verus! {

/// Tunable knobs for product quantization: the number of sub-quantizers,
/// the bits per sub-quantizer, and the training epoch count.
#[derive(Debug, Clone, Copy, PartialEq, Eq, Structural)]
pub struct PQParams {
    pub n_sub: usize,
    pub sub_bits: usize,
    pub train_epoch: usize,
}

impl Default for PQParams {
    /// The default knobs.
    fn default() -> (r: Self)
        ensures
            r.n_sub == 4,
            r.sub_bits == 4,
            r.train_epoch == 100,
    {
        PQParams { n_sub: 4, sub_bits: 4, train_epoch: 100 }
    }
}

impl PQParams {
    /// Replaces the number of sub-quantizers, keeping the other knobs.
    pub fn n_sub(self, new_n_sub: usize) -> (r: Self)
        ensures
            r.n_sub == new_n_sub,
            r.sub_bits == self.sub_bits,
            r.train_epoch == self.train_epoch,
    {
        PQParams { n_sub: new_n_sub, ..self }
    }

    /// Replaces the bits per sub-quantizer, keeping the other knobs.
    pub fn sub_bits(self, new_sub_bits: usize) -> (r: Self)
        ensures
            r.n_sub == self.n_sub,
            r.sub_bits == new_sub_bits,
            r.train_epoch == self.train_epoch,
    {
        PQParams { sub_bits: new_sub_bits, ..self }
    }

    /// Replaces the training epoch count, keeping the other knobs.
    pub fn train_epoch(self, new_train_epoch: usize) -> (r: Self)
        ensures
            r.n_sub == self.n_sub,
            r.sub_bits == self.sub_bits,
            r.train_epoch == new_train_epoch,
    {
        PQParams { train_epoch: new_train_epoch, ..self }
    }
}

} // verus!
