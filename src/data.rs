use vstd::prelude::*;

verus! {

/// Largest number of samples a data set may hold. With at most this many
/// samples and `MAX_FEATURES` features, an AUC denominator stays below 2^34
/// and a penalized fitness below 2^86 in magnitude, so the sums of ten such
/// values that the stability test multiplies by a `u32` threshold stay within
/// `i128`. A larger limit would overflow that product.
pub const MAX_SAMPLES: usize = 65536;

/// Largest number of features a data set may hold.
pub const MAX_FEATURES: usize = 1048576;

/// A labelled feature matrix, stored feature-major: `x[f][s]` is the value of
/// feature `f` on sample `s`. Values are fixed-point integers; any common
/// positive scale leaves every ranking, and so every AUC, unchanged.
pub struct Data {
    pub x: Vec<Vec<i64>>,
    pub y: Vec<u8>,
    pub features: Vec<String>,
    pub samples: Vec<String>,
}

impl Data {
    /// Every feature row has one value per label, every feature and every
    /// sample has a name, and the sizes stay within the limits that keep all
    /// sums exact in fixed-width integers.
    pub open spec fn wf(&self) -> bool {
        &&& self.features.len() == self.x.len()
        &&& self.samples.len() == self.y.len()
        &&& self.y.len() <= MAX_SAMPLES
        &&& self.x.len() <= MAX_FEATURES
        &&& forall|f: int| 0 <= f < self.x.len() ==> (#[trigger] self.x[f]).len() == self.y.len()
    }

    /// An empty data set.
    pub fn new() -> (r: Data)
        ensures
            r.x@.len() == 0,
            r.y@.len() == 0,
            r.wf(),
    {
        Data { x: Vec::new(), y: Vec::new(), features: Vec::new(), samples: Vec::new() }
    }

    /// Whether the matrix and the labels line up and fit the size limits.
    pub fn is_aligned(&self) -> (r: bool)
        ensures
            r == self.wf(),
    {
        if self.features.len() != self.x.len() || self.samples.len() != self.y.len() {
            return false;
        }
        if self.y.len() > MAX_SAMPLES || self.x.len() > MAX_FEATURES {
            return false;
        }
        let mut f: usize = 0;
        while f < self.x.len()
            invariant
                f <= self.x.len(),
                forall|g: int| 0 <= g < f ==> (#[trigger] self.x[g]).len() == self.y.len(),
            decreases self.x.len() - f,
        {
            if self.x[f].len() != self.y.len() {
                return false;
            }
            f += 1;
        }
        true
    }
}

} // verus!
