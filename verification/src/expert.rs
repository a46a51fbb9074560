//! Quantized weights, routed experts, and where experts come from.

use std::sync::Arc;
use vstd::prelude::*;

verus! {

/// A quantized `[o, i]` weight. Which buffers are filled depends on `fmt_code`:
/// 0 is f32, 1 int8, 2 bf16, 3 int2, 4 e4m3, 5 and 6 packed four-bit formats
/// with block scales. Floating-point values are held as their bit patterns.
pub struct QTensor {
    pub fmt_code: i32,
    pub o: usize,
    pub i: usize,
    /// f32 weights.
    pub qf: Vec<u32>,
    /// int8 weights.
    pub q8: Vec<u8>,
    /// Packed weights of every other format.
    pub q4: Vec<u8>,
    /// Block scales.
    pub bs: Vec<u8>,
    /// Per-row f32 scales.
    pub s: Vec<u32>,
    /// Global f32 scale.
    pub g: u32,
    /// Whether the weight may be used from the device.
    pub gpu_eligible: bool,
}

/// A routed expert: the three projections of its feed-forward network.
pub struct Expert {
    pub gate: QTensor,
    pub up: QTensor,
    pub down: QTensor,
}

/// A count as it is reported: held at `u64::MAX`.
pub open spec fn capped(n: int) -> u64 {
    if n > u64::MAX {
        u64::MAX
    } else {
        n as u64
    }
}

impl QTensor {
    /// Bytes that the buffers hold.
    pub open spec fn held(&self) -> nat {
        self.qf@.len() * 4 + self.q8@.len() + self.q4@.len() + self.bs@.len() + self.s@.len() * 4
    }

    fn held_bytes(&self) -> (n: u128)
        ensures
            n == self.held(),
            n <= 11 * usize::MAX,
    {
        self.qf.len() as u128 * 4 + self.q8.len() as u128 + self.q4.len() as u128
            + self.bs.len() as u128 + self.s.len() as u128 * 4
    }

    /// Resident bytes of the weight.
    pub fn bytes(&self) -> (n: u64)
        ensures
            n == capped(self.held() as int),
    {
        let n: u128 = self.held_bytes();
        if n > u64::MAX as u128 {
            u64::MAX
        } else {
            n as u64
        }
    }
}

impl Expert {
    /// Bytes that the three projections hold.
    pub open spec fn held(&self) -> nat {
        self.gate.held() + self.up.held() + self.down.held()
    }

    /// Resident bytes of the expert.
    pub fn bytes(&self) -> (n: u64)
        ensures
            n == capped(self.held() as int),
    {
        let n: u128 = self.gate.held_bytes() + self.up.held_bytes() + self.down.held_bytes();
        if n > u64::MAX as u128 {
            u64::MAX
        } else {
            n as u64
        }
    }
}

/// Why an expert could not be had.
#[derive(Debug, PartialEq, Eq)]
pub struct LoadError {
    pub message: String,
}

/// A source of experts: a file, a peer, or a test.
pub trait ExpertProvider {
    /// Loads one expert.
    fn expert(&self, layer: usize, eid: usize) -> Result<Arc<Expert>, LoadError>;

    /// Loads several experts of a layer, in order, or fails as a whole.
    fn experts_batch(&self, layer: usize, eids: &Vec<usize>) -> (r: Result<
        Vec<Arc<Expert>>,
        LoadError,
    >)
        default_ensures
            match r {
                Ok(v) => {
                    &&& v@.len() == eids@.len()
                    &&& forall|i: int|
                        0 <= i < v@.len() ==> call_ensures(
                            Self::expert,
                            (self, layer, eids@[i]),
                            Ok(#[trigger] v@[i]),
                        )
                },
                Err(e) => exists|i: int|
                    0 <= i < eids@.len() && call_ensures(
                        Self::expert,
                        (self, layer, #[trigger] eids@[i]),
                        Err(e),
                    ),
            },
    {
        let mut out: Vec<Arc<Expert>> = Vec::new();
        for i in 0..eids.len()
            invariant
                out@.len() == i,
                forall|j: int|
                    0 <= j < i ==> call_ensures(
                        Self::expert,
                        (self, layer, eids@[j]),
                        Ok(#[trigger] out@[j]),
                    ),
        {
            match self.expert(layer, eids[i]) {
                Ok(e) => out.push(e),
                Err(e) => {
                    assert(call_ensures(Self::expert, (self, layer, eids@[i as int]), Err(e)));
                    return Err(e);
                },
            }
        }
        Ok(out)
    }
}

/// Every buffer of a weight counts, four bytes a value where values are f32 and one byte
/// a value elsewhere; an expert is its three projections.
pub proof fn every_buffer_counts(
    t: QTensor,
    e: Expert,
    n: u64,
    gate: u64,
    up: u64,
    down: u64,
    all: u64,
)
    requires
        call_ensures(QTensor::bytes, (&t,), n),
        call_ensures(QTensor::bytes, (&e.gate,), gate),
        call_ensures(QTensor::bytes, (&e.up,), up),
        call_ensures(QTensor::bytes, (&e.down,), down),
        call_ensures(Expert::bytes, (&e,), all),
    ensures
        n < u64::MAX ==> n == 4 * (t.qf@.len() + t.s@.len()) + t.q8@.len() + t.q4@.len()
            + t.bs@.len(),
        n == u64::MAX ==> 4 * (t.qf@.len() + t.s@.len()) + t.q8@.len() + t.q4@.len() + t.bs@.len()
            >= u64::MAX,
        all < u64::MAX ==> all == gate + up + down,
        all == u64::MAX ==> gate + up + down >= u64::MAX,
{
}

} // verus!
