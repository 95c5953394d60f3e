use vstd::prelude::*;
use crate::value::{le_bytes, le_u64_at, lemma_le_bytes_bound, ScanValue};

verus! {

/// How an observed value is tested against the tracked target value. A closed
/// set of comparisons keeps the matching logic in one dispatch point.
#[derive(Clone, Copy, PartialEq, Eq, Structural, Debug)]
pub enum ScanPredicate {
    /// Keep an address exactly when the bytes there decode to the target.
    Equal,
    /// Keep every readable address, whatever it holds: the seed for a scan
    /// whose starting value is not yet known.
    Any,
}

impl ScanPredicate {
    /// Whether an observed value passes the test against the target.
    pub open spec fn spec_holds(&self, target: ScanValue, observed: nat) -> bool {
        match *self {
            ScanPredicate::Equal => observed == target.spec_as_u64() as nat,
            ScanPredicate::Any => true,
        }
    }

    pub fn holds(&self, target: &ScanValue, observed: u64) -> (r: bool)
        ensures
            r == self.spec_holds(*target, observed as nat),
    {
        match *self {
            ScanPredicate::Equal => observed == target.as_u64(),
            ScanPredicate::Any => true,
        }
    }
}

/// The target matches at byte offset `i` of the image: a whole window of its
/// width lies inside the image and those bytes pass the predicate. The stride
/// is one byte, deliberately coarse: matches need not be aligned.
pub open spec fn match_at(bytes: Seq<u8>, target: ScanValue, pred: ScanPredicate, i: int) -> bool {
    &&& 0 <= i
    &&& i + target.spec_width() <= bytes.len()
    &&& pred.spec_holds(target, le_bytes(bytes.subrange(i, i + target.spec_width())))
}

/// The absolute addresses of all matches among the first `n` offsets of an
/// image that starts at address `start`, in ascending order.
pub open spec fn hits_upto(
    start: usize,
    bytes: Seq<u8>,
    target: ScanValue,
    pred: ScanPredicate,
    n: int,
) -> Seq<usize>
    decreases n,
{
    if n <= 0 {
        Seq::empty()
    } else {
        hits_upto(start, bytes, target, pred, n - 1) + if match_at(bytes, target, pred, n - 1) {
            seq![(start + n - 1) as usize]
        } else {
            Seq::empty()
        }
    }
}

/// The absolute addresses of all matches in an image that starts at address
/// `start`, in ascending order.
pub open spec fn region_hits(
    start: usize,
    bytes: Seq<u8>,
    target: ScanValue,
    pred: ScanPredicate,
) -> Seq<usize> {
    hits_upto(start, bytes, target, pred, bytes.len() as int)
}

/// Every hit is an offset into the image.
pub proof fn lemma_hits_upto_range(
    start: usize,
    bytes: Seq<u8>,
    target: ScanValue,
    pred: ScanPredicate,
    n: int,
)
    requires
        n <= bytes.len(),
        start + bytes.len() <= usize::MAX,
    ensures
        forall|k: int|
            0 <= k < hits_upto(start, bytes, target, pred, n).len() ==> start <= #[trigger] hits_upto(
                start,
                bytes,
                target,
                pred,
                n,
            )[k] && hits_upto(start, bytes, target, pred, n)[k] < start + bytes.len(),
    decreases n,
{
    if n > 0 {
        lemma_hits_upto_range(start, bytes, target, pred, n - 1);
        let h = hits_upto(start, bytes, target, pred, n);
        let hp = hits_upto(start, bytes, target, pred, n - 1);
        assert forall|k: int| 0 <= k < h.len() implies start <= h[k] && h[k] < start
            + bytes.len() by {
            if k < hp.len() {
                assert(h[k] == hp[k]);
            } else {
                assert(match_at(bytes, target, pred, n - 1));
                assert(h[k] == (start + n - 1) as usize);
            }
        }
    }
}

/// Scan one region image, byte offset by byte offset, and collect the
/// addresses at which the target matches. This is the whole matching logic of
/// a full scan; the result is exactly `region_hits`.
pub fn scan_bytes(start: usize, bytes: &Vec<u8>, target: &ScanValue, pred: ScanPredicate) -> (r:
    Vec<usize>)
    requires
        start + bytes.len() <= usize::MAX,
    ensures
        r@ == region_hits(start, bytes@, *target, pred),
{
    let w = target.width();
    let mut r: Vec<usize> = Vec::new();
    let mut i: usize = 0;
    while i < bytes.len()
        invariant
            i <= bytes.len(),
            start + bytes.len() <= usize::MAX,
            w == target.spec_width(),
            r@ == hits_upto(start, bytes@, *target, pred, i as int),
        decreases bytes.len() - i,
    {
        if w <= bytes.len() - i {
            let v = le_u64_at(bytes, i, w);
            proof {
                lemma_le_bytes_bound(bytes@.subrange(i as int, i + w));
            }
            if pred.holds(target, v) {
                r.push(start + i);
            }
        }
        i = i + 1;
    }
    r
}

} // verus!
