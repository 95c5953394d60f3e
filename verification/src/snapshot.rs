use vstd::prelude::*;
use crate::region::{in_eligible_region, MemoryRegion};
use crate::scan::{match_at, region_hits, scan_bytes, hits_upto, lemma_hits_upto_range, ScanPredicate};
use crate::value::{le_bytes, le_u64_at, ScanValue};

verus! {

/// One region of a memory image, with the bytes it held when captured.
pub struct RegionImage {
    pub region: MemoryRegion,
    pub bytes: Vec<u8>,
}

impl RegionImage {
    /// The bytes cover the region exactly, and the region ends within the
    /// address space.
    pub open spec fn wf(&self) -> bool {
        &&& self.bytes@.len() == self.region.size
        &&& self.region.start + self.region.size <= usize::MAX
    }
}

/// Two regions share no address.
pub open spec fn regions_disjoint(a: MemoryRegion, b: MemoryRegion) -> bool {
    a.start + a.size <= b.start || b.start + b.size <= a.start
}

/// A static image of a process's memory: a list of region images. The scan
/// and prune operations below are the whole candidate-set logic of the
/// engine, stated over bytes that cannot change under it.
pub struct Snapshot {
    pub images: Vec<RegionImage>,
}

/// Every image is well formed.
pub open spec fn images_wf(images: Seq<RegionImage>) -> bool {
    forall|j: int| 0 <= j < images.len() ==> (#[trigger] images[j]).wf()
}

/// No two images overlap.
pub open spec fn images_disjoint(images: Seq<RegionImage>) -> bool {
    forall|j: int, k: int|
        0 <= j < images.len() && 0 <= k < images.len() && j != k ==> regions_disjoint(
            (#[trigger] images[j]).region,
            (#[trigger] images[k]).region,
        )
}

/// A whole window of `w` bytes starting at `addr` lies inside the image.
pub open spec fn read_in_image(img: RegionImage, addr: usize, w: nat) -> bool {
    img.region.start <= addr && addr + w <= img.region.start + img.region.size
}

/// The value of the `w`-byte window at `addr` in the image.
pub open spec fn image_value(img: RegionImage, addr: usize, w: nat) -> nat {
    le_bytes(img.bytes@.subrange(addr - img.region.start, addr - img.region.start + w))
}

/// Read a `w`-byte window at `addr`: the value in the first image that wholly
/// contains the window, or nothing when no image does.
pub open spec fn snap_read(images: Seq<RegionImage>, addr: usize, w: nat) -> Option<nat>
    decreases images.len(),
{
    if images.len() == 0 {
        None
    } else if read_in_image(images[0], addr, w) {
        Some(image_value(images[0], addr, w))
    } else {
        snap_read(images.subrange(1, images.len() as int), addr, w)
    }
}

/// All match addresses of a full scan over the image: each eligible region
/// contributes its hits in image order; ineligible regions contribute nothing.
pub open spec fn snap_hits(
    images: Seq<RegionImage>,
    target: ScanValue,
    pred: ScanPredicate,
) -> Seq<usize>
    decreases images.len(),
{
    if images.len() == 0 {
        Seq::empty()
    } else {
        snap_hits(images.drop_last(), target, pred) + if images.last().region.spec_eligible() {
            region_hits(images.last().region.start, images.last().bytes@, target, pred)
        } else {
            Seq::empty()
        }
    }
}

/// A candidate stays in the set exactly when its window can still be read and
/// the value read passes the predicate.
pub open spec fn candidate_kept(
    images: Seq<RegionImage>,
    addr: usize,
    target: ScanValue,
    pred: ScanPredicate,
) -> bool {
    match snap_read(images, addr, target.spec_width() as nat) {
        Some(v) => pred.spec_holds(target, v),
        None => false,
    }
}

/// The result of re-testing the first `n` candidates against the image.
pub open spec fn prune_upto(
    images: Seq<RegionImage>,
    cands: Seq<usize>,
    target: ScanValue,
    pred: ScanPredicate,
    n: int,
) -> Seq<usize>
    decreases n,
{
    if n <= 0 {
        Seq::empty()
    } else {
        prune_upto(images, cands, target, pred, n - 1) + if candidate_kept(
            images,
            cands[n - 1],
            target,
            pred,
        ) {
            seq![cands[n - 1]]
        } else {
            Seq::empty()
        }
    }
}

/// The candidates that survive a narrowing pass over the image: order and
/// multiplicity are preserved, and nothing is ever added.
pub open spec fn snap_prune(
    images: Seq<RegionImage>,
    cands: Seq<usize>,
    target: ScanValue,
    pred: ScanPredicate,
) -> Seq<usize> {
    prune_upto(images, cands, target, pred, cands.len() as int)
}

impl Snapshot {
    /// Read the window of `target`'s width at `addr`, decoded little endian.
    pub fn read_value(&self, addr: usize, target: &ScanValue) -> (r: Option<u64>)
        requires
            images_wf(self.images@),
        ensures
            match r {
                Some(v) => snap_read(self.images@, addr, target.spec_width() as nat) == Some(
                    v as nat,
                ),
                None => snap_read(self.images@, addr, target.spec_width() as nat) is None,
            },
    {
        let w = target.width();
        let n = self.images.len();
        let mut j: usize = 0;
        proof {
            assert(self.images@.subrange(0, n as int) =~= self.images@);
        }
        while j < n
            invariant
                j <= n,
                n == self.images@.len(),
                images_wf(self.images@),
                w == target.spec_width(),
                snap_read(self.images@, addr, w as nat) == snap_read(
                    self.images@.subrange(j as int, n as int),
                    addr,
                    w as nat,
                ),
            decreases n - j,
        {
            let img = &self.images[j];
            proof {
                assert(self.images@.subrange(j as int, n as int)[0] == self.images@[j as int]);
                assert(self.images@.subrange(j as int, n as int).subrange(
                    1,
                    (n - j) as int,
                ) =~= self.images@.subrange(j as int + 1, n as int));
                assert(self.images@[j as int].wf());
                assert(w <= 8);
            }
            if img.region.start <= addr && addr - img.region.start <= img.bytes.len() && w
                <= img.bytes.len() - (addr - img.region.start) {
                let off = addr - img.region.start;
                let v = le_u64_at(&img.bytes, off, w);
                proof {
                    assert(read_in_image(self.images@[j as int], addr, w as nat));
                    assert(image_value(self.images@[j as int], addr, w as nat) == le_bytes(
                        img.bytes@.subrange(off as int, off + w),
                    ));
                }
                return Some(v);
            }
            proof {
                assert(!read_in_image(self.images@[j as int], addr, w as nat));
            }
            j = j + 1;
        }
        proof {
            assert(self.images@.subrange(n as int, n as int) =~= Seq::<RegionImage>::empty());
        }
        None
    }

    /// A full scan of the image: every byte offset of every eligible region,
    /// exactly the matches of `snap_hits`.
    pub fn scan(&self, target: &ScanValue, pred: ScanPredicate) -> (r: Vec<usize>)
        requires
            images_wf(self.images@),
        ensures
            r@ == snap_hits(self.images@, *target, pred),
    {
        let mut r: Vec<usize> = Vec::new();
        let n = self.images.len();
        let mut j: usize = 0;
        while j < n
            invariant
                j <= n,
                n == self.images@.len(),
                images_wf(self.images@),
                r@ == snap_hits(self.images@.subrange(0, j as int), *target, pred),
            decreases n - j,
        {
            proof {
                assert(self.images@.subrange(0, j as int + 1).drop_last() =~= self.images@.subrange(
                    0,
                    j as int,
                ));
                assert(self.images@.subrange(0, j as int + 1).last() == self.images@[j as int]);
                assert(self.images@[j as int].wf());
            }
            let img = &self.images[j];
            if img.region.eligible() {
                let mut hits = scan_bytes(img.region.start, &img.bytes, target, pred);
                r.append(&mut hits);
            }
            j = j + 1;
        }
        proof {
            assert(self.images@.subrange(0, n as int) =~= self.images@);
        }
        r
    }

    /// A narrowing pass over the image: re-read each candidate and keep the
    /// survivors, exactly `snap_prune`.
    pub fn prune(&self, cands: &Vec<usize>, target: &ScanValue, pred: ScanPredicate) -> (r: Vec<
        usize,
    >)
        requires
            images_wf(self.images@),
        ensures
            r@ == snap_prune(self.images@, cands@, *target, pred),
            r@.len() <= cands@.len(),
    {
        let mut r: Vec<usize> = Vec::new();
        let n = cands.len();
        let mut k: usize = 0;
        while k < n
            invariant
                k <= n,
                n == cands@.len(),
                images_wf(self.images@),
                r@ == prune_upto(self.images@, cands@, *target, pred, k as int),
                r@.len() <= k,
            decreases n - k,
        {
            let addr = cands[k];
            match self.read_value(addr, target) {
                Some(v) => {
                    if pred.holds(target, v) {
                        r.push(addr);
                    }
                },
                None => {},
            }
            k = k + 1;
        }
        r
    }
}

/// Re-testing keeps every candidate that still reads back a passing value; a
/// pass that changes nothing returns the very same candidate sequence.
pub proof fn lemma_prune_keeps_all(
    images: Seq<RegionImage>,
    cands: Seq<usize>,
    target: ScanValue,
    pred: ScanPredicate,
)
    requires
        forall|k: int| 0 <= k < cands.len() ==> candidate_kept(images, #[trigger] cands[k], target, pred),
    ensures
        snap_prune(images, cands, target, pred) == cands,
{
    lemma_prune_upto_keeps_all(images, cands, target, pred, cands.len() as int);
    assert(snap_prune(images, cands, target, pred) =~= cands);
}

proof fn lemma_prune_upto_keeps_all(
    images: Seq<RegionImage>,
    cands: Seq<usize>,
    target: ScanValue,
    pred: ScanPredicate,
    n: int,
)
    requires
        n <= cands.len(),
        forall|k: int| 0 <= k < cands.len() ==> candidate_kept(images, #[trigger] cands[k], target, pred),
    ensures
        prune_upto(images, cands, target, pred, n) =~= cands.subrange(0, if n < 0 { 0 } else { n }),
    decreases n,
{
    if n > 0 {
        lemma_prune_upto_keeps_all(images, cands, target, pred, n - 1);
    }
}

/// Reading a window that lies wholly inside image `j` of a well-formed,
/// disjoint image list yields exactly that image's bytes: no other image can
/// claim the window first.
proof fn lemma_snap_read_at(images: Seq<RegionImage>, j: int, addr: usize, w: nat)
    requires
        images_wf(images),
        images_disjoint(images),
        0 <= j < images.len(),
        w > 0,
        read_in_image(images[j], addr, w),
    ensures
        snap_read(images, addr, w) == Some(image_value(images[j], addr, w)),
    decreases images.len(),
{
    if j == 0 {
    } else {
        assert(!read_in_image(images[0], addr, w)) by {
            if read_in_image(images[0], addr, w) {
                assert(regions_disjoint(images[0].region, images[j].region));
            }
        }
        let rest = images.subrange(1, images.len() as int);
        assert(images_wf(rest)) by {
            assert(forall|i: int| 0 <= i < rest.len() ==> #[trigger] rest[i] == images[i + 1]);
        }
        assert(images_disjoint(rest)) by {
            assert(forall|i: int| 0 <= i < rest.len() ==> #[trigger] rest[i] == images[i + 1]);
        }
        assert(rest[j - 1] == images[j]);
        lemma_snap_read_at(rest, j - 1, addr, w);
    }
}

/// Over a static, well-formed, disjoint image, every address a full scan of
/// image `j` finds still reads back a passing value.
proof fn lemma_image_hits_kept(
    images: Seq<RegionImage>,
    j: int,
    target: ScanValue,
    pred: ScanPredicate,
    n: int,
)
    requires
        images_wf(images),
        images_disjoint(images),
        0 <= j < images.len(),
        n <= images[j].bytes@.len(),
    ensures
        forall|k: int|
            0 <= k < hits_upto(images[j].region.start, images[j].bytes@, target, pred, n).len()
                ==> candidate_kept(
                images,
                #[trigger] hits_upto(images[j].region.start, images[j].bytes@, target, pred, n)[k],
                target,
                pred,
            ),
    decreases n,
{
    let img = images[j];
    let start = img.region.start;
    let bytes = img.bytes@;
    let w = target.spec_width() as nat;
    if n > 0 {
        lemma_image_hits_kept(images, j, target, pred, n - 1);
        let h = hits_upto(start, bytes, target, pred, n);
        let hp = hits_upto(start, bytes, target, pred, n - 1);
        assert forall|k: int| 0 <= k < h.len() implies candidate_kept(
            images,
            h[k],
            target,
            pred,
        ) by {
            if k < hp.len() {
                assert(h[k] == hp[k]);
            } else {
                assert(match_at(bytes, target, pred, n - 1));
                assert(img.wf());
                let a = (start + n - 1) as usize;
                assert(h[k] == a);
                assert(read_in_image(img, a, w));
                lemma_snap_read_at(images, j, a, w);
                assert(image_value(img, a, w) == le_bytes(bytes.subrange(n - 1, n - 1 + w)));
            }
        }
    }
}

/// Every address a full scan of a well-formed, disjoint image finds still
/// reads back a passing value afterwards.
proof fn lemma_snap_hits_kept_upto(
    images: Seq<RegionImage>,
    m: int,
    target: ScanValue,
    pred: ScanPredicate,
)
    requires
        images_wf(images),
        images_disjoint(images),
        0 <= m <= images.len(),
    ensures
        forall|k: int|
            0 <= k < snap_hits(images.subrange(0, m), target, pred).len() ==> candidate_kept(
                images,
                #[trigger] snap_hits(images.subrange(0, m), target, pred)[k],
                target,
                pred,
            ),
    decreases m,
{
    if m > 0 {
        lemma_snap_hits_kept_upto(images, m - 1, target, pred);
        let h = snap_hits(images.subrange(0, m), target, pred);
        let hp = snap_hits(images.subrange(0, m - 1), target, pred);
        assert(images.subrange(0, m).drop_last() =~= images.subrange(0, m - 1));
        assert(images.subrange(0, m).last() == images[m - 1]);
        let img = images[m - 1];
        assert forall|k: int| 0 <= k < h.len() implies candidate_kept(
            images,
            h[k],
            target,
            pred,
        ) by {
            if k < hp.len() {
                assert(h[k] == hp[k]);
            } else {
                assert(img.region.spec_eligible());
                lemma_image_hits_kept(images, m - 1, target, pred, img.bytes@.len() as int);
                assert(h[k] == region_hits(img.region.start, img.bytes@, target, pred)[k
                    - hp.len()]);
            }
        }
    }
}

/// Over a static, well-formed, disjoint memory image, every address a full
/// scan finds still reads back a value that passes the same predicate.
pub proof fn lemma_snap_hits_kept(images: Seq<RegionImage>, target: ScanValue, pred: ScanPredicate)
    requires
        images_wf(images),
        images_disjoint(images),
    ensures
        forall|k: int|
            0 <= k < snap_hits(images, target, pred).len() ==> candidate_kept(
                images,
                #[trigger] snap_hits(images, target, pred)[k],
                target,
                pred,
            ),
{
    lemma_snap_hits_kept_upto(images, images.len() as int, target, pred);
    assert(images.subrange(0, images.len() as int) =~= images);
}

/// Over a static memory image, a full scan followed at once by a narrowing
/// pass with the same value and predicate returns exactly the set the full
/// scan produced.
pub proof fn lemma_scan_then_prune_identity(
    images: Seq<RegionImage>,
    target: ScanValue,
    pred: ScanPredicate,
)
    requires
        images_wf(images),
        images_disjoint(images),
    ensures
        snap_prune(images, snap_hits(images, target, pred), target, pred) == snap_hits(
            images,
            target,
            pred,
        ),
{
    lemma_snap_hits_kept_upto(images, images.len() as int, target, pred);
    assert(images.subrange(0, images.len() as int) =~= images);
    lemma_prune_keeps_all(images, snap_hits(images, target, pred), target, pred);
}

/// Every address a full scan finds lies inside an eligible region of the
/// image; ineligible regions contribute no address at all.
pub proof fn lemma_snap_hits_eligible(images: Seq<RegionImage>, target: ScanValue, pred: ScanPredicate)
    requires
        images_wf(images),
    ensures
        forall|k: int|
            0 <= k < snap_hits(images, target, pred).len() ==> in_eligible_region(
                #[trigger] snap_hits(images, target, pred)[k],
                images.map_values(|img: RegionImage| img.region),
            ),
{
    lemma_snap_hits_eligible_upto(images, images.len() as int, target, pred);
    assert(images.subrange(0, images.len() as int) =~= images);
}

proof fn lemma_snap_hits_eligible_upto(
    images: Seq<RegionImage>,
    m: int,
    target: ScanValue,
    pred: ScanPredicate,
)
    requires
        images_wf(images),
        0 <= m <= images.len(),
    ensures
        forall|k: int|
            0 <= k < snap_hits(images.subrange(0, m), target, pred).len() ==> in_eligible_region(
                #[trigger] snap_hits(images.subrange(0, m), target, pred)[k],
                images.map_values(|img: RegionImage| img.region),
            ),
    decreases m,
{
    let regions = images.map_values(|img: RegionImage| img.region);
    if m > 0 {
        lemma_snap_hits_eligible_upto(images, m - 1, target, pred);
        let h = snap_hits(images.subrange(0, m), target, pred);
        let hp = snap_hits(images.subrange(0, m - 1), target, pred);
        assert(images.subrange(0, m).drop_last() =~= images.subrange(0, m - 1));
        assert(images.subrange(0, m).last() == images[m - 1]);
        let img = images[m - 1];
        assert forall|k: int| 0 <= k < h.len() implies in_eligible_region(h[k], regions) by {
            if k < hp.len() {
                assert(h[k] == hp[k]);
            } else {
                assert(img.region.spec_eligible());
                assert(img.wf());
                lemma_hits_upto_range(
                    img.region.start,
                    img.bytes@,
                    target,
                    pred,
                    img.bytes@.len() as int,
                );
                let a = region_hits(img.region.start, img.bytes@, target, pred)[k - hp.len()];
                assert(h[k] == a);
                assert(img.region.start <= a && a < img.region.start + img.bytes@.len());
                assert(regions[m - 1] == img.region);
                assert(regions[m - 1].spec_eligible() && regions[m - 1].spec_contains(a));
            }
        }
    }
}

/// Pruning with the always-true predicate is the identity on any candidate
/// sequence whose windows are all still readable.
pub proof fn lemma_prune_any_identity(images: Seq<RegionImage>, cands: Seq<usize>, target: ScanValue)
    requires
        forall|k: int|
            0 <= k < cands.len() ==> snap_read(
                images,
                #[trigger] cands[k],
                target.spec_width() as nat,
            ) is Some,
    ensures
        snap_prune(images, cands, target, ScanPredicate::Any) == cands,
{
    lemma_prune_keeps_all(images, cands, target, ScanPredicate::Any);
}

} // verus!
