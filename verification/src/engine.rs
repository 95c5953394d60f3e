use vstd::prelude::*;
use crate::errors::MemoryAccessError;
use crate::process::ProcessHandle;
use crate::region::{eligible_regions, in_eligible_region, MemoryRegion};
use crate::scan::{scan_bytes, ScanPredicate};
use crate::snapshot::{candidate_kept, images_disjoint, images_wf, lemma_snap_hits_eligible, lemma_snap_hits_kept, snap_hits, snap_read, RegionImage, Snapshot};
use crate::value::{le_u64_at, ScanValue};
use rayon::iter::{IntoParallelRefIterator, ParallelIterator};

verus! {

/// Which candidate-set operation a scan performs: build the set afresh from
/// all eligible memory, or narrow the existing set by re-testing it.
#[derive(Clone, Copy, PartialEq, Eq, Structural, Debug)]
pub enum ScanType {
    /// Scan every eligible region and replace the candidate set wholesale.
    Initialize,
    /// Re-read only the current candidates and keep the survivors.
    Prune,
}

/// The images a live full scan works from: each one well formed, eligible,
/// and a region of the given snapshot. Which eligible regions appear depends
/// only on which reads succeeded, never on any earlier candidate set.
pub open spec fn images_from(regions: Seq<MemoryRegion>, images: Seq<RegionImage>) -> bool {
    forall|j: int|
        0 <= j < images.len() ==> (#[trigger] images[j]).wf() && images[j].region.spec_eligible()
            && regions.contains(images[j].region)
}

/// Whether one candidate survives a narrowing pass, given what its re-read
/// returned: the read succeeded and the value passes the predicate.
pub open spec fn prune_keep(read: Option<u64>, target: ScanValue, pred: ScanPredicate) -> bool {
    match read {
        Some(v) => pred.spec_holds(target, v as nat),
        None => false,
    }
}

/// The first `n` elements of `b`, masked: element `k` stays exactly when
/// `keep[k]` holds.
pub open spec fn mask_upto(b: Seq<usize>, keep: Seq<bool>, n: int) -> Seq<usize>
    decreases n,
{
    if n <= 0 {
        Seq::empty()
    } else {
        mask_upto(b, keep, n - 1) + if keep[n - 1] {
            seq![b[n - 1]]
        } else {
            Seq::empty()
        }
    }
}

/// `b` masked by `keep`: order and multiplicity preserved, nothing added.
pub open spec fn masked(b: Seq<usize>, keep: Seq<bool>) -> Seq<usize> {
    mask_upto(b, keep, b.len() as int)
}

/// What a narrowing pass leaves, given what each candidate's re-read
/// returned: the old sequence masked by the per-candidate decisions.
pub open spec fn pruned_by(
    cands: Seq<usize>,
    reads: Seq<Option<u64>>,
    target: ScanValue,
    pred: ScanPredicate,
) -> Seq<usize> {
    masked(cands, reads.map_values(|rd: Option<u64>| prune_keep(rd, target, pred)))
}

/// `a` is `b` with some elements removed, in place: a subsequence.
pub open spec fn removal_of(a: Seq<usize>, b: Seq<usize>) -> bool {
    exists|keep: Seq<bool>| keep.len() == b.len() && a == masked(b, keep)
}

/// A mask that keeps everything changes nothing.
proof fn lemma_mask_all_true(b: Seq<usize>, keep: Seq<bool>, n: int)
    requires
        0 <= n <= b.len(),
        n <= keep.len(),
        forall|j: int| 0 <= j < n ==> keep[j],
    ensures
        mask_upto(b, keep, n) == b.subrange(0, n),
    decreases n,
{
    if n > 0 {
        lemma_mask_all_true(b, keep, n - 1);
    }
    assert(mask_upto(b, keep, n) =~= b.subrange(0, n));
}

/// The consistency of a full scan with an immediate narrowing pass, stated
/// over the engine's own contracts: over a static, well-formed, disjoint
/// memory image, when each re-read of the full scan's result returns the
/// value the image holds there, the narrowing pass with the same value and
/// predicate hands the full scan's result back unchanged.
pub proof fn lemma_initialize_then_prune_live(
    images: Seq<RegionImage>,
    reads: Seq<Option<u64>>,
    target: ScanValue,
    pred: ScanPredicate,
)
    requires
        images_wf(images),
        images_disjoint(images),
        reads.len() == snap_hits(images, target, pred).len(),
        forall|k: int|
            0 <= k < reads.len() ==> match #[trigger] reads[k] {
                Some(v) => snap_read(
                    images,
                    snap_hits(images, target, pred)[k],
                    target.spec_width() as nat,
                ) == Some(v as nat),
                None => false,
            },
    ensures
        pruned_by(snap_hits(images, target, pred), reads, target, pred) == snap_hits(
            images,
            target,
            pred,
        ),
{
    let cands = snap_hits(images, target, pred);
    lemma_snap_hits_kept(images, target, pred);
    let keep = reads.map_values(|rd: Option<u64>| prune_keep(rd, target, pred));
    assert forall|j: int| 0 <= j < cands.len() implies keep[j] by {
        assert(candidate_kept(images, cands[j], target, pred));
        assert(keep[j] == prune_keep(reads[j], target, pred));
    }
    lemma_mask_all_true(cands, keep, cands.len() as int);
    assert(cands.subrange(0, cands.len() as int) =~= cands);
}

/// A mask looks only at its first `n` entries.
proof fn lemma_mask_upto_prefix(b: Seq<usize>, k1: Seq<bool>, k2: Seq<bool>, n: int)
    requires
        forall|j: int| 0 <= j < n ==> k1[j] == k2[j],
    ensures
        mask_upto(b, k1, n) == mask_upto(b, k2, n),
    decreases n,
{
    if n > 0 {
        lemma_mask_upto_prefix(b, k1, k2, n - 1);
    }
}

/// Snapshot one region's bytes in a single read. Nothing comes back when the
/// region cannot be read or its end would lie beyond the address space: read
/// failures are expected during scans and are not scan failures.
fn read_region_image(process: &ProcessHandle, region: &MemoryRegion) -> (r: Option<RegionImage>)
    ensures
        r matches Some(img) ==> img.wf() && img.region == *region,
{
    if region.size > usize::MAX - region.start {
        return None;
    }
    match process.read_chunk(region.start, region.size) {
        Some(bytes) => Some(RegionImage { region: *region, bytes }),
        None => None,
    }
}

/// Relies on rayon's parallel iterator: one read task per region, the bytes
/// of the readable regions collected into one list of images.
#[verifier::external_body]
fn par_read_regions(process: &ProcessHandle, regions: &Vec<MemoryRegion>) -> (r: Vec<RegionImage>) {
    regions.par_iter().filter_map(|reg| read_region_image(process, reg)).collect()
}

/// Keep exactly the images that a scan may trust: well formed, of an eligible
/// region of the snapshot. The guarantee of a full scan rests on this
/// verified check, not on the worker pool.
fn keep_valid_images(imgs: Vec<RegionImage>, maps: &Vec<MemoryRegion>) -> (r: Vec<RegionImage>)
    ensures
        r@ == imgs@.filter(
            (|img: RegionImage|
                img.wf() && img.region.spec_eligible() && maps@.contains(img.region)),
        ),
        images_from(maps@, r@),
{
    let ghost pred = |img: RegionImage|
        img.wf() && img.region.spec_eligible() && maps@.contains(img.region);
    let ghost orig = imgs@;
    let mut imgs = imgs;
    let mut r: Vec<RegionImage> = Vec::new();
    let ghost mut processed: Seq<RegionImage> = Seq::empty();
    proof {
        reveal(Seq::filter);
        assert(orig =~= processed + imgs@);
    }
    while imgs.len() > 0
        invariant
            orig == processed + imgs@,
            r@ == processed.filter(pred),
            pred == (|img: RegionImage|
                img.wf() && img.region.spec_eligible() && maps@.contains(img.region)),
            images_from(maps@, r@),
        decreases imgs@.len(),
    {
        let ghost rest = imgs@;
        let img = imgs.remove(0);
        proof {
            reveal(Seq::filter);
            let grown = processed.push(img);
            assert(grown.drop_last() =~= processed);
            assert(orig =~= grown + imgs@) by {
                assert(rest =~= seq![img] + imgs@);
            }
            processed = grown;
        }
        if img.bytes.len() == img.region.size && img.region.size <= usize::MAX - img.region.start
            && img.region.eligible() && contains_region(maps, &img.region) {
            r.push(img);
        } else {
            proof {
                assert(!pred(img));
            }
        }
    }
    proof {
        assert(processed =~= orig);
    }
    r
}

/// Decide membership of a region in the snapshot's list.
fn contains_region(maps: &Vec<MemoryRegion>, region: &MemoryRegion) -> (r: bool)
    ensures
        r == maps@.contains(*region),
{
    let mut j: usize = 0;
    while j < maps.len()
        invariant
            j <= maps@.len(),
            forall|k: int| 0 <= k < j ==> maps@[k] != *region,
        decreases maps@.len() - j,
    {
        if maps[j] == *region {
            return true;
        }
        j = j + 1;
    }
    false
}

/// Every hit of a scan over images drawn from the snapshot lies in an
/// eligible region of the snapshot.
proof fn lemma_hits_in_regions(
    regions: Seq<MemoryRegion>,
    images: Seq<RegionImage>,
    target: ScanValue,
    pred: ScanPredicate,
)
    requires
        images_from(regions, images),
    ensures
        forall|k: int|
            0 <= k < snap_hits(images, target, pred).len() ==> in_eligible_region(
                #[trigger] snap_hits(images, target, pred)[k],
                regions,
            ),
{
    lemma_snap_hits_eligible(images, target, pred);
    let regs = images.map_values(|img: RegionImage| img.region);
    assert forall|k: int| 0 <= k < snap_hits(images, target, pred).len() implies in_eligible_region(
        snap_hits(images, target, pred)[k],
        regions,
    ) by {
        let hit = snap_hits(images, target, pred)[k];
        let j = choose|j: int| 0 <= j < regs.len() && regs[j].spec_eligible() && regs[j].spec_contains(hit);
        assert(regs[j] == images[j].region);
        assert(regions.contains(images[j].region));
        let idx = choose|idx: int| 0 <= idx < regions.len() && regions[idx] == images[j].region;
        assert(regions[idx].spec_eligible() && regions[idx].spec_contains(hit));
    }
}

/// Copy a list of addresses.
fn copy_addrs(v: &Vec<usize>) -> (r: Vec<usize>)
    ensures
        r@ == v@,
{
    let mut r: Vec<usize> = Vec::new();
    let mut i: usize = 0;
    while i < v.len()
        invariant
            i <= v@.len(),
            r@ == v@.subrange(0, i as int),
        decreases v@.len() - i,
    {
        r.push(v[i]);
        proof {
            assert(r@ =~= v@.subrange(0, i + 1));
        }
        i = i + 1;
    }
    proof {
        assert(v@.subrange(0, v@.len() as int) =~= v@);
    }
    r
}

/// The scanning engine's interface: value scans that maintain a candidate
/// set, and a reverse pointer lookup.
pub trait MemoryScanner {
    /// The region snapshot the scanner works against.
    spec fn regions_view(&self) -> Seq<MemoryRegion>;

    /// The current candidate set: the addresses believed to hold the value.
    spec fn candidates_view(&self) -> Seq<usize>;

    /// Scan process memory for a value. `Initialize` discards the candidate
    /// set wholesale and replaces it with exactly the matches found in some
    /// readable eligible images of the snapshot; the previous set plays no
    /// part. `Prune` re-reads only the current candidates and keeps exactly
    /// those whose re-read passed: the old sequence with some elements
    /// removed, never reordered, duplicated or added to. An empty result is a
    /// valid outcome, not an error; individual unreadable addresses are
    /// skipped.
    fn find_values(&mut self, value: &ScanValue, pred: ScanPredicate, scan_type: ScanType) -> (r:
        Result<Vec<usize>, MemoryAccessError>)
        ensures
            r is Ok,
            final(self).regions_view() == old(self).regions_view(),
            r->Ok_0@ == final(self).candidates_view(),
            match scan_type {
                ScanType::Initialize => {
                    &&& exists|images: Seq<RegionImage>| #![auto]
                        images_from(final(self).regions_view(), images)
                            && final(self).candidates_view() == snap_hits(images, *value, pred)
                    &&& forall|k: int|
                        0 <= k < final(self).candidates_view().len() ==> in_eligible_region(
                            #[trigger] final(self).candidates_view()[k],
                            final(self).regions_view(),
                        )
                },
                ScanType::Prune => {
                    &&& exists|reads: Seq<Option<u64>>| #![auto]
                        reads.len() == old(self).candidates_view().len()
                            && final(self).candidates_view() == pruned_by(
                            old(self).candidates_view(),
                            reads,
                            *value,
                            pred,
                        )
                    &&& removal_of(final(self).candidates_view(), old(self).candidates_view())
                    &&& final(self).candidates_view().len() <= old(self).candidates_view().len()
                    &&& forall|k: int|
                        0 <= k < final(self).candidates_view().len() ==> old(
                            self,
                        ).candidates_view().contains(#[trigger] final(self).candidates_view()[k])
                },
            },
    ;

    /// Search eligible memory for stored pointers whose value equals the
    /// given address: one level of reverse-reference lookup, exactly the
    /// native-width matches in some readable eligible images of the snapshot.
    fn find_pointers(&self, address: usize) -> (r: Result<Vec<usize>, MemoryAccessError>)
        ensures
            r is Ok,
            exists|images: Seq<RegionImage>| #![auto]
                images_from(self.regions_view(), images) && r->Ok_0@ == snap_hits(
                    images,
                    ScanValue::U64(address as u64),
                    ScanPredicate::Equal,
                ),
            forall|k: int|
                0 <= k < r->Ok_0@.len() ==> in_eligible_region(
                    #[trigger] r->Ok_0@[k],
                    self.regions_view(),
                ),
    ;
}

/// The engine: one candidate set, scanned against one attached process.
pub struct DefaultScanner {
    /// Process handle to read memory through.
    process: ProcessHandle,
    /// Possible locations which currently hold the target value.
    candidates: Vec<usize>,
}

impl DefaultScanner {
    /// A fresh engine for the given process, with no candidates yet.
    pub fn new(process: ProcessHandle) -> (r: DefaultScanner)
        ensures
            r.regions_view() == process.spec_regions(),
            r.candidates_view() == Seq::<usize>::empty(),
    {
        let r = DefaultScanner { process, candidates: Vec::new() };
        proof {
            assert(r.candidates_view() =~= Seq::<usize>::empty());
        }
        r
    }

    /// The current candidate set, read only.
    pub fn candidates(&self) -> (r: &Vec<usize>)
        ensures
            r@ == self.candidates_view(),
    {
        &self.candidates
    }
}

impl MemoryScanner for DefaultScanner {
    closed spec fn regions_view(&self) -> Seq<MemoryRegion> {
        self.process.spec_regions()
    }

    closed spec fn candidates_view(&self) -> Seq<usize> {
        self.candidates@
    }

    fn find_values(&mut self, value: &ScanValue, pred: ScanPredicate, scan_type: ScanType) -> (r:
        Result<Vec<usize>, MemoryAccessError>) {
        match scan_type {
            ScanType::Initialize => {
                // Parallel workers only read the eligible regions' bytes; the
                // matching itself is the verified snapshot scan, so the exact
                // semantics proved there carries over to whatever was read.
                let elig = eligible_regions(self.process.get_proc_maps());
                let raw = par_read_regions(&self.process, &elig);
                let images = keep_valid_images(raw, self.process.get_proc_maps());
                let snap = Snapshot { images };
                proof {
                    assert(images_wf(snap.images@));
                    lemma_hits_in_regions(self.process.spec_regions(), snap.images@, *value, pred);
                }
                let hits = snap.scan(value, pred);
                self.candidates = hits;
                proof {
                    assert(images_from(self.process.spec_regions(), snap.images@)
                        && self.candidates@ == snap_hits(snap.images@, *value, pred));
                }
            },
            ScanType::Prune => {
                let w = value.width();
                let n = self.candidates.len();
                let mut kept: Vec<usize> = Vec::new();
                let ghost mut reads: Seq<Option<u64>> = Seq::empty();
                let ghost keep_of = |rd: Option<u64>| prune_keep(rd, *value, pred);
                let mut i: usize = 0;
                while i < n
                    invariant
                        i <= n,
                        *self == *old(self),
                        n == self.candidates@.len(),
                        w == value.spec_width(),
                        reads.len() == i,
                        keep_of == (|rd: Option<u64>| prune_keep(rd, *value, pred)),
                        kept@ == mask_upto(self.candidates@, reads.map_values(keep_of), i as int),
                        kept@.len() <= i,
                        forall|k: int|
                            0 <= k < kept@.len() ==> self.candidates@.contains(#[trigger] kept@[k]),
                    decreases n - i,
                {
                    let addr = self.candidates[i];
                    let read = match self.process.read_chunk(addr, w) {
                        Some(bytes) => Some(le_u64_at(&bytes, 0, w)),
                        None => None,
                    };
                    match read {
                        Some(v) => {
                            if pred.holds(value, v) {
                                kept.push(addr);
                            }
                        },
                        None => {},
                    }
                    proof {
                        let prev = reads;
                        reads = reads.push(read);
                        lemma_mask_upto_prefix(
                            self.candidates@,
                            reads.map_values(keep_of),
                            prev.map_values(keep_of),
                            i as int,
                        );
                        assert(reads.map_values(keep_of)[i as int] == keep_of(read));
                    }
                    i = i + 1;
                }
                proof {
                    let keep = reads.map_values(keep_of);
                    let keep2 = reads.map_values(
                        |rd: Option<u64>| prune_keep(rd, *value, pred),
                    );
                    assert(keep2 =~= keep);
                    assert(keep2.len() == old(self).candidates@.len());
                    assert(kept@ == masked(old(self).candidates@, keep2));
                    assert(removal_of(kept@, old(self).candidates@));
                }
                self.candidates = kept;
                proof {
                    assert(reads.len() == old(self).candidates_view().len() && self.candidates@
                        == pruned_by(old(self).candidates_view(), reads, *value, pred));
                }
            },
        }
        Ok(copy_addrs(&self.candidates))
    }

    fn find_pointers(&self, address: usize) -> (r: Result<Vec<usize>, MemoryAccessError>) {
        let target = ScanValue::U64(address as u64);
        let maps = self.process.get_proc_maps();
        let mut out: Vec<usize> = Vec::new();
        let ghost mut images: Seq<RegionImage> = Seq::empty();
        let mut j: usize = 0;
        while j < maps.len()
            invariant
                j <= maps@.len(),
                maps@ == self.process.spec_regions(),
                target == ScanValue::U64(address as u64),
                images_from(maps@, images),
                out@ == snap_hits(images, target, ScanPredicate::Equal),
            decreases maps@.len() - j,
        {
            let region = maps[j];
            if region.eligible() {
                if let Some(img) = read_region_image(&self.process, &region) {
                    let mut hits = scan_bytes(img.region.start, &img.bytes, &target, ScanPredicate::Equal);
                    proof {
                        let grown = images.push(img);
                        assert(grown.drop_last() =~= images);
                        assert(maps@.contains(img.region)) by {
                            assert(maps@[j as int] == img.region);
                        }
                        assert(out@ + hits@ == snap_hits(grown, target, ScanPredicate::Equal));
                        images = grown;
                    }
                    out.append(&mut hits);
                }
            }
            j = j + 1;
        }
        proof {
            lemma_hits_in_regions(
                self.process.spec_regions(),
                images,
                target,
                ScanPredicate::Equal,
            );
            assert(images_from(self.regions_view(), images) && out@ == snap_hits(
                images,
                ScanValue::U64(address as u64),
                ScanPredicate::Equal,
            ));
        }
        Ok(out)
    }
}

} // verus!
