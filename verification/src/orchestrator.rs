use vstd::prelude::*;
use crate::engine::{DefaultScanner, MemoryScanner, ScanType};
use crate::errors::{MemoryAccessError, ValueParseError};
use crate::process::ProcessHandle;
use crate::region::in_eligible_region;
use crate::scan::ScanPredicate;
use crate::value::{all_digits, dec_value, parse_value, ScanValue, ValueKind};

verus! {

/// One recognized word of a screen capture: its bounding box, the recognizer's
/// confidence, and the text read.
pub struct OCRWord {
    pub x1: u32,
    pub y1: u32,
    pub x2: u32,
    pub y2: u32,
    pub confidence: u32,
    pub text: String,
}

impl OCRWord {
    /// The observation the orchestrator consumes: the box and the text, with
    /// the confidence dropped.
    pub fn to_bbox(&self) -> (r: BBoxItem)
        ensures
            r.x1 == self.x1 && r.y1 == self.y1 && r.x2 == self.x2 && r.y2 == self.y2,
            r.text == self.text,
    {
        BBoxItem {
            x1: self.x1,
            y1: self.y1,
            x2: self.x2,
            y2: self.y2,
            text: self.text.clone(),
        }
    }
}

/// One externally observed item: four geometric coordinates and its text.
pub struct BBoxItem {
    pub x1: u32,
    pub y1: u32,
    pub x2: u32,
    pub y2: u32,
    pub text: String,
}

/// A tracked identity: the stable key assigned to a recurring observation,
/// the geometry of its first sighting, and the last text seen for it.
/// Identities are never deleted; a stale one persists for the process
/// lifetime, an accepted limitation.
pub struct TrackedItem {
    pub id: usize,
    pub x1: u32,
    pub y1: u32,
    pub x2: u32,
    pub y2: u32,
    pub text: String,
}

/// The two coordinates differ by at most the tolerance: a symmetric interval
/// test.
pub open spec fn close_to(a: u32, b: u32, t: u32) -> bool {
    (if a >= b {
        a - b
    } else {
        b - a
    }) <= t
}

/// An observation matches a tracked identity when every one of its four
/// coordinates is within the tolerance of the tracked one.
pub open spec fn spec_matches(item: TrackedItem, obs: BBoxItem, t: u32) -> bool {
    &&& close_to(item.x1, obs.x1, t)
    &&& close_to(item.y1, obs.y1, t)
    &&& close_to(item.x2, obs.x2, t)
    &&& close_to(item.y2, obs.y2, t)
}

/// The first tracked identity at or after position `i` that the observation
/// matches.
pub open spec fn first_match_from(items: Seq<TrackedItem>, obs: BBoxItem, t: u32, i: int) -> Option<
    int,
>
    decreases items.len() - i,
{
    if i < 0 || i >= items.len() {
        None
    } else if spec_matches(items[i], obs, t) {
        Some(i)
    } else {
        first_match_from(items, obs, t, i + 1)
    }
}

/// The first tracked identity the observation matches, if any.
pub open spec fn first_match(items: Seq<TrackedItem>, obs: BBoxItem, t: u32) -> Option<int> {
    first_match_from(items, obs, t, 0)
}

/// The tracked item with its text replaced; key and geometry kept.
pub open spec fn retitled(item: TrackedItem, text: String) -> TrackedItem {
    TrackedItem { text, ..item }
}

/// A fresh identity for an observation, under the given key.
pub open spec fn new_tracked(id: usize, obs: BBoxItem) -> TrackedItem {
    TrackedItem { id, x1: obs.x1, y1: obs.y1, x2: obs.x2, y2: obs.y2, text: obs.text }
}

/// The set of tracked identities, with fuzzy geometric matching against new
/// observations.
pub struct BBSet {
    threshold: u32,
    items: Vec<TrackedItem>,
}

impl BBSet {
    /// The matching tolerance.
    pub closed spec fn spec_threshold(&self) -> u32 {
        self.threshold
    }

    /// The tracked identities, in creation order; the key of each is its
    /// position.
    pub closed spec fn spec_items(&self) -> Seq<TrackedItem> {
        self.items@
    }

    /// An empty set with the default tolerance of five units.
    pub fn new() -> (r: BBSet)
        ensures
            r.spec_threshold() == 5,
            r.spec_items() == Seq::<TrackedItem>::empty(),
    {
        let r = BBSet { threshold: 5, items: Vec::new() };
        proof {
            assert(r.spec_items() =~= Seq::<TrackedItem>::empty());
        }
        r
    }

    /// The symmetric interval test the matcher uses: the two values differ by
    /// at most the threshold.
    pub fn within_bound(v1: u32, v2: u32, thresh: u32) -> (r: bool)
        ensures
            r == close_to(v1, v2, thresh),
    {
        if v1 >= v2 {
            v1 - v2 <= thresh
        } else {
            v2 - v1 <= thresh
        }
    }

    fn matches_item(item: &TrackedItem, obs: &BBoxItem, t: u32) -> (r: bool)
        ensures
            r == spec_matches(*item, *obs, t),
    {
        Self::within_bound(item.x1, obs.x1, t) && Self::within_bound(item.y1, obs.y1, t)
            && Self::within_bound(item.x2, obs.x2, t) && Self::within_bound(item.y2, obs.y2, t)
    }

    /// Feed one observation into the set. Against the first identity it
    /// matches: unchanged text is a no-op; changed text updates the identity
    /// in place and asks for a narrowing scan of it. An unmatched observation
    /// becomes a new identity and asks for a full scan. The flag in the
    /// result is true exactly for the narrowing case.
    pub fn add(&mut self, bbox: &BBoxItem) -> (r: Option<(bool, TrackedItem)>)
        ensures
            final(self).spec_threshold() == old(self).spec_threshold(),
            ({
                let t = old(self).spec_threshold();
                let items = old(self).spec_items();
                match first_match(items, *bbox, t) {
                    Some(j) => {
                        if items[j].text@ == bbox.text@ {
                            &&& r is None
                            &&& final(self).spec_items() == items
                        } else {
                            &&& r matches Some((rescan, it)) && rescan == true && it == retitled(
                                items[j],
                                bbox.text,
                            )
                            &&& final(self).spec_items() == items.update(
                                j,
                                retitled(items[j], bbox.text),
                            )
                        }
                    },
                    None => {
                        &&& r matches Some((rescan, it)) && rescan == false && it == new_tracked(
                            items.len() as usize,
                            *bbox,
                        )
                        &&& final(self).spec_items() == items.push(
                            new_tracked(items.len() as usize, *bbox),
                        )
                    },
                }
            }),
    {
        let t = self.threshold;
        let n = self.items.len();
        let mut i: usize = 0;
        while i < n
            invariant
                i <= n,
                *self == *old(self),
                t == self.spec_threshold(),
                n == self.spec_items().len(),
                first_match(self.spec_items(), *bbox, t) == first_match_from(
                    self.spec_items(),
                    *bbox,
                    t,
                    i as int,
                ),
            decreases n - i,
        {
            if Self::matches_item(&self.items[i], bbox, t) {
                if self.items[i].text == bbox.text {
                    return None;
                }
                let id = self.items[i].id;
                let x1 = self.items[i].x1;
                let y1 = self.items[i].y1;
                let x2 = self.items[i].x2;
                let y2 = self.items[i].y2;
                let stored = TrackedItem { id, x1, y1, x2, y2, text: bbox.text.clone() };
                let ret = TrackedItem { id, x1, y1, x2, y2, text: bbox.text.clone() };
                self.items[i] = stored;
                return Some((true, ret));
            }
            i = i + 1;
        }
        let id = self.items.len();
        let stored = TrackedItem {
            id,
            x1: bbox.x1,
            y1: bbox.y1,
            x2: bbox.x2,
            y2: bbox.y2,
            text: bbox.text.clone(),
        };
        let ret = TrackedItem {
            id,
            x1: bbox.x1,
            y1: bbox.y1,
            x2: bbox.x2,
            y2: bbox.y2,
            text: bbox.text.clone(),
        };
        self.items.push(stored);
        Some((false, ret))
    }
}

/// A request for one engine operation on behalf of one identity: fully
/// rebuild its candidate set, or narrow it against the value carried here.
#[derive(Clone, Copy, PartialEq, Eq, Structural, Debug)]
pub struct ScanCommand {
    /// The identity the operation belongs to.
    pub id: usize,
    /// The value to test memory against.
    pub value: ScanValue,
    /// Which engine operation to run.
    pub op: ScanType,
}

/// The ordered channel between the observation loop and the single scan
/// worker: first in, first out, unbounded.
pub struct CommandQueue {
    items: Vec<ScanCommand>,
}

impl CommandQueue {
    /// The queued commands, oldest first.
    pub closed spec fn spec_commands(&self) -> Seq<ScanCommand> {
        self.items@
    }

    /// An empty queue.
    pub fn new() -> (r: CommandQueue)
        ensures
            r.spec_commands() == Seq::<ScanCommand>::empty(),
    {
        let r = CommandQueue { items: Vec::new() };
        proof {
            assert(r.spec_commands() =~= Seq::<ScanCommand>::empty());
        }
        r
    }

    /// How many commands are waiting.
    pub fn len(&self) -> (r: usize)
        ensures
            r == self.spec_commands().len(),
    {
        self.items.len()
    }

    /// Append a command at the back.
    pub fn push(&mut self, cmd: ScanCommand)
        ensures
            final(self).spec_commands() == old(self).spec_commands().push(cmd),
    {
        self.items.push(cmd);
    }

    /// Take the oldest command, if any: commands leave in exactly the order
    /// they were pushed.
    pub fn pop(&mut self) -> (r: Option<ScanCommand>)
        ensures
            old(self).spec_commands().len() == 0 ==> r is None && final(self).spec_commands()
                == old(self).spec_commands(),
            old(self).spec_commands().len() > 0 ==> r == Some(old(self).spec_commands()[0])
                && final(self).spec_commands() == old(self).spec_commands().drop_first(),
    {
        if self.items.len() == 0 {
            None
        } else {
            let cmd = self.items.remove(0);
            proof {
                assert(final(self).spec_commands() =~= old(self).spec_commands().drop_first());
            }
            Some(cmd)
        }
    }
}

/// The observation side of the orchestrator: assigns identities to a stream
/// of observations and queues the engine operation each one calls for, in
/// arrival order. The tracked numeric kind is chosen once, at construction.
pub struct Session {
    kind: ValueKind,
    bbset: BBSet,
    queue: CommandQueue,
}

impl Session {
    /// The numeric kind this session tracks.
    pub closed spec fn spec_kind(&self) -> ValueKind {
        self.kind
    }

    /// The matching tolerance.
    pub closed spec fn spec_threshold(&self) -> u32 {
        self.bbset.spec_threshold()
    }

    /// The tracked identities.
    pub closed spec fn spec_items(&self) -> Seq<TrackedItem> {
        self.bbset.spec_items()
    }

    /// The commands waiting for the worker, oldest first.
    pub closed spec fn spec_queue(&self) -> Seq<ScanCommand> {
        self.queue.spec_commands()
    }

    /// A fresh session tracking values of the given kind.
    pub fn new(kind: ValueKind) -> (r: Session)
        ensures
            r.spec_kind() == kind,
            r.spec_threshold() == 5,
            r.spec_items() == Seq::<TrackedItem>::empty(),
            r.spec_queue() == Seq::<ScanCommand>::empty(),
    {
        Session { kind, bbset: BBSet::new(), queue: CommandQueue::new() }
    }

    /// Consume one observation. Text that does not parse as the tracked kind
    /// drops the observation whole: an error comes back and nothing changes.
    /// Otherwise the first matching identity decides: unchanged text queues
    /// nothing; changed text updates the identity and queues one narrowing
    /// command; no match creates an identity and queues one full scan. The
    /// queued command, if any, is also returned.
    pub fn observe(&mut self, bbox: &BBoxItem) -> (r: Result<Option<ScanCommand>, ValueParseError>)
        ensures
            r is Err ==> *final(self) == *old(self),
            bbox.text@.len() == 0 <==> r == Err::<Option<ScanCommand>, ValueParseError>(
                ValueParseError::Empty,
            ),
            (bbox.text@.len() > 0 && !all_digits(bbox.text@)) <==> r == Err::<
                Option<ScanCommand>,
                ValueParseError,
            >(ValueParseError::InvalidDigit),
            (bbox.text@.len() > 0 && all_digits(bbox.text@) && dec_value(bbox.text@) > old(
                self,
            ).spec_kind().spec_max()) <==> r == Err::<Option<ScanCommand>, ValueParseError>(
                ValueParseError::Overflow,
            ),
            final(self).spec_kind() == old(self).spec_kind(),
            final(self).spec_threshold() == old(self).spec_threshold(),
            r is Ok ==> ({
                let t = old(self).spec_threshold();
                let items = old(self).spec_items();
                match first_match(items, *bbox, t) {
                    Some(j) => {
                        if items[j].text@ == bbox.text@ {
                            &&& r == Ok::<Option<ScanCommand>, ValueParseError>(None)
                            &&& final(self).spec_items() == items
                            &&& final(self).spec_queue() == old(self).spec_queue()
                        } else {
                            &&& r->Ok_0 matches Some(cmd) && cmd.op == ScanType::Prune && cmd.id
                                == items[j].id && cmd.value.spec_kind() == old(self).spec_kind()
                                && cmd.value.spec_as_u64() == dec_value(bbox.text@)
                            &&& final(self).spec_items() == items.update(
                                j,
                                retitled(items[j], bbox.text),
                            )
                            &&& final(self).spec_queue() == old(self).spec_queue().push(
                                r->Ok_0->0,
                            )
                        }
                    },
                    None => {
                        &&& r->Ok_0 matches Some(cmd) && cmd.op == ScanType::Initialize && cmd.id
                            == items.len() as usize && cmd.value.spec_kind() == old(
                            self,
                        ).spec_kind() && cmd.value.spec_as_u64() == dec_value(bbox.text@)
                        &&& final(self).spec_items() == items.push(
                            new_tracked(items.len() as usize, *bbox),
                        )
                        &&& final(self).spec_queue() == old(self).spec_queue().push(r->Ok_0->0)
                    },
                }
            }),
    {
        let value = match parse_value(&bbox.text, self.kind) {
            Ok(v) => v,
            Err(e) => {
                return Err(e);
            },
        };
        match self.bbset.add(bbox) {
            Some((rescan, item)) => {
                let cmd = ScanCommand {
                    id: item.id,
                    value,
                    op: if rescan {
                        ScanType::Prune
                    } else {
                        ScanType::Initialize
                    },
                };
                self.queue.push(cmd);
                Ok(Some(cmd))
            },
            None => Ok(None),
        }
    }

    /// Hand the worker the oldest queued command, in exactly submission
    /// order.
    pub fn next_command(&mut self) -> (r: Option<ScanCommand>)
        ensures
            final(self).spec_kind() == old(self).spec_kind(),
            final(self).spec_threshold() == old(self).spec_threshold(),
            final(self).spec_items() == old(self).spec_items(),
            old(self).spec_queue().len() == 0 ==> r is None && final(self).spec_queue()
                == old(self).spec_queue(),
            old(self).spec_queue().len() > 0 ==> r == Some(old(self).spec_queue()[0])
                && final(self).spec_queue() == old(self).spec_queue().drop_first(),
    {
        self.queue.pop()
    }
}

/// The single consumer of scan commands: it owns one engine per identity and
/// runs exactly one engine operation per dequeued command, so at most one
/// scan is ever in flight.
pub struct ScanWorker {
    process: ProcessHandle,
    scanners: Vec<DefaultScanner>,
}

impl ScanWorker {
    /// The process every engine of this worker scans.
    pub closed spec fn spec_process(&self) -> ProcessHandle {
        self.process
    }

    /// The engines, one per identity key.
    pub closed spec fn spec_scanners(&self) -> Seq<DefaultScanner> {
        self.scanners@
    }

    /// A worker for the given process, with no engines yet.
    pub fn new(process: ProcessHandle) -> (r: ScanWorker)
        ensures
            r.spec_process() == process,
            r.spec_scanners() == Seq::<DefaultScanner>::empty(),
    {
        let r = ScanWorker { process, scanners: Vec::new() };
        proof {
            assert(r.spec_scanners() =~= Seq::<DefaultScanner>::empty());
        }
        r
    }

    /// Run the one engine operation a command asks for, against the engine
    /// of the command's identity; an engine is created on first use. A full
    /// scan leaves only addresses inside eligible regions; a narrowing scan
    /// never grows the identity's candidate set. The candidate set after the
    /// operation comes back.
    pub fn execute(&mut self, cmd: &ScanCommand) -> (r: Result<Vec<usize>, MemoryAccessError>)
        ensures
            r is Ok,
            final(self).spec_process() == old(self).spec_process(),
            cmd.id < final(self).spec_scanners().len(),
            final(self).spec_scanners().len() == if old(self).spec_scanners().len() > cmd.id {
                old(self).spec_scanners().len() as int
            } else {
                cmd.id + 1
            },
            forall|k: int|
                0 <= k < final(self).spec_scanners().len() && k != cmd.id && k < old(
                    self,
                ).spec_scanners().len() ==> final(self).spec_scanners()[k] == old(
                    self,
                ).spec_scanners()[k],
            r->Ok_0@ == final(self).spec_scanners()[cmd.id as int].candidates_view(),
            cmd.id < old(self).spec_scanners().len() ==> final(self).spec_scanners()[cmd.id as int].regions_view()
                == old(self).spec_scanners()[cmd.id as int].regions_view(),
            cmd.id >= old(self).spec_scanners().len() ==> final(self).spec_scanners()[cmd.id as int].regions_view()
                == old(self).spec_process().spec_regions(),
            cmd.op == ScanType::Initialize ==> forall|k: int|
                0 <= k < r->Ok_0@.len() ==> in_eligible_region(
                    #[trigger] r->Ok_0@[k],
                    final(self).spec_scanners()[cmd.id as int].regions_view(),
                ),
            cmd.op == ScanType::Prune && cmd.id < old(self).spec_scanners().len() ==> r->Ok_0@.len()
                <= old(self).spec_scanners()[cmd.id as int].candidates_view().len() && forall|
                k: int,
            |
                0 <= k < r->Ok_0@.len() ==> old(self).spec_scanners()[cmd.id as int].candidates_view().contains(
                    #[trigger] r->Ok_0@[k],
                ),
            cmd.op == ScanType::Prune && cmd.id >= old(self).spec_scanners().len()
                ==> r->Ok_0@.len() == 0,
    {
        while self.scanners.len() <= cmd.id
            invariant
                self.process == old(self).process,
                self.scanners@.len() >= old(self).scanners@.len(),
                forall|k: int|
                    0 <= k < old(self).scanners@.len() ==> self.scanners@[k] == old(
                        self,
                    ).scanners@[k],
                forall|k: int|
                    old(self).scanners@.len() <= k < self.scanners@.len() ==> (
                    #[trigger] self.scanners@[k]).candidates_view().len() == 0,
                forall|k: int|
                    old(self).scanners@.len() <= k < self.scanners@.len() ==> (
                    #[trigger] self.scanners@[k]).regions_view() == old(
                        self,
                    ).process.spec_regions(),
                old(self).scanners@.len() > cmd.id ==> self.scanners@.len() == old(
                    self,
                ).scanners@.len(),
                old(self).scanners@.len() <= cmd.id ==> self.scanners@.len() <= cmd.id + 1,
            decreases cmd.id + 1 - self.scanners.len(),
        {
            let scanner = DefaultScanner::new(self.process.duplicate());
            self.scanners.push(scanner);
        }
        let mut scanner = self.scanners.remove(cmd.id);
        let result = match cmd.op {
            ScanType::Initialize => scanner.find_values(
                &cmd.value,
                ScanPredicate::Equal,
                ScanType::Initialize,
            ),
            ScanType::Prune => scanner.find_values(
                &cmd.value,
                ScanPredicate::Equal,
                ScanType::Prune,
            ),
        };
        self.scanners.insert(cmd.id, scanner);
        result
    }
}

/// Two commands pushed back to back stand behind everything already queued,
/// in submission order: with the queue drained element by element from the
/// front, the first of them leaves before the second.
pub proof fn lemma_queue_fifo(q: Seq<ScanCommand>, a: ScanCommand, b: ScanCommand)
    ensures
        q.push(a).push(b).len() == q.len() + 2,
        q.push(a).push(b)[q.len() as int] == a,
        q.push(a).push(b)[q.len() as int + 1] == b,
        q.push(a).push(b).skip(q.len() as int) =~= seq![a, b],
{
}

} // verus!
