use vulture::engine::ScanType;
use vulture::errors::ValueParseError;
use vulture::orchestrator::{BBoxItem, BBSet, CommandQueue, OCRWord, ScanCommand, Session};
use vulture::value::{ScanValue, ValueKind};

fn obs(x1: u32, y1: u32, x2: u32, y2: u32, text: &str) -> BBoxItem {
    BBoxItem { x1, y1, x2, y2, text: text.to_string() }
}

#[test]
fn within_bound_is_a_symmetric_interval() {
    assert!(BBSet::within_bound(10, 15, 5));
    assert!(BBSet::within_bound(15, 10, 5));
    assert!(!BBSet::within_bound(10, 16, 5));
    assert!(!BBSet::within_bound(16, 10, 5));
    assert!(BBSet::within_bound(7, 7, 0));
}

#[test]
fn identity_matching_scenario() {
    // Tolerance 5. A establishes identity I with value "7"; B matches I with
    // unchanged text; C matches I with new text "9"; D is out of tolerance.
    let mut session = Session::new(ValueKind::U64);

    let a = session.observe(&obs(10, 10, 50, 50, "7")).unwrap();
    let cmd_a = a.expect("first observation must queue a full scan");
    assert_eq!(cmd_a.op, ScanType::Initialize);
    assert_eq!(cmd_a.id, 0);
    assert_eq!(cmd_a.value, ScanValue::U64(7));

    let b = session.observe(&obs(12, 11, 49, 53, "7")).unwrap();
    assert!(b.is_none(), "a matched observation with unchanged text queues nothing");

    let c = session.observe(&obs(12, 11, 49, 53, "9")).unwrap();
    let cmd_c = c.expect("changed text must queue a narrowing scan");
    assert_eq!(cmd_c.op, ScanType::Prune);
    assert_eq!(cmd_c.id, 0);
    assert_eq!(cmd_c.value, ScanValue::U64(9));

    let d = session.observe(&obs(40, 40, 90, 90, "7")).unwrap();
    let cmd_d = d.expect("an unmatched observation must create an identity and a full scan");
    assert_eq!(cmd_d.op, ScanType::Initialize);
    assert_eq!(cmd_d.id, 1);
    assert_eq!(cmd_d.value, ScanValue::U64(7));
}

#[test]
fn bbset_matches_first_identity_and_updates_text() {
    let mut set = BBSet::new();
    let first = set.add(&obs(10, 10, 50, 50, "7")).expect("new identity");
    assert_eq!(first.0, false);
    assert_eq!(first.1.id, 0);
    assert_eq!(first.1.text, "7");

    // Unchanged text within tolerance: no action.
    assert!(set.add(&obs(11, 12, 52, 48, "7")).is_none());

    // Changed text within tolerance: narrowing action, geometry kept.
    let updated = set.add(&obs(11, 12, 52, 48, "21")).expect("update");
    assert_eq!(updated.0, true);
    assert_eq!(updated.1.id, 0);
    assert_eq!(updated.1.text, "21");
    assert_eq!((updated.1.x1, updated.1.y1, updated.1.x2, updated.1.y2), (10, 10, 50, 50));
}

#[test]
fn commands_leave_the_queue_in_submission_order() {
    // Two commands queued back to back, for distinct identities, come out in
    // exactly the order they went in.
    let mut session = Session::new(ValueKind::U32);
    let first = session.observe(&obs(0, 0, 10, 10, "1")).unwrap().unwrap();
    let second = session.observe(&obs(100, 100, 150, 150, "2")).unwrap().unwrap();
    assert_eq!(session.next_command(), Some(first));
    assert_eq!(session.next_command(), Some(second));
    assert_eq!(session.next_command(), None);
}

#[test]
fn queue_is_fifo() {
    let mut q = CommandQueue::new();
    assert_eq!(q.len(), 0);
    assert_eq!(q.pop(), None);
    let a = ScanCommand { id: 0, value: ScanValue::U32(4), op: ScanType::Initialize };
    let b = ScanCommand { id: 1, value: ScanValue::U32(9), op: ScanType::Prune };
    q.push(a);
    q.push(b);
    assert_eq!(q.len(), 2);
    assert_eq!(q.pop(), Some(a));
    assert_eq!(q.pop(), Some(b));
    assert_eq!(q.pop(), None);
}

#[test]
fn unparseable_observation_is_dropped_whole() {
    let mut session = Session::new(ValueKind::U64);
    assert_eq!(session.observe(&obs(10, 10, 50, 50, "health")), Err(ValueParseError::InvalidDigit));
    assert_eq!(session.observe(&obs(10, 10, 50, 50, "")), Err(ValueParseError::Empty));
    assert_eq!(session.next_command(), None, "a dropped observation queues nothing");

    // No identity was created either: the same box now gets key 0.
    let cmd = session.observe(&obs(10, 10, 50, 50, "7")).unwrap().unwrap();
    assert_eq!(cmd.id, 0);
    assert_eq!(cmd.op, ScanType::Initialize);
}

#[test]
fn overflow_for_the_tracked_kind_is_rejected() {
    let mut session = Session::new(ValueKind::U8);
    assert_eq!(session.observe(&obs(0, 0, 1, 1, "256")), Err(ValueParseError::Overflow));
    let ok = session.observe(&obs(0, 0, 1, 1, "255")).unwrap().unwrap();
    assert_eq!(ok.value, ScanValue::U8(255));
}

#[test]
fn ocr_word_drops_confidence() {
    let word = OCRWord { x1: 1, y1: 2, x2: 3, y2: 4, confidence: 95, text: "42".to_string() };
    let bbox = word.to_bbox();
    assert_eq!((bbox.x1, bbox.y1, bbox.x2, bbox.y2), (1, 2, 3, 4));
    assert_eq!(bbox.text, "42");
}
