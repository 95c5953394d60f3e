//! A live-memory scanning engine: attach to a running process, discover the
//! addresses that currently hold a sought value, narrow that candidate set
//! through further observations, and find pointers that reference a known
//! address. A small orchestration layer turns a stream of observed screen
//! items into stable identities and into the scan commands that drive the
//! engine, one at a time.

pub mod engine;
pub mod errors;
pub mod hocr;
pub mod orchestrator;
pub mod process;
pub mod region;
pub mod scan;
pub mod snapshot;
pub mod value;

pub use engine::{DefaultScanner, MemoryScanner, ScanType};
pub use orchestrator::{BBoxItem, BBSet, CommandQueue, OCRWord, ScanCommand, ScanWorker, Session, TrackedItem};
pub use process::ProcessHandle;
pub use region::MemoryRegion;
