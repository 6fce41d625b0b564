//! How far each pass has got, counted as it goes and read by whoever
//! watches it; and the word that asks a pass to stop.
//!
//! The counters are shared with the threads that move them, so what a
//! snapshot reads depends on when it is taken: nothing is promised of the
//! numbers beyond their being what the counters held.
use vstd::prelude::*;

use std::sync::atomic::{AtomicBool, AtomicU64};

use crate::reference::LookupOp;

verus! {

/// The passes that walk or change the catalog.
#[derive(Clone, Copy, Debug, PartialEq, Eq, Structural, Hash)]
pub enum PassKind {
    Scan,
    Enrich,
    Poll,
    Organise,
    Retag,
    Import,
}

/// What a running pass can be asked: to stop.
pub trait Cancelling {
    fn cancel(&self);
}

/// What an enrichment has done so far.
#[derive(Clone, Copy, Debug, Default, PartialEq, Eq, Structural)]
pub struct EnrichStats {
    pub albums: u64,
    pub releases: u64,
    pub matched: u64,
    pub covers: u64,
    pub tracks: u64,
    pub named: u64,
    pub artists: u64,
    pub portraits: u64,
    pub releases_found: u64,
    pub refused: u64,
    pub studied: u64,
    pub fakes: u64,
    pub recognised: u64,
    pub misnamed: u64,
}

/// The counters of a running enrichment.
#[derive(Debug, Default)]
pub struct EnrichProgress {
    albums: AtomicU64,
    releases: AtomicU64,
    matched: AtomicU64,
    covers: AtomicU64,
    tracks: AtomicU64,
    named: AtomicU64,
    artists: AtomicU64,
    portraits: AtomicU64,
    releases_found: AtomicU64,
    refused: AtomicU64,
    studied: AtomicU64,
    fakes: AtomicU64,
    recognised: AtomicU64,
    misnamed: AtomicU64,
    cancelled: AtomicBool,
}

impl EnrichProgress {
    /// What the counters hold now. They are moved by the threads that do
    /// the work while they are read, so nothing is promised of the numbers
    /// beyond their being what each counter held when it was read.
    pub fn snapshot(&self) -> EnrichStats {
        EnrichStats {
            albums: self.albums.load(std::sync::atomic::Ordering::Relaxed),
            releases: self.releases.load(std::sync::atomic::Ordering::Relaxed),
            matched: self.matched.load(std::sync::atomic::Ordering::Relaxed),
            covers: self.covers.load(std::sync::atomic::Ordering::Relaxed),
            tracks: self.tracks.load(std::sync::atomic::Ordering::Relaxed),
            named: self.named.load(std::sync::atomic::Ordering::Relaxed),
            artists: self.artists.load(std::sync::atomic::Ordering::Relaxed),
            portraits: self.portraits.load(std::sync::atomic::Ordering::Relaxed),
            releases_found: self.releases_found.load(std::sync::atomic::Ordering::Relaxed),
            refused: self.refused.load(std::sync::atomic::Ordering::Relaxed),
            studied: self.studied.load(std::sync::atomic::Ordering::Relaxed),
            fakes: self.fakes.load(std::sync::atomic::Ordering::Relaxed),
            recognised: self.recognised.load(std::sync::atomic::Ordering::Relaxed),
            misnamed: self.misnamed.load(std::sync::atomic::Ordering::Relaxed),
        }
    }

    /// Asks the enrichment to stop.
    pub fn cancel(&self) {
        self.cancelled.store(true, std::sync::atomic::Ordering::Relaxed);
    }

    /// Whether the enrichment has been asked to stop.
    /// The flag is shared with whoever asks the pass to stop, from another
    /// thread as likely as not, so a reading says what the flag held when it
    /// was taken; nothing is promised of it beyond that.
    pub fn is_cancelled(&self) -> bool {
        self.cancelled.load(std::sync::atomic::Ordering::Relaxed)
    }

    /// Counts a request the reference refused.
    pub fn refuse(&self) {
        self.refused.fetch_add(1, std::sync::atomic::Ordering::Relaxed);
    }

    /// Counts a file whose audio was studied, and whether it was found to
    /// be a fake.
    pub fn note_studied(&self, fake: bool) {
        self.studied.fetch_add(1, std::sync::atomic::Ordering::Relaxed);
        if fake {
            self.fakes.fetch_add(1, std::sync::atomic::Ordering::Relaxed);
        }
    }

    /// Counts a file its fingerprint recognised, and whether what it was
    /// recognised as disagrees with what it is named.
    pub fn note_recognised(&self, disagrees: bool) {
        self.recognised.fetch_add(1, std::sync::atomic::Ordering::Relaxed);
        if disagrees {
            self.misnamed.fetch_add(1, std::sync::atomic::Ordering::Relaxed);
        }
    }
}

impl Cancelling for EnrichProgress {
    fn cancel(&self) {
        EnrichProgress::cancel(self);
    }
}

/// How an enrichment ended.
#[derive(Clone, Copy, Debug, Default, PartialEq, Eq)]
pub struct EnrichSummary {
    pub stats: EnrichStats,
    pub cancelled: bool,
    pub stopped_by: Option<LookupOp>,
}

/// How the walk of an enrichment through its queue came out.
#[derive(Clone, Copy, Debug, PartialEq, Eq, Structural)]
pub enum PassOutcome {
    /// It ran to its end, or stopped when cancelled.
    Ran,
    /// The reference could not be reached while it was asked this.
    Unreachable(LookupOp),
    /// Another fault ended it.
    Failed,
}

/// Why an enrichment ended.
#[derive(Clone, Copy, Debug, PartialEq, Eq, Structural)]
pub enum Ending {
    /// It went through all it had to ask, or was cancelled.
    Finished,
    /// The reference could not be reached, and the pass ended there.
    StoppedBy(LookupOp),
    /// A fault ended it, and it answers with that fault.
    Failed,
}

/// Why an enrichment ended, from how its walk came out.
pub open spec fn ending_of(outcome: PassOutcome) -> Ending {
    match outcome {
        PassOutcome::Ran => Ending::Finished,
        PassOutcome::Unreachable(op) => Ending::StoppedBy(op),
        PassOutcome::Failed => Ending::Failed,
    }
}

/// Why an enrichment ended, as [`ending_of`] reads.
pub fn ending(outcome: PassOutcome) -> (r: Ending)
    ensures
        r == ending_of(outcome),
{
    match outcome {
        PassOutcome::Ran => Ending::Finished,
        PassOutcome::Unreachable(op) => Ending::StoppedBy(op),
        PassOutcome::Failed => Ending::Failed,
    }
}

impl Ending {
    /// Whether the catalog notes the enrichment finished: only where the
    /// reference was not lost and no fault ended it.
    pub fn notes_finished(self) -> (r: bool)
        ensures
            r == (self == Ending::Finished),
    {
        match self {
            Ending::Finished => true,
            _ => false,
        }
    }

    /// What the enrichment answers: its counts, whether it was cancelled,
    /// and the lookup the reference was lost on; nothing where a fault
    /// ended it, which is answered instead.
    pub fn summary(self, stats: EnrichStats, cancelled: bool) -> (r: Option<EnrichSummary>)
        ensures
            r == match self {
                Ending::Finished => Some(EnrichSummary { stats, cancelled, stopped_by: None }),
                Ending::StoppedBy(op) => Some(
                    EnrichSummary { stats, cancelled, stopped_by: Some(op) },
                ),
                Ending::Failed => None::<EnrichSummary>,
            },
    {
        match self {
            Ending::Finished => Some(EnrichSummary { stats, cancelled, stopped_by: None }),
            Ending::StoppedBy(op) => Some(EnrichSummary { stats, cancelled, stopped_by: Some(op) }),
            Ending::Failed => None,
        }
    }
}

/// What an organising pass has done so far.
#[derive(Clone, Copy, Debug, Default, PartialEq, Eq, Structural)]
pub struct OrganiseStats {
    pub moved: u64,
    pub unchanged: u64,
    pub unidentified: u64,
    pub collided: u64,
    pub failed: u64,
    pub pruned: u64,
}

/// The counters of a running organising pass.
#[derive(Debug, Default)]
pub struct OrganiseProgress {
    moved: AtomicU64,
    unchanged: AtomicU64,
    unidentified: AtomicU64,
    collided: AtomicU64,
    failed: AtomicU64,
    pruned: AtomicU64,
    cancelled: AtomicBool,
}

impl OrganiseProgress {
    /// What the counters hold now. They are moved by the threads that do
    /// the work while they are read, so nothing is promised of the numbers
    /// beyond their being what each counter held when it was read.
    pub fn snapshot(&self) -> OrganiseStats {
        OrganiseStats {
            moved: self.moved.load(std::sync::atomic::Ordering::Relaxed),
            unchanged: self.unchanged.load(std::sync::atomic::Ordering::Relaxed),
            unidentified: self.unidentified.load(std::sync::atomic::Ordering::Relaxed),
            collided: self.collided.load(std::sync::atomic::Ordering::Relaxed),
            failed: self.failed.load(std::sync::atomic::Ordering::Relaxed),
            pruned: self.pruned.load(std::sync::atomic::Ordering::Relaxed),
        }
    }

    /// Asks the pass to stop.
    pub fn cancel(&self) {
        self.cancelled.store(true, std::sync::atomic::Ordering::Relaxed);
    }

    /// Whether the pass has been asked to stop.
    /// The flag is shared with whoever asks the pass to stop, from another
    /// thread as likely as not, so a reading says what the flag held when it
    /// was taken; nothing is promised of it beyond that.
    pub fn is_cancelled(&self) -> bool {
        self.cancelled.load(std::sync::atomic::Ordering::Relaxed)
    }

    /// Counts tracks left where they are because the layout names no place
    /// for them, or no folder.
    pub fn count_unidentified(&self, tracks: u64) {
        self.unidentified.fetch_add(tracks, std::sync::atomic::Ordering::Relaxed);
    }

    /// Counts tracks left where they are because another file holds, or is
    /// bound to, where they would go.
    pub fn count_collided(&self, tracks: u64) {
        self.collided.fetch_add(tracks, std::sync::atomic::Ordering::Relaxed);
    }

    /// Counts tracks that could not be moved.
    pub fn count_failed(&self, tracks: u64) {
        self.failed.fetch_add(tracks, std::sync::atomic::Ordering::Relaxed);
    }

    /// Counts tracks already where the layout puts them.
    pub fn count_unchanged(&self, tracks: u64) {
        self.unchanged.fetch_add(tracks, std::sync::atomic::Ordering::Relaxed);
    }

    /// Counts tracks moved.
    pub fn count_moved(&self, tracks: u64) {
        self.moved.fetch_add(tracks, std::sync::atomic::Ordering::Relaxed);
    }

    /// Counts folders taken away once they were emptied.
    pub fn count_pruned(&self, folders: u64) {
        self.pruned.fetch_add(folders, std::sync::atomic::Ordering::Relaxed);
    }
}

impl Cancelling for OrganiseProgress {
    fn cancel(&self) {
        OrganiseProgress::cancel(self);
    }
}

/// What an import into the vault has done so far.
#[derive(Clone, Copy, Debug, Default, PartialEq, Eq, Structural)]
pub struct ImportStats {
    pub walked: u64,
    pub vaulted: u64,
    pub deduped: u64,
    pub covers: u64,
    pub covers_passed: u64,
    pub passed: u64,
    pub was_bytes: u64,
    pub bytes: u64,
}

impl ImportStats {
    /// The bytes the import saved: what the files held less what the vault
    /// holds of them, or none where it holds more.
    pub fn saved(&self) -> (r: u64)
        ensures
            r == if self.was_bytes >= self.bytes {
                self.was_bytes - self.bytes
            } else {
                0
            },
    {
        self.was_bytes.saturating_sub(self.bytes)
    }
}

/// The counters of a running import.
#[derive(Debug, Default)]
pub struct ImportProgress {
    walked: AtomicU64,
    vaulted: AtomicU64,
    deduped: AtomicU64,
    covers: AtomicU64,
    covers_passed: AtomicU64,
    passed: AtomicU64,
    was_bytes: AtomicU64,
    bytes: AtomicU64,
    cancelled: AtomicBool,
}

impl ImportProgress {
    /// What the counters hold now. They are moved by the threads that do
    /// the work while they are read, so nothing is promised of the numbers
    /// beyond their being what each counter held when it was read.
    pub fn snapshot(&self) -> ImportStats {
        ImportStats {
            walked: self.walked.load(std::sync::atomic::Ordering::Relaxed),
            vaulted: self.vaulted.load(std::sync::atomic::Ordering::Relaxed),
            deduped: self.deduped.load(std::sync::atomic::Ordering::Relaxed),
            covers: self.covers.load(std::sync::atomic::Ordering::Relaxed),
            covers_passed: self.covers_passed.load(std::sync::atomic::Ordering::Relaxed),
            passed: self.passed.load(std::sync::atomic::Ordering::Relaxed),
            was_bytes: self.was_bytes.load(std::sync::atomic::Ordering::Relaxed),
            bytes: self.bytes.load(std::sync::atomic::Ordering::Relaxed),
        }
    }

    /// Asks the import to stop.
    pub fn cancel(&self) {
        self.cancelled.store(true, std::sync::atomic::Ordering::Relaxed);
    }

    /// Whether the import has been asked to stop.
    /// The flag is shared with whoever asks the pass to stop, from another
    /// thread as likely as not, so a reading says what the flag held when it
    /// was taken; nothing is promised of it beyond that.
    pub fn is_cancelled(&self) -> bool {
        self.cancelled.load(std::sync::atomic::Ordering::Relaxed)
    }
}

impl Cancelling for ImportProgress {
    fn cancel(&self) {
        ImportProgress::cancel(self);
    }
}

/// What a retagging pass has done so far.
#[derive(Clone, Copy, Debug, Default, PartialEq, Eq, Structural)]
pub struct RetagStats {
    pub walked: u64,
    pub written: u64,
    pub fields: u64,
    pub pictures: u64,
    pub unchanged: u64,
    pub passed_over: u64,
}

/// The counters of a running retagging pass.
#[derive(Debug, Default)]
pub struct RetagProgress {
    walked: AtomicU64,
    written: AtomicU64,
    fields: AtomicU64,
    pictures: AtomicU64,
    unchanged: AtomicU64,
    passed_over: AtomicU64,
    cancelled: AtomicBool,
}

impl RetagProgress {
    /// What the counters hold now. They are moved by the threads that do
    /// the work while they are read, so nothing is promised of the numbers
    /// beyond their being what each counter held when it was read.
    pub fn snapshot(&self) -> RetagStats {
        RetagStats {
            walked: self.walked.load(std::sync::atomic::Ordering::Relaxed),
            written: self.written.load(std::sync::atomic::Ordering::Relaxed),
            fields: self.fields.load(std::sync::atomic::Ordering::Relaxed),
            pictures: self.pictures.load(std::sync::atomic::Ordering::Relaxed),
            unchanged: self.unchanged.load(std::sync::atomic::Ordering::Relaxed),
            passed_over: self.passed_over.load(std::sync::atomic::Ordering::Relaxed),
        }
    }

    /// Asks the pass to stop.
    pub fn cancel(&self) {
        self.cancelled.store(true, std::sync::atomic::Ordering::Relaxed);
    }

    /// Whether the pass has been asked to stop.
    /// The flag is shared with whoever asks the pass to stop, from another
    /// thread as likely as not, so a reading says what the flag held when it
    /// was taken; nothing is promised of it beyond that.
    pub fn is_cancelled(&self) -> bool {
        self.cancelled.load(std::sync::atomic::Ordering::Relaxed)
    }

    /// Counts one more of what a counter counts.
    pub fn step(counter: &AtomicU64) {
        counter.fetch_add(1, std::sync::atomic::Ordering::Relaxed);
    }

    /// Counts a file passed over.
    pub fn pass_over(&self) {
        RetagProgress::step(&self.passed_over);
    }
}

impl Cancelling for RetagProgress {
    fn cancel(&self) {
        RetagProgress::cancel(self);
    }
}

} // verus!
