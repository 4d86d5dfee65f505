//! The seam a test drives the server's failure paths through.
//!
//! The faults are a value. A server holds one, the binary holds an inert one,
//! and a simulation holds the one it is currently driving, which is what lets a
//! seeded schedule pick a fault per step and replay it exactly.
use vstd::prelude::*;
use vstd::string::*;

use crate::order::copied;

verus! {

/// A point in the publish path where a test may cut the server off.
///
/// The list is the whole path, not a sample of it: a publish writes the WAL
/// entry, compare-and-swaps the index, applies the operation locally, records
/// the metadata, and finally publishes whatever head set the reconcile derived.
/// A crash sits between each pair, so five windows name every gap there is.
#[derive(Debug, Clone, Copy, PartialEq, Eq, Hash, PartialOrd, Ord, Structural)]
pub enum CrashWindow {
    /// Nothing is durable yet.
    BeforeWalWrite,
    /// The WAL entry is in the bucket; the index still names the old heads.
    AfterWalWrite,
    /// The index committed; the local repo has not applied the operation.
    AfterIndexWrite,
    /// The operation is a local head; the metadata still holds the old version.
    AfterLocalApply,
    /// Everything but the derived head set is recorded.
    AfterMetadataWrite,
}

impl CrashWindow {
    /// Every window, in publish order.
    pub fn all() -> (r: Vec<CrashWindow>)
        ensures
            r@ == seq![
                CrashWindow::BeforeWalWrite,
                CrashWindow::AfterWalWrite,
                CrashWindow::AfterIndexWrite,
                CrashWindow::AfterLocalApply,
                CrashWindow::AfterMetadataWrite,
            ],
            forall|w: CrashWindow| r@.contains(w),
    {
        let r = vec![
            CrashWindow::BeforeWalWrite,
            CrashWindow::AfterWalWrite,
            CrashWindow::AfterIndexWrite,
            CrashWindow::AfterLocalApply,
            CrashWindow::AfterMetadataWrite,
        ];
        proof {
            assert forall|w: CrashWindow| r@.contains(w) by {
                let i: int = match w {
                    CrashWindow::BeforeWalWrite => 0,
                    CrashWindow::AfterWalWrite => 1,
                    CrashWindow::AfterIndexWrite => 2,
                    CrashWindow::AfterLocalApply => 3,
                    CrashWindow::AfterMetadataWrite => 4,
                };
                assert(r@[i] == w);
            }
        }
        r
    }

    pub open spec fn word(self) -> Seq<char> {
        match self {
            CrashWindow::BeforeWalWrite => "before-wal-write"@,
            CrashWindow::AfterWalWrite => "after-wal-write"@,
            CrashWindow::AfterIndexWrite => "after-index-write"@,
            CrashWindow::AfterLocalApply => "after-local-apply"@,
            CrashWindow::AfterMetadataWrite => "after-metadata-write"@,
        }
    }

    pub fn as_str(self) -> (s: &'static str)
        ensures
            s@ == self.word(),
    {
        match self {
            CrashWindow::BeforeWalWrite => "before-wal-write",
            CrashWindow::AfterWalWrite => "after-wal-write",
            CrashWindow::AfterIndexWrite => "after-index-write",
            CrashWindow::AfterLocalApply => "after-local-apply",
            CrashWindow::AfterMetadataWrite => "after-metadata-write",
        }
    }
}

/// A failure that a fault brought about.
#[derive(Debug, Clone, Copy, PartialEq, Eq, Structural)]
pub enum FaultError {
    /// The bucket failed on a derived op head.
    DerivedHeadWal,
    /// The server stopped at this window.
    Stopped(CrashWindow),
    /// The server had stopped before.
    Halted,
}

impl FaultError {
    pub open spec fn text(self) -> Seq<char> {
        match self {
            FaultError::DerivedHeadWal => "injected bucket failure while writing a derived op head"@,
            FaultError::Stopped(window) => "the server stopped at the "@ + window.word()
                + " window"@,
            FaultError::Halted => "the server has stopped"@,
        }
    }

    /// The sentence that names the failure.
    pub fn message(&self) -> (s: String)
        ensures
            s@ == self.text(),
    {
        match self {
            FaultError::DerivedHeadWal => {
                "injected bucket failure while writing a derived op head".to_owned()
            },
            FaultError::Stopped(window) => {
                let mut s = "the server stopped at the ".to_owned();
                s.append(window.as_str());
                s.append(" window");
                s
            },
            FaultError::Halted => "the server has stopped".to_owned(),
        }
    }
}

/// The faults one server is currently under. Every field is inert by default,
/// so a server built without a test behind it behaves exactly as it always has.
#[derive(Debug, PartialEq, Eq)]
pub struct FaultPoints {
    index_cas_conflicts: u64,
    crash_window: Option<CrashWindow>,
    halted: bool,
    fail_derived_head_wal: bool,
    wal_write_failures: u64,
    index_write_failures: u64,
    object_on_index_conflict: Option<Vec<u8>>,
}

/// The faults, as a mathematical value.
pub struct FaultModel {
    /// Index writes still to be answered with a synthetic CAS conflict.
    pub index_cas_conflicts: nat,
    /// Where the next publish should stop, if anywhere.
    pub crash_window: Option<CrashWindow>,
    /// Whether a crash has already fired.
    pub halted: bool,
    /// Whether writing a derived op head's WAL entry should fail.
    pub fail_derived_head_wal: bool,
    /// WAL entry writes still to be answered with a synthetic bucket failure.
    pub wal_write_failures: nat,
    /// Index writes still to be answered with a synthetic bucket failure.
    pub index_write_failures: nat,
    /// Content for the object a second client "writes" during a retried publish.
    pub object_on_index_conflict: Option<Seq<u8>>,
}

pub open spec fn bytes_view(b: Option<Vec<u8>>) -> Option<Seq<u8>> {
    match b {
        Some(v) => Some(v@),
        None => None,
    }
}

/// What is left of a counter that was asked for one more fault, and whether it
/// had one to give.
pub open spec fn drawn(remaining: nat) -> (nat, bool) {
    if remaining == 0 {
        (0, false)
    } else {
        ((remaining - 1) as nat, true)
    }
}

/// The faults after the server passed `window`.
pub open spec fn after_window(faults: FaultModel, window: CrashWindow) -> FaultModel {
    if faults.crash_window == Some(window) {
        FaultModel { crash_window: None, halted: true, ..faults }
    } else {
        faults
    }
}

impl View for FaultPoints {
    type V = FaultModel;

    closed spec fn view(&self) -> FaultModel {
        FaultModel {
            index_cas_conflicts: self.index_cas_conflicts as nat,
            crash_window: self.crash_window,
            halted: self.halted,
            fail_derived_head_wal: self.fail_derived_head_wal,
            wal_write_failures: self.wal_write_failures as nat,
            index_write_failures: self.index_write_failures as nat,
            object_on_index_conflict: bytes_view(self.object_on_index_conflict),
        }
    }
}

/// No fault at all.
pub open spec fn no_faults() -> FaultModel {
    FaultModel {
        index_cas_conflicts: 0,
        crash_window: None,
        halted: false,
        fail_derived_head_wal: false,
        wal_write_failures: 0,
        index_write_failures: 0,
        object_on_index_conflict: None,
    }
}

impl FaultPoints {
    /// A fault set that does nothing: what the binary always runs with.
    pub fn inert() -> (r: FaultPoints)
        ensures
            r@ == no_faults(),
    {
        FaultPoints {
            index_cas_conflicts: 0,
            crash_window: None,
            halted: false,
            fail_derived_head_wal: false,
            wal_write_failures: 0,
            index_write_failures: 0,
            object_on_index_conflict: None,
        }
    }

    // ── Index CAS conflicts ──

    /// Force the next `count` index writes to look like CAS conflicts, so the
    /// retryable path can be exercised without a second real writer.
    pub fn set_index_cas_conflicts(&mut self, count: u64)
        ensures
            final(self)@ == (FaultModel { index_cas_conflicts: count as nat, ..old(self)@ }),
    {
        self.index_cas_conflicts = count;
    }

    /// Whether this index write is to look like a CAS conflict.
    pub fn take_index_cas_conflict(&mut self) -> (r: bool)
        ensures
            r == drawn(old(self)@.index_cas_conflicts).1,
            final(self)@ == (FaultModel {
                index_cas_conflicts: drawn(old(self)@.index_cas_conflicts).0,
                ..old(self)@
            }),
    {
        if self.index_cas_conflicts == 0 {
            return false;
        }
        self.index_cas_conflicts = self.index_cas_conflicts - 1;
        true
    }

    // ── An object written between two attempts of a retried publish ──

    /// Stand in for a second client whose object write lands between two
    /// attempts of a retried publish: the window in which a drained staging
    /// buffer can lose objects. Empty content is none.
    pub fn stage_object_on_index_conflict(&mut self, content: Option<Vec<u8>>)
        ensures
            final(self)@ == (FaultModel {
                object_on_index_conflict: match content {
                    Some(bytes) => if bytes@.len() == 0 {
                        None
                    } else {
                        Some(bytes@)
                    },
                    None => None,
                },
                ..old(self)@
            }),
    {
        let kept = match content {
            Some(bytes) => {
                if bytes.len() == 0 {
                    None
                } else {
                    Some(bytes)
                }
            },
            None => None,
        };
        self.object_on_index_conflict = kept;
    }

    pub fn object_for_index_conflict(&self) -> (r: Option<Vec<u8>>)
        ensures
            bytes_view(r) == self@.object_on_index_conflict,
    {
        match &self.object_on_index_conflict {
            Some(bytes) => Some(copied(bytes.as_slice())),
            None => None,
        }
    }

    // ── A bucket that refuses a WAL entry ──

    /// Make the next `count` WAL entry writes fail, as a bucket answering 500
    /// would. This is the window restaging exists for: by the time the write is
    /// attempted the publish has already drained the staging buffer.
    pub fn fail_wal_writes(&mut self, count: u64)
        ensures
            final(self)@ == (FaultModel { wal_write_failures: count as nat, ..old(self)@ }),
    {
        self.wal_write_failures = count;
    }

    /// Whether this WAL entry write is to fail.
    pub fn take_wal_write_failure(&mut self) -> (r: bool)
        ensures
            r == drawn(old(self)@.wal_write_failures).1,
            final(self)@ == (FaultModel {
                wal_write_failures: drawn(old(self)@.wal_write_failures).0,
                ..old(self)@
            }),
    {
        if self.wal_write_failures == 0 {
            return false;
        }
        self.wal_write_failures = self.wal_write_failures - 1;
        true
    }

    // ── A bucket that refuses the index ──

    /// Make the next `count` index writes fail, as a bucket answering 500 would.
    pub fn fail_index_writes(&mut self, count: u64)
        ensures
            final(self)@ == (FaultModel { index_write_failures: count as nat, ..old(self)@ }),
    {
        self.index_write_failures = count;
    }

    /// Whether this index write is to fail.
    pub fn take_index_write_failure(&mut self) -> (r: bool)
        ensures
            r == drawn(old(self)@.index_write_failures).1,
            final(self)@ == (FaultModel {
                index_write_failures: drawn(old(self)@.index_write_failures).0,
                ..old(self)@
            }),
    {
        if self.index_write_failures == 0 {
            return false;
        }
        self.index_write_failures = self.index_write_failures - 1;
        true
    }

    // ── A bucket that fails on a derived head's WAL entry ──

    /// Stand in for a bucket that fails while the server writes the WAL entry of
    /// a merge operation it minted itself. That write happens after the publish
    /// is durable and applied, so the failure must never reach the client.
    pub fn fail_derived_head_wal(&mut self, fail: bool)
        ensures
            final(self)@ == (FaultModel { fail_derived_head_wal: fail, ..old(self)@ }),
    {
        self.fail_derived_head_wal = fail;
    }

    pub fn derived_head_wal_fault(&self) -> (r: Option<FaultError>)
        ensures
            r == (if self@.fail_derived_head_wal {
                Some(FaultError::DerivedHeadWal)
            } else {
                None
            }),
    {
        if !self.fail_derived_head_wal {
            return None;
        }
        Some(FaultError::DerivedHeadWal)
    }

    // ── Crashes ──

    /// Stop the next publish at `window`. The server halts there: it answers
    /// nothing afterwards, which is what a dead process does.
    pub fn crash_at(&mut self, window: Option<CrashWindow>)
        ensures
            final(self)@ == (FaultModel { crash_window: window, halted: false, ..old(self)@ }),
    {
        self.crash_window = window;
        self.halted = false;
    }

    /// Whether an armed crash has fired.
    pub fn halted(&self) -> (r: bool)
        ensures
            r == self@.halted,
    {
        self.halted
    }

    /// Fire, if this is the armed window. The error stands in for the connection
    /// failure a client sees when the server dies mid-request.
    pub fn crash(&mut self, window: CrashWindow) -> (r: Result<(), FaultError>)
        ensures
            final(self)@ == after_window(old(self)@, window),
            r == (if old(self)@.crash_window == Some(window) {
                Err::<(), FaultError>(FaultError::Stopped(window))
            } else {
                Ok(())
            }),
    {
        let armed = match self.crash_window {
            Some(w) => w == window,
            None => false,
        };
        if !armed {
            return Ok(());
        }
        self.crash_window = None;
        self.halted = true;
        Err(FaultError::Stopped(window))
    }

    /// Refuse to serve once a crash has fired.
    pub fn refuse_if_halted(&self) -> (r: Result<(), FaultError>)
        ensures
            r == (if self@.halted {
                Err::<(), FaultError>(FaultError::Halted)
            } else {
                Ok(())
            }),
    {
        if self.halted() {
            return Err(FaultError::Halted);
        }
        Ok(())
    }
}

// ─── What the faults promise ──────────────────────────────────────────────────

/// What is left of a counter after `n` draws, and the `n`th answer.
pub open spec fn drawn_times(remaining: nat, n: nat) -> (nat, bool)
    decreases n,
{
    if n == 0 {
        (remaining, false)
    } else {
        drawn(drawn_times(remaining, (n - 1) as nat).0)
    }
}

/// A counter set to `count` gives exactly `count` faults: the first `count` draws
/// answer yes, and every draw after that answers no.
pub proof fn exactly_that_many_faults(count: nat, n: nat)
    requires
        n > 0,
    ensures
        drawn_times(count, n).1 <==> n <= count,
        drawn_times(count, n).0 == if n <= count {
            (count - n) as nat
        } else {
            0
        },
    decreases n,
{
    if n > 1 {
        exactly_that_many_faults(count, (n - 1) as nat);
    } else {
        reveal_with_fuel(drawn_times, 2);
    }
}

/// A crash fires at the armed window and nowhere else, and it fires once: behind
/// it the server is halted with nothing armed, until a crash is armed again.
pub proof fn a_crash_fires_once(faults: FaultModel, window: CrashWindow, next: CrashWindow)
    requires
        faults.crash_window == Some(window),
    ensures
        after_window(faults, window).halted,
        after_window(faults, window).crash_window is None,
        after_window(after_window(faults, window), next) == after_window(faults, window),
        next != window ==> after_window(faults, next) == faults,
{
}

/// An inert server passes every window as it was.
pub proof fn inert_faults_never_fire(window: CrashWindow)
    ensures
        after_window(no_faults(), window) == no_faults(),
        !drawn(no_faults().index_cas_conflicts).1,
        !drawn(no_faults().wal_write_failures).1,
        !drawn(no_faults().index_write_failures).1,
{
}

} // verus!
