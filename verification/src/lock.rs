//! Per-bucket concurrency control: a fixed number of stripes, each a
//! reader/writer lock paired with a mutex, indexed by bucket id modulo the
//! stripe count. Three acquisition modes: read (shared), selective (shared
//! read plus the stripe's mutex -- writers exclude each other but not plain
//! readers), and exclusive (full writer lock).
//!
//! The lock behaviour itself is parking_lot's; the wrappers below only pass
//! guards through, and the verified code contributes the stripe indexing.

use vstd::prelude::*;

verus! {

#[verifier::external_type_specification]
#[verifier::external_body]
#[verifier::reject_recursive_types(R)]
#[verifier::reject_recursive_types(T)]
pub struct ExRwLock<R, T: ?Sized>(lock_api::RwLock<R, T>);

#[verifier::external_type_specification]
#[verifier::external_body]
#[verifier::reject_recursive_types(R)]
#[verifier::reject_recursive_types(T)]
pub struct ExMutex<R, T: ?Sized>(lock_api::Mutex<R, T>);

#[verifier::external_type_specification]
#[verifier::external_body]
pub struct ExRawRwLock(parking_lot::RawRwLock);

#[verifier::external_type_specification]
#[verifier::external_body]
pub struct ExRawMutex(parking_lot::RawMutex);

/// Shared access to one stripe: other readers and selective holders may run
/// concurrently. Opaque to the verifier: parking_lot's read guard, whose
/// lifetime does the work.
#[verifier::external_body]
pub struct ReadLockGuard<'a> {
    guard: parking_lot::RwLockReadGuard<'a, ()>,
}

/// Writer/writer exclusion on one stripe that still admits plain readers: a
/// shared read guard plus the stripe's mutex.
#[verifier::external_body]
pub struct SelectiveLockGuard<'a> {
    guard: parking_lot::RwLockReadGuard<'a, ()>,
    mutex_guard: parking_lot::MutexGuard<'a, ()>,
}

/// Full isolation on one stripe: excludes all readers and writers.
#[verifier::external_body]
pub struct ExclusiveLockGuard<'a> {
    guard: parking_lot::RwLockWriteGuard<'a, ()>,
}

impl<'a> SelectiveLockGuard<'a> {
    /// Keep only the shared part: the stripe's mutex is released, so other
    /// selective holders may proceed while reads stay permitted. Relies on
    /// dropping `parking_lot::MutexGuard` to release the mutex.
    #[verifier::external_body]
    pub fn downgrade(self) -> ReadLockGuard<'a> {
        ReadLockGuard { guard: self.guard }
    }
}

/// Relies on `parking_lot::RwLock::new`.
#[verifier::external_body]
fn rwlock_new() -> parking_lot::RwLock<()> {
    parking_lot::RwLock::new(())
}

/// Relies on `parking_lot::Mutex::new`.
#[verifier::external_body]
fn mutex_new() -> parking_lot::Mutex<()> {
    parking_lot::Mutex::new(())
}

/// Relies on `parking_lot::RwLock::read`: blocks until a shared guard is
/// available.
#[verifier::external_body]
fn rwlock_read<'a>(l: &'a parking_lot::RwLock<()>) -> ReadLockGuard<'a> {
    ReadLockGuard { guard: l.read() }
}

/// Relies on `parking_lot::RwLock::try_read`: a shared guard, or `None`
/// when a writer holds the lock.
#[verifier::external_body]
fn rwlock_try_read<'a>(l: &'a parking_lot::RwLock<()>) -> Option<ReadLockGuard<'a>> {
    match l.try_read() {
        Some(g) => Some(ReadLockGuard { guard: g }),
        None => None,
    }
}

/// Relies on `parking_lot::RwLock::write`: blocks until the exclusive
/// writer guard is available.
#[verifier::external_body]
fn rwlock_write<'a>(l: &'a parking_lot::RwLock<()>) -> ExclusiveLockGuard<'a> {
    ExclusiveLockGuard { guard: l.write() }
}

/// Relies on `parking_lot::RwLock::try_write`: the writer guard, or `None`
/// when any guard is held.
#[verifier::external_body]
fn rwlock_try_write<'a>(l: &'a parking_lot::RwLock<()>) -> Option<ExclusiveLockGuard<'a>> {
    match l.try_write() {
        Some(g) => Some(ExclusiveLockGuard { guard: g }),
        None => None,
    }
}

/// Relies on `parking_lot::RwLock::read` and `parking_lot::Mutex::lock`:
/// blocks until both halves of a selective guard are held.
#[verifier::external_body]
fn selective_acquire<'a>(
    l: &'a parking_lot::RwLock<()>,
    m: &'a parking_lot::Mutex<()>,
) -> SelectiveLockGuard<'a> {
    let g1 = l.read();
    let g2 = m.lock();
    SelectiveLockGuard { guard: g1, mutex_guard: g2 }
}

/// Relies on `parking_lot::RwLock::try_read` and
/// `parking_lot::Mutex::try_lock`: both halves of a selective guard, or
/// `None` when either is unavailable.
#[verifier::external_body]
fn selective_try_acquire<'a>(
    l: &'a parking_lot::RwLock<()>,
    m: &'a parking_lot::Mutex<()>,
) -> Option<SelectiveLockGuard<'a>> {
    let g1 = l.try_read()?;
    let g2 = m.try_lock()?;
    Some(SelectiveLockGuard { guard: g1, mutex_guard: g2 })
}

/// A fixed-size array of per-bucket lock pairs, indexed by bucket id modulo
/// the stripe count.
pub struct StripeLock {
    pub n: usize,
    pub rwlocks: Vec<parking_lot::RwLock<()>>,
    pub mutexes: Vec<parking_lot::Mutex<()>>,
}

impl StripeLock {
    pub open spec fn wf(self) -> bool {
        &&& self.n >= 1
        &&& self.rwlocks@.len() == self.n
        &&& self.mutexes@.len() == self.n
    }

    pub fn new(n: usize) -> (r: StripeLock)
        requires
            n >= 1,
        ensures
            r.wf(),
            r.n == n,
    {
        let mut rwlocks: Vec<parking_lot::RwLock<()>> = Vec::new();
        let mut i: usize = 0;
        while i < n
            invariant
                i <= n,
                rwlocks@.len() == i,
            decreases n - i,
        {
            rwlocks.push(rwlock_new());
            i = i + 1;
        }
        let mut mutexes: Vec<parking_lot::Mutex<()>> = Vec::new();
        let mut i: usize = 0;
        while i < n
            invariant
                i <= n,
                mutexes@.len() == i,
            decreases n - i,
        {
            mutexes.push(mutex_new());
            i = i + 1;
        }
        StripeLock { n, rwlocks, mutexes }
    }

    /// The stripe a bucket maps to.
    fn stripe(&self, id: u64) -> (r: usize)
        requires
            self.wf(),
        ensures
            r < self.n,
    {
        (id as usize) % self.n
    }

    pub fn read_lock(&self, id: u64) -> (r: ReadLockGuard<'_>)
        requires
            self.wf(),
    {
        let b = self.stripe(id);
        rwlock_read(&self.rwlocks[b])
    }

    pub fn try_read_lock(&self, id: u64) -> (r: Option<ReadLockGuard<'_>>)
        requires
            self.wf(),
    {
        let b = self.stripe(id);
        rwlock_try_read(&self.rwlocks[b])
    }

    pub fn selective_lock(&self, id: u64) -> (r: SelectiveLockGuard<'_>)
        requires
            self.wf(),
    {
        let b = self.stripe(id);
        selective_acquire(&self.rwlocks[b], &self.mutexes[b])
    }

    pub fn try_selective_lock(&self, id: u64) -> (r: Option<SelectiveLockGuard<'_>>)
        requires
            self.wf(),
    {
        let b = self.stripe(id);
        selective_try_acquire(&self.rwlocks[b], &self.mutexes[b])
    }

    pub fn exclusive_lock(&self, id: u64) -> (r: ExclusiveLockGuard<'_>)
        requires
            self.wf(),
    {
        let b = self.stripe(id);
        rwlock_write(&self.rwlocks[b])
    }

    pub fn try_exclusive_lock(&self, id: u64) -> (r: Option<ExclusiveLockGuard<'_>>)
        requires
            self.wf(),
    {
        let b = self.stripe(id);
        rwlock_try_write(&self.rwlocks[b])
    }
}

} // verus!
