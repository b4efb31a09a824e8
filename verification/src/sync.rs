//! Synchronization primitives: a one-time-init latch (`Once`), a lazy-init
//! cell built on it (`OnceCell`), and a mutual-exclusion lock (`Mutex`).
//!
//! The machine offers a single active core, so the model is sequential: the
//! atomic compare-and-swap loops of the hardware implementation collapse into
//! state transitions that the contracts pin down exactly. Acquiring a lock
//! that is already held, or entering a latch that is stuck in progress, would
//! spin forever on the real machine; those states are excluded by
//! precondition, since a verified function must return.
//!
//! Exclusion is modelled linearly: `Mutex::lock` moves the protected value
//! out into a `MutexGuard`, and only `Mutex::unlock` can put a value back.
//! While a guard exists the mutex holds no value, so no second critical
//! section can observe or change the data — critical sections cannot
//! interleave by construction.

use vstd::prelude::*;

verus! {

/// The three states of the one-time-init latch. The latch moves
/// `Incomplete` -> `InProgress` -> `Completed` exactly once and never back.
#[derive(Debug, Clone, Copy, PartialEq, Eq, Structural)]
pub enum OnceState {
    Incomplete,
    InProgress,
    Completed,
}

/// A latch that runs a closure at most once.
///
/// `InProgress` marks a closure that began and never finished; every later
/// caller would spin forever waiting for it, so the contracts exclude that
/// state (boot-time singleton failure is fatal anyway).
#[derive(Debug, Clone, Copy, PartialEq, Eq, Structural)]
pub struct Once {
    pub state: OnceState,
}

impl Once {
    pub fn new() -> (r: Self)
        ensures
            r.state is Incomplete,
    {
        Self { state: OnceState::Incomplete }
    }

    /// Runs `f` if no closure has run yet; afterwards the latch is complete.
    /// A later call leaves the latch untouched and does not run `f`.
    pub fn call_once<F: FnOnce()>(&mut self, f: F)
        requires
            !(old(self).state is InProgress),
            call_requires(f, ()),
        ensures
            final(self).state is Completed,
            old(self).state is Incomplete ==> call_ensures(f, (), ()),
    {
        if self.is_complete() {
            return;
        }
        self.state = OnceState::InProgress;
        f();
        self.state = OnceState::Completed;
    }

    pub fn is_complete(&self) -> (r: bool)
        ensures
            r == (self.state is Completed),
    {
        match self.state {
            OnceState::Completed => true,
            _ => false,
        }
    }
}

/// A cell initialized at most once, by the first closure handed to
/// `get_or_init`; every later caller observes the value the winner stored.
pub struct OnceCell<T> {
    pub once: Once,
    pub value: Option<T>,
}

impl<T> OnceCell<T> {
    /// The stored value exists exactly when the latch has completed.
    pub open spec fn wf(self) -> bool {
        &&& self.once.state is Completed ==> self.value is Some
        &&& self.once.state is Incomplete ==> self.value is None
    }

    pub fn new() -> (r: Self)
        ensures
            r.wf(),
            r.once.state is Incomplete,
            r.value is None,
    {
        Self { once: Once::new(), value: None }
    }

    /// Returns the stored value, initializing it with `f` if no caller has
    /// done so yet. Whichever closure runs first decides the value for every
    /// caller after it; a later closure is never run.
    pub fn get_or_init<F: FnOnce() -> T>(&mut self, f: F) -> (r: &T)
        requires
            old(self).wf(),
            !(old(self).once.state is InProgress),
            call_requires(f, ()),
        ensures
            final(self).wf(),
            final(self).once.state is Completed,
            final(self).value == Some(*r),
            old(self).once.state is Completed ==> *final(self) == *old(self)
                && old(self).value == Some(*r),
            old(self).once.state is Incomplete ==> call_ensures(f, (), *r),
    {
        if !self.once.is_complete() {
            self.once.state = OnceState::InProgress;
            let v = f();
            self.value = Some(v);
            self.once.state = OnceState::Completed;
        }
        match &self.value {
            Some(r) => r,
            None => vstd::pervasive::unreached(),
        }
    }

    /// Mutable access to the stored value once initialization has happened.
    pub fn get_mut(&mut self) -> (r: &mut T)
        requires
            old(self).wf(),
            old(self).once.state is Completed,
        ensures
            final(self).wf(),
            final(self).once == old(self).once,
            old(self).value == Some(*r),
            final(self).value == Some(*final(r)),
    {
        match &mut self.value {
            Some(r) => r,
            None => vstd::pervasive::unreached(),
        }
    }
}

/// The two states of the lock word.
#[derive(Debug, Clone, Copy, PartialEq, Eq, Structural)]
pub enum MutexState {
    Free,
    Locked,
}

/// A mutual-exclusion lock around a value of type `T`.
///
/// `lock` moves the value out into the returned guard and flips the state to
/// `Locked`; `unlock` takes the guard back and restores `Free`. Between the
/// two calls the mutex holds no value, so the holder of the guard has
/// exclusive access. Acquiring an already-locked mutex would spin until the
/// holder releases it; in the single-flow model that is a deadlock, so
/// `lock` requires the mutex to be free.
pub struct Mutex<T> {
    pub lock: MutexState,
    pub data: Option<T>,
}

/// Exclusive access to the data of a locked `Mutex`, handed out by `lock`
/// and surrendered to `unlock`, which releases the lock.
pub struct MutexGuard<T> {
    pub value: T,
}

impl<T> Mutex<T> {
    /// The mutex holds a value exactly when it is free.
    pub open spec fn wf(self) -> bool {
        self.data is Some <==> self.lock is Free
    }

    pub fn new(data: T) -> (r: Self)
        ensures
            r.wf(),
            r.lock is Free,
            r.data == Some(data),
    {
        Self { lock: MutexState::Free, data: Some(data) }
    }

    /// Acquires the lock, handing the protected value to the caller.
    pub fn lock(&mut self) -> (g: MutexGuard<T>)
        requires
            old(self).wf(),
            old(self).lock is Free,
        ensures
            final(self).wf(),
            final(self).lock is Locked,
            old(self).data == Some(g.value),
    {
        let v = self.data.take();
        self.lock = MutexState::Locked;
        match v {
            Some(value) => MutexGuard { value },
            None => vstd::pervasive::unreached(),
        }
    }

    /// Releases the lock, storing the guard's value back into the mutex.
    pub fn unlock(&mut self, g: MutexGuard<T>)
        requires
            old(self).wf(),
            old(self).lock is Locked,
        ensures
            final(self).wf(),
            final(self).lock is Free,
            final(self).data == Some(g.value),
    {
        self.data = Some(g.value);
        self.lock = MutexState::Free;
    }
}

impl<T> MutexGuard<T> {
    pub fn get(&self) -> (r: &T)
        ensures
            *r == self.value,
    {
        &self.value
    }

    pub fn get_mut(&mut self) -> (r: &mut T)
        ensures
            *r == old(self).value,
            final(self).value == *final(r),
    {
        &mut self.value
    }
}

} // verus!
