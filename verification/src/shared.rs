//! Tables that copies of a value share: the first that is put in stays, unless a larger
//! one is asked for.
use crate::ast::share;
use std::sync::Arc;
use vstd::prelude::*;
use vstd::rwlock::{RwLock, RwLockPredicate};

verus! {

/// Which tables may be held.
pub trait Holds<T>: Sized {
    spec fn holds(self, table: T) -> bool;
}

/// Tables of which one can take the place of a smaller one.
pub trait Grows: Sized {
    spec fn covered_by(self, other: Self) -> bool;

    /// Whether the table has all that the other has.
    fn covers(&self, other: &Self) -> (r: bool)
        ensures
            r == other.covered_by(*self),
    ;
}

/// The predicate of the lock: what it holds, if anything, may be held.
pub struct Kept<P> {
    pub rule: P,
}

impl<T, P: Holds<T>> RwLockPredicate<Option<Arc<T>>> for Kept<P> {
    open spec fn inv(self, v: Option<Arc<T>>) -> bool {
        v matches Some(table) ==> self.rule.holds(*table)
    }
}

/// A place for a table, which all copies of the place share. Whether a table is there at
/// some time is no part of the value: other copies may put one in at any time. What is
/// there keeps the rule that the place was made with.
pub struct SharedTable<T, P: Holds<T>> {
    lock: Arc<RwLock<Option<Arc<T>>, Kept<P>>>,
}

impl<T, P: Holds<T>> SharedTable<T, P> {
    /// The rule that the place was made with.
    pub closed spec fn rule(&self) -> P {
        self.lock.pred().rule
    }

    /// An empty place for tables that keep the rule.
    pub fn new(Ghost(rule): Ghost<P>) -> (r: Self)
        ensures
            r.rule() == rule,
    {
        let ghost kept = Kept { rule };
        SharedTable { lock: Arc::new(RwLock::new(None, Ghost(kept))) }
    }

    /// The table that is there.
    pub fn get(&self) -> (r: Option<Arc<T>>)
        ensures
            r matches Some(table) ==> self.rule().holds(*table),
    {
        let handle = self.lock.acquire_read();
        let r = match handle.borrow() {
            Some(table) => Some(share(table)),
            None => None,
        };
        handle.release_read();
        r
    }

    /// Puts the table in, unless another is there, and returns the one that is there then.
    pub fn put(&self, table: T) -> (r: Arc<T>)
        requires
            self.rule().holds(table),
        ensures
            self.rule().holds(*r),
    {
        let (held, handle) = self.lock.acquire_write();
        let kept = match held {
            Some(earlier) => earlier,
            None => Arc::new(table),
        };
        handle.release_write(Some(share(&kept)));
        kept
    }
}

impl<T: Grows, P: Holds<T>> SharedTable<T, P> {
    /// Puts the table in, unless one is there that has all that it has, and returns the one
    /// that is there then.
    pub fn grow(&self, table: T) -> (r: Arc<T>)
        requires
            self.rule().holds(table),
        ensures
            self.rule().holds(*r),
            *r == table || table.covered_by(*r),
    {
        let (held, handle) = self.lock.acquire_write();
        let kept = match held {
            Some(earlier) => if earlier.covers(&table) {
                earlier
            } else {
                Arc::new(table)
            },
            None => Arc::new(table),
        };
        handle.release_write(Some(share(&kept)));
        kept
    }
}

impl<T, P: Holds<T>> Clone for SharedTable<T, P> {
    /// The same place.
    fn clone(&self) -> (r: Self)
        ensures
            r == *self,
    {
        SharedTable { lock: share(&self.lock) }
    }
}

} // verus!
