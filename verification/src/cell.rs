use vstd::prelude::*;

verus! {

/// Error returned when a value is assigned to a cell that already holds one.
pub struct AlreadySetError;

/// A single-assignment, multi-reader result cell.
///
/// The cell starts empty; exactly one producer may assign a value, and every
/// later reader observes that same value.  Assigning a second time is
/// rejected and leaves the stored value untouched, so a value, once
/// published, never changes.
pub struct BarrierCell<T> {
    value: Option<T>,
}

impl<T> BarrierCell<T> {
    /// The value held by the cell, if one has been assigned.
    pub closed spec fn value_of(self) -> Option<T> {
        self.value
    }

    /// Whether a value has been assigned.
    pub open spec fn is_set(self) -> bool {
        self.value_of() is Some
    }

    /// Creates an empty cell.
    pub fn new() -> (r: BarrierCell<T>)
        ensures
            !r.is_set(),
    {
        BarrierCell { value: None }
    }

    /// Assigns the value of the cell.  Succeeds exactly when the cell was
    /// still empty; an already-set cell is left unchanged.
    pub fn set(&mut self, value: T) -> (r: Result<(), AlreadySetError>)
        ensures
            !old(self).is_set() ==> r is Ok && final(self).value_of() == Some(value),
            old(self).is_set() ==> r is Err && *final(self) == *old(self),
    {
        if self.value.is_some() {
            Err(AlreadySetError)
        } else {
            self.value = Some(value);
            Ok(())
        }
    }

    /// Reads the value of the cell, if one has been assigned.
    pub fn get(&self) -> (r: Option<&T>)
        ensures
            match r {
                Some(v) => self.value_of() == Some(*v),
                None => self.value_of() is None,
            },
    {
        match &self.value {
            Some(v) => Some(v),
            None => None,
        }
    }

    /// Consumes the cell and returns the value it held.
    pub fn into_inner(self) -> (r: Option<T>)
        ensures
            r == self.value_of(),
    {
        self.value
    }
}

} // verus!
