use vstd::prelude::*;

verus! {

/// A captured variable that every arm can reach mutably, one access at a time.
pub struct UnsafeCapture<'a, T: 'a> {
    value: T,
    phantom: core::marker::PhantomData<&'a ()>,
}

impl<'a, T: 'a> View for UnsafeCapture<'a, T> {
    type V = T;

    closed spec fn view(&self) -> T {
        self.value
    }
}

impl<'a, T: 'a> UnsafeCapture<'a, T> {
    /// Capture `value`.
    pub fn new(value: T) -> (r: Self)
        ensures
            r@ == value,
    {
        UnsafeCapture { value, phantom: core::marker::PhantomData }
    }

    /// Mutable access to the captured value.
    pub fn access(&mut self) -> (r: UnsafeCaptureAccess<'_, T>)
        ensures
            *r.value == old(self)@,
            final(self)@ == *final(r.value),
    {
        UnsafeCaptureAccess { value: &mut self.value }
    }
}

/// Mutable access to an `UnsafeCapture`.
pub struct UnsafeCaptureAccess<'b, T> {
    /// The captured value.
    pub value: &'b mut T,
}

impl<'b, T> UnsafeCaptureAccess<'b, T> {
    /// The captured value.
    pub fn get(&mut self) -> (r: &mut T)
        ensures
            *r == *old(self).value,
            *final(self).value == *final(r),
            *final(final(self).value) == *final(old(self).value),
    {
        &mut *self.value
    }

    /// A cell through which an async block reaches the captured value.
    pub fn get_cell(&mut self) -> (r: UnsafeCaptureAccessCell<'_, T>)
        ensures
            *r.value == *old(self).value,
            *final(self).value == *final(r.value),
            *final(final(self).value) == *final(old(self).value),
    {
        UnsafeCaptureAccessCell { value: &mut *self.value }
    }
}

/// A captured variable reachable only inside the closure handed to `with`.
pub struct UnsafeCaptureAccessCell<'c, T> {
    /// The captured value.
    pub value: &'c mut T,
}

impl<'c, T> UnsafeCaptureAccessCell<'c, T> {
    /// Run `f` on the captured value; the value is reachable only inside `f`.
    pub fn with<R>(&mut self, f: impl FnOnce(&mut T) -> R) -> (r: R)
        requires
            forall|v: &mut T| *v == *old(self).value ==> f.requires((v,)),
        ensures
            exists|v: &mut T|
                *v == *old(self).value && f.ensures((v,), r) && *final(v) == *final(self).value,
            *final(final(self).value) == *final(old(self).value),
    {
        f(&mut *self.value)
    }
}

/// A captured variable that at most one async block holds at a time.
pub struct LockedCapture<'a, T: 'a> {
    locked: bool,
    value: T,
    phantom: core::marker::PhantomData<&'a ()>,
}

impl<'a, T: 'a> View for LockedCapture<'a, T> {
    type V = T;

    closed spec fn view(&self) -> T {
        self.value
    }
}

impl<'a, T: 'a> LockedCapture<'a, T> {
    /// Whether an async block holds the value.
    pub closed spec fn is_locked(&self) -> bool {
        self.locked
    }

    /// Capture `value`, not held by anyone.
    pub fn new(value: T) -> (r: Self)
        ensures
            r@ == value,
            !r.is_locked(),
    {
        LockedCapture { locked: false, value, phantom: core::marker::PhantomData }
    }

    /// Access for a setup or handler block: the value when no async block holds it,
    /// nothing otherwise.
    pub fn access(&mut self) -> (r: CaptureAccess<'_, T>)
        ensures
            r.value is None <==> old(self).is_locked(),
            r.value is None ==> *final(self) == *old(self),
            r.value matches Some(v) ==> *v == old(self)@ && final(self)@ == *final(v)
                && !final(self).is_locked(),
    {
        if self.locked {
            CaptureAccess { value: None }
        } else {
            CaptureAccess { value: Some(&mut self.value) }
        }
    }

    /// Take the value for an async block: `None` when another block holds it.
    ///
    /// The capture stays held, for every other block, until the guard is given back with
    /// `CaptureGuard::release`; a guard that is merely dropped leaves it held.
    pub fn lock(&mut self) -> (r: Option<CaptureGuard<T>>)
        ensures
            r is None <==> old(self).is_locked(),
            final(self).is_locked(),
            final(self)@ == old(self)@,
    {
        if self.locked {
            None
        } else {
            self.locked = true;
            Some(CaptureGuard { phantom: core::marker::PhantomData })
        }
    }
}

/// Access to a `LockedCapture` for a setup or handler block.
pub struct CaptureAccess<'b, T> {
    /// The value, when no async block holds it.
    pub value: Option<&'b mut T>,
}

impl<'b, T> CaptureAccess<'b, T> {
    /// The value, when no async block holds it.
    pub fn get(&mut self) -> (r: Option<&mut T>)
        ensures
            r is None <==> old(self).value is None,
            r matches Some(v) ==> {
                &&& old(self).value matches Some(w)
                &&& *v == *w
                &&& final(self).value matches Some(w2)
                &&& *w2 == *final(v)
                &&& *final(w2) == *final(w)
            },
            r is None ==> final(self).value is None,
    {
        match &mut self.value {
            Some(v) => Some(&mut **v),
            None => None,
        }
    }
}

/// The hold of an async block on a `LockedCapture`: while it is held, setup and handler
/// blocks get no access and no other block can take it.
pub struct CaptureGuard<T> {
    phantom: core::marker::PhantomData<T>,
}

impl<T> CaptureGuard<T> {
    /// The captured value of the held `capture`.
    pub fn get_mut<'a, 'c>(&mut self, capture: &'c mut LockedCapture<'a, T>) -> (r: &'c mut T)
        requires
            old(capture).is_locked(),
        ensures
            *r == old(capture)@,
            final(capture)@ == *final(r),
            final(capture).is_locked(),
    {
        &mut capture.value
    }

    /// Give the held `capture` back: it is no longer held.
    pub fn release<'a>(self, capture: &mut LockedCapture<'a, T>)
        ensures
            !final(capture).is_locked(),
            final(capture)@ == old(capture)@,
    {
        capture.locked = false;
    }
}

/// A captured variable that every block may read.
pub struct ConstantCapture<'a, T> {
    /// The captured value.
    pub value: &'a T,
}

impl<'a, T: 'a> ConstantCapture<'a, T> {
    /// Capture `value` for reading.
    pub fn new(value: &'a T) -> (r: Self)
        ensures
            r.value == value,
    {
        ConstantCapture { value }
    }

    /// The captured value.
    pub fn const_access<'b>(&'b self) -> (r: &'b T) where 'a: 'b
        ensures
            r == self.value,
    {
        self.value
    }
}

} // verus!
