//! Handoff of whole engines between the control plane and the realtime side.
//!
//! A mailbox holds at most one value. `push` never waits: it hands the value
//! back when the box is occupied. `pop` never waits either. Engine swaps
//! happen only at block boundaries, and the replaced engine goes back to the
//! control plane through a second mailbox.
use vstd::prelude::*;

verus! {

pub struct Mailbox<T> {
    value: Option<T>,
}

impl<T> Mailbox<T> {
    /// What the box holds.
    pub closed spec fn content(&self) -> Option<T> {
        self.value
    }

    pub fn new() -> (r: Self)
        ensures
            r.content() is None,
    {
        Self { value: None }
    }

    /// Producer side. Returns the value back if the box is occupied.
    pub fn push(&mut self, v: T) -> (r: Result<(), T>)
        ensures
            old(self).content() is None ==> r is Ok && final(self).content() == Some(v),
            old(self).content() is Some ==> r == Err::<(), T>(v) && final(self).content() == old(
                self,
            ).content(),
    {
        if self.value.is_some() {
            return Err(v);
        }
        self.value = Some(v);
        Ok(())
    }

    /// Consumer side: takes what the box holds.
    pub fn pop(&mut self) -> (r: Option<T>)
        ensures
            r == old(self).content(),
            final(self).content() is None,
    {
        self.value.take()
    }
}

impl<T> Default for Mailbox<T> {
    fn default() -> (r: Self)
        ensures
            r.content() is None,
    {
        Self::new()
    }
}

/// Block-boundary engine swap on the realtime side: a published engine, if
/// any, replaces the current one, and the replaced engine is handed back
/// through `retire` (dropped if that box is still occupied).
pub fn refresh<T>(inbox: &mut Mailbox<T>, retire: &mut Mailbox<T>, current: &mut Option<T>)
    ensures
        final(inbox).content() is None,
        old(inbox).content() is None ==> *final(current) == *old(current) && final(retire).content()
            == old(retire).content(),
        old(inbox).content() is Some ==> *final(current) == old(inbox).content(),
        old(inbox).content() is Some && *old(current) is Some && old(retire).content() is None
            ==> final(retire).content() == *old(current),
        !(old(inbox).content() is Some && *old(current) is Some && old(retire).content() is None)
            ==> final(retire).content() == old(retire).content(),
{
    if let Some(next) = inbox.pop() {
        let previous = current.take();
        *current = Some(next);
        if let Some(old) = previous {
            let _ = retire.push(old);
        }
    }
}

} // verus!
