//! Filesystem freeze control for safe live recovery writes.
//!
//! Recovery writes go to the raw rdev while the filesystem is mounted; freezing
//! it for the duration of one batch's reconfirm+write keeps this program the
//! only writer to those bytes. The caller supplies the two operations, freeze
//! and thaw a mountpoint.

use vstd::prelude::*;

verus! {

/// Controls freezing of a (possibly absent) live mounted filesystem during
/// recovery writes.
#[derive(Debug)]
pub struct FreezeController<E> {
    pub mountpoint: Option<String>,
    /// Whether a freeze is currently held; makes `thaw` a no-op when not frozen
    /// and stays set after a failed thaw, so that a later one tries again.
    pub frozen: bool,
    /// Most recent thaw failure; read and cleared by `take_thaw_error`.
    pub last_thaw_error: Option<E>,
}

/// A held freeze: only `FreezeController::guard` makes one, and it is given back
/// with `FreezeController::release`.
#[derive(Debug)]
pub struct FreezeGuard {
    held: bool,
}

impl<E> FreezeController<E> {
    /// A freeze is held only of a declared mount.
    pub open spec fn wf(&self) -> bool {
        self.frozen ==> self.mountpoint is Some
    }

    /// Builds a controller. No mountpoint means an offline image, never frozen.
    pub fn new(mountpoint: Option<String>) -> (r: Self)
        ensures
            r.wf(),
            r.mountpoint == mountpoint,
            !r.frozen,
            r.last_thaw_error is None,
    {
        FreezeController { mountpoint, frozen: false, last_thaw_error: None }
    }

    /// The declared live mountpoint, if any, for operator-facing messages.
    pub fn mountpoint(&self) -> (r: Option<&str>)
        ensures
            match r {
                Some(p) => self.mountpoint matches Some(m) && p@ == m@,
                None => self.mountpoint is None,
            },
    {
        match &self.mountpoint {
            Some(m) => Some(m.as_str()),
            None => None,
        }
    }

    /// Whether a live mount was declared (freezing is possible at all).
    pub fn has_live_mount(&self) -> (r: bool)
        ensures
            r == (self.mountpoint is Some),
    {
        self.mountpoint.is_some()
    }

    /// Acquires a freeze. A guard means frozen; `Ok(None)` means no live mount
    /// (nothing to freeze); an error means that a live mount was declared but
    /// freezing it failed: the caller must not write.
    pub fn guard<F: Fn(&String) -> Result<(), E>>(&mut self, freeze: &F) -> (r: Result<
        Option<FreezeGuard>,
        E,
    >)
        requires
            old(self).wf(),
            old(self).mountpoint matches Some(m) ==> call_requires(*freeze, (&m,)),
        ensures
            final(self).wf(),
            final(self).mountpoint == old(self).mountpoint,
            final(self).last_thaw_error == old(self).last_thaw_error,
            match old(self).mountpoint {
                None => r matches Ok(None) && !final(self).frozen,
                Some(m) => match r {
                    Ok(Some(_)) => final(self).frozen && call_ensures(
                        *freeze,
                        (&m,),
                        Ok::<(), E>(()),
                    ),
                    Ok(None) => false,
                    Err(e) => final(self).frozen == old(self).frozen && call_ensures(
                        *freeze,
                        (&m,),
                        Err::<(), E>(e),
                    ),
                },
            },
    {
        let result = match &self.mountpoint {
            None => {
                return Ok(None);
            },
            Some(m) => freeze(m),
        };
        match result {
            Ok(done) => {
                assert(done == ());
                self.frozen = true;
                Ok(Some(FreezeGuard { held: true }))
            },
            Err(e) => Err(e),
        }
    }

    /// What a thaw makes of the controller.
    pub open spec fn thawed<T: Fn(&String) -> Result<(), E>>(&self, thaw: T, after: Self) -> bool {
        &&& after.mountpoint == self.mountpoint
        &&& if !self.frozen {
            after == *self
        } else if self.mountpoint is None {
            !after.frozen && after.last_thaw_error == self.last_thaw_error
        } else {
            ||| {
                &&& call_ensures(thaw, (&self.mountpoint.unwrap(),), Ok::<(), E>(()))
                &&& !after.frozen
                &&& after.last_thaw_error == self.last_thaw_error
            }
            ||| {
                &&& after.frozen
                &&& after.last_thaw_error matches Some(e) && call_ensures(
                    thaw,
                    (&self.mountpoint.unwrap(),),
                    Err::<(), E>(e),
                )
            }
        }
    }

    /// Thaws the currently held freeze, if any. A failed thaw is recorded (the
    /// filesystem may still be frozen) and tried again by later calls.
    pub fn thaw<T: Fn(&String) -> Result<(), E>>(&mut self, thaw: &T)
        requires
            old(self).mountpoint matches Some(m) ==> call_requires(*thaw, (&m,)),
        ensures
            old(self).thawed(*thaw, *final(self)),
            old(self).wf() ==> final(self).wf(),
    {
        if !self.frozen {
            return;
        }
        let result = match &self.mountpoint {
            Some(m) => thaw(m),
            None => Ok(()),
        };
        match result {
            Ok(done) => {
                assert(done == ());
                self.frozen = false;
            },
            Err(e) => {
                self.last_thaw_error = Some(e);
            },
        }
    }

    /// Gives a held freeze back.
    pub fn release<T: Fn(&String) -> Result<(), E>>(&mut self, guard: FreezeGuard, thaw: &T)
        requires
            old(self).mountpoint matches Some(m) ==> call_requires(*thaw, (&m,)),
        ensures
            old(self).thawed(*thaw, *final(self)),
            old(self).wf() ==> final(self).wf(),
    {
        self.thaw(thaw);
    }

    /// Returns, and clears, the recorded thaw failure, if any.
    pub fn take_thaw_error(&mut self) -> (r: Option<E>)
        ensures
            r == old(self).last_thaw_error,
            final(self).last_thaw_error is None,
            final(self).mountpoint == old(self).mountpoint,
            final(self).frozen == old(self).frozen,
    {
        self.last_thaw_error.take()
    }
}

/// A failed thaw is never lost: the controller stays frozen, so that the thaw is
/// tried again, and the failure is there to be taken.
pub proof fn law_failed_thaw_is_kept<E, T: Fn(&String) -> Result<(), E>>(
    before: FreezeController<E>,
    after: FreezeController<E>,
    thaw: T,
)
    requires
        before.wf(),
        before.frozen,
        before.thawed(thaw, after),
        !call_ensures(thaw, (&before.mountpoint.unwrap(),), Ok::<(), E>(())),
    ensures
        after.frozen,
        after.last_thaw_error is Some,
        after.wf(),
{
}

/// A freeze that is held is let go by a thaw that cannot fail; a thaw without one
/// changes nothing; and no thaw changes what is mounted or forgets a failure.
pub proof fn law_thaw_lets_go<E, T: Fn(&String) -> Result<(), E>>(
    before: FreezeController<E>,
    after: FreezeController<E>,
    thaw: T,
)
    requires
        before.wf(),
        before.thawed(thaw, after),
    ensures
        after.mountpoint == before.mountpoint,
        !before.frozen ==> after == before,
        before.frozen && (forall|e: E| !#[trigger]
            call_ensures(thaw, (&before.mountpoint.unwrap(),), Err::<(), E>(e))) ==> !after.frozen
            && after.last_thaw_error == before.last_thaw_error,
        before.last_thaw_error is Some ==> after.last_thaw_error is Some,
        after.frozen ==> before.frozen,
{
}

} // verus!
