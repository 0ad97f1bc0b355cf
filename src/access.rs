use vstd::prelude::*;

verus! {

#[derive(Clone, Copy, Debug, PartialEq, Eq, Structural)]
pub enum AccessError {
    /// No access was granted: `with_access` outside an `enter`/`exit` bracket.
    NotAvailable,
    /// `enter` while access is already granted.
    AlreadyEntered,
}

/// A lease on the host state store: between `enter` and `exit` the cell holds
/// the store and hands out exclusive access to it; at any other time every
/// access fails. The cell is not reentrant.
pub struct HostAccessCell<H> {
    host: Option<H>,
}

impl<H> HostAccessCell<H> {
    /// The store that the cell holds, if access is granted.
    pub closed spec fn lease(&self) -> Option<H> {
        self.host
    }

    pub open spec fn is_granted(&self) -> bool {
        self.lease() is Some
    }

    /// The leased store; meaningful only while access is granted.
    pub open spec fn held(&self) -> H {
        self.lease()->Some_0
    }

    pub fn new() -> (r: HostAccessCell<H>)
        ensures
            r.lease() is None,
    {
        HostAccessCell { host: None }
    }

    /// Whether access is granted now.
    pub fn granted(&self) -> (r: bool)
        ensures
            r == self.is_granted(),
    {
        self.host.is_some()
    }

    /// Grants access to `host` until `exit`. A second `enter` before `exit` is
    /// rejected: the cell is left as it was and `host` is handed back.
    pub fn enter(&mut self, host: H) -> (r: Result<(), (AccessError, H)>)
        ensures
            old(self).is_granted() ==> {
                &&& r == Err::<(), (AccessError, H)>((AccessError::AlreadyEntered, host))
                &&& final(self).lease() == old(self).lease()
            },
            !old(self).is_granted() ==> {
                &&& r is Ok
                &&& final(self).lease() == Some(host)
            },
    {
        if self.host.is_some() {
            Err((AccessError::AlreadyEntered, host))
        } else {
            self.host = Some(host);
            Ok(())
        }
    }

    /// Ends the lease and hands the store back.
    pub fn exit(&mut self) -> (r: Result<H, AccessError>)
        ensures
            old(self).is_granted() ==> r == Ok::<H, AccessError>(old(self).held()),
            !old(self).is_granted() ==> r == Err::<H, AccessError>(AccessError::NotAvailable),
            final(self).lease() is None,
    {
        match self.host.take() {
            Some(h) => Ok(h),
            None => Err(AccessError::NotAvailable),
        }
    }

    /// Exclusive access to the leased store. Fails outside an
    /// `enter`/`exit` bracket, and then changes nothing.
    pub fn with_access(&mut self) -> (r: Result<&mut H, AccessError>)
        ensures
            match r {
                Ok(h) => {
                    &&& old(self).is_granted()
                    &&& *h == old(self).held()
                    &&& final(self).lease() == Some(*final(h))
                },
                Err(e) => {
                    &&& !old(self).is_granted()
                    &&& e == AccessError::NotAvailable
                    &&& final(self).lease() == old(self).lease()
                },
            },
    {
        match &mut self.host {
            Some(h) => Ok(h),
            None => Err(AccessError::NotAvailable),
        }
    }
}

} // verus!
