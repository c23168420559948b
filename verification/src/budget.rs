//! The memory that one bounded resolution may take.

use vstd::prelude::*;

use crate::errors::{IndexedReaderError, ScalarPhase};
use crate::object::{Object, ObjectId, ObjectView};

verus! {

/// An allowance as a mathematical value.
pub struct PermitView {
    pub limit: u64,
    pub current: u64,
    pub peak: u64,
    pub cancelled: bool,
    pub closed: bool,
}

impl PermitView {
    /// The allowance with `bytes` more taken out of it.
    pub open spec fn charged(self, bytes: u64) -> Self {
        let current = (self.current + bytes) as u64;
        PermitView {
            current,
            peak: if current > self.peak {
                current
            } else {
                self.peak
            },
            ..self
        }
    }

    /// The allowance with `bytes` given back to it.
    pub open spec fn returned(self, bytes: u64) -> Self {
        PermitView {
            current: if bytes < self.current {
                (self.current - bytes) as u64
            } else {
                0
            },
            ..self
        }
    }

    /// The allowance after an attempt to take `bytes` out of it, or why that is refused.
    pub open spec fn reserved(self, id: ObjectId, bytes: u64, phase: ScalarPhase) -> Result<Self, IndexedReaderError> {
        if self.closed {
            Err(IndexedReaderError::ScalarResolutionClosed { id, phase })
        } else if self.cancelled {
            Err(IndexedReaderError::ScalarResolutionCancelled { id, phase })
        } else if self.current + bytes > self.limit {
            Err(
                IndexedReaderError::ScalarResourceLimit {
                    id,
                    requested: if self.current + bytes > u64::MAX {
                        u64::MAX
                    } else {
                        (self.current + bytes) as u64
                    },
                    limit: self.limit,
                    phase,
                },
            )
        } else {
            Ok(self.charged(bytes))
        }
    }

    /// What was taken never exceeds the limit.
    pub open spec fn well_formed(self) -> bool {
        self.current <= self.peak <= self.limit
    }

    /// The same allowance with the same taken out of it, at another time.
    pub open spec fn level_with(self, other: Self, more: u64) -> bool {
        &&& self.limit == other.limit
        &&& self.cancelled == other.cancelled
        &&& self.closed == other.closed
        &&& self.current == other.current + more
        &&& self.peak >= other.peak
    }
}

/// What has been taken out of an allowance.
#[derive(Clone, Copy, Debug, PartialEq, Eq, Structural)]
pub struct ScalarPermitStats {
    pub current_bytes: u64,
    pub peak_bytes: u64,
    pub cancelled: bool,
}

/// The memory that one resolution may take.
///
/// Everything that a resolution holds is taken out of the allowance before it is
/// allocated, and given back when it is let go.
pub struct ScalarResolutionPermit {
    limit: u64,
    current: u64,
    peak: u64,
    cancelled: bool,
    closed: bool,
}

/// Bytes that have been taken out of an allowance.
pub struct ScalarCharge {
    bytes: u64,
}

impl ScalarCharge {
    pub closed spec fn view(&self) -> u64 {
        self.bytes
    }

    /// How many bytes have been taken.
    pub fn bytes(&self) -> (r: u64)
        ensures
            r == self@,
    {
        self.bytes
    }

    /// Two charges as one.
    pub fn joined(self, other: ScalarCharge) -> (r: ScalarCharge)
        requires
            self@ + other@ <= u64::MAX,
        ensures
            r@ == self@ + other@,
    {
        ScalarCharge { bytes: self.bytes + other.bytes }
    }
}

impl ScalarResolutionPermit {
    pub closed spec fn view(&self) -> PermitView {
        PermitView {
            limit: self.limit,
            current: self.current,
            peak: self.peak,
            cancelled: self.cancelled,
            closed: self.closed,
        }
    }

    #[verifier::type_invariant]
    spec fn within_limit(self) -> bool {
        self@.well_formed()
    }

    /// An allowance of which nothing has been taken.
    pub fn new(limit_bytes: u64) -> (permit: Self)
        ensures
            permit@ == (PermitView { limit: limit_bytes, current: 0, peak: 0, cancelled: false, closed: false }),
    {
        ScalarResolutionPermit { limit: limit_bytes, current: 0, peak: 0, cancelled: false, closed: false }
    }

    /// How many bytes may be taken at most.
    pub fn limit_bytes(&self) -> (r: u64)
        ensures
            r == self@.limit,
            self@.well_formed(),
    {
        proof {
            use_type_invariant(self);
        }
        self.limit
    }

    /// What has been taken.
    pub fn stats(&self) -> (r: ScalarPermitStats)
        ensures
            r.current_bytes == self@.current,
            r.peak_bytes == self@.peak,
            r.cancelled == self@.cancelled,
            self@.well_formed(),
    {
        proof {
            use_type_invariant(self);
        }
        ScalarPermitStats { current_bytes: self.current, peak_bytes: self.peak, cancelled: self.cancelled }
    }

    /// Lets nothing more be taken.
    pub fn cancel(&mut self)
        ensures
            final(self)@ == (PermitView { cancelled: true, ..old(self)@ }),
    {
        proof {
            use_type_invariant(&*self);
        }
        self.cancelled = true;
    }

    /// Takes `bytes` out of the allowance, or refuses.
    pub fn reserve(&mut self, id: ObjectId, bytes: u64, phase: ScalarPhase) -> (r: Result<
        ScalarCharge,
        IndexedReaderError,
    >)
        ensures
            match old(self)@.reserved(id, bytes, phase) {
                Ok(after) => r matches Ok(charge) && charge@ == bytes && final(self)@ == after,
                Err(error) => r == Err::<ScalarCharge, IndexedReaderError>(error) && final(self)@ == old(self)@,
            },
            final(self)@.well_formed(),
    {
        proof {
            use_type_invariant(&*self);
        }
        if self.closed {
            return Err(IndexedReaderError::ScalarResolutionClosed { id, phase });
        }
        if self.cancelled {
            return Err(IndexedReaderError::ScalarResolutionCancelled { id, phase });
        }
        if bytes > self.limit - self.current {
            return Err(
                IndexedReaderError::ScalarResourceLimit {
                    id,
                    requested: self.current.saturating_add(bytes),
                    limit: self.limit,
                    phase,
                },
            );
        }
        let current: u64 = self.current + bytes;
        if current > self.peak {
            self.peak = current;
        }
        self.current = current;
        Ok(ScalarCharge { bytes })
    }

    /// Gives back what was taken.
    pub fn release(&mut self, charge: ScalarCharge)
        ensures
            final(self)@ == old(self)@.returned(charge@),
            final(self)@.well_formed(),
    {
        proof {
            use_type_invariant(&*self);
        }
        self.current = self.current.saturating_sub(charge.bytes);
    }

    /// Gives back all but `bytes` of what was taken. A charge never grows.
    pub fn shrink(&mut self, charge: ScalarCharge, bytes: u64) -> (r: ScalarCharge)
        ensures
            r@ == (if bytes < charge@ {
                bytes
            } else {
                charge@
            }),
            final(self)@ == old(self)@.returned((charge@ - r@) as u64),
            final(self)@.well_formed(),
    {
        proof {
            use_type_invariant(&*self);
        }
        if bytes < charge.bytes {
            self.current = self.current.saturating_sub(charge.bytes - bytes);
            ScalarCharge { bytes }
        } else {
            charge
        }
    }

    /// Ends the allowance, unless something has not been given back.
    pub fn close(&mut self) -> (r: Result<ScalarPermitStats, ScalarPermitStats>)
        ensures
            match r {
                Ok(stats) => {
                    &&& old(self)@.current == 0
                    &&& final(self)@ == (PermitView { closed: true, ..old(self)@ })
                    &&& stats == stats_of(old(self)@)
                },
                Err(stats) => {
                    &&& old(self)@.current != 0
                    &&& final(self)@ == old(self)@
                    &&& stats == stats_of(old(self)@)
                },
            },
    {
        let stats = self.stats();
        if self.current != 0 {
            return Err(stats);
        }
        self.closed = true;
        Ok(stats)
    }

    /// Gives back what a resolved object was charged, and hands the object over.
    pub fn settle(&mut self, scalar: BoundedScalar) -> (r: Object)
        ensures
            r@ == scalar@,
            final(self)@ == old(self)@.returned(scalar.charge()),
    {
        self.release(scalar.charge);
        scalar.object
    }
}

/// What has been taken out of an allowance.
pub open spec fn stats_of(permit: PermitView) -> ScalarPermitStats {
    ScalarPermitStats { current_bytes: permit.current, peak_bytes: permit.peak, cancelled: permit.cancelled }
}

/// An object that was resolved within an allowance, and what it was charged.
pub struct BoundedScalar {
    object: Object,
    retained: u64,
    peak: u64,
    charge: ScalarCharge,
}

impl BoundedScalar {
    pub closed spec fn view(&self) -> ObjectView {
        self.object@
    }

    /// The object as it is kept.
    pub closed spec fn kept(&self) -> Object {
        self.object
    }

    /// How many bytes the object keeps.
    pub closed spec fn retained(&self) -> u64 {
        self.retained
    }

    /// How many bytes were taken at most while the object was resolved.
    pub closed spec fn peak(&self) -> u64 {
        self.peak
    }

    /// How many bytes are still taken.
    pub closed spec fn charge(&self) -> u64 {
        self.charge@
    }

    pub(crate) fn new(object: Object, retained: u64, peak: u64, charge: ScalarCharge) -> (scalar: Self)
        ensures
            scalar@ == object@,
            scalar.kept() == object,
            scalar.retained() == retained,
            scalar.peak() == peak,
            scalar.charge() == charge@,
    {
        BoundedScalar { object, retained, peak, charge }
    }

    /// The object.
    pub fn as_object(&self) -> (r: &Object)
        ensures
            r@ == self@,
            *r == self.kept(),
    {
        &self.object
    }

    /// How many bytes the object keeps.
    pub fn retained_bytes(&self) -> (r: u64)
        ensures
            r == self.retained(),
    {
        self.retained
    }

    /// How many bytes were taken at most while the object was resolved.
    pub fn peak_bytes(&self) -> (r: u64)
        ensures
            r == self.peak(),
    {
        self.peak
    }
}

/// What is given back after it was taken leaves the allowance as it was, but for
/// its peak.
pub proof fn law_charges_are_released(permit: PermitView, id: ObjectId, bytes: u64, phase: ScalarPhase)
    requires
        permit.well_formed(),
    ensures
        permit.reserved(id, bytes, phase) matches Ok(after) ==> after.well_formed() && after.returned(
            bytes,
        ).level_with(permit, 0),
{
}

} // verus!
