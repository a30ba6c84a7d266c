//! Evidence status and expiry semantics.
use vstd::prelude::*;

use crate::clock::Duration;

verus! {

/// Support for a predicate, rather than whether its physical situation is desirable.
#[derive(Debug, Clone, Copy, PartialEq, Eq, Structural, Hash)]
pub enum AssuranceStatus {
    Valid,
    Unknown,
    Invalid,
}

/// The status of a simple evidence record; the same three values as [`AssuranceStatus`].
pub type EvidenceStatus = AssuranceStatus;

/// A VALID value always has a horizon; unsupported values cannot carry one.
#[derive(Debug, Clone, Copy, PartialEq, Eq, Structural, Hash)]
pub enum AssuranceValue {
    Valid { horizon: Duration },
    Unknown,
    Invalid,
}

/// The status that a value carries.
pub open spec fn status_of(v: AssuranceValue) -> AssuranceStatus {
    match v {
        AssuranceValue::Valid { .. } => AssuranceStatus::Valid,
        AssuranceValue::Unknown => AssuranceStatus::Unknown,
        AssuranceValue::Invalid => AssuranceStatus::Invalid,
    }
}

/// The horizon that a value carries, if it is VALID.
pub open spec fn horizon_of(v: AssuranceValue) -> Option<Duration> {
    match v {
        AssuranceValue::Valid { horizon } => Some(horizon),
        _ => None,
    }
}

impl AssuranceValue {
    /// The status this value carries.
    pub fn status(self) -> (s: AssuranceStatus)
        ensures
            s == status_of(self),
    {
        match self {
            AssuranceValue::Valid { .. } => AssuranceStatus::Valid,
            AssuranceValue::Unknown => AssuranceStatus::Unknown,
            AssuranceValue::Invalid => AssuranceStatus::Invalid,
        }
    }

    /// The horizon of a VALID value; none otherwise.
    pub fn horizon(self) -> (h: Option<Duration>)
        ensures
            h == horizon_of(self),
    {
        match self {
            AssuranceValue::Valid { horizon } => Some(horizon),
            _ => None,
        }
    }
}

/// Latest observation metadata and its current logical status.
/// Runtime expiry changes status, but preserves the observation's version.
#[derive(Debug, PartialEq, Eq)]
pub struct EvidenceAtom {
    pub evidence_id: String,
    pub evidence_type: String,
    pub predicate: String,
    pub source_id: String,
    pub version: u64,
    pub observed_at: Duration,
    pub expires_at: Duration,
    pub status: AssuranceStatus,
    pub payload_hash: Option<String>,
}

/// The value of an observation at time `now`: nothing is known of an observation
/// from the future; a VALID observation supports its predicate until, but not at,
/// its expiry; INVALID stays INVALID; everything else is UNKNOWN.
pub open spec fn atom_value(atom: EvidenceAtom, now: nat) -> AssuranceValue {
    if atom.observed_at@ > now {
        AssuranceValue::Unknown
    } else {
        match atom.status {
            AssuranceStatus::Valid => if now < atom.expires_at@ {
                AssuranceValue::Valid { horizon: atom.expires_at }
            } else {
                AssuranceValue::Unknown
            },
            AssuranceStatus::Invalid => AssuranceValue::Invalid,
            AssuranceStatus::Unknown => AssuranceValue::Unknown,
        }
    }
}

impl EvidenceAtom {
    /// The value of this observation at `now`.
    pub fn value_at(&self, now: Duration) -> (v: AssuranceValue)
        ensures
            v == atom_value(*self, now@),
    {
        if now.lt(&self.observed_at) {
            return AssuranceValue::Unknown;
        }
        match self.status {
            AssuranceStatus::Valid => if now.lt(&self.expires_at) {
                AssuranceValue::Valid { horizon: self.expires_at }
            } else {
                AssuranceValue::Unknown
            },
            AssuranceStatus::Invalid => AssuranceValue::Invalid,
            AssuranceStatus::Unknown => AssuranceValue::Unknown,
        }
    }
}

/// Copies an optional string exactly.
pub fn copy_opt_string(s: &Option<String>) -> (r: Option<String>)
    ensures
        r == *s,
{
    match s {
        Some(x) => Some(x.clone()),
        None => None,
    }
}

impl Clone for EvidenceAtom {
    fn clone(&self) -> (r: Self)
        ensures
            r == *self,
    {
        EvidenceAtom {
            evidence_id: self.evidence_id.clone(),
            evidence_type: self.evidence_type.clone(),
            predicate: self.predicate.clone(),
            source_id: self.source_id.clone(),
            version: self.version,
            observed_at: self.observed_at,
            expires_at: self.expires_at,
            status: self.status,
            payload_hash: copy_opt_string(&self.payload_hash),
        }
    }
}

/// A simple evidence record: a declared status and the deadline of its support.
#[derive(Debug, Clone, Copy, PartialEq, Eq, Structural)]
pub struct EvidenceRecord {
    pub status: EvidenceStatus,
    pub expires_at: Duration,
}

/// The effective status of a record at `now`: VALID only while `now < expires_at`,
/// UNKNOWN at and after expiry; UNKNOWN and INVALID are kept as declared.
pub open spec fn record_status(record: EvidenceRecord, now: nat) -> EvidenceStatus {
    match record.status {
        AssuranceStatus::Valid => if now < record.expires_at@ {
            AssuranceStatus::Valid
        } else {
            AssuranceStatus::Unknown
        },
        s => s,
    }
}

impl EvidenceRecord {
    /// The effective status of this record at `now`.
    pub fn status_at(&self, now: Duration) -> (s: EvidenceStatus)
        ensures
            s == record_status(*self, now@),
    {
        match self.status {
            AssuranceStatus::Valid => if now.lt(&self.expires_at) {
                AssuranceStatus::Valid
            } else {
                AssuranceStatus::Unknown
            },
            s => s,
        }
    }
}

} // verus!
