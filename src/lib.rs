//! Choosing segment boundaries for succinct revocation filters.
//!
//! Given per-bucket counts of certificates (`n`) and of revoked
//! certificates among them (`r`), the library estimates the encoded size
//! of a filter over a run of buckets and finds the split of the buckets
//! into contiguous segments whose total estimated size is least.

pub mod error;
pub mod cost;
pub mod partition;
