//! The cache-aside executor.
//!
//! Per call, the protocol is a short state machine: derive the key, read
//! the store once, and either serve the decoded entry (hit), fail the call
//! on a corrupt entry, or run the computation, encode its result and write
//! it back once, best effort. The decision points are plain functions here,
//! so a blocking caller and a suspending caller drive the very same
//! machine: the calling convention only decides how the store is awaited
//! between the steps, never what the steps do.
//!
//! A read failure of any kind degrades to a miss — the computation always
//! runs and the caller always gets its result; only a corrupt entry on a
//! hit fails the call, with a distinguishable codec error. A write failure
//! is never surfaced as a call failure.

use vstd::prelude::*;
use crate::codec::{CodecError, decode, encode, lemma_codec_round_trip, spec_decode, spec_enc,
    val_bounded};
use crate::key::{BindingError, Bindings, derive_key, spec_key};
use crate::store::MemStore;
use crate::template::{KeyTemplate, TemplateError, plan_text, spec_scan};
use crate::value::{SpecValue, Value, val_model};

verus! {

/// The definition-time description of one wrapped function: its compiled
/// key template and the time-to-live applied to every write it performs.
#[derive(Debug, PartialEq, Eq)]
pub struct CachePolicy {
    pub template: KeyTemplate,
    pub ttl_ms: u64,
}

impl CachePolicy {
    /// Define a wrapped function: compile the template once, to be reused
    /// by every call. A malformed placeholder is rejected here, at
    /// definition time, never at call time.
    pub fn define(template_text: &str, ttl_ms: u64) -> (r: Result<CachePolicy, TemplateError>)
        ensures
            match r {
                Ok(p) => {
                    &&& spec_scan(template_text@, 0) == Some(p.template@)
                    &&& p.template.wf()
                    &&& plan_text(p.template@) == template_text@
                    &&& p.ttl_ms == ttl_ms
                },
                Err(_) => spec_scan(template_text@, 0) is None,
            },
    {
        match KeyTemplate::compile(template_text) {
            Ok(template) => Ok(CachePolicy { template, ttl_ms }),
            Err(e) => Err(e),
        }
    }

    /// Derive this call's concrete cache key from the live arguments.
    pub fn key_for(&self, args: &Bindings) -> (r: Result<String, BindingError>)
        ensures
            match r {
                Ok(s) => spec_key(self.template@, args@) == Ok::<Seq<char>, BindingError>(s@),
                Err(e) => spec_key(self.template@, args@) == Err::<Seq<char>, BindingError>(e),
            },
    {
        derive_key(&self.template, args)
    }
}

/// What one store read produced: a stored blob, no entry, or a store that
/// could not be reached at all.
#[derive(Debug, PartialEq, Eq)]
pub enum ReadOutcome {
    Hit(String),
    Miss,
    StoreUnavailable,
}

/// The decision the protocol takes after the read.
#[derive(Debug, PartialEq, Eq)]
pub enum AfterRead {
    /// The stored entry decoded: return it, without running the
    /// computation.
    UseCached(Value),
    /// The stored entry did not decode: fail this call, distinguishably.
    BadEntry(CodecError),
    /// No usable entry — not present, expired, or the store failed: run
    /// the computation.
    MustCompute,
}

/// The mathematical model of an [`AfterRead`] decision.
pub enum SpecAfterRead {
    UseCached(SpecValue),
    BadEntry,
    MustCompute,
}

impl View for AfterRead {
    type V = SpecAfterRead;

    open spec fn view(&self) -> SpecAfterRead {
        match self {
            AfterRead::UseCached(v) => SpecAfterRead::UseCached(val_model(*v)),
            AfterRead::BadEntry(_) => SpecAfterRead::BadEntry,
            AfterRead::MustCompute => SpecAfterRead::MustCompute,
        }
    }
}

/// The decision forced by what a read of `key` at instant `now_ms` finds
/// in a store holding `m`.
pub open spec fn spec_read(
    m: Map<Seq<char>, (Seq<char>, u64)>,
    key: Seq<char>,
    now_ms: u64,
) -> SpecAfterRead {
    if m.contains_key(key) && now_ms < m[key].1 {
        match spec_decode(m[key].0) {
            Some(v) => SpecAfterRead::UseCached(v),
            None => SpecAfterRead::BadEntry,
        }
    } else {
        SpecAfterRead::MustCompute
    }
}

/// Decide what this call does, given what the store read produced.
///
/// A present blob is decoded: the call serves it, or fails on a corrupt
/// entry. A miss computes; so does an unreachable store — a failing store
/// never prevents the wrapped computation from producing a result.
pub fn on_read(outcome: ReadOutcome) -> (r: AfterRead)
    ensures
        match outcome {
            ReadOutcome::Hit(blob) => match spec_decode(blob@) {
                Some(sv) => r matches AfterRead::UseCached(v) && v@ == sv,
                None => r matches AfterRead::BadEntry(_),
            },
            ReadOutcome::Miss => r == AfterRead::MustCompute,
            ReadOutcome::StoreUnavailable => r == AfterRead::MustCompute,
        },
{
    match outcome {
        ReadOutcome::Hit(blob) => match decode(blob.as_str()) {
            Ok(v) => AfterRead::UseCached(v),
            Err(e) => AfterRead::BadEntry(e),
        },
        ReadOutcome::Miss => AfterRead::MustCompute,
        ReadOutcome::StoreUnavailable => AfterRead::MustCompute,
    }
}

/// The read step of one call against the in-memory store: exactly one read
/// of `key` at instant `now_ms`, and the decision it forces.
pub fn read_step(store: &MemStore, key: &String, now_ms: u64) -> (r: AfterRead)
    ensures
        r@ == spec_read(store@, key@, now_ms),
{
    match store.get(key, now_ms) {
        Some(blob) => on_read(ReadOutcome::Hit(blob)),
        None => on_read(ReadOutcome::Miss),
    }
}

/// The write-back step of one call: encode the computed result and store
/// it under `key` with the policy's time-to-live — exactly one write.
pub fn write_step(store: &mut MemStore, key: &String, result: &Value, ttl_ms: u64, now_ms: u64)
    requires
        now_ms + ttl_ms <= u64::MAX,
    ensures
        final(store)@ == old(store)@.insert(
            key@,
            (spec_enc(val_model(*result)), (now_ms + ttl_ms) as u64),
        ),
{
    let blob = encode(result);
    store.set(key, &blob, ttl_ms, now_ms);
}

/// Law: cache-aside correctness of the hit path. Once a call has written
/// its computed value back, any read of the same key before the entry
/// expires serves exactly that value — the computation is not run again.
pub proof fn lemma_write_then_read_hits(
    m: Map<Seq<char>, (Seq<char>, u64)>,
    key: Seq<char>,
    v: SpecValue,
    exp: u64,
    later: u64,
)
    requires
        later < exp,
        val_bounded(v),
    ensures
        spec_read(m.insert(key, (spec_enc(v), exp)), key, later) == SpecAfterRead::UseCached(v),
{
    lemma_codec_round_trip(v);
}

/// Law: distinct keys do not collide. A write under one key changes no
/// read decision under any other key.
pub proof fn lemma_distinct_keys_independent(
    m: Map<Seq<char>, (Seq<char>, u64)>,
    k1: Seq<char>,
    k2: Seq<char>,
    e: (Seq<char>, u64),
    now_ms: u64,
)
    requires
        k1 != k2,
    ensures
        spec_read(m.insert(k2, e), k1, now_ms) == spec_read(m, k1, now_ms),
{
}

/// Law: expiry forces recomputation. A read of a key at or after its
/// entry's expiry instant decides to compute, as if nothing were stored.
pub proof fn lemma_expired_entry_recomputes(
    m: Map<Seq<char>, (Seq<char>, u64)>,
    key: Seq<char>,
    e: (Seq<char>, u64),
    later: u64,
)
    requires
        later >= e.1,
    ensures
        spec_read(m.insert(key, e), key, later) == SpecAfterRead::MustCompute,
{
}

} // verus!
