//! The cache refresh engine's decisions: when a cached snapshot is fresh
//! enough to serve, and how per-symbol fetch results are collected into a
//! new snapshot when it is not.

use vstd::prelude::*;

use crate::codec::enc_doc;
use crate::codec::encode_snapshot;
use crate::codec::lemma_parse_undoes_encode;
use crate::codec::parse_snapshot;
use crate::codec::plain_points;
use crate::codec::spec_parse_doc;
use crate::model::PricePoint;
use crate::model::Snapshot;
use crate::model::points_model;

verus! {

/// A snapshot fetched at `fetched_at` is fresh at `now` when its age is
/// under the staleness threshold. A timestamp from the future counts as
/// fresh: its age is negative.
pub open spec fn fresh(fetched_at: u64, now: u64, threshold: u64) -> bool {
    now - fetched_at < threshold
}

/// The serve-or-refresh decision: the cached snapshot is served unchanged
/// exactly when one is present and still fresh; otherwise the caller must
/// run a fetch cycle, so a fetch cycle happens if and only if the result is
/// `None`.
pub fn serve_cached(cached: Option<Snapshot>, now: u64, threshold: u64) -> (r: Option<Snapshot>)
    ensures
        r is Some <==> (cached matches Some(snap) && fresh(snap.fetched_at, now, threshold)),
        r is Some ==> r == cached,
{
    match cached {
        Some(snap) => {
            if snap.fetched_at > now || now - snap.fetched_at < threshold {
                Some(snap)
            } else {
                None
            }
        },
        None => None,
    }
}

/// The points among the per-symbol results that succeeded, in request
/// order: a failed symbol is simply left out.
pub open spec fn collect_successes(results: Seq<Option<PricePoint>>) -> Seq<PricePoint> {
    results.filter_map(|o: Option<PricePoint>| o)
}

/// How many of the per-symbol results failed.
pub open spec fn count_failures(results: Seq<Option<PricePoint>>) -> nat
    decreases results.len(),
{
    if results.len() == 0 {
        0
    } else {
        count_failures(results.drop_last()) + if results.last() is None {
            1nat
        } else {
            0nat
        }
    }
}

/// Build the snapshot of one fetch cycle: it is stamped with the cycle's
/// time, and holds exactly the successful results, in request order.
pub fn build_snapshot(now: u64, results: &Vec<Option<PricePoint>>) -> (s: Snapshot)
    ensures
        s.fetched_at == now,
        s.points@ == collect_successes(results@),
        (forall|k: int|
            0 <= k < results@.len() ==> ((#[trigger] results@[k]) matches Some(p) ==> p.wf()))
            ==> s.wf(),
{
    proof {
        if forall|k: int|
            0 <= k < results@.len() ==> ((#[trigger] results@[k]) matches Some(p) ==> p.wf()) {
            lemma_collected_points_wf(results@);
        }
    }
    let mut points: Vec<PricePoint> = Vec::new();
    let mut i: usize = 0;
    while i < results.len()
        invariant
            i <= results.len(),
            points@ == collect_successes(results@.take(i as int)),
        decreases results.len() - i,
    {
        match &results[i] {
            Some(p) => points.push(p.clone()),
            None => {},
        }
        proof {
            results@.lemma_filter_map_take_succ(|o: Option<PricePoint>| o, i as int);
            assert(points@ =~= collect_successes(results@.take(i + 1 as int)));
        }
        i += 1;
    }
    proof {
        assert(results@.take(results@.len() as int) =~= results@);
    }
    Snapshot { fetched_at: now, points }
}

/// Resolve against the cache document read from disk, if one was there.
/// The result is the cached snapshot exactly when a document is present,
/// is a canonical cache document, and is still fresh; in every other case
/// (no document, a corrupt one, or a stale one) it is `None` and a fetch
/// cycle must follow, so no fetch happens if and only if the cache hit.
pub fn resolve_cached(doc: Option<&str>, now: u64, threshold: u64) -> (r: Option<Snapshot>)
    ensures
        r is Some <==> (doc matches Some(d) && spec_parse_doc(d@) matches Some(parsed) && fresh(
            parsed.0,
            now,
            threshold,
        )),
        r matches Some(snap) ==> (doc matches Some(d) && spec_parse_doc(d@) == Some(
            (snap.fetched_at, points_model(snap.points@)),
        ) && snap.wf()),
{
    match doc {
        None => None,
        Some(d) => match parse_snapshot(d) {
            None => None,
            Some(snap) => serve_cached(Some(snap), now, threshold),
        },
    }
}

/// One full refresh cycle after a cache miss: the new snapshot built from
/// the per-symbol results, and the document that persists it, which the
/// caller writes over the old one wholesale. The document always carries
/// the cycle's own time, however many symbols failed.
pub fn refresh_cycle(now: u64, results: &Vec<Option<PricePoint>>) -> (out: (Snapshot, String))
    ensures
        out.0.fetched_at == now,
        out.0.points@ == collect_successes(results@),
        out.1@ == enc_doc(now, points_model(collect_successes(results@))),
        (forall|k: int|
            0 <= k < results@.len() ==> ((#[trigger] results@[k]) matches Some(p) ==> p.wf()))
            ==> (out.0.wf() && spec_parse_doc(out.1@) == Some(
            (now, points_model(collect_successes(results@))),
        )),
{
    let snap = build_snapshot(now, results);
    let doc = encode_snapshot(&snap);
    proof {
        if snap.wf() {
            lemma_persisted_snapshot_rereads(snap);
        }
    }
    (snap, doc)
}

/// Partial-failure law: when `k` of the `n` requested symbols fail, the
/// collected snapshot holds exactly `n - k` points; they are the successful
/// results themselves, in their request order, as `collect_successes`
/// states directly.
pub proof fn lemma_partial_failure(results: Seq<Option<PricePoint>>)
    ensures
        collect_successes(results).len() + count_failures(results) == results.len(),
    decreases results.len(),
{
    if results.len() > 0 {
        lemma_partial_failure(results.drop_last());
    }
}

/// When every successful result is well formed — as every point the
/// response parser hands out is — so is everything that was collected.
pub proof fn lemma_collected_points_wf(results: Seq<Option<PricePoint>>)
    requires
        forall|i: int|
            0 <= i < results.len() ==> ((#[trigger] results[i]) matches Some(p) ==> p.wf()),
    ensures
        forall|k: int|
            0 <= k < collect_successes(results).len() ==> (#[trigger] collect_successes(
                results,
            )[k]).wf(),
    decreases results.len(),
{
    if results.len() > 0 {
        let rest = results.drop_last();
        assert(forall|i: int| 0 <= i < rest.len() ==> rest[i] == results[i]);
        lemma_collected_points_wf(rest);
        assert(results[results.len() - 1] == results.last());
        assert forall|k: int| 0 <= k < collect_successes(results).len() implies (
        #[trigger] collect_successes(results)[k]).wf() by {
            if k < collect_successes(rest).len() {
                assert(collect_successes(results)[k] == collect_successes(rest)[k]);
            } else {
                assert(results.last() matches Some(p) && collect_successes(results)[k] == p);
            }
        }
    }
}

/// Persist-then-reread law: the document of a well-formed snapshot parses
/// back to exactly that snapshot's model, so a refresh cycle's write is
/// what the next resolution finds.
pub proof fn lemma_persisted_snapshot_rereads(snap: Snapshot)
    requires
        snap.wf(),
    ensures
        spec_parse_doc(enc_doc(snap.fetched_at, points_model(snap.points@))) == Some(
            (snap.fetched_at, points_model(snap.points@)),
        ),
{
    let pm = points_model(snap.points@);
    assert forall|i: int| 0 <= i < pm.len() implies crate::model::plain_text(
        (#[trigger] pm[i]).0,
    ) && crate::model::plain_text(pm[i].1) by {
        assert(pm[i] == snap.points@[i].model());
        assert(snap.points@[i].wf());
    }
    assert(plain_points(pm));
    lemma_parse_undoes_encode(snap.fetched_at, pm);
}

} // verus!
