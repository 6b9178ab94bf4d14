//! What holds of whole runs: a run over a list of fetched feeds, and runs repeated.

use vstd::prelude::*;
use crate::diff::{after_feed, fresh, keys_of, new_reports, report_of, reports_of, ReportModel};
use crate::feed::{entry_key, EntryModel};
use crate::store::seen_of;

verus! {

/// The store after a run that processes the fetched feeds `feeds` (each a URL and
/// its entries) in order, starting from the store `m`: what successive calls of
/// `plan_feed` (or `process_feed`) leave, by their `ensures`.
pub open spec fn run_store(
    m: Map<Seq<char>, Set<Seq<char>>>,
    feeds: Seq<(Seq<char>, Seq<EntryModel>)>,
) -> Map<Seq<char>, Set<Seq<char>>>
    decreases feeds.len(),
{
    if feeds.len() == 0 {
        m
    } else {
        let prev = feeds.drop_last();
        after_feed(run_store(m, prev), feeds.last().0, feeds.last().1)
    }
}

/// The reports of such a run, one sequence per fetched feed: what those calls
/// return, by their `ensures`.
pub open spec fn run_reports(
    m: Map<Seq<char>, Set<Seq<char>>>,
    feeds: Seq<(Seq<char>, Seq<EntryModel>)>,
) -> Seq<Seq<ReportModel>>
    decreases feeds.len(),
{
    if feeds.len() == 0 {
        Seq::empty()
    } else {
        let prev = feeds.drop_last();
        run_reports(m, prev).push(new_reports(run_store(m, prev), feeds.last().0, feeds.last().1))
    }
}

/// How many of the reports `rs` carry the link `k`.
pub open spec fn count_link(rs: Seq<ReportModel>, k: Seq<char>) -> nat
    decreases rs.len(),
{
    if rs.len() == 0 {
        0
    } else {
        count_link(rs.drop_last(), k) + if rs.last().link == k {
            1nat
        } else {
            0nat
        }
    }
}

/// Every key that `m1` records for a feed, `m2` records too.
pub open spec fn covers(m2: Map<Seq<char>, Set<Seq<char>>>, m1: Map<Seq<char>, Set<Seq<char>>>) -> bool {
    forall|u: Seq<char>| #[trigger] seen_of(m1, u).subset_of(seen_of(m2, u))
}

proof fn lemma_keys_of_drop_last(es: Seq<EntryModel>)
    requires
        es.len() > 0,
    ensures
        keys_of(es) == keys_of(es.drop_last()).insert(entry_key(es.last())),
{
    let p = es.drop_last();
    assert forall|k: Seq<char>| #[trigger] keys_of(es).contains(k) == keys_of(p).insert(entry_key(es.last())).contains(k) by {
        if keys_of(es).contains(k) {
            let j = choose|j: int| 0 <= j < es.len() && entry_key(es[j]) == k;
            if j < p.len() {
                assert(p[j] == es[j]);
            }
        }
        if keys_of(p).contains(k) {
            let j = choose|j: int| 0 <= j < p.len() && entry_key(p[j]) == k;
            assert(es[j] == p[j]);
        }
        if k == entry_key(es.last()) {
            assert(es[es.len() - 1] == es.last());
        }
    }
    assert(keys_of(es) =~= keys_of(p).insert(entry_key(es.last())));
}

proof fn lemma_count_push(rs: Seq<ReportModel>, r: ReportModel, k: Seq<char>)
    ensures
        count_link(rs.push(r), k) == count_link(rs, k) + if r.link == k {
            1nat
        } else {
            0nat
        },
{
    assert(rs.push(r).drop_last() =~= rs);
}

/// Within one fetched feed, a key is reported once if it is not yet known and some
/// entry carries it, and never otherwise.
pub proof fn lemma_fresh_count(seen: Set<Seq<char>>, es: Seq<EntryModel>, k: Seq<char>)
    ensures
        count_link(reports_of(fresh(seen, es)), k) == if !seen.contains(k) && keys_of(es).contains(k) {
            1nat
        } else {
            0nat
        },
    decreases es.len(),
{
    if es.len() == 0 {
        assert(reports_of(fresh(seen, es)) =~= Seq::<ReportModel>::empty());
        assert(!keys_of(es).contains(k));
    } else {
        let p = es.drop_last();
        let e = es.last();
        lemma_fresh_count(seen, p, k);
        lemma_keys_of_drop_last(es);
        if !seen.union(keys_of(p)).contains(entry_key(e)) {
            assert(reports_of(fresh(seen, p).push(e)) =~= reports_of(fresh(seen, p)).push(report_of(e)));
            lemma_count_push(reports_of(fresh(seen, p)), report_of(e), k);
        }
    }
}

/// When every key of `es` is already known, none of its entries is new.
pub proof fn lemma_fresh_none_when_known(seen: Set<Seq<char>>, es: Seq<EntryModel>)
    requires
        keys_of(es).subset_of(seen),
    ensures
        fresh(seen, es).len() == 0,
    decreases es.len(),
{
    if es.len() > 0 {
        lemma_keys_of_drop_last(es);
        lemma_fresh_none_when_known(seen, es.drop_last());
    }
}

/// A run only adds keys: the store after it covers the store before.
pub proof fn lemma_run_grows(m: Map<Seq<char>, Set<Seq<char>>>, feeds: Seq<(Seq<char>, Seq<EntryModel>)>)
    ensures
        covers(run_store(m, feeds), m),
    decreases feeds.len(),
{
    if feeds.len() > 0 {
        let p = feeds.drop_last();
        lemma_run_grows(m, p);
        let mp = run_store(m, p);
        assert forall|u: Seq<char>| #[trigger] seen_of(m, u).subset_of(seen_of(run_store(m, feeds), u)) by {
            assert(seen_of(m, u).subset_of(seen_of(mp, u)));
            assert(seen_of(mp, u).subset_of(seen_of(run_store(m, feeds), u)));
        }
    }
}

/// After a run, every key of every fetched feed is recorded for that feed.
pub proof fn lemma_run_records_all(
    m: Map<Seq<char>, Set<Seq<char>>>,
    feeds: Seq<(Seq<char>, Seq<EntryModel>)>,
    i: int,
)
    requires
        0 <= i < feeds.len(),
    ensures
        keys_of(feeds[i].1).subset_of(seen_of(run_store(m, feeds), feeds[i].0)),
    decreases feeds.len(),
{
    let p = feeds.drop_last();
    if i < feeds.len() - 1 {
        lemma_run_records_all(m, p, i);
        assert(p[i] == feeds[i]);
    }
}

/// A run from a store that already records every key of the fetched feeds
/// reports nothing.
pub proof fn lemma_run_silent_when_known(
    m: Map<Seq<char>, Set<Seq<char>>>,
    feeds: Seq<(Seq<char>, Seq<EntryModel>)>,
)
    requires
        forall|i: int| 0 <= i < feeds.len() ==> keys_of(#[trigger] feeds[i].1).subset_of(seen_of(m, feeds[i].0)),
    ensures
        run_reports(m, feeds).len() == feeds.len(),
        forall|i: int| 0 <= i < feeds.len() ==> (#[trigger] run_reports(m, feeds)[i]).len() == 0,
    decreases feeds.len(),
{
    if feeds.len() > 0 {
        let p = feeds.drop_last();
        assert forall|i: int| 0 <= i < p.len() implies keys_of(#[trigger] p[i].1).subset_of(seen_of(m, p[i].0)) by {
            assert(p[i] == feeds[i]);
        }
        lemma_run_silent_when_known(m, p);
        lemma_run_grows(m, p);
        let last = feeds.last();
        assert(last == feeds[feeds.len() - 1]);
        assert(seen_of(m, last.0).subset_of(seen_of(run_store(m, p), last.0)));
        lemma_fresh_none_when_known(seen_of(run_store(m, p), last.0), last.1);
        let rs = run_reports(m, feeds);
        assert forall|i: int| 0 <= i < feeds.len() implies (#[trigger] rs[i]).len() == 0 by {
            if i < p.len() {
                assert(rs[i] == run_reports(m, p)[i]);
            }
        }
    }
}

/// Running the job twice in a row over the same fetched feeds: the second run
/// reports nothing.
pub proof fn lemma_second_run_reports_nothing(
    m: Map<Seq<char>, Set<Seq<char>>>,
    feeds: Seq<(Seq<char>, Seq<EntryModel>)>,
)
    ensures
        run_reports(run_store(m, feeds), feeds).len() == feeds.len(),
        forall|i: int| 0 <= i < feeds.len() ==> (#[trigger] run_reports(run_store(m, feeds), feeds)[i]).len() == 0,
{
    assert forall|i: int| 0 <= i < feeds.len() implies keys_of(#[trigger] feeds[i].1).subset_of(seen_of(run_store(m, feeds), feeds[i].0)) by {
        lemma_run_records_all(m, feeds, i);
    }
    lemma_run_silent_when_known(run_store(m, feeds), feeds);
}

/// No two entries of `es` share a key.
pub open spec fn distinct_keys(es: Seq<EntryModel>) -> bool {
    forall|a: int, b: int|
        0 <= a < es.len() && 0 <= b < es.len() && a != b ==> entry_key(es[a]) != entry_key(es[b])
}

/// An entry whose key is unknown and carried by no earlier entry is new.
proof fn lemma_fresh_contains(seen: Set<Seq<char>>, es: Seq<EntryModel>, i: int)
    requires
        0 <= i < es.len(),
        !seen.contains(entry_key(es[i])),
        forall|j: int| 0 <= j < i ==> entry_key(#[trigger] es[j]) != entry_key(es[i]),
    ensures
        fresh(seen, es).contains(es[i]),
    decreases es.len(),
{
    let p = es.drop_last();
    if i == es.len() - 1 {
        if keys_of(p).contains(entry_key(es[i])) {
            let j = choose|j: int| 0 <= j < p.len() && entry_key(p[j]) == entry_key(es[i]);
            assert(es[j] == p[j]);
        }
        assert(fresh(seen, es) == fresh(seen, p).push(es[i]));
        assert(fresh(seen, es)[fresh(seen, p).len() as int] == es[i]);
    } else {
        assert forall|j: int| 0 <= j < i implies entry_key(#[trigger] p[j]) != entry_key(p[i]) by {
            assert(p[j] == es[j]);
        }
        lemma_fresh_contains(seen, p, i);
        assert(p[i] == es[i]);
        let k = choose|k: int| 0 <= k < fresh(seen, p).len() && fresh(seen, p)[k] == es[i];
        assert(fresh(seen, es)[k] == es[i]);
    }
}

/// With distinct keys and none of them known, every entry is new, in order.
proof fn lemma_fresh_all(seen: Set<Seq<char>>, es: Seq<EntryModel>)
    requires
        distinct_keys(es),
        seen.disjoint(keys_of(es)),
    ensures
        fresh(seen, es) == es,
    decreases es.len(),
{
    if es.len() > 0 {
        let p = es.drop_last();
        lemma_keys_of_drop_last(es);
        assert(distinct_keys(p));
        lemma_fresh_all(seen, p);
        if keys_of(p).contains(entry_key(es.last())) {
            let j = choose|j: int| 0 <= j < p.len() && entry_key(p[j]) == entry_key(es.last());
            assert(es[j] == p[j]);
            assert(es[es.len() - 1] == es.last());
        }
        assert(p.push(es.last()) =~= es);
    }
}

proof fn lemma_run_reports_len(
    m: Map<Seq<char>, Set<Seq<char>>>,
    feeds: Seq<(Seq<char>, Seq<EntryModel>)>,
)
    ensures
        run_reports(m, feeds).len() == feeds.len(),
    decreases feeds.len(),
{
    if feeds.len() > 0 {
        lemma_run_reports_len(m, feeds.drop_last());
    }
}

/// The reports of a run, feed by feed: those of feed `i` come from the store
/// left by the feeds before it.
pub proof fn lemma_run_reports_at(
    m: Map<Seq<char>, Set<Seq<char>>>,
    feeds: Seq<(Seq<char>, Seq<EntryModel>)>,
    i: int,
)
    requires
        0 <= i < feeds.len(),
    ensures
        run_reports(m, feeds).len() == feeds.len(),
        run_reports(m, feeds)[i] == new_reports(run_store(m, feeds.take(i)), feeds[i].0, feeds[i].1),
    decreases feeds.len(),
{
    let p = feeds.drop_last();
    lemma_run_reports_len(m, feeds);
    lemma_run_reports_len(m, p);
    if i == feeds.len() - 1 {
        assert(feeds.take(i) =~= p);
        assert(feeds.last() == feeds[i]);
    } else {
        lemma_run_reports_at(m, p, i);
        assert(p.take(i) =~= feeds.take(i));
        assert(p[i] == feeds[i]);
    }
}

/// Re-fetching one feed any number of times: an entry never seen before, present
/// in every fetch, where the entries of each fetch have distinct keys, is
/// reported in the first run, and in all runs together exactly once.
pub proof fn lemma_reported_exactly_once(
    m: Map<Seq<char>, Set<Seq<char>>>,
    u: Seq<char>,
    fetches: Seq<(Seq<char>, Seq<EntryModel>)>,
    e: EntryModel,
)
    requires
        fetches.len() > 0,
        forall|i: int| 0 <= i < fetches.len() ==> (#[trigger] fetches[i]).0 == u,
        forall|i: int| 0 <= i < fetches.len() ==> (#[trigger] fetches[i]).1.contains(e),
        forall|i: int| 0 <= i < fetches.len() ==> distinct_keys((#[trigger] fetches[i]).1),
        !seen_of(m, u).contains(entry_key(e)),
    ensures
        run_reports(m, fetches).len() == fetches.len(),
        run_reports(m, fetches)[0].contains(report_of(e)),
        count_link(run_reports(m, fetches)[0], entry_key(e)) == 1,
        forall|i: int| 0 < i < fetches.len() ==> count_link(#[trigger] run_reports(m, fetches)[i], entry_key(e)) == 0,
{
    let k = entry_key(e);
    let f0 = fetches[0].1;
    let a = choose|a: int| 0 <= a < f0.len() && f0[a] == e;
    assert(keys_of(f0).contains(k));
    lemma_run_reports_at(m, fetches, 0);
    assert(fetches.take(0) =~= Seq::<(Seq<char>, Seq<EntryModel>)>::empty());
    lemma_fresh_count(seen_of(m, u), f0, k);
    lemma_fresh_contains(seen_of(m, u), f0, a);
    let fr = fresh(seen_of(m, u), f0);
    let j = choose|j: int| 0 <= j < fr.len() && fr[j] == e;
    assert(reports_of(fr)[j] == report_of(e));
    assert forall|i: int| 0 < i < fetches.len() implies count_link(#[trigger] run_reports(m, fetches)[i], k) == 0 by {
        lemma_run_reports_at(m, fetches, i);
        let before = fetches.take(i);
        assert(before[0] == fetches[0]);
        lemma_run_records_all(m, before, 0);
        lemma_fresh_count(seen_of(run_store(m, before), u), fetches[i].1, k);
    }
}

/// A first run, from an empty store: every key that an entry carries is reported
/// exactly once and recorded for the feed; when the entries' keys are distinct,
/// every entry is reported, in order.
pub proof fn lemma_first_run(u: Seq<char>, es: Seq<EntryModel>)
    ensures
        forall|k: Seq<char>| #[trigger] keys_of(es).contains(k)
            ==> count_link(new_reports(Map::empty(), u, es), k) == 1,
        after_feed(Map::empty(), u, es)[u] == keys_of(es),
        distinct_keys(es) ==> new_reports(Map::empty(), u, es) == reports_of(es),
{
    let m = Map::<Seq<char>, Set<Seq<char>>>::empty();
    assert(seen_of(m, u) == Set::<Seq<char>>::empty());
    assert forall|k: Seq<char>| #[trigger] keys_of(es).contains(k)
        implies count_link(new_reports(m, u, es), k) == 1 by {
        lemma_fresh_count(seen_of(m, u), es, k);
    }
    assert(Set::<Seq<char>>::empty().union(keys_of(es)) =~= keys_of(es));
    if distinct_keys(es) {
        lemma_fresh_all(seen_of(m, u), es);
    }
}

} // verus!
