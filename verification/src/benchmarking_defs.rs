//! Cross-endpoint benchmark aggregation: per-endpoint extrema, the global
//! ascending ranking of every sample, and the best-per-endpoint leaderboard.
//!
//! Scores are carried as total-order keys (see [`crate::score_defs`]), so
//! ranking never collapses two distinct scores, and a NaN score never panics a
//! comparison: it merely never displaces a comparable one from the extrema.

use crate::addr_defs::IpAddress;
use crate::score_defs::is_nan_key;
use crate::score_defs::key_is_nan;
use crate::sysinfo_defs::SystemInfo;
use vstd::prelude::*;

verus! {

/// One benchmark measurement: the number of cores exercised and the score's
/// total-order key; a higher key means a better score.
#[derive(Debug, Clone, Copy, PartialEq, Eq, Structural)]
pub struct Benchmark {
    pub cores: usize,
    pub result: u64,
}

/// One endpoint's benchmark bundle as collected.
#[derive(Debug, Clone)]
pub struct Benchmarks {
    pub hostname: String,
    pub source_path: Option<String>,
    pub benchmarks: Vec<Benchmark>,
}

/// A sample bound to the identity of the endpoint that produced it, for
/// fleet-wide leaderboards.
#[derive(Debug, Clone, PartialEq, Eq)]
pub struct FlatBenchmarks {
    pub hostname: String,
    pub ip: IpAddress,
    pub benchmark: Benchmark,
}

/// One endpoint's full report: identity, benchmark samples and hardware
/// snapshot. The address is required, so every report entering the aggregator
/// carries a resolved identity.
#[derive(Debug, Clone)]
pub struct FullSystemInfo {
    pub hostname: String,
    pub app_version: Option<String>,
    pub ip: IpAddress,
    pub source_path: Option<String>,
    pub benchmarks: Vec<Benchmark>,
    pub sysinfo: SystemInfo,
}

/// Whether candidate `x` displaces the current minimum `m`: a NaN score never
/// displaces, a comparable score displaces a NaN one, and otherwise only a
/// strictly lower key wins, so the first-encountered sample is kept on ties.
pub open spec fn prefers_min(x: Benchmark, m: Benchmark) -> bool {
    !is_nan_key(x.result) && (is_nan_key(m.result) || x.result < m.result)
}

/// Whether candidate `x` displaces the current maximum `m`; the mirror of
/// [`prefers_min`].
pub open spec fn prefers_max(x: Benchmark, m: Benchmark) -> bool {
    !is_nan_key(x.result) && (is_nan_key(m.result) || x.result > m.result)
}

/// The minimum of a non-empty sample list: the first sample whose key is
/// lowest among the non-NaN samples, or the first sample if all are NaN.
pub open spec fn min_benchmark_of(s: Seq<Benchmark>) -> Benchmark
    recommends
        s.len() > 0,
    decreases s.len(),
{
    if s.len() <= 1 {
        s[0]
    } else {
        let m = min_benchmark_of(s.drop_last());
        if prefers_min(s.last(), m) {
            s.last()
        } else {
            m
        }
    }
}

/// The maximum of a non-empty sample list; the mirror of
/// [`min_benchmark_of`].
pub open spec fn max_benchmark_of(s: Seq<Benchmark>) -> Benchmark
    recommends
        s.len() > 0,
    decreases s.len(),
{
    if s.len() <= 1 {
        s[0]
    } else {
        let m = max_benchmark_of(s.drop_last());
        if prefers_max(s.last(), m) {
            s.last()
        } else {
            m
        }
    }
}

/// The selected extrema are samples of the list, bound every sample whose
/// score is not NaN, and are themselves not NaN as soon as any sample is
/// comparable.
pub proof fn lemma_extrema_bound(s: Seq<Benchmark>)
    requires
        s.len() > 0,
    ensures
        exists|k: int| 0 <= k < s.len() && s[k] == min_benchmark_of(s),
        exists|k: int| 0 <= k < s.len() && s[k] == max_benchmark_of(s),
        forall|i: int|
            0 <= i < s.len() && !is_nan_key(s[i].result) ==> !is_nan_key(
                min_benchmark_of(s).result,
            ) && !is_nan_key(max_benchmark_of(s).result),
        forall|i: int|
            0 <= i < s.len() && !is_nan_key(s[i].result) ==> min_benchmark_of(s).result
                <= s[i].result && s[i].result <= max_benchmark_of(s).result,
    decreases s.len(),
{
    if s.len() == 1 {
        assert(s[0] == min_benchmark_of(s));
        assert(s[0] == max_benchmark_of(s));
    } else {
        lemma_extrema_bound(s.drop_last());
        assert forall|i: int| 0 <= i < s.len() - 1 implies s[i] == s.drop_last()[i] by {}
        let k_min = choose|k: int|
            0 <= k < s.drop_last().len() && s.drop_last()[k] == min_benchmark_of(s.drop_last());
        let k_max = choose|k: int|
            0 <= k < s.drop_last().len() && s.drop_last()[k] == max_benchmark_of(s.drop_last());
        assert(s[k_min] == min_benchmark_of(s.drop_last()));
        assert(s[k_max] == max_benchmark_of(s.drop_last()));
        assert(s.last() == s[s.len() - 1]);
    }
}

/// Whether a sample list is ranked ascending by score key.
pub open spec fn sorted_by_result(s: Seq<Benchmark>) -> bool {
    forall|i: int, j: int| 0 <= i < j < s.len() ==> s[i].result <= s[j].result
}

/// Every sample of every report, reports and samples in input order.
pub open spec fn flat_benchmarks_of(endpoints: Seq<FullSystemInfo>) -> Seq<Benchmark>
    decreases endpoints.len(),
{
    if endpoints.len() == 0 {
        Seq::empty()
    } else {
        endpoints[0].benchmarks@ + flat_benchmarks_of(endpoints.drop_first())
    }
}

/// Where a new sample lands among already-ranked samples: after every sample
/// whose key is not greater, so equal scores keep their earlier order.
pub open spec fn insert_ascending(s: Seq<Benchmark>, b: Benchmark) -> Seq<Benchmark>
    decreases s.len(),
{
    if s.len() == 0 {
        seq![b]
    } else if s[0].result <= b.result {
        seq![s[0]] + insert_ascending(s.drop_first(), b)
    } else {
        seq![b] + s
    }
}

/// The stable ascending ranking of a sample list by score key.
pub open spec fn rank_ascending(s: Seq<Benchmark>) -> Seq<Benchmark>
    decreases s.len(),
{
    if s.len() == 0 {
        Seq::empty()
    } else {
        insert_ascending(rank_ascending(s.drop_last()), s.last())
    }
}

proof fn lemma_flat_benchmarks_push(endpoints: Seq<FullSystemInfo>, ep: FullSystemInfo)
    ensures
        flat_benchmarks_of(endpoints.push(ep)) == flat_benchmarks_of(endpoints) + ep.benchmarks@,
    decreases endpoints.len(),
{
    assert(endpoints.push(ep)[0] == if endpoints.len() == 0 {
        ep
    } else {
        endpoints[0]
    });
    if endpoints.len() == 0 {
        assert(endpoints.push(ep).drop_first() =~= Seq::<FullSystemInfo>::empty());
        assert(flat_benchmarks_of(Seq::<FullSystemInfo>::empty()) =~= Seq::<Benchmark>::empty());
        assert(flat_benchmarks_of(endpoints.push(ep)) =~= ep.benchmarks@);
        assert(flat_benchmarks_of(endpoints) + ep.benchmarks@ =~= ep.benchmarks@);
    } else {
        assert(endpoints.push(ep).drop_first() =~= endpoints.drop_first().push(ep));
        lemma_flat_benchmarks_push(endpoints.drop_first(), ep);
        assert(flat_benchmarks_of(endpoints.push(ep)) =~= flat_benchmarks_of(endpoints)
            + ep.benchmarks@);
    }
}

/// Every element of an insertion's result is the inserted sample or one of
/// the list's.
proof fn lemma_insert_ascending_membership(s: Seq<Benchmark>, b: Benchmark)
    ensures
        insert_ascending(s, b).len() == s.len() + 1,
        forall|k: int|
            0 <= k < insert_ascending(s, b).len() ==> insert_ascending(s, b)[k] == b || exists|m: int|
                0 <= m < s.len() && s[m] == insert_ascending(s, b)[k],
    decreases s.len(),
{
    if s.len() == 0 {
    } else if s[0].result <= b.result {
        lemma_insert_ascending_membership(s.drop_first(), b);
        assert forall|k: int| 0 <= k < insert_ascending(s, b).len() implies insert_ascending(s, b)[k]
            == b || exists|m: int| 0 <= m < s.len() && s[m] == insert_ascending(s, b)[k] by {
            if k == 0 {
                assert(s[0] == insert_ascending(s, b)[0]);
            } else {
                let inner = insert_ascending(s.drop_first(), b);
                assert(insert_ascending(s, b)[k] == inner[k - 1]);
                if inner[k - 1] != b {
                    let m = choose|m: int|
                        0 <= m < s.drop_first().len() && s.drop_first()[m] == inner[k - 1];
                    assert(s[m + 1] == insert_ascending(s, b)[k]);
                }
            }
        }
    } else {
        assert forall|k: int| 0 <= k < insert_ascending(s, b).len() implies insert_ascending(s, b)[k]
            == b || exists|m: int| 0 <= m < s.len() && s[m] == insert_ascending(s, b)[k] by {
            if k > 0 {
                assert(s[k - 1] == insert_ascending(s, b)[k]);
            }
        }
    }
}

/// Inserting into a ranked list keeps it ranked.
proof fn lemma_insert_ascending_sorted(s: Seq<Benchmark>, b: Benchmark)
    requires
        sorted_by_result(s),
    ensures
        sorted_by_result(insert_ascending(s, b)),
    decreases s.len(),
{
    if s.len() == 0 {
    } else if s[0].result <= b.result {
        assert(sorted_by_result(s.drop_first()));
        lemma_insert_ascending_sorted(s.drop_first(), b);
        lemma_insert_ascending_membership(s.drop_first(), b);
        let r = insert_ascending(s, b);
        let inner = insert_ascending(s.drop_first(), b);
        assert forall|i: int, j: int| 0 <= i < j < r.len() implies r[i].result <= r[j].result by {
            if i == 0 {
                assert(r[j] == inner[j - 1]);
                if inner[j - 1] != b {
                    let m = choose|m: int|
                        0 <= m < s.drop_first().len() && s.drop_first()[m] == inner[j - 1];
                    assert(s[0].result <= s[m + 1].result);
                }
            } else {
                assert(r[i] == inner[i - 1] && r[j] == inner[j - 1]);
            }
        }
    } else {
    }
}

/// Insertion adds exactly the inserted sample to the list's contents.
proof fn lemma_insert_ascending_multiset(s: Seq<Benchmark>, b: Benchmark)
    ensures
        insert_ascending(s, b).to_multiset() == s.to_multiset().insert(b),
    decreases s.len(),
{
    broadcast use vstd::seq_lib::group_to_multiset_ensures;

    if s.len() == 0 {
        assert(s =~= Seq::<Benchmark>::empty());
        assert(seq![b] =~= Seq::<Benchmark>::empty().push(b));
        assert(Seq::<Benchmark>::empty().push(b).to_multiset()
            =~= Seq::<Benchmark>::empty().to_multiset().insert(b));
    } else if s[0].result <= b.result {
        lemma_insert_ascending_multiset(s.drop_first(), b);
        vstd::seq_lib::lemma_multiset_commutative(seq![s[0]], insert_ascending(s.drop_first(), b));
        vstd::seq_lib::lemma_multiset_commutative(seq![s[0]], s.drop_first());
        assert(seq![s[0]] + s.drop_first() =~= s);
        assert(insert_ascending(s, b).to_multiset() =~= s.to_multiset().insert(b));
    } else {
        vstd::seq_lib::lemma_multiset_commutative(seq![b], s);
        assert(seq![b] =~= Seq::<Benchmark>::empty().push(b));
        assert(Seq::<Benchmark>::empty().push(b).to_multiset()
            =~= Seq::<Benchmark>::empty().to_multiset().insert(b));
        assert(insert_ascending(s, b).to_multiset() =~= s.to_multiset().insert(b));
    }
}

/// The ranking loses no sample and invents none: its contents are exactly the
/// input's.
pub proof fn lemma_rank_ascending_permutes(s: Seq<Benchmark>)
    ensures
        rank_ascending(s).to_multiset() == s.to_multiset(),
    decreases s.len(),
{
    if s.len() == 0 {
        assert(rank_ascending(s) =~= s);
    } else {
        lemma_rank_ascending_permutes(s.drop_last());
        lemma_insert_ascending_multiset(rank_ascending(s.drop_last()), s.last());
        s.drop_last().to_multiset_ensures();
        assert(s.drop_last().push(s.last()) =~= s);
    }
}

/// The samples carrying one given score key.
pub open spec fn has_result(key: u64) -> spec_fn(Benchmark) -> bool {
    |x: Benchmark| x.result == key
}

proof fn lemma_filter_singleton(b: Benchmark, pred: spec_fn(Benchmark) -> bool)
    ensures
        seq![b].filter(pred) == if pred(b) {
            seq![b]
        } else {
            Seq::<Benchmark>::empty()
        },
{
    reveal(Seq::filter);
    assert(seq![b].drop_last() =~= Seq::<Benchmark>::empty());
    assert(seq![b].last() == b);
    assert(Seq::<Benchmark>::empty().filter(pred) == Seq::<Benchmark>::empty());
    if pred(b) {
        assert(Seq::<Benchmark>::empty().push(b) =~= seq![b]);
    }
}

proof fn lemma_filter_none(s: Seq<Benchmark>, pred: spec_fn(Benchmark) -> bool)
    requires
        forall|i: int| 0 <= i < s.len() ==> !pred(s[i]),
    ensures
        s.filter(pred) == Seq::<Benchmark>::empty(),
    decreases s.len(),
{
    reveal(Seq::filter);
    if s.len() > 0 {
        lemma_filter_none(s.drop_last(), pred);
    }
}

/// Inserting a sample adds it at the end of its own score's subsequence and
/// leaves every other score's subsequence unchanged.
proof fn lemma_insert_ascending_filter(s: Seq<Benchmark>, b: Benchmark, key: u64)
    requires
        sorted_by_result(s),
    ensures
        insert_ascending(s, b).filter(has_result(key)) == if b.result == key {
            s.filter(has_result(key)).push(b)
        } else {
            s.filter(has_result(key))
        },
    decreases s.len(),
{
    broadcast use vstd::prelude::Seq::filter_distributes_over_add;

    let pred = has_result(key);
    if s.len() == 0 {
        reveal(Seq::filter);
        lemma_filter_singleton(b, pred);
        assert(s.filter(pred) =~= Seq::<Benchmark>::empty());
        if b.result == key {
            assert(s.filter(pred).push(b) =~= seq![b]);
        }
    } else if s[0].result <= b.result {
        assert(sorted_by_result(s.drop_first()));
        lemma_insert_ascending_filter(s.drop_first(), b, key);
        lemma_filter_singleton(s[0], pred);
        let inner = insert_ascending(s.drop_first(), b);
        assert(insert_ascending(s, b) == seq![s[0]] + inner);
        assert(s =~= seq![s[0]] + s.drop_first());
        assert(s.filter(pred) == seq![s[0]].filter(pred) + s.drop_first().filter(pred));
        if b.result == key {
            assert(seq![s[0]].filter(pred) + s.drop_first().filter(pred).push(b) =~= (seq![s[0]].filter(
                pred,
            ) + s.drop_first().filter(pred)).push(b));
        }
    } else {
        lemma_filter_singleton(b, pred);
        assert(insert_ascending(s, b) == seq![b] + s);
        if b.result == key {
            assert(forall|i: int| 0 <= i < s.len() ==> s[0].result <= #[trigger] s[i].result);
            lemma_filter_none(s, pred);
            assert(seq![b] + s.filter(pred) =~= Seq::<Benchmark>::empty().push(b));
            assert(s.filter(pred).push(b) =~= Seq::<Benchmark>::empty().push(b));
            assert(seq![b].filter(pred) =~= seq![b]);
            assert(seq![b] + Seq::<Benchmark>::empty() =~= seq![b]);
        } else {
            assert(seq![b].filter(pred) + s.filter(pred) =~= s.filter(pred));
        }
    }
}

/// Ranking is stable: for every score, the samples carrying that score appear
/// in the ranking in the same order as in the input.
pub proof fn lemma_rank_ascending_stable(s: Seq<Benchmark>, key: u64)
    ensures
        rank_ascending(s).filter(has_result(key)) == s.filter(has_result(key)),
    decreases s.len(),
{
    broadcast use vstd::prelude::Seq::filter_distributes_over_add;

    let pred = has_result(key);
    if s.len() == 0 {
    } else {
        lemma_rank_ascending_stable(s.drop_last(), key);
        lemma_rank_ascending_sorted(s.drop_last());
        lemma_insert_ascending_filter(rank_ascending(s.drop_last()), s.last(), key);
        lemma_filter_singleton(s.last(), pred);
        assert(s =~= s.drop_last() + seq![s.last()]);
        assert(s.filter(pred) == s.drop_last().filter(pred) + seq![s.last()].filter(pred));
        if s.last().result == key {
            assert(s.drop_last().filter(pred) + seq![s.last()] =~= s.drop_last().filter(pred).push(
                s.last(),
            ));
        } else {
            assert(s.drop_last().filter(pred) + Seq::<Benchmark>::empty() =~= s.drop_last().filter(
                pred,
            ));
        }
    }
}

/// The ranking is ascending by score key.
pub proof fn lemma_rank_ascending_sorted(s: Seq<Benchmark>)
    ensures
        sorted_by_result(rank_ascending(s)),
    decreases s.len(),
{
    if s.len() == 0 {
    } else {
        lemma_rank_ascending_sorted(s.drop_last());
        lemma_insert_ascending_sorted(rank_ascending(s.drop_last()), s.last());
    }
}

/// Splitting an ascending insertion at the first strictly greater element.
proof fn lemma_insert_ascending_at(s: Seq<Benchmark>, b: Benchmark, idx: int)
    requires
        0 <= idx <= s.len(),
        forall|k: int| 0 <= k < idx ==> s[k].result <= b.result,
        idx < s.len() ==> s[idx].result > b.result,
    ensures
        insert_ascending(s, b) == s.take(idx) + seq![b] + s.skip(idx),
    decreases idx,
{
    if idx == 0 {
        assert(insert_ascending(s, b) =~= s.take(0) + seq![b] + s.skip(0));
    } else {
        lemma_insert_ascending_at(s.drop_first(), b, idx - 1);
        assert(insert_ascending(s, b) =~= seq![s[0]] + insert_ascending(s.drop_first(), b));
        assert(seq![s[0]] + (s.drop_first().take(idx - 1) + seq![b] + s.drop_first().skip(idx - 1))
            =~= s.take(idx) + seq![b] + s.skip(idx));
    }
}

/// The leaderboard order: strictly better scores first; endpoints whose best
/// scores tie are kept in address order, so no entry is lost and the order is
/// deterministic.
pub open spec fn leader_precedes(a: FlatBenchmarks, b: FlatBenchmarks) -> bool {
    a.benchmark.result > b.benchmark.result || (a.benchmark.result == b.benchmark.result
        && a.ip.value <= b.ip.value)
}

/// Whether a leaderboard is ordered: best score first, address breaking ties.
pub open spec fn sorted_leaderboard(s: Seq<FlatBenchmarks>) -> bool {
    forall|i: int, j: int| 0 <= i < j < s.len() ==> leader_precedes(s[i], s[j])
}

/// One endpoint's leaderboard entry: its identity and its best sample.
pub open spec fn best_entry_of(ep: FullSystemInfo) -> FlatBenchmarks {
    FlatBenchmarks { hostname: ep.hostname, ip: ep.ip, benchmark: max_benchmark_of(ep.benchmarks@) }
}

/// One leaderboard entry per endpoint that reported at least one sample, in
/// input order.
pub open spec fn best_entries_of(endpoints: Seq<FullSystemInfo>) -> Seq<FlatBenchmarks>
    decreases endpoints.len(),
{
    if endpoints.len() == 0 {
        Seq::empty()
    } else if endpoints[0].benchmarks@.len() > 0 {
        seq![best_entry_of(endpoints[0])] + best_entries_of(endpoints.drop_first())
    } else {
        best_entries_of(endpoints.drop_first())
    }
}

/// Where a new entry lands on the leaderboard: after every entry that
/// precedes it.
pub open spec fn insert_descending(s: Seq<FlatBenchmarks>, e: FlatBenchmarks) -> Seq<
    FlatBenchmarks,
>
    decreases s.len(),
{
    if s.len() == 0 {
        seq![e]
    } else if leader_precedes(s[0], e) {
        seq![s[0]] + insert_descending(s.drop_first(), e)
    } else {
        seq![e] + s
    }
}

/// The leaderboard ordering of a list of entries.
pub open spec fn rank_descending(s: Seq<FlatBenchmarks>) -> Seq<FlatBenchmarks>
    decreases s.len(),
{
    if s.len() == 0 {
        Seq::empty()
    } else {
        insert_descending(rank_descending(s.drop_last()), s.last())
    }
}

/// The whole fleet leaderboard: the best sample of each reporting endpoint,
/// best score first, addresses breaking ties.
pub open spec fn leaderboard_of(endpoints: Seq<FullSystemInfo>) -> Seq<FlatBenchmarks> {
    rank_descending(best_entries_of(endpoints))
}

proof fn lemma_best_entries_push(endpoints: Seq<FullSystemInfo>, ep: FullSystemInfo)
    ensures
        best_entries_of(endpoints.push(ep)) == best_entries_of(endpoints) + (if ep.benchmarks@.len()
            > 0 {
            seq![best_entry_of(ep)]
        } else {
            Seq::<FlatBenchmarks>::empty()
        }),
    decreases endpoints.len(),
{
    assert(endpoints.push(ep)[0] == if endpoints.len() == 0 {
        ep
    } else {
        endpoints[0]
    });
    if endpoints.len() == 0 {
        assert(endpoints.push(ep).drop_first() =~= Seq::<FullSystemInfo>::empty());
        assert(best_entries_of(Seq::<FullSystemInfo>::empty()) =~= Seq::<FlatBenchmarks>::empty());
        assert(best_entries_of(endpoints.push(ep)) =~= best_entries_of(endpoints) + (if ep.benchmarks@.len()
            > 0 {
            seq![best_entry_of(ep)]
        } else {
            Seq::<FlatBenchmarks>::empty()
        }));
    } else {
        assert(endpoints.push(ep).drop_first() =~= endpoints.drop_first().push(ep));
        lemma_best_entries_push(endpoints.drop_first(), ep);
        assert(best_entries_of(endpoints.push(ep)) =~= best_entries_of(endpoints) + (if ep.benchmarks@.len()
            > 0 {
            seq![best_entry_of(ep)]
        } else {
            Seq::<FlatBenchmarks>::empty()
        }));
    }
}

/// Every element of an insertion's result is the inserted entry or one of
/// the list's.
proof fn lemma_insert_descending_membership(s: Seq<FlatBenchmarks>, e: FlatBenchmarks)
    ensures
        insert_descending(s, e).len() == s.len() + 1,
        forall|k: int|
            0 <= k < insert_descending(s, e).len() ==> insert_descending(s, e)[k] == e || exists|
                m: int,
            | 0 <= m < s.len() && s[m] == insert_descending(s, e)[k],
    decreases s.len(),
{
    if s.len() == 0 {
    } else if leader_precedes(s[0], e) {
        lemma_insert_descending_membership(s.drop_first(), e);
        assert forall|k: int| 0 <= k < insert_descending(s, e).len() implies insert_descending(
            s,
            e,
        )[k] == e || exists|m: int| 0 <= m < s.len() && s[m] == insert_descending(s, e)[k] by {
            if k == 0 {
                assert(s[0] == insert_descending(s, e)[0]);
            } else {
                let inner = insert_descending(s.drop_first(), e);
                assert(insert_descending(s, e)[k] == inner[k - 1]);
                if inner[k - 1] != e {
                    let m = choose|m: int|
                        0 <= m < s.drop_first().len() && s.drop_first()[m] == inner[k - 1];
                    assert(s[m + 1] == insert_descending(s, e)[k]);
                }
            }
        }
    } else {
        assert forall|k: int| 0 <= k < insert_descending(s, e).len() implies insert_descending(
            s,
            e,
        )[k] == e || exists|m: int| 0 <= m < s.len() && s[m] == insert_descending(s, e)[k] by {
            if k > 0 {
                assert(s[k - 1] == insert_descending(s, e)[k]);
            }
        }
    }
}

/// Inserting into an ordered leaderboard keeps it ordered.
proof fn lemma_insert_descending_sorted(s: Seq<FlatBenchmarks>, e: FlatBenchmarks)
    requires
        sorted_leaderboard(s),
    ensures
        sorted_leaderboard(insert_descending(s, e)),
    decreases s.len(),
{
    if s.len() == 0 {
    } else if leader_precedes(s[0], e) {
        assert(sorted_leaderboard(s.drop_first()));
        lemma_insert_descending_sorted(s.drop_first(), e);
        lemma_insert_descending_membership(s.drop_first(), e);
        let r = insert_descending(s, e);
        let inner = insert_descending(s.drop_first(), e);
        assert forall|i: int, j: int| 0 <= i < j < r.len() implies leader_precedes(r[i], r[j]) by {
            if i == 0 {
                assert(r[j] == inner[j - 1]);
                if inner[j - 1] != e {
                    let m = choose|m: int|
                        0 <= m < s.drop_first().len() && s.drop_first()[m] == inner[j - 1];
                    assert(leader_precedes(s[0], s[m + 1]));
                }
            } else {
                assert(r[i] == inner[i - 1] && r[j] == inner[j - 1]);
            }
        }
    } else {
        let r = insert_descending(s, e);
        assert forall|i: int, j: int| 0 <= i < j < r.len() implies leader_precedes(r[i], r[j]) by {
            if i == 0 {
                assert(r[j] == s[j - 1]);
                assert(!leader_precedes(s[0], e));
                if j > 1 {
                    assert(leader_precedes(s[0], s[j - 1]));
                }
            } else {
                assert(r[i] == s[i - 1] && r[j] == s[j - 1]);
            }
        }
    }
}

/// Insertion adds exactly the inserted entry to the leaderboard's contents.
proof fn lemma_insert_descending_multiset(s: Seq<FlatBenchmarks>, e: FlatBenchmarks)
    ensures
        insert_descending(s, e).to_multiset() == s.to_multiset().insert(e),
    decreases s.len(),
{
    broadcast use vstd::seq_lib::group_to_multiset_ensures;

    if s.len() == 0 {
        assert(s =~= Seq::<FlatBenchmarks>::empty());
        assert(seq![e] =~= Seq::<FlatBenchmarks>::empty().push(e));
        assert(Seq::<FlatBenchmarks>::empty().push(e).to_multiset()
            =~= Seq::<FlatBenchmarks>::empty().to_multiset().insert(e));
    } else if leader_precedes(s[0], e) {
        lemma_insert_descending_multiset(s.drop_first(), e);
        vstd::seq_lib::lemma_multiset_commutative(seq![s[0]], insert_descending(s.drop_first(), e));
        vstd::seq_lib::lemma_multiset_commutative(seq![s[0]], s.drop_first());
        assert(seq![s[0]] + s.drop_first() =~= s);
        assert(insert_descending(s, e).to_multiset() =~= s.to_multiset().insert(e));
    } else {
        vstd::seq_lib::lemma_multiset_commutative(seq![e], s);
        assert(seq![e] =~= Seq::<FlatBenchmarks>::empty().push(e));
        assert(Seq::<FlatBenchmarks>::empty().push(e).to_multiset()
            =~= Seq::<FlatBenchmarks>::empty().to_multiset().insert(e));
        assert(insert_descending(s, e).to_multiset() =~= s.to_multiset().insert(e));
    }
}

/// The leaderboard ordering loses no entry and invents none: two endpoints
/// whose best scores tie both keep their entries.
pub proof fn lemma_leaderboard_permutes(s: Seq<FlatBenchmarks>)
    ensures
        rank_descending(s).to_multiset() == s.to_multiset(),
    decreases s.len(),
{
    broadcast use vstd::seq_lib::group_to_multiset_ensures;

    if s.len() == 0 {
        assert(rank_descending(s) =~= s);
    } else {
        lemma_leaderboard_permutes(s.drop_last());
        lemma_insert_descending_multiset(rank_descending(s.drop_last()), s.last());
        assert(s.drop_last().push(s.last()) =~= s);
    }
}

/// The leaderboard ordering is sorted: best score first, addresses breaking
/// ties.
pub proof fn lemma_leaderboard_sorted(s: Seq<FlatBenchmarks>)
    ensures
        sorted_leaderboard(rank_descending(s)),
    decreases s.len(),
{
    if s.len() > 0 {
        lemma_leaderboard_sorted(s.drop_last());
        lemma_insert_descending_sorted(rank_descending(s.drop_last()), s.last());
    }
}

/// Splitting a leaderboard insertion at the first entry the new one precedes
/// strictly.
proof fn lemma_insert_descending_at(s: Seq<FlatBenchmarks>, e: FlatBenchmarks, idx: int)
    requires
        0 <= idx <= s.len(),
        forall|k: int| 0 <= k < idx ==> leader_precedes(s[k], e),
        idx < s.len() ==> !leader_precedes(s[idx], e),
    ensures
        insert_descending(s, e) == s.take(idx) + seq![e] + s.skip(idx),
    decreases idx,
{
    if idx == 0 {
        assert(insert_descending(s, e) =~= s.take(0) + seq![e] + s.skip(0));
    } else {
        lemma_insert_descending_at(s.drop_first(), e, idx - 1);
        assert(insert_descending(s, e) =~= seq![s[0]] + insert_descending(s.drop_first(), e));
        assert(seq![s[0]] + (s.drop_first().take(idx - 1) + seq![e] + s.drop_first().skip(idx - 1))
            =~= s.take(idx) + seq![e] + s.skip(idx));
    }
}

/// Aggregation is idempotent: any two rankings and any two leaderboards built
/// from the same report list — as `get_all_benchmarks_sorted_by_result` and
/// `to_flat_benchmarks` promise of their results — are identical, so running
/// an aggregation twice on the same unmodified input produces identical
/// output both times.
pub proof fn lemma_aggregation_idempotent(
    endpoints: Seq<FullSystemInfo>,
    ranked1: Seq<Benchmark>,
    ranked2: Seq<Benchmark>,
    board1: Seq<FlatBenchmarks>,
    board2: Seq<FlatBenchmarks>,
)
    requires
        ranked1 == rank_ascending(flat_benchmarks_of(endpoints)),
        ranked2 == rank_ascending(flat_benchmarks_of(endpoints)),
        board1 == leaderboard_of(endpoints),
        board2 == leaderboard_of(endpoints),
    ensures
        ranked1 == ranked2,
        board1 == board2,
{
}

fn insert_leaderboard(board: &mut Vec<FlatBenchmarks>, e: FlatBenchmarks)
    ensures
        final(board)@ == insert_descending(old(board)@, e),
{
    let mut idx: usize = 0;
    while idx < board.len() && (board[idx].benchmark.result > e.benchmark.result || (
    board[idx].benchmark.result == e.benchmark.result && board[idx].ip.value <= e.ip.value))
        invariant
            0 <= idx <= board@.len(),
            forall|k: int| 0 <= k < idx ==> leader_precedes(board@[k], e),
        decreases board@.len() - idx,
    {
        idx = idx + 1;
    }
    proof {
        lemma_insert_descending_at(board@, e, idx as int);
    }
    board.insert(idx, e);
    proof {
        assert(board@ =~= old(board)@.take(idx as int) + seq![e] + old(board)@.skip(idx as int));
    }
}

fn insert_ranked(out: &mut Vec<Benchmark>, b: Benchmark)
    ensures
        final(out)@ == insert_ascending(old(out)@, b),
{
    let mut idx: usize = 0;
    while idx < out.len() && out[idx].result <= b.result
        invariant
            0 <= idx <= out@.len(),
            forall|k: int| 0 <= k < idx ==> out@[k].result <= b.result,
        decreases out@.len() - idx,
    {
        idx = idx + 1;
    }
    proof {
        lemma_insert_ascending_at(out@, b, idx as int);
    }
    out.insert(idx, b);
    proof {
        assert(out@ =~= old(out)@.take(idx as int) + seq![b] + old(out)@.skip(idx as int));
    }
}

impl FullSystemInfo {
    /// Flattens every sample of every report and ranks them ascending by
    /// score, equal scores keeping their input order. The result is fixed by
    /// the input alone, so identical input lists rank identically.
    pub fn get_all_benchmarks_sorted_by_result(endpoints: &[FullSystemInfo]) -> (r: Vec<Benchmark>)
        ensures
            r@ == rank_ascending(flat_benchmarks_of(endpoints@)),
            sorted_by_result(r@),
    {
        let mut all_benchmarks: Vec<Benchmark> = Vec::new();
        assert(endpoints@.take(0int) =~= Seq::<FullSystemInfo>::empty());
        for i in 0..endpoints.len()
            invariant
                all_benchmarks@ == flat_benchmarks_of(endpoints@.take(i as int)),
        {
            let ep = &endpoints[i];
            let ghost before = all_benchmarks@;
            for j in 0..ep.benchmarks.len()
                invariant
                    all_benchmarks@ == before + ep.benchmarks@.take(j as int),
            {
                all_benchmarks.push(ep.benchmarks[j]);
                proof {
                    assert(ep.benchmarks@.take(j as int).push(ep.benchmarks@[j as int])
                        =~= ep.benchmarks@.take(j as int + 1));
                    assert(all_benchmarks@ =~= before + ep.benchmarks@.take(j as int + 1));
                }
            }
            proof {
                assert(ep.benchmarks@.take(ep.benchmarks@.len() as int) =~= ep.benchmarks@);
                lemma_flat_benchmarks_push(endpoints@.take(i as int), endpoints@[i as int]);
                assert(endpoints@.take(i as int).push(endpoints@[i as int]) =~= endpoints@.take(
                    i as int + 1,
                ));
            }
        }
        proof {
            assert(endpoints@.take(endpoints@.len() as int) =~= endpoints@);
        }

        let mut ranked: Vec<Benchmark> = Vec::new();
        let ghost flat = all_benchmarks@;
        assert(flat.take(0int) =~= Seq::<Benchmark>::empty());
        for i in 0..all_benchmarks.len()
            invariant
                ranked@ == rank_ascending(flat.take(i as int)),
                all_benchmarks@ == flat,
                sorted_by_result(ranked@),
        {
            proof {
                let grown = flat.take(i as int + 1);
                assert(grown.drop_last() =~= flat.take(i as int));
                assert(grown.last() == flat[i as int]);
                lemma_insert_ascending_sorted(ranked@, flat[i as int]);
            }
            insert_ranked(&mut ranked, all_benchmarks[i]);
        }
        proof {
            assert(flat.take(flat.len() as int) =~= flat);
            lemma_rank_ascending_sorted(flat);
        }
        ranked
    }

    /// Builds the fleet leaderboard: one entry per endpoint that reported at
    /// least one sample, carrying that endpoint's identity and its best
    /// sample, ordered best score first with addresses breaking ties. Two
    /// endpoints whose best scores are exactly equal both keep their entries.
    pub fn to_flat_benchmarks(endpoints: &[FullSystemInfo]) -> (r: Vec<FlatBenchmarks>)
        ensures
            r@ == leaderboard_of(endpoints@),
            sorted_leaderboard(r@),
    {
        let mut entries: Vec<FlatBenchmarks> = Vec::new();
        assert(endpoints@.take(0int) =~= Seq::<FullSystemInfo>::empty());
        for i in 0..endpoints.len()
            invariant
                entries@ == best_entries_of(endpoints@.take(i as int)),
        {
            let ep = &endpoints[i];
            if let Some((_mn, mx)) = ep.find_min_max_benchmark() {
                entries.push(
                    FlatBenchmarks { hostname: ep.hostname.clone(), ip: ep.ip, benchmark: mx },
                );
                assert(entries@.last() == best_entry_of(endpoints@[i as int]));
            }
            proof {
                lemma_best_entries_push(endpoints@.take(i as int), endpoints@[i as int]);
                assert(endpoints@.take(i as int).push(endpoints@[i as int]) =~= endpoints@.take(
                    i as int + 1,
                ));
                assert(entries@ =~= best_entries_of(endpoints@.take(i as int + 1)));
            }
        }
        proof {
            assert(endpoints@.take(endpoints@.len() as int) =~= endpoints@);
        }

        let ghost all = entries@;
        let mut board: Vec<FlatBenchmarks> = Vec::new();
        let total = entries.len();
        assert(all.take(0int) =~= Seq::<FlatBenchmarks>::empty());
        assert(entries@ =~= all.skip(0int));
        for k in 0..total
            invariant
                entries@ == all.skip(k as int),
                board@ == rank_descending(all.take(k as int)),
                total == all.len(),
        {
            let e = entries.remove(0);
            proof {
                assert(e == all[k as int]);
                assert(all.skip(k as int).remove(0) =~= all.skip(k as int + 1));
                let grown = all.take(k as int + 1);
                assert(grown.drop_last() =~= all.take(k as int));
                assert(grown.last() == all[k as int]);
            }
            insert_leaderboard(&mut board, e);
        }
        proof {
            assert(all.take(all.len() as int) =~= all);
            lemma_leaderboard_sorted(all);
        }
        board
    }

    /// Builds a report; a probe without a resolved address fails validation
    /// here and never enters the aggregator.
    pub fn new(
        hostname: String,
        app_version: Option<String>,
        ip: Option<IpAddress>,
        source_path: Option<String>,
        benchmarks: Vec<Benchmark>,
        sysinfo: SystemInfo,
    ) -> (r: Option<FullSystemInfo>)
        ensures
            r is Some <==> ip is Some,
            r matches Some(info) ==> info.hostname == hostname && info.app_version == app_version
                && ip == Some(info.ip) && info.source_path == source_path && info.benchmarks
                == benchmarks && info.sysinfo == sysinfo,
    {
        match ip {
            Some(ip) => Some(
                FullSystemInfo { hostname, app_version, ip, source_path, benchmarks, sysinfo },
            ),
            None => None,
        }
    }

    /// Copies out this endpoint's extremal samples: `None` exactly when it has
    /// no samples, otherwise the samples with the lowest and the highest
    /// score, NaN scores never preferred and ties keeping the
    /// first-encountered sample.
    pub fn find_min_max_benchmark(&self) -> (r: Option<(Benchmark, Benchmark)>)
        ensures
            r is Some <==> self.benchmarks@.len() > 0,
            r matches Some((mn, mx)) ==> mn == min_benchmark_of(self.benchmarks@) && mx
                == max_benchmark_of(self.benchmarks@),
    {
        if self.benchmarks.len() == 0 {
            return None;
        }
        let mut mn = self.benchmarks[0];
        let mut mx = self.benchmarks[0];
        assert(self.benchmarks@.take(1int) =~= seq![self.benchmarks@[0]]);
        for i in 1..self.benchmarks.len()
            invariant
                1 <= i <= self.benchmarks@.len(),
                mn == min_benchmark_of(self.benchmarks@.take(i as int)),
                mx == max_benchmark_of(self.benchmarks@.take(i as int)),
        {
            let b = self.benchmarks[i];
            proof {
                let grown = self.benchmarks@.take(i as int + 1);
                assert(grown.drop_last() =~= self.benchmarks@.take(i as int));
                assert(grown.last() == self.benchmarks@[i as int]);
            }
            if key_is_nan(b.result) {
            } else {
                if key_is_nan(mn.result) || b.result < mn.result {
                    mn = b;
                }
                if key_is_nan(mx.result) || b.result > mx.result {
                    mx = b;
                }
            }
        }
        proof {
            assert(self.benchmarks@.take(self.benchmarks@.len() as int) =~= self.benchmarks@);
        }
        Some((mn, mx))
    }
}

} // verus!
