//! The fetch-and-merge pipeline around the parser.
//!
//! Transport is the caller's business: each source arrives here as the URL
//! paired with what its fetch produced, a body or a failure reason. One
//! source is turned into one isolated result; aggregation unions every
//! parsed set and records every failure without letting it abort the run;
//! publishing hands the merged content out in its canonical sorted order.

use vstd::prelude::*;

use crate::entries::sorted_strict;
use crate::entries::views_of;
use crate::entries::EntrySet;
use crate::parse::is_entry;
use crate::parse::lemma_parse_set_normalized;
use crate::parse::parse;
use crate::parse::parse_set;
use crate::text::lemma_lex_lt_asym;

verus! {

/// What the transport boundary handed back for one source: the response
/// body, or the reason the fetch failed.
pub enum Fetched {
    Body(String),
    FetchError(String),
}

/// The outcome of one source's unit of work: its parsed entry set, or a
/// failure report's reason. Exactly one of the two.
pub enum SourceResult {
    Parsed(EntrySet),
    Failed(String),
}

/// One recorded per-source failure: which source, and why.
pub struct FailureReport {
    pub url: String,
    pub reason: String,
}

/// The entries one fetch outcome contributes: a failed fetch contributes
/// nothing.
pub open spec fn fetched_set(f: Fetched) -> Set<Seq<char>> {
    match f {
        Fetched::Body(b) => parse_set(b@),
        Fetched::FetchError(_) => Set::<Seq<char>>::empty(),
    }
}

/// The union of the entries contributed by a sequence of sources.
pub open spec fn merged_set(srcs: Seq<(String, Fetched)>) -> Set<Seq<char>>
    decreases srcs.len(),
{
    if srcs.len() == 0 {
        Set::<Seq<char>>::empty()
    } else {
        merged_set(srcs.drop_last()) + fetched_set(srcs.last().1)
    }
}

/// The failure reports a sequence of sources gives rise to, in source
/// order, as pairs of URL and reason.
pub open spec fn failure_views(srcs: Seq<(String, Fetched)>) -> Seq<(Seq<char>, Seq<char>)>
    decreases srcs.len(),
{
    if srcs.len() == 0 {
        Seq::<(Seq<char>, Seq<char>)>::empty()
    } else {
        failure_views(srcs.drop_last()) + (match srcs.last().1 {
            Fetched::FetchError(m) => seq![(srcs.last().0@, m@)],
            Fetched::Body(_) => Seq::<(Seq<char>, Seq<char>)>::empty(),
        })
    }
}

/// How a fetch outcome relates to the source result made of it.
pub open spec fn runs_to(fetched: Fetched, r: SourceResult) -> bool {
    match fetched {
        Fetched::Body(b) => r matches SourceResult::Parsed(es) && es.wf() && es.set()
            == parse_set(b@),
        Fetched::FetchError(m) => r matches SourceResult::Failed(reason) && reason@ == m@,
    }
}

/// One source's isolated unit of work, past its fetch: a body is parsed
/// (parsing is total), a failed fetch becomes a reported failure. Nothing
/// here can abort the run.
pub fn run_source(fetched: &Fetched) -> (r: SourceResult)
    ensures
        runs_to(*fetched, r),
{
    match fetched {
        Fetched::Body(b) => SourceResult::Parsed(parse(b.as_str())),
        Fetched::FetchError(m) => SourceResult::Failed(m.clone()),
    }
}

/// Runs every source's unit of work and merges the outcomes: parsed sets
/// are unioned, failures are recorded and skipped. A failing source never
/// aborts the run and never removes what other sources contributed; only
/// the contributions of failed sources are absent.
pub fn aggregate(sources: &Vec<(String, Fetched)>) -> (r: (EntrySet, Vec<FailureReport>))
    ensures
        r.0.wf(),
        r.0.set() == merged_set(sources@),
        r.1@.map_values(|fr: FailureReport| (fr.url@, fr.reason@)) == failure_views(sources@),
{
    let n = sources.len();
    let mut merged = EntrySet::new();
    let mut reports: Vec<FailureReport> = Vec::new();
    proof {
        assert(sources@.take(0) =~= Seq::<(String, Fetched)>::empty());
        assert(merged.set() =~= merged_set(sources@.take(0)));
        assert(reports@.map_values(|fr: FailureReport| (fr.url@, fr.reason@)) =~= failure_views(
            sources@.take(0),
        ));
    }
    let mut j: usize = 0;
    while j < n
        invariant
            j <= n,
            n == sources@.len(),
            merged.wf(),
            merged.set() == merged_set(sources@.take(j as int)),
            reports@.map_values(|fr: FailureReport| (fr.url@, fr.reason@)) == failure_views(
                sources@.take(j as int),
            ),
        decreases n - j,
    {
        let ghost pre = sources@.take(j as int);
        let ghost post = sources@.take(j + 1 as int);
        proof {
            assert(post.drop_last() =~= pre);
            assert(post.last() == sources@[j as int]);
        }
        let outcome = run_source(&sources[j].1);
        match outcome {
            SourceResult::Parsed(es) => {
                merged.merge_from(&es);
                proof {
                    assert(merged.set() =~= merged_set(post));
                    assert(failure_views(post) =~= failure_views(pre));
                    assert(reports@.map_values(|fr: FailureReport| (fr.url@, fr.reason@))
                        =~= failure_views(post));
                }
            },
            SourceResult::Failed(reason) => {
                let report = FailureReport { url: sources[j].0.clone(), reason };
                reports.push(report);
                proof {
                    assert(merged_set(post) =~= merged_set(pre) + fetched_set(
                        sources@[j as int].1,
                    ));
                    assert(fetched_set(sources@[j as int].1) =~= Set::<Seq<char>>::empty());
                    assert(merged.set() =~= merged_set(post));
                    let f = |fr: FailureReport| (fr.url@, fr.reason@);
                    assert(reports@.map_values(f) =~= failure_views(post)) by {
                        assert(reports@.drop_last().map_values(f) =~= failure_views(pre)) by {
                            assert forall|k: int|
                                0 <= k < reports@.len() - 1 implies reports@.drop_last().map_values(
                                f,
                            )[k] == reports@.map_values(f)[k] by {
                                assert(reports@.drop_last().map_values(f)[k] == f(
                                    reports@.drop_last()[k],
                                ));
                            }
                        }
                        assert(failure_views(post) =~= failure_views(pre) + seq![
                            (sources@[j as int].0@, sources@[j as int].1->FetchError_0@),
                        ]);
                        assert(reports@.map_values(f).last() == f(reports@.last()));
                    }
                }
            },
        }
        j = j + 1;
    }
    proof {
        assert(sources@.take(n as int) =~= sources@);
    }
    (merged, reports)
}

/// Freezes the merged content into the output artifact: the entries in
/// strictly ascending lexicographic order, each exactly once.
pub fn publish(merged: EntrySet) -> (out: Vec<String>)
    requires
        merged.wf(),
    ensures
        views_of(out@) == merged.seq(),
        sorted_strict(views_of(out@)),
        views_of(out@).to_set() == merged.set(),
        forall|i: int, j: int|
            0 <= i < j < out@.len() ==> #[trigger] views_of(out@)[i] != #[trigger] views_of(
                out@,
            )[j],
{
    let out = merged.into_vec();
    proof {
        assert forall|i: int, j: int| 0 <= i < j < out@.len() implies #[trigger] views_of(out@)[i]
            != #[trigger] views_of(out@)[j] by {
            lemma_lex_lt_asym(views_of(out@)[i], views_of(out@)[j]);
        }
    }
    out
}

/// A sequence contains an element of a concatenation exactly when one of
/// the halves contains it.
proof fn lemma_contains_concat<A>(a: Seq<A>, b: Seq<A>, x: A)
    ensures
        (a + b).contains(x) <==> a.contains(x) || b.contains(x),
{
    if (a + b).contains(x) {
        let k = choose|k: int| 0 <= k < (a + b).len() && (a + b)[k] == x;
        if k < a.len() {
            assert(a[k] == x);
        } else {
            assert(b[k - a.len()] == x);
        }
    }
    if a.contains(x) {
        let k = choose|k: int| 0 <= k < a.len() && a[k] == x;
        assert((a + b)[k] == x);
    }
    if b.contains(x) {
        let k = choose|k: int| 0 <= k < b.len() && b[k] == x;
        assert((a + b)[a.len() + k] == x);
    }
}

/// An entry is merged exactly when some source's fetch outcome contributes
/// it — however the sources are ordered.
pub proof fn lemma_merged_set_membership(srcs: Seq<(String, Fetched)>, e: Seq<char>)
    ensures
        merged_set(srcs).contains(e) <==> (exists|p: (String, Fetched)|
            #[trigger] srcs.contains(p) && fetched_set(p.1).contains(e)),
    decreases srcs.len(),
{
    if srcs.len() > 0 {
        let rest = srcs.drop_last();
        lemma_merged_set_membership(rest, e);
        if merged_set(srcs).contains(e) {
            if merged_set(rest).contains(e) {
                let p = choose|p: (String, Fetched)|
                    #[trigger] rest.contains(p) && fetched_set(p.1).contains(e);
                let k = choose|k: int| 0 <= k < rest.len() && rest[k] == p;
                assert(srcs[k] == p);
                assert(srcs.contains(p));
            } else {
                assert(fetched_set(srcs.last().1).contains(e));
                assert(srcs[srcs.len() - 1] == srcs.last());
                assert(srcs.contains(srcs.last()));
            }
        }
        if exists|p: (String, Fetched)| #[trigger] srcs.contains(p) && fetched_set(p.1).contains(
            e,
        ) {
            let p = choose|p: (String, Fetched)|
                #[trigger] srcs.contains(p) && fetched_set(p.1).contains(e);
            let k = choose|k: int| 0 <= k < srcs.len() && srcs[k] == p;
            if k == srcs.len() - 1 {
                assert(fetched_set(srcs.last().1).contains(e));
            } else {
                assert(rest[k] == p);
                assert(rest.contains(p));
                assert(merged_set(rest).contains(e));
            }
        }
    }
}

/// Merging is order-independent: any completion order of the same
/// collection of sources merges to the same set.
pub proof fn lemma_merge_order_independent(
    s1: Seq<(String, Fetched)>,
    s2: Seq<(String, Fetched)>,
)
    requires
        s1.to_multiset() == s2.to_multiset(),
    ensures
        merged_set(s1) == merged_set(s2),
{
    broadcast use vstd::seq_lib::group_to_multiset_ensures;

    assert(merged_set(s1) =~= merged_set(s2)) by {
        assert forall|e: Seq<char>|
            merged_set(s1).contains(e) == merged_set(s2).contains(e) by {
            lemma_merged_set_membership(s1, e);
            lemma_merged_set_membership(s2, e);
            assert forall|p: (String, Fetched)| s1.contains(p) == s2.contains(p) by {
                assert(s1.contains(p) <==> s1.to_multiset().count(p) > 0);
                assert(s2.contains(p) <==> s2.to_multiset().count(p) > 0);
            }
        }
    }
}

/// A failing source is inert: wherever it stands among the sources, the
/// merged set is the one of the other sources alone.
pub proof fn lemma_failed_source_inert(
    before: Seq<(String, Fetched)>,
    url: String,
    reason: String,
    after: Seq<(String, Fetched)>,
)
    ensures
        merged_set(before + seq![(url, Fetched::FetchError(reason))] + after) == merged_set(
            before + after,
        ),
{
    let mid = seq![(url, Fetched::FetchError(reason))];
    assert(merged_set(before + mid + after) =~= merged_set(before + after)) by {
        assert forall|e: Seq<char>|
            merged_set(before + mid + after).contains(e) == merged_set(
                before + after,
            ).contains(e) by {
            lemma_merged_set_membership(before + mid + after, e);
            lemma_merged_set_membership(before + after, e);
            if merged_set(before + mid + after).contains(e) {
                let p = choose|p: (String, Fetched)|
                    #[trigger] (before + mid + after).contains(p) && fetched_set(p.1).contains(e);
                lemma_contains_concat(before + mid, after, p);
                lemma_contains_concat(before, mid, p);
                lemma_contains_concat(before, after, p);
                if mid.contains(p) {
                    assert(mid[0] == p);
                } else {
                    assert((before + after).contains(p));
                }
            }
            if merged_set(before + after).contains(e) {
                let p = choose|p: (String, Fetched)|
                    #[trigger] (before + after).contains(p) && fetched_set(p.1).contains(e);
                lemma_contains_concat(before, after, p);
                lemma_contains_concat(before, mid, p);
                lemma_contains_concat(before + mid, after, p);
                assert((before + mid + after).contains(p));
            }
        }
    }
}

/// When every source failed, the merged set is empty — still a valid
/// outcome, not an error.
pub proof fn lemma_all_failed_empty(srcs: Seq<(String, Fetched)>)
    requires
        forall|k: int| 0 <= k < srcs.len() ==> srcs[k].1 is FetchError,
    ensures
        merged_set(srcs) == Set::<Seq<char>>::empty(),
    decreases srcs.len(),
{
    if srcs.len() > 0 {
        let rest = srcs.drop_last();
        assert forall|k: int| 0 <= k < rest.len() implies rest[k].1 is FetchError by {
            assert(rest[k] == srcs[k]);
        }
        lemma_all_failed_empty(rest);
        assert(srcs.last().1 is FetchError);
        assert(merged_set(srcs) =~= Set::<Seq<char>>::empty());
    }
}

/// Rebuilding from unchanged sources is idempotent: any two aggregation
/// results over the same sources hold the same entries in the same order,
/// so the published artifact comes out byte-identical.
pub proof fn lemma_pipeline_idempotent(
    a: &EntrySet,
    b: &EntrySet,
    srcs: Seq<(String, Fetched)>,
)
    requires
        a.wf(),
        b.wf(),
        a.set() == merged_set(srcs),
        b.set() == merged_set(srcs),
    ensures
        a.seq() == b.seq(),
{
    EntrySet::lemma_content_determines_output(a, b);
}

/// Every merged entry is normalized, whatever the sources held: non-empty,
/// not a comment, no surrounding whitespace.
pub proof fn lemma_merged_set_normalized(srcs: Seq<(String, Fetched)>)
    ensures
        forall|e: Seq<char>| merged_set(srcs).contains(e) ==> is_entry(e),
{
    assert forall|e: Seq<char>| merged_set(srcs).contains(e) implies is_entry(e) by {
        lemma_merged_set_membership(srcs, e);
        let p = choose|p: (String, Fetched)|
            #[trigger] srcs.contains(p) && fetched_set(p.1).contains(e);
        match p.1 {
            Fetched::Body(b) => {
                lemma_parse_set_normalized(b@);
            },
            Fetched::FetchError(_) => {},
        }
    }
}

} // verus!
