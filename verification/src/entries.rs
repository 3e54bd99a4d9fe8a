//! The deduplicated, ordered collection of entries.
//!
//! `EntrySet` keeps its entries as a vector in strictly ascending
//! lexicographic order. Strict order makes the representation canonical:
//! two well-formed sets with the same content hold the same vector, so the
//! published output is determined by the merged content alone.

use vstd::prelude::*;

use crate::text::lemma_lex_lt_asym;
use crate::text::lemma_lex_lt_connected;
use crate::text::lemma_lex_lt_irrefl;
use crate::text::lemma_lex_lt_trans;
use crate::text::lex_lt;
use crate::text::str_eq;
use crate::text::str_lt;

verus! {

/// The character sequences of a sequence of strings.
pub open spec fn views_of(v: Seq<String>) -> Seq<Seq<char>> {
    v.map_values(|s: String| s@)
}

/// Strictly ascending lexicographic order: every earlier entry is strictly
/// below every later one, so no entry occurs twice.
pub open spec fn sorted_strict(s: Seq<Seq<char>>) -> bool {
    forall|i: int, j: int| 0 <= i < j < s.len() ==> lex_lt(#[trigger] s[i], #[trigger] s[j])
}

/// A set of entry strings, stored sorted and without duplicates.
pub struct EntrySet {
    entries: Vec<String>,
}

impl EntrySet {
    /// The stored order of the entries.
    pub closed spec fn seq(&self) -> Seq<Seq<char>> {
        views_of(self.entries@)
    }

    /// The abstract content: which entries are present.
    pub open spec fn set(&self) -> Set<Seq<char>> {
        self.seq().to_set()
    }

    /// Representation invariant.
    pub open spec fn wf(&self) -> bool {
        sorted_strict(self.seq())
    }

    /// The empty set of entries.
    pub fn new() -> (r: Self)
        ensures
            r.wf(),
            r.seq() == Seq::<Seq<char>>::empty(),
            r.set() == Set::<Seq<char>>::empty(),
    {
        let r = EntrySet { entries: Vec::new() };
        proof {
            assert(r.seq() =~= Seq::<Seq<char>>::empty());
            assert(r.set() =~= Set::<Seq<char>>::empty());
        }
        r
    }

    /// How many distinct entries are present.
    pub fn len(&self) -> (n: usize)
        ensures
            n == self.seq().len(),
    {
        self.entries.len()
    }

    /// The index of the first stored entry not below `e`.
    fn lower_bound(&self, e: &str) -> (i: usize)
        requires
            self.wf(),
        ensures
            i <= self.seq().len(),
            forall|k: int| 0 <= k < i ==> lex_lt(#[trigger] self.seq()[k], e@),
            i < self.seq().len() ==> !lex_lt(self.seq()[i as int], e@),
    {
        let n = self.entries.len();
        let mut i: usize = 0;
        loop
            invariant
                self.wf(),
                i <= n,
                n == self.entries.len(),
                forall|k: int| 0 <= k < i ==> lex_lt(#[trigger] self.seq()[k], e@),
            decreases n - i,
        {
            if i == n {
                return i;
            }
            if str_lt(self.entries[i].as_str(), e) {
                proof {
                    assert(self.seq()[i as int] == self.entries@[i as int]@);
                }
                i = i + 1;
            } else {
                return i;
            }
        }
    }

    /// Adds one entry, keeping order; present entries are not duplicated.
    pub fn insert(&mut self, e: String)
        requires
            old(self).wf(),
        ensures
            final(self).wf(),
            final(self).set() == old(self).set().insert(e@),
    {
        let n = self.entries.len();
        let i = self.lower_bound(e.as_str());
        if i < n && str_eq(self.entries[i].as_str(), e.as_str()) {
            proof {
                assert(self.seq()[i as int] == e@);
                assert(self.set().contains(e@));
                assert(self.set() =~= old(self).set().insert(e@));
            }
            return;
        }
        proof {
            if i < n {
                let cur = self.seq()[i as int];
                assert(!lex_lt(cur, e@) && cur != e@);
                lemma_lex_lt_connected(e@, cur);
            }
        }
        let ghost pre = self.seq();
        self.entries.insert(i, e);
        proof {
            let post = self.seq();
            assert(post =~= pre.insert(i as int, e@)) by {
                assert(post.len() == pre.len() + 1);
                assert forall|k: int| 0 <= k < post.len() implies post[k] == pre.insert(
                    i as int,
                    e@,
                )[k] by {
                    assert(post[k] == self.entries@[k]@);
                }
            }
            assert forall|p: int, q: int| 0 <= p < q < post.len() implies lex_lt(
                #[trigger] post[p],
                #[trigger] post[q],
            ) by {
                let ii = i as int;
                if p < ii && q < ii {
                } else if p < ii && q == ii {
                } else if p < ii && q > ii {
                    assert(post[p] == pre[p] && post[q] == pre[q - 1]);
                } else if p == ii && q > ii {
                    if q - 1 < ii {
                    } else {
                        assert(post[q] == pre[q - 1]);
                        if q - 1 == ii {
                            assert(!lex_lt(pre[ii], e@) && pre[ii] != e@);
                        } else {
                            assert(lex_lt(pre[ii], pre[q - 1]));
                            assert(!lex_lt(pre[ii], e@) && pre[ii] != e@);
                            assert(lex_lt(e@, pre[ii]));
                            lemma_lex_lt_trans(e@, pre[ii], pre[q - 1]);
                        }
                    }
                } else {
                    assert(post[p] == pre[p - 1] && post[q] == pre[q - 1]);
                }
            }
            assert(self.set() =~= old(self).set().insert(e@)) by {
                assert forall|x: Seq<char>| self.set().contains(x) implies old(
                    self,
                ).set().insert(e@).contains(x) by {
                    let k = choose|k: int| 0 <= k < post.len() && post[k] == x;
                    if k < i as int {
                        assert(pre[k] == x);
                        assert(pre.contains(x));
                    } else if k == i as int {
                    } else {
                        assert(pre[k - 1] == x);
                        assert(pre.contains(x));
                    }
                }
                assert forall|x: Seq<char>| old(self).set().insert(e@).contains(x) implies self
                    .set().contains(x) by {
                    if x == e@ {
                        assert(post[i as int] == x);
                        assert(post.contains(x));
                    } else {
                        let k = choose|k: int| 0 <= k < pre.len() && pre[k] == x;
                        if k < i as int {
                            assert(post[k] == x);
                        } else {
                            assert(post[k + 1] == x);
                        }
                        assert(post.contains(x));
                    }
                }
            }
        }
    }

    /// Unions another set's entries into this one.
    pub fn merge_from(&mut self, other: &EntrySet)
        requires
            old(self).wf(),
            other.wf(),
        ensures
            final(self).wf(),
            final(self).set() == old(self).set() + other.set(),
    {
        let m = other.entries.len();
        let mut j: usize = 0;
        proof {
            assert(self.set() =~= old(self).set() + views_of(other.entries@.take(0)).to_set())
                by {
                assert(views_of(other.entries@.take(0)) =~= Seq::<Seq<char>>::empty());
                assert(views_of(other.entries@.take(0)).to_set() =~= Set::<Seq<char>>::empty());
            }
        }
        while j < m
            invariant
                self.wf(),
                j <= m,
                m == other.entries.len(),
                other.wf(),
                self.set() == old(self).set() + views_of(other.entries@.take(j as int)).to_set(),
            decreases m - j,
        {
            let ghost before = self.set();
            let e = other.entries[j].clone();
            proof {
                assert(e@ == other.seq()[j as int]);
            }
            self.insert(e);
            proof {
                let tj = views_of(other.entries@.take(j as int));
                let tj1 = views_of(other.entries@.take(j + 1 as int));
                assert(tj1 =~= tj.push(other.seq()[j as int])) by {
                    assert forall|k: int| 0 <= k < tj1.len() implies tj1[k] == tj.push(
                        other.seq()[j as int],
                    )[k] by {
                        assert(tj1[k] == other.entries@.take(j + 1 as int)[k]@);
                    }
                }
                assert(self.set() =~= old(self).set() + tj1.to_set()) by {
                    assert(tj1.to_set() =~= tj.to_set().insert(other.seq()[j as int])) by {
                        assert forall|x: Seq<char>|
                            tj1.to_set().contains(x) == tj.to_set().insert(
                                other.seq()[j as int],
                            ).contains(x) by {
                            if tj1.contains(x) {
                                let k = choose|k: int| 0 <= k < tj1.len() && tj1[k] == x;
                                if k < j as int {
                                    assert(tj[k] == x);
                                }
                            }
                            if tj.contains(x) {
                                let k = choose|k: int| 0 <= k < tj.len() && tj[k] == x;
                                assert(tj1[k] == x);
                            }
                            if x == other.seq()[j as int] {
                                assert(tj1[j as int] == x);
                            }
                        }
                    }
                }
            }
            j = j + 1;
        }
        proof {
            assert(views_of(other.entries@.take(m as int)) =~= other.seq());
            assert(self.set() =~= old(self).set() + other.set());
        }
    }

    /// Whether an entry is present.
    pub fn contains(&self, e: &str) -> (r: bool)
        requires
            self.wf(),
        ensures
            r == self.set().contains(e@),
    {
        let n = self.entries.len();
        let mut i: usize = 0;
        while i < n
            invariant
                n == self.entries.len(),
                i <= n,
                forall|k: int| 0 <= k < i ==> #[trigger] self.seq()[k] != e@,
            decreases n - i,
        {
            if str_eq(self.entries[i].as_str(), e) {
                proof {
                    assert(self.seq()[i as int] == e@);
                    assert(self.seq().contains(e@));
                }
                return true;
            }
            i = i + 1;
        }
        proof {
            if self.set().contains(e@) {
                let k = choose|k: int| 0 <= k < self.seq().len() && self.seq()[k] == e@;
                assert(self.seq()[k] != e@);
            }
        }
        false
    }

    /// Hands the entries out in their sorted order.
    pub fn into_vec(self) -> (out: Vec<String>)
        ensures
            views_of(out@) == self.seq(),
    {
        let EntrySet { entries } = self;
        entries
    }

    /// The published artifact is a function of the merged content alone:
    /// well-formed sets with the same content hold their entries in the
    /// same order, so rebuilding from unchanged sources reproduces the
    /// output exactly.
    pub proof fn lemma_content_determines_output(a: &EntrySet, b: &EntrySet)
        requires
            a.wf(),
            b.wf(),
            a.set() == b.set(),
        ensures
            a.seq() == b.seq(),
    {
        Self::lemma_canonical(a.seq(), b.seq());
    }

    /// Strict order makes the representation canonical: well-formed sets with
    /// the same content store the same sequence.
    pub proof fn lemma_canonical(a: Seq<Seq<char>>, b: Seq<Seq<char>>)
        requires
            sorted_strict(a),
            sorted_strict(b),
            a.to_set() == b.to_set(),
        ensures
            a == b,
        decreases a.len(),
    {
        if a.len() == 0 {
            if b.len() > 0 {
                assert(b.contains(b[0]));
                assert(b.to_set().contains(b[0]));
                assert(a.contains(b[0]));
            }
            assert(a =~= b);
        } else if b.len() == 0 {
            assert(a.contains(a[0]));
            assert(a.to_set().contains(a[0]));
            assert(b.contains(a[0]));
        } else {
            assert(a[0] == b[0]) by {
                assert(a.contains(a[0]));
                assert(b.to_set().contains(a[0]));
                let j = choose|j: int| 0 <= j < b.len() && b[j] == a[0];
                assert(b.contains(b[0]));
                assert(a.to_set().contains(b[0]));
                let k = choose|k: int| 0 <= k < a.len() && a[k] == b[0];
                if j > 0 {
                    assert(lex_lt(b[0], b[j]));
                }
                if k > 0 {
                    assert(lex_lt(a[0], a[k]));
                }
                if a[0] != b[0] {
                    lemma_lex_lt_asym(b[0], a[0]);
                    lemma_lex_lt_asym(a[0], b[0]);
                }
            }
            let ta = a.drop_first();
            let tb = b.drop_first();
            assert(sorted_strict(ta)) by {
                assert forall|p: int, q: int| 0 <= p < q < ta.len() implies lex_lt(
                    #[trigger] ta[p],
                    #[trigger] ta[q],
                ) by {
                    assert(ta[p] == a[p + 1] && ta[q] == a[q + 1]);
                }
            }
            assert(sorted_strict(tb)) by {
                assert forall|p: int, q: int| 0 <= p < q < tb.len() implies lex_lt(
                    #[trigger] tb[p],
                    #[trigger] tb[q],
                ) by {
                    assert(tb[p] == b[p + 1] && tb[q] == b[q + 1]);
                }
            }
            assert(ta.to_set() =~= tb.to_set()) by {
                assert forall|x: Seq<char>| ta.to_set().contains(x) implies tb.to_set().contains(
                    x,
                ) by {
                    let p = choose|p: int| 0 <= p < ta.len() && ta[p] == x;
                    assert(a[p + 1] == x);
                    assert(lex_lt(a[0], x));
                    assert(a.contains(x));
                    assert(b.to_set().contains(x));
                    let q = choose|q: int| 0 <= q < b.len() && b[q] == x;
                    if q == 0 {
                        lemma_lex_lt_irrefl(x);
                    } else {
                        assert(tb[q - 1] == x);
                        assert(tb.contains(x));
                    }
                }
                assert forall|x: Seq<char>| tb.to_set().contains(x) implies ta.to_set().contains(
                    x,
                ) by {
                    let p = choose|p: int| 0 <= p < tb.len() && tb[p] == x;
                    assert(b[p + 1] == x);
                    assert(lex_lt(b[0], x));
                    assert(b.contains(x));
                    assert(a.to_set().contains(x));
                    let q = choose|q: int| 0 <= q < a.len() && a[q] == x;
                    if q == 0 {
                        lemma_lex_lt_irrefl(x);
                    } else {
                        assert(ta[q - 1] == x);
                        assert(ta.contains(x));
                    }
                }
            }
            Self::lemma_canonical(ta, tb);
            assert(a =~= b) by {
                assert forall|k: int| 0 <= k < a.len() implies a[k] == b[k] by {
                    if k > 0 {
                        assert(a[k] == ta[k - 1]);
                        assert(b[k] == tb[k - 1]);
                    }
                }
            }
        }
    }
}

} // verus!
