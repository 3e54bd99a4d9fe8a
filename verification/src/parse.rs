//! Parsing a raw source body into its set of normalized entries.
//!
//! A body is split at newline characters; each line is trimmed of
//! surrounding whitespace; blank lines and comment lines (starting with
//! `#`) are discarded; what remains is collected as a set.

use vstd::prelude::*;

use crate::entries::EntrySet;
use crate::text::is_wsp;
use crate::text::is_wsp_char;

verus! {

/// The body split at every `'\n'`: one piece more than there are newline
/// characters, each piece free of `'\n'`.
pub open spec fn split_lines(s: Seq<char>) -> Seq<Seq<char>>
    decreases s.len(),
{
    if s.len() == 0 {
        seq![Seq::<char>::empty()]
    } else if s[0] == '\n' {
        seq![Seq::<char>::empty()] + split_lines(s.drop_first())
    } else {
        let rest = split_lines(s.drop_first());
        seq![seq![s[0]] + rest[0]] + rest.drop_first()
    }
}

/// The line with its leading whitespace removed.
pub open spec fn trim_start(s: Seq<char>) -> Seq<char>
    decreases s.len(),
{
    if s.len() > 0 && is_wsp(s[0]) {
        trim_start(s.drop_first())
    } else {
        s
    }
}

/// The line with its trailing whitespace removed.
pub open spec fn trim_end(s: Seq<char>) -> Seq<char>
    decreases s.len(),
{
    if s.len() > 0 && is_wsp(s.last()) {
        trim_end(s.drop_last())
    } else {
        s
    }
}

/// The line with surrounding whitespace removed.
pub open spec fn trim(s: Seq<char>) -> Seq<char> {
    trim_end(trim_start(s))
}

/// What a normalized entry looks like: non-empty, not a comment, and
/// carrying no surrounding whitespace.
pub open spec fn is_entry(e: Seq<char>) -> bool {
    e.len() > 0 && e[0] != '#' && trim(e) == e
}

/// The entries a sequence of raw lines contributes, in line order.
pub open spec fn entries_of(lines: Seq<Seq<char>>) -> Seq<Seq<char>> {
    lines.map_values(|l: Seq<char>| trim(l)).filter(|e: Seq<char>| is_entry(e))
}

/// The set of entries one raw body parses to.
pub open spec fn parse_set(body: Seq<char>) -> Set<Seq<char>> {
    entries_of(split_lines(body)).to_set()
}

/// What one raw line adds to the parsed set.
pub open spec fn line_contrib(l: Seq<char>) -> Set<Seq<char>> {
    if is_entry(trim(l)) {
        Set::<Seq<char>>::empty().insert(trim(l))
    } else {
        Set::<Seq<char>>::empty()
    }
}

/// `split_lines` never returns an empty sequence of lines.
pub proof fn lemma_split_lines_nonempty(s: Seq<char>)
    ensures
        split_lines(s).len() >= 1,
    decreases s.len(),
{
    if s.len() > 0 {
        lemma_split_lines_nonempty(s.drop_first());
    }
}

/// Splitting at the first newline: the piece before it is the first line,
/// and the remainder splits on its own. With no newline at all, the body is
/// its own single line.
pub proof fn lemma_split_lines_first(s: Seq<char>, i: int)
    requires
        0 <= i <= s.len(),
        forall|k: int| 0 <= k < i ==> s[k] != '\n',
        i < s.len() ==> s[i] == '\n',
    ensures
        i < s.len() ==> split_lines(s) == seq![s.take(i)] + split_lines(s.skip(i + 1)),
        i == s.len() ==> split_lines(s) == seq![s],
    decreases i,
{
    if i == 0 {
        if 0 < s.len() {
            assert(s.take(0) =~= Seq::<char>::empty());
            assert(s.skip(1) =~= s.drop_first());
        } else {
            assert(s =~= Seq::<char>::empty());
            assert(split_lines(s) =~= seq![s]);
        }
    } else {
        let t = s.drop_first();
        lemma_split_lines_first(t, i - 1);
        lemma_split_lines_nonempty(t);
        let rest = split_lines(t);
        if i < s.len() {
            assert(rest == seq![t.take(i - 1)] + split_lines(t.skip(i)));
            assert(rest[0] == t.take(i - 1));
            assert(seq![s[0]] + t.take(i - 1) =~= s.take(i));
            assert(rest.drop_first() =~= split_lines(t.skip(i)));
            assert(t.skip(i) =~= s.skip(i + 1));
            assert(split_lines(s) =~= seq![s.take(i)] + split_lines(s.skip(i + 1)));
        } else {
            assert(rest == seq![t]);
            assert(rest[0] == t);
            assert(seq![s[0]] + t =~= s);
            assert(rest.drop_first() =~= Seq::<Seq<char>>::empty());
            assert(split_lines(s) =~= seq![s]);
        }
    }
}

/// A trimmed-at-the-start line does not start with whitespace.
pub proof fn lemma_trim_start_first(s: Seq<char>)
    ensures
        trim_start(s).len() == 0 || !is_wsp(trim_start(s)[0]),
    decreases s.len(),
{
    if s.len() > 0 && is_wsp(s[0]) {
        lemma_trim_start_first(s.drop_first());
    }
}

/// A trimmed-at-the-end line does not end with whitespace.
pub proof fn lemma_trim_end_last(s: Seq<char>)
    ensures
        trim_end(s).len() == 0 || !is_wsp(trim_end(s).last()),
    decreases s.len(),
{
    if s.len() > 0 && is_wsp(s.last()) {
        lemma_trim_end_last(s.drop_last());
    }
}

/// Trimming the end keeps a prefix of the line unchanged.
pub proof fn lemma_trim_end_prefix(s: Seq<char>)
    ensures
        trim_end(s).len() <= s.len(),
        forall|k: int| 0 <= k < trim_end(s).len() ==> trim_end(s)[k] == s[k],
    decreases s.len(),
{
    if s.len() > 0 && is_wsp(s.last()) {
        lemma_trim_end_prefix(s.drop_last());
        assert forall|k: int| 0 <= k < trim_end(s).len() implies trim_end(s)[k] == s[k] by {
            assert(trim_end(s)[k] == s.drop_last()[k]);
        }
    }
}

/// Trimming is idempotent: a trimmed line trims to itself.
pub proof fn lemma_trim_idempotent(s: Seq<char>)
    ensures
        trim(trim(s)) == trim(s),
{
    let t = trim(s);
    if t.len() > 0 {
        lemma_trim_start_first(s);
        lemma_trim_end_prefix(trim_start(s));
        assert(t[0] == trim_start(s)[0]);
        lemma_trim_end_last(trim_start(s));
        assert(trim_start(t) == t);
        assert(trim_end(t) == t);
    } else {
        assert(trim_start(t) == t);
        assert(trim_end(t) == t);
    }
}

/// Every entry a body parses to is normalized: non-empty, no leading `#`,
/// no surrounding whitespace.
pub proof fn lemma_parse_set_normalized(body: Seq<char>)
    ensures
        forall|e: Seq<char>| parse_set(body).contains(e) ==> is_entry(e),
{
    let lines = split_lines(body);
    let trimmed = lines.map_values(|l: Seq<char>| trim(l));
    let pred = |e: Seq<char>| is_entry(e);
    assert forall|e: Seq<char>| parse_set(body).contains(e) implies is_entry(e) by {
        assert(entries_of(lines).contains(e));
        let k = choose|k: int| 0 <= k < entries_of(lines).len() && entries_of(lines)[k] == e;
        Seq::lemma_filter_pred(trimmed, pred, k);
    }
}

/// One more raw line extends the collected entries by that line's
/// contribution.
pub proof fn lemma_entries_push(lines: Seq<Seq<char>>, l: Seq<char>)
    ensures
        entries_of(lines.push(l)).to_set() == entries_of(lines).to_set() + line_contrib(l),
{
    let f = |x: Seq<char>| trim(x);
    let pred = |e: Seq<char>| is_entry(e);
    let tl = lines.map_values(f);
    let tl1 = lines.push(l).map_values(f);
    assert(tl1 =~= tl.push(trim(l))) by {
        assert forall|k: int| 0 <= k < tl1.len() implies tl1[k] == tl.push(trim(l))[k] by {
            assert(tl1[k] == f(lines.push(l)[k]));
        }
    }
    reveal(Seq::filter);
    assert(tl.push(trim(l)).drop_last() =~= tl);
    assert(tl.push(trim(l)).last() == trim(l));
    if pred(trim(l)) {
        assert(tl1.filter(pred) == tl.filter(pred).push(trim(l)));
        assert(tl1.filter(pred).to_set() =~= tl.filter(pred).to_set() + line_contrib(l)) by {
            let a = tl.filter(pred);
            let b = tl1.filter(pred);
            assert forall|x: Seq<char>| b.to_set().contains(x) implies (a.to_set()
                + line_contrib(l)).contains(x) by {
                let k = choose|k: int| 0 <= k < b.len() && b[k] == x;
                if k < b.len() - 1 {
                    assert(a[k] == x);
                    assert(a.contains(x));
                }
            }
            assert forall|x: Seq<char>| (a.to_set() + line_contrib(l)).contains(x) implies b
                .to_set().contains(x) by {
                if a.to_set().contains(x) {
                    let k = choose|k: int| 0 <= k < a.len() && a[k] == x;
                    assert(b[k] == x);
                    assert(b.contains(x));
                } else {
                    assert(b[b.len() - 1] == trim(l));
                    assert(b.contains(trim(l)));
                }
            }
        }
    } else {
        assert(tl1.filter(pred) == tl.filter(pred));
        assert(tl1.filter(pred).to_set() =~= tl.filter(pred).to_set() + line_contrib(l));
    }
}

/// The position where the leading whitespace of `body[start..end]` stops.
fn scan_wsp_fwd(body: &str, start: usize, end: usize) -> (a: usize)
    requires
        start <= end <= body@.len(),
    ensures
        start <= a <= end,
        trim_start(body@.subrange(start as int, end as int)) == body@.subrange(
            a as int,
            end as int,
        ),
{
    let mut a = start;
    loop
        invariant
            start <= a <= end,
            end <= body@.len(),
            trim_start(body@.subrange(start as int, end as int)) == trim_start(
                body@.subrange(a as int, end as int),
            ),
        decreases end - a,
    {
        if a == end {
            assert(body@.subrange(a as int, end as int).len() == 0);
            return a;
        }
        let c = body.get_char(a);
        if !is_wsp_char(c) {
            assert(body@.subrange(a as int, end as int)[0] == c);
            return a;
        }
        proof {
            let cur = body@.subrange(a as int, end as int);
            assert(cur[0] == c);
            assert(cur.drop_first() =~= body@.subrange(a as int + 1, end as int));
        }
        a = a + 1;
    }
}

/// The position where the trailing whitespace of `body[a..end]` begins.
fn scan_wsp_back(body: &str, a: usize, end: usize) -> (b: usize)
    requires
        a <= end <= body@.len(),
    ensures
        a <= b <= end,
        trim_end(body@.subrange(a as int, end as int)) == body@.subrange(a as int, b as int),
{
    let mut b = end;
    loop
        invariant
            a <= b <= end,
            end <= body@.len(),
            trim_end(body@.subrange(a as int, end as int)) == trim_end(
                body@.subrange(a as int, b as int),
            ),
        decreases b,
    {
        if b == a {
            assert(body@.subrange(a as int, b as int).len() == 0);
            return b;
        }
        let c = body.get_char(b - 1);
        proof {
            let cur = body@.subrange(a as int, b as int);
            assert(cur.last() == c);
        }
        if !is_wsp_char(c) {
            return b;
        }
        proof {
            let cur = body@.subrange(a as int, b as int);
            assert(cur.drop_last() =~= body@.subrange(a as int, b as int - 1));
        }
        b = b - 1;
    }
}

/// Normalizes the raw line `body[start..end]` and adds it to `acc` when it
/// is an entry; blank and comment lines leave `acc` unchanged.
fn accept_line(body: &str, start: usize, end: usize, acc: &mut EntrySet)
    requires
        old(acc).wf(),
        start <= end <= body@.len(),
    ensures
        final(acc).wf(),
        final(acc).set() == old(acc).set() + line_contrib(
            body@.subrange(start as int, end as int),
        ),
{
    let ghost line = body@.subrange(start as int, end as int);
    let a = scan_wsp_fwd(body, start, end);
    let b = scan_wsp_back(body, a, end);
    let ghost t = trim(line);
    proof {
        assert(t == body@.subrange(a as int, b as int));
        lemma_trim_idempotent(line);
    }
    if a == b {
        proof {
            assert(t.len() == 0);
            assert(!is_entry(trim(line)));
            assert(acc.set() =~= old(acc).set() + line_contrib(line));
        }
        return ;
    }
    let c0 = body.get_char(a);
    proof {
        assert(t[0] == c0);
    }
    if c0 == '#' {
        proof {
            assert(!is_entry(trim(line)));
            assert(acc.set() =~= old(acc).set() + line_contrib(line));
        }
        return ;
    }
    proof {
        assert(is_entry(t));
    }
    let piece = body.substring_char(a, b);
    let e = piece.to_owned();
    acc.insert(e);
    proof {
        assert(line_contrib(line) =~= Set::<Seq<char>>::empty().insert(t));
        assert(acc.set() =~= old(acc).set() + line_contrib(line));
    }
}

/// Parses one raw body into its set of normalized entries. Parsing is
/// total: malformed content is discarded line by line, never an error.
pub fn parse(body: &str) -> (r: EntrySet)
    ensures
        r.wf(),
        r.set() == parse_set(body@),
{
    let n = body.unicode_len();
    let mut acc = EntrySet::new();
    let mut start: usize = 0;
    let mut i: usize = 0;
    let ghost mut done: Seq<Seq<char>> = Seq::<Seq<char>>::empty();
    proof {
        assert(body@.skip(0) =~= body@);
        assert(Seq::<Seq<char>>::empty() + split_lines(body@) =~= split_lines(body@));
        assert(entries_of(done) =~= Seq::<Seq<char>>::empty()) by {
            assert(done.map_values(|l: Seq<char>| trim(l)) =~= Seq::<Seq<char>>::empty());
            reveal(Seq::filter);
        }
        assert(entries_of(done).to_set() =~= Set::<Seq<char>>::empty());
        assert(acc.set() =~= entries_of(done).to_set());
    }
    while i < n
        invariant
            start <= i <= n,
            n == body@.len(),
            acc.wf(),
            forall|k: int| start <= k < i ==> body@[k] != '\n',
            split_lines(body@) == done + split_lines(body@.skip(start as int)),
            acc.set() == entries_of(done).to_set(),
        decreases n - i,
    {
        let c = body.get_char(i);
        if c == '\n' {
            proof {
                let suffix = body@.skip(start as int);
                assert(suffix[i - start] == '\n');
                assert forall|k: int| 0 <= k < i - start implies suffix[k] != '\n' by {
                    assert(suffix[k] == body@[start + k]);
                }
                lemma_split_lines_first(suffix, i - start);
                assert(suffix.take(i - start) =~= body@.subrange(start as int, i as int));
                assert(suffix.skip(i - start + 1) =~= body@.skip(i as int + 1));
            }
            accept_line(body, start, i, &mut acc);
            proof {
                let line = body@.subrange(start as int, i as int);
                lemma_entries_push(done, line);
                assert(done + split_lines(body@.skip(start as int)) =~= done.push(line)
                    + split_lines(body@.skip(i as int + 1)));
                done = done.push(line);
            }
            start = i + 1;
        }
        i = i + 1;
    }
    proof {
        let suffix = body@.skip(start as int);
        assert forall|k: int| 0 <= k < suffix.len() implies suffix[k] != '\n' by {
            assert(suffix[k] == body@[start + k]);
        }
        lemma_split_lines_first(suffix, suffix.len() as int);
        assert(suffix =~= body@.subrange(start as int, n as int));
    }
    accept_line(body, start, n, &mut acc);
    proof {
        let line = body@.subrange(start as int, n as int);
        lemma_entries_push(done, line);
        assert(done + seq![line] =~= done.push(line));
        assert(split_lines(body@) == done.push(line));
        assert(acc.set() =~= parse_set(body@));
    }
    acc
}

} // verus!
