//! What holds of every scan: the laws of the emission.

use crate::window::{
    ascending, bumped, emission, growth_bound, leads, lemma_picked_gap, lemma_picked_run, lemma_step, lines_of,
    picked, selected, trails, unsent_ok, LineView, Scanned,
};
use vstd::prelude::*;

verus! {

/// The number of newest lines not emitted, as a scan leaves it.
pub(crate) open spec fn unsent_of(
    scan: Seq<Scanned>,
    before: Option<usize>,
    after: Option<usize>,
) -> int
    decreases scan.len(),
{
    if scan.len() == 0 {
        0
    } else if selected(scan, before, after, scan.len() - 1) {
        0
    } else {
        bumped(unsent_of(scan.drop_last(), before, after), scan.len() as int, before)
    }
}

/// Every scan leaves the lines that were not emitted as the newest ones.
pub(crate) proof fn lemma_unsent(scan: Seq<Scanned>, before: Option<usize>, after: Option<usize>)
    requires
        ascending(scan),
    ensures
        unsent_ok(scan, before, after, unsent_of(scan, before, after)),
    decreases scan.len(),
{
    if scan.len() > 0 {
        let shorter = scan.drop_last();
        assert(shorter.push(scan.last()) =~= scan);
        assert(ascending(shorter)) by {
            assert forall|p: int, q: int| 0 <= p < q < shorter.len() implies shorter[p].line.index
                < shorter[q].line.index by {
                assert(scan[p].line.index < scan[q].line.index);
            }
        }
        lemma_unsent(shorter, before, after);
        lemma_step(shorter, scan.last(), before, after, unsent_of(shorter, before, after));
    }
}

/// One more line never takes back or reorders what was emitted: the
/// emission of the longer scan starts with the emission of the shorter one.
/// It adds at most the line itself and, on a match, `before` lines of
/// leading context; a matching line is always added, as the last.
pub proof fn lemma_emission_grows(
    scan: Seq<Scanned>,
    next: Scanned,
    before: Option<usize>,
    after: Option<usize>,
)
    requires
        ascending(scan.push(next)),
    ensures
        emission(scan, before, after).is_prefix_of(emission(scan.push(next), before, after)),
        emission(scan.push(next), before, after).len() - emission(scan, before, after).len()
            <= growth_bound(before, next.hit),
        next.hit ==> emission(scan.push(next), before, after).len() > 0 && emission(
            scan.push(next),
            before,
            after,
        ).last() == next.line,
{
    let grown = scan.push(next);
    assert(ascending(scan)) by {
        assert forall|p: int, q: int| 0 <= p < q < scan.len() implies scan[p].line.index
            < scan[q].line.index by {
            assert(grown[p].line.index < grown[q].line.index);
        }
    }
    lemma_unsent(scan, before, after);
    lemma_step(scan, next, before, after, unsent_of(scan, before, after));
}

/// Within what the first `n` lines emit, line numbers grow strictly, and
/// none is beyond the number of line `n - 1`.
proof fn lemma_picked_ascends(
    scan: Seq<Scanned>,
    before: Option<usize>,
    after: Option<usize>,
    n: int,
)
    requires
        ascending(scan),
        0 <= n <= scan.len(),
    ensures
        forall|i: int, j: int|
            0 <= i < j < picked(scan, before, after, n).len() ==> picked(
                scan,
                before,
                after,
                n,
            )[i].index < picked(scan, before, after, n)[j].index,
        forall|i: int|
            0 <= i < picked(scan, before, after, n).len() ==> (#[trigger] picked(
                scan,
                before,
                after,
                n,
            )[i]).index <= scan[n - 1].line.index,
        picked(scan, before, after, n).len() <= n,
    decreases n,
{
    if n > 0 {
        lemma_picked_ascends(scan, before, after, n - 1);
        let shorter = picked(scan, before, after, n - 1);
        assert forall|i: int| 0 <= i < shorter.len() implies (#[trigger] shorter[i]).index
            < scan[n - 1].line.index by {
            if n > 1 {
                assert(scan[n - 2].line.index < scan[n - 1].line.index);
            }
        }
    }
}

/// The line numbers of an emission grow strictly: lines come out in the
/// order of the source, and no line comes out twice. None is beyond the
/// last line scanned, and there are no more of them than lines scanned.
pub proof fn lemma_emission_ascends(
    scan: Seq<Scanned>,
    before: Option<usize>,
    after: Option<usize>,
)
    requires
        ascending(scan),
    ensures
        forall|i: int, j: int|
            0 <= i < j < emission(scan, before, after).len() ==> emission(
                scan,
                before,
                after,
            )[i].index < emission(scan, before, after)[j].index,
        forall|i: int|
            0 <= i < emission(scan, before, after).len() ==> (#[trigger] emission(
                scan,
                before,
                after,
            )[i]).index <= scan.last().line.index,
        emission(scan, before, after).len() <= scan.len(),
{
    lemma_picked_ascends(scan, before, after, scan.len() as int);
}

/// `line` is a selected line of the scan, among its first `n`.
pub open spec fn selects(
    scan: Seq<Scanned>,
    before: Option<usize>,
    after: Option<usize>,
    n: int,
    line: LineView,
) -> bool {
    exists|p: int| 0 <= p < n && #[trigger] selected(scan, before, after, p) && scan[p].line == line
}

/// What is picked among the first `n` lines is what is selected among them.
proof fn lemma_picked_members(
    scan: Seq<Scanned>,
    before: Option<usize>,
    after: Option<usize>,
    n: int,
)
    requires
        0 <= n <= scan.len(),
    ensures
        forall|p: int|
            0 <= p < n && #[trigger] selected(scan, before, after, p) ==> picked(
                scan,
                before,
                after,
                n,
            ).contains(scan[p].line),
        forall|i: int|
            0 <= i < picked(scan, before, after, n).len() ==> selects(
                scan,
                before,
                after,
                n,
                #[trigger] picked(scan, before, after, n)[i],
            ),
    decreases n,
{
    if n > 0 {
        lemma_picked_members(scan, before, after, n - 1);
        let shorter = picked(scan, before, after, n - 1);
        let longer = picked(scan, before, after, n);
        assert forall|p: int|
            0 <= p < n && #[trigger] selected(scan, before, after, p) implies longer.contains(
            scan[p].line,
        ) by {
            if p < n - 1 {
                let i = choose|i: int| 0 <= i < shorter.len() && shorter[i] == scan[p].line;
                assert(longer[i] == scan[p].line);
            } else {
                assert(longer[longer.len() - 1] == scan[p].line);
            }
        }
        assert forall|i: int| 0 <= i < longer.len() implies selects(
            scan,
            before,
            after,
            n,
            #[trigger] longer[i],
        ) by {
            if i < shorter.len() {
                assert(selects(scan, before, after, n - 1, shorter[i]));
                let p = choose|p: int|
                    0 <= p < n - 1 && #[trigger] selected(scan, before, after, p) && scan[p].line
                        == shorter[i];
                assert(selected(scan, before, after, p) && scan[p].line == longer[i]);
            } else {
                assert(selected(scan, before, after, n - 1) && scan[n - 1].line == longer[i]);
            }
        }
    }
}

/// The emission holds the selected lines and nothing else: every match,
/// every line in the trailing or leading context of a match, and no other.
pub proof fn lemma_emission_members(
    scan: Seq<Scanned>,
    before: Option<usize>,
    after: Option<usize>,
)
    ensures
        forall|p: int| #[trigger]
            selected(scan, before, after, p) ==> emission(scan, before, after).contains(
                scan[p].line,
            ),
        forall|i: int|
            0 <= i < emission(scan, before, after).len() ==> selects(
                scan,
                before,
                after,
                scan.len() as int,
                #[trigger] emission(scan, before, after)[i],
            ),
{
    lemma_picked_members(scan, before, after, scan.len() as int);
}

/// Without context, what is picked among the first `n` lines is the
/// matching lines among them.
proof fn lemma_picked_plain(scan: Seq<Scanned>, n: int)
    requires
        0 <= n <= scan.len(),
    ensures
        picked(scan, None, None, n) == lines_of(scan.take(n).filter(|s: Scanned| s.hit)),
    decreases n,
{
    reveal(Seq::filter);
    let hit = |s: Scanned| s.hit;
    if n > 0 {
        lemma_picked_plain(scan, n - 1);
        assert(scan.take(n).drop_last() =~= scan.take(n - 1));
        assert(scan.take(n).last() == scan[n - 1]);
        assert(selected(scan, None, None, n - 1) == scan[n - 1].hit);
        let shorter = scan.take(n - 1).filter(hit);
        if scan[n - 1].hit {
            assert(scan.take(n).filter(hit) == shorter.push(scan[n - 1]));
            assert(lines_of(shorter.push(scan[n - 1])) =~= lines_of(shorter).push(
                scan[n - 1].line,
            ));
        } else {
            assert(scan.take(n).filter(hit) == shorter);
        }
    } else {
        assert(scan.take(n).filter(hit) =~= Seq::<Scanned>::empty());
        assert(lines_of(Seq::<Scanned>::empty()) =~= Seq::<LineView>::empty());
    }
}

/// Without context the emission is the matching lines, in order: no more,
/// no fewer.
pub proof fn lemma_plain_matching(scan: Seq<Scanned>)
    ensures
        emission(scan, None, None) == lines_of(scan.filter(|s: Scanned| s.hit)),
{
    lemma_picked_plain(scan, scan.len() as int);
    assert(scan.take(scan.len() as int) =~= scan);
}

/// The lines are numbered by their place in the scan: none was skipped.
pub open spec fn unbroken(scan: Seq<Scanned>) -> bool {
    forall|p: int| 0 <= p < scan.len() ==> (#[trigger] scan[p]).line.index == p
}

/// Where the leading context of a match at `m` starts: `before` lines
/// earlier, or at the first line of the source.
pub open spec fn context_start(m: int, before: Option<usize>) -> int {
    match before {
        Some(b) => if m - b < 0 {
            0
        } else {
            m - b
        },
        None => m,
    }
}

/// Where the trailing context of a match at `m` ends (exclusive): `after`
/// lines later, or with the last line of the source.
pub open spec fn context_end(m: int, after: Option<usize>, len: int) -> int {
    match after {
        Some(a) => if m + a + 1 > len {
            len
        } else {
            m + a + 1
        },
        None => m + 1,
    }
}

/// A source with one match emits the match with its whole context and
/// nothing else: the `before` lines in front of it, fewer at the start of
/// the source, and the `after` lines behind it, fewer at its end.
pub proof fn lemma_single_match(
    scan: Seq<Scanned>,
    before: Option<usize>,
    after: Option<usize>,
    m: int,
)
    requires
        unbroken(scan),
        0 <= m < scan.len(),
        forall|p: int| 0 <= p < scan.len() ==> ((#[trigger] scan[p]).hit <==> p == m),
    ensures
        emission(scan, before, after) == lines_of(scan).subrange(
            context_start(m, before),
            context_end(m, after, scan.len() as int),
        ),
{
    let len = scan.len() as int;
    let lo = context_start(m, before);
    let hi = context_end(m, after, len);
    assert(scan[m].hit);
    assert forall|p: int| 0 <= p < len implies (#[trigger] selected(scan, before, after, p) <==> lo
        <= p < hi) by {
        assert(scan[p].line.index == p);
        assert(scan[m].line.index == m);
        if selected(scan, before, after, p) {
            if scan[p].hit {
            } else if exists|w: int| trails(scan, after, w, p) {
                let w = choose|w: int| trails(scan, after, w, p);
                assert(scan[w].hit);
            } else {
                let w = choose|w: int| leads(scan, before, p, w);
                assert(scan[w].hit);
            }
        }
        if lo <= p < hi {
            if p < m {
                assert(leads(scan, before, p, m));
            } else if p > m {
                assert(trails(scan, after, m, p));
            }
        }
    }
    lemma_picked_gap(scan, before, after, 0, lo);
    lemma_picked_run(scan, before, after, lo, hi);
    lemma_picked_gap(scan, before, after, hi, len);
    assert(picked(scan, before, after, 0) =~= Seq::<LineView>::empty());
    assert(emission(scan, before, after) =~= lines_of(scan).subrange(lo, hi));
}

/// `line` stands in the emission at place `i` and nowhere else, and no
/// other line of the emission carries its number.
pub open spec fn emitted_once_at(emitted: Seq<LineView>, line: LineView, i: int) -> bool {
    &&& 0 <= i < emitted.len()
    &&& emitted[i] == line
    &&& forall|j: int| 0 <= j < emitted.len() && (#[trigger] emitted[j]).index == line.index ==> j == i
}

/// Every match and every line in the context of a match is emitted exactly
/// once, however many context windows it lies in.
pub proof fn lemma_selected_emitted_once(
    scan: Seq<Scanned>,
    before: Option<usize>,
    after: Option<usize>,
    p: int,
)
    requires
        ascending(scan),
        selected(scan, before, after, p),
    ensures
        exists|i: int| emitted_once_at(emission(scan, before, after), scan[p].line, i),
{
    let emitted = emission(scan, before, after);
    lemma_emission_members(scan, before, after);
    lemma_emission_ascends(scan, before, after);
    assert(emitted.contains(scan[p].line));
    let i = choose|i: int| 0 <= i < emitted.len() && emitted[i] == scan[p].line;
    assert forall|j: int|
        0 <= j < emitted.len() && (#[trigger] emitted[j]).index == scan[p].line.index implies j
        == i by {
        if j < i {
            assert(emitted[j].index < emitted[i].index);
        } else if i < j {
            assert(emitted[i].index < emitted[j].index);
        }
    }
    assert(emitted_once_at(emitted, scan[p].line, i));
}

/// What line `k` of the scan adds to the emission when the lines are fed
/// one by one.
pub open spec fn released_at(
    scan: Seq<Scanned>,
    before: Option<usize>,
    after: Option<usize>,
    k: int,
) -> Seq<LineView> {
    emission(scan.take(k + 1), before, after).skip(
        emission(scan.take(k), before, after).len() as int,
    )
}

/// What the first `n` lines of the scan release, one after the other.
pub open spec fn streamed(
    scan: Seq<Scanned>,
    before: Option<usize>,
    after: Option<usize>,
    n: int,
) -> Seq<LineView>
    decreases n,
{
    if n <= 0 {
        Seq::empty()
    } else {
        streamed(scan, before, after, n - 1) + released_at(scan, before, after, n - 1)
    }
}

/// What the first `n` lines release one by one is what they emit together.
proof fn lemma_streamed_prefix(
    scan: Seq<Scanned>,
    before: Option<usize>,
    after: Option<usize>,
    n: int,
)
    requires
        ascending(scan),
        0 <= n <= scan.len(),
    ensures
        streamed(scan, before, after, n) == emission(scan.take(n), before, after),
    decreases n,
{
    if n > 0 {
        lemma_streamed_prefix(scan, before, after, n - 1);
        let shorter = scan.take(n - 1);
        let longer = scan.take(n);
        assert(shorter.push(scan[n - 1]) =~= longer);
        assert(ascending(longer)) by {
            assert forall|p: int, q: int| 0 <= p < q < longer.len() implies longer[p].line.index
                < longer[q].line.index by {
                assert(scan[p].line.index < scan[q].line.index);
            }
        }
        lemma_emission_grows(shorter, scan[n - 1], before, after);
        let sent = emission(shorter, before, after);
        let all = emission(longer, before, after);
        assert(sent + all.skip(sent.len() as int) =~= all);
    } else {
        assert(scan.take(0) =~= Seq::<Scanned>::empty());
    }
}

/// A source gives the same lines in the same order whether it is scanned
/// whole or fed line by line, as standard input is.
pub proof fn lemma_stream_is_scan(
    scan: Seq<Scanned>,
    before: Option<usize>,
    after: Option<usize>,
)
    requires
        ascending(scan),
    ensures
        streamed(scan, before, after, scan.len() as int) == emission(scan, before, after),
{
    lemma_streamed_prefix(scan, before, after, scan.len() as int);
    assert(scan.take(scan.len() as int) =~= scan);
}

} // verus!
