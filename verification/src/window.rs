//! The context window: which lines of one source are emitted, in which
//! order, when matches carry leading and trailing context.

use std::collections::VecDeque;
use vstd::prelude::*;

verus! {

/// One line of a source with its zero-based number.
#[derive(Clone, Debug)]
pub struct RawLine {
    pub index: usize,
    pub text: String,
}

/// The mathematical value of a [`RawLine`].
pub struct LineView {
    pub index: int,
    pub text: Seq<char>,
}

impl View for RawLine {
    type V = LineView;

    open spec fn view(&self) -> LineView {
        LineView { index: self.index as int, text: self.text@ }
    }
}

impl RawLine {
    /// A copy with the same number and text.
    pub fn duplicate(&self) -> (copy: RawLine)
        ensures
            copy@ == self@,
    {
        RawLine { index: self.index, text: self.text.clone() }
    }
}

/// A line that was scanned, with the outcome of the match test on it.
pub struct Scanned {
    pub line: LineView,
    pub hit: bool,
}

/// The values of a sequence of lines.
pub open spec fn views(lines: Seq<RawLine>) -> Seq<LineView> {
    Seq::new(lines.len(), |i: int| lines[i]@)
}

/// The lines of a scan, without the match outcomes.
pub open spec fn lines_of(scan: Seq<Scanned>) -> Seq<LineView> {
    Seq::new(scan.len(), |p: int| scan[p].line)
}

/// Line numbers grow strictly along the scan.
pub open spec fn ascending(scan: Seq<Scanned>) -> bool {
    forall|p: int, q: int| 0 <= p < q < scan.len() ==> scan[p].line.index < scan[q].line.index
}

/// Position `p` lies in the trailing context of the match at position `m`:
/// it comes later, and its line number is at most `after` beyond the match's.
pub open spec fn trails(scan: Seq<Scanned>, after: Option<usize>, m: int, p: int) -> bool {
    &&& after is Some
    &&& 0 <= m < p < scan.len()
    &&& scan[m].hit
    &&& scan[p].line.index <= scan[m].line.index + after->0
}

/// Position `p` lies in the leading context of the match at position `m`:
/// it is one of the `before` scanned lines that come right before the match.
pub open spec fn leads(scan: Seq<Scanned>, before: Option<usize>, p: int, m: int) -> bool {
    &&& before is Some
    &&& 0 <= p < m < scan.len()
    &&& scan[m].hit
    &&& m - p <= before->0
}

/// The line at position `p` is emitted: it matches, or it lies in the
/// trailing or in the leading context of a match.
pub open spec fn selected(
    scan: Seq<Scanned>,
    before: Option<usize>,
    after: Option<usize>,
    p: int,
) -> bool {
    &&& 0 <= p < scan.len()
    &&& (scan[p].hit || (exists|m: int| trails(scan, after, m, p)) || (exists|m: int|
        leads(scan, before, p, m)))
}

/// The selected lines among the first `n` of the scan, in scan order.
pub open spec fn picked(
    scan: Seq<Scanned>,
    before: Option<usize>,
    after: Option<usize>,
    n: int,
) -> Seq<LineView>
    decreases n,
{
    if n <= 0 {
        Seq::empty()
    } else if selected(scan, before, after, n - 1) {
        picked(scan, before, after, n - 1).push(scan[n - 1].line)
    } else {
        picked(scan, before, after, n - 1)
    }
}

/// Everything that a scan emits: its selected lines, each once, in order.
pub open spec fn emission(scan: Seq<Scanned>, before: Option<usize>, after: Option<usize>) -> Seq<
    LineView,
> {
    picked(scan, before, after, scan.len() as int)
}

/// How many lines the ring buffer holds after `k` lines were scanned.
pub(crate) open spec fn ring_len(k: int, before: Option<usize>) -> int {
    match before {
        Some(b) => if k <= b { k } else { b + 1 },
        None => 0,
    }
}

/// The leading context that a match may still release: at most `before`
/// lines, and no more than the `unsent` newest ones.
pub(crate) open spec fn leading_count(before: Option<usize>, unsent: int) -> int {
    match before {
        Some(b) => if unsent <= b { unsent } else { b as int },
        None => 0,
    }
}

/// Two scans that agree on the first `n` lines, and on which of them are
/// selected, pick the same lines among them.
pub(crate) proof fn lemma_picked_agree(
    one: Seq<Scanned>,
    two: Seq<Scanned>,
    before: Option<usize>,
    after: Option<usize>,
    n: int,
)
    requires
        0 <= n <= one.len(),
        n <= two.len(),
        forall|p: int| 0 <= p < n ==> (#[trigger] one[p]).line == two[p].line,
        forall|p: int|
            0 <= p < n ==> #[trigger] selected(one, before, after, p) == selected(
                two,
                before,
                after,
                p,
            ),
    ensures
        picked(one, before, after, n) == picked(two, before, after, n),
    decreases n,
{
    if n > 0 {
        lemma_picked_agree(one, two, before, after, n - 1);
        assert(one[n - 1].line == two[n - 1].line);
        assert(selected(one, before, after, n - 1) == selected(two, before, after, n - 1));
    }
}

/// Where every line from `from` up to `n` is selected, all of them are
/// picked, in order.
pub(crate) proof fn lemma_picked_run(
    scan: Seq<Scanned>,
    before: Option<usize>,
    after: Option<usize>,
    from: int,
    n: int,
)
    requires
        0 <= from <= n <= scan.len(),
        forall|p: int| from <= p < n ==> #[trigger] selected(scan, before, after, p),
    ensures
        picked(scan, before, after, n) == picked(scan, before, after, from) + lines_of(
            scan,
        ).subrange(from, n),
    decreases n - from,
{
    if from < n {
        lemma_picked_run(scan, before, after, from, n - 1);
        assert(selected(scan, before, after, n - 1));
        assert(lines_of(scan).subrange(from, n) =~= lines_of(scan).subrange(from, n - 1).push(
            scan[n - 1].line,
        ));
        assert(picked(scan, before, after, n) =~= picked(scan, before, after, from) + lines_of(
            scan,
        ).subrange(from, n));
    } else {
        assert(picked(scan, before, after, n) =~= picked(scan, before, after, from) + lines_of(
            scan,
        ).subrange(from, n));
    }
}

/// Where no line from `from` up to `n` is selected, none of them is picked.
pub(crate) proof fn lemma_picked_gap(
    scan: Seq<Scanned>,
    before: Option<usize>,
    after: Option<usize>,
    from: int,
    n: int,
)
    requires
        0 <= from <= n <= scan.len(),
        forall|p: int| from <= p < n ==> !#[trigger] selected(scan, before, after, p),
    ensures
        picked(scan, before, after, n) == picked(scan, before, after, from),
    decreases n - from,
{
    if from < n {
        lemma_picked_gap(scan, before, after, from, n - 1);
        assert(!selected(scan, before, after, n - 1));
    }
}

/// What one more scanned line changes for an earlier position: nothing,
/// unless the new line matches and the position is in its leading context.
pub(crate) proof fn lemma_selected_push(
    scan: Seq<Scanned>,
    next: Scanned,
    before: Option<usize>,
    after: Option<usize>,
    p: int,
)
    requires
        0 <= p < scan.len(),
    ensures
        selected(scan.push(next), before, after, p) == (selected(scan, before, after, p) || (
        next.hit && before is Some && scan.len() - p <= before->0)),
{
    let grown = scan.push(next);
    let k = scan.len() as int;
    assert(grown[p] == scan[p]);
    if selected(grown, before, after, p) {
        if grown[p].hit {
        } else if exists|m: int| trails(grown, after, m, p) {
            let m = choose|m: int| trails(grown, after, m, p);
            assert(grown[m] == scan[m]);
            assert(trails(scan, after, m, p));
        } else {
            let m = choose|m: int| leads(grown, before, p, m);
            if m < k {
                assert(grown[m] == scan[m]);
                assert(leads(scan, before, p, m));
            }
        }
    }
    if selected(scan, before, after, p) {
        if scan[p].hit {
        } else if exists|m: int| trails(scan, after, m, p) {
            let m = choose|m: int| trails(scan, after, m, p);
            assert(grown[m] == scan[m]);
            assert(trails(grown, after, m, p));
        } else {
            let m = choose|m: int| leads(scan, before, p, m);
            assert(grown[m] == scan[m]);
            assert(leads(grown, before, p, m));
        }
    }
    if next.hit && before is Some && k - p <= before->0 {
        assert(grown[k] == next);
        assert(leads(grown, before, p, k));
    }
}

/// The most lines that one more scanned line can add to the emission: the
/// line itself and, where it matches, `before` lines of leading context.
pub open spec fn growth_bound(before: Option<usize>, hit: bool) -> int {
    if hit && before is Some {
        before->0 + 1
    } else {
        1
    }
}

/// What the window remembers of the emitted lines: among the lines that the
/// ring buffer holds, exactly the `unsent` newest ones were not emitted.
pub(crate) open spec fn unsent_ok(
    scan: Seq<Scanned>,
    before: Option<usize>,
    after: Option<usize>,
    unsent: int,
) -> bool {
    let k = scan.len() as int;
    let r = ring_len(k, before);
    &&& 0 <= unsent <= r
    &&& forall|p: int|
        k - r <= p < k ==> (#[trigger] selected(scan, before, after, p) <==> p < k - unsent)
}

/// The count of unsent lines after a line that was not emitted.
pub(crate) open spec fn bumped(unsent: int, k: int, before: Option<usize>) -> int {
    if unsent + 1 <= ring_len(k, before) {
        unsent + 1
    } else {
        ring_len(k, before)
    }
}

/// One step of a scan: what the next line adds to the emission, and what
/// the window has to remember afterwards.
pub(crate) proof fn lemma_step(
    scan: Seq<Scanned>,
    next: Scanned,
    before: Option<usize>,
    after: Option<usize>,
    unsent: int,
)
    requires
        ascending(scan.push(next)),
        unsent_ok(scan, before, after, unsent),
    ensures
        ({
            let grown = scan.push(next);
            let k = scan.len() as int;
            let now = selected(grown, before, after, k);
            let lead = if next.hit {
                leading_count(before, unsent)
            } else {
                0
            };
            &&& now == (next.hit || exists|m: int| trails(grown, after, m, k))
            &&& unsent_ok(
                grown,
                before,
                after,
                if now {
                    0
                } else {
                    bumped(unsent, k + 1, before)
                },
            )
            &&& 0 <= lead <= k
            &&& lead + 1 <= growth_bound(before, next.hit)
            &&& forall|p: int| k - lead <= p < k ==> !#[trigger] selected(scan, before, after, p)
            &&& emission(grown, before, after) == emission(scan, before, after) + lines_of(
                scan,
            ).subrange(k - lead, k) + (if now {
                seq![next.line]
            } else {
                Seq::empty()
            })
        }),
{
    let grown = scan.push(next);
    let k = scan.len() as int;
    let now = selected(grown, before, after, k);
    let lead = if next.hit {
        leading_count(before, unsent)
    } else {
        0
    };
    let from = k - lead;
    let r = ring_len(k, before);
    let r2 = ring_len(k + 1, before);
    assert(grown[k] == next);
    assert(now == (next.hit || exists|m: int| trails(grown, after, m, k))) by {
        if exists|m: int| leads(grown, before, k, m) {
            let m = choose|m: int| leads(grown, before, k, m);
            assert(false);
        }
    }
    assert forall|p: int| 0 <= p < k implies #[trigger] selected(grown, before, after, p) == (
    selected(scan, before, after, p) || (next.hit && before is Some && k - p <= before->0)) by {
        lemma_selected_push(scan, next, before, after, p);
    }
    // what is remembered afterwards
    if now {
        assert forall|p: int| k + 1 - r2 <= p < k + 1 implies #[trigger] selected(
            grown,
            before,
            after,
            p,
        ) by {
            if p < k {
                if next.hit {
                } else {
                    let m = choose|m: int| trails(grown, after, m, k);
                    assert(grown[p] == scan[p]);
                    assert(grown[m] == scan[m]);
                    if m < p {
                        assert(trails(grown, after, m, p));
                    } else if m == p {
                    } else {
                        assert(leads(grown, before, p, m));
                    }
                }
            }
        }
    } else {
        let u2 = bumped(unsent, k + 1, before);
        assert forall|p: int| k + 1 - r2 <= p < k + 1 implies (#[trigger] selected(
            grown,
            before,
            after,
            p,
        ) <==> p < k + 1 - u2) by {
            if p < k {
                assert(selected(grown, before, after, p) == selected(scan, before, after, p));
            }
        }
    }
    // what is emitted
    assert(picked(grown, before, after, k + 1) == if now {
        picked(grown, before, after, k).push(next.line)
    } else {
        picked(grown, before, after, k)
    });
    assert forall|p: int| 0 <= p < k implies (#[trigger] grown[p]).line == scan[p].line by {}
    if next.hit {
        assert forall|p: int| from <= p < k implies #[trigger] selected(grown, before, after, p) by {
        }
        lemma_picked_run(grown, before, after, from, k);
        assert(lines_of(grown).subrange(from, k) =~= lines_of(scan).subrange(from, k));
        assert forall|p: int| 0 <= p < from implies #[trigger] selected(grown, before, after, p)
            == selected(scan, before, after, p) by {
            if before is Some && k - p <= before->0 {
                assert(k - r <= p);
                assert(p < k - unsent);
                assert(selected(scan, before, after, p));
            }
        }
        lemma_picked_agree(grown, scan, before, after, from);
        assert forall|p: int| from <= p < k implies !#[trigger] selected(scan, before, after, p) by {
            assert(k - r <= p);
        }
        lemma_picked_gap(scan, before, after, from, k);
        assert(emission(grown, before, after) =~= emission(scan, before, after) + lines_of(
            scan,
        ).subrange(k - lead, k) + seq![next.line]);
    } else {
        lemma_picked_agree(grown, scan, before, after, k);
        assert(lines_of(scan).subrange(k - lead, k) =~= Seq::<LineView>::empty());
        assert(emission(grown, before, after) =~= emission(scan, before, after) + lines_of(
            scan,
        ).subrange(k - lead, k) + (if now {
            seq![next.line]
        } else {
            Seq::empty()
        }));
    }
}

/// The last line number that the trailing context of a match at `index`
/// covers, held to the machine's range.
pub(crate) open spec fn reach(index: int, after: usize) -> int {
    if index + after > usize::MAX {
        usize::MAX as int
    } else {
        index + after
    }
}

/// What the window remembers of the trailing context: the farthest line
/// number that a match so far still covers.
pub(crate) open spec fn pending_ok(scan: Seq<Scanned>, after: Option<usize>, pending: Option<usize>) -> bool {
    match after {
        None => pending is None,
        Some(a) => {
            &&& forall|m: int|
                0 <= m < scan.len() && (#[trigger] scan[m]).hit ==> pending is Some && reach(
                    scan[m].line.index,
                    a,
                ) <= pending->0
            &&& pending is Some ==> exists|m: int|
                0 <= m < scan.len() && (#[trigger] scan[m]).hit && pending->0 == reach(
                    scan[m].line.index,
                    a,
                )
        },
    }
}

/// The state of one scan: the context sizes, the most recent lines, and what
/// is needed to emit every selected line exactly once.
///
/// The window stands for three things: the ring buffer of the newest
/// `before + 1` lines, the set of line numbers emitted so far
/// ([`ContextWindow::emitted`]) and the set of line numbers that wait for
/// their trailing context ([`ContextWindow::pending`]). Line numbers only
/// grow, so it keeps of the two sets what can still matter: within the ring
/// buffer the lines not emitted are always the newest ones, and the pending
/// numbers are all those up to the reach of the last match.
pub struct ContextWindow {
    /// The number of leading context lines, if any were asked for.
    before: Option<usize>,
    /// The number of trailing context lines, if any were asked for.
    after: Option<usize>,
    /// The newest lines, oldest first; empty where no leading context is kept.
    ring: VecDeque<RawLine>,
    /// How many of the newest lines in `ring` were not emitted.
    unsent: usize,
    /// The last line number in the trailing context of a match so far.
    pending_through: Option<usize>,
    /// The number of the line fed last.
    last_index: Option<usize>,
    /// Every line fed so far, with the outcome of its match test.
    scan: Ghost<Seq<Scanned>>,
}

impl ContextWindow {
    /// The number of leading context lines, if leading context was asked for.
    pub closed spec fn before(&self) -> Option<usize> {
        self.before
    }

    /// The number of trailing context lines, if trailing context was asked for.
    pub closed spec fn after(&self) -> Option<usize> {
        self.after
    }

    /// The lines fed so far, with their match outcomes.
    pub closed spec fn scanned(&self) -> Seq<Scanned> {
        self.scan@
    }

    /// The numbers of the lines emitted so far.
    pub open spec fn emitted(&self) -> Set<int> {
        Set::new(
            |n: int|
                exists|p: int| #[trigger]
                    selected(self.scanned(), self.before(), self.after(), p)
                        && self.scanned()[p].line.index == n,
        )
    }

    /// The line numbers in the trailing context of a match so far: a line
    /// with such a number is emitted when it comes, match or not.
    pub open spec fn pending(&self) -> Set<int> {
        Set::new(
            |n: int|
                self.after() is Some && exists|m: int|
                    0 <= m < self.scanned().len() && (#[trigger] self.scanned()[m]).hit
                        && self.scanned()[m].line.index < n <= self.scanned()[m].line.index
                        + self.after()->0,
        )
    }

    /// The next line may carry `index`: it is beyond every line fed so far.
    pub open spec fn accepts(&self, index: usize) -> bool {
        self.scanned().len() == 0 || self.scanned().last().line.index < index
    }

    /// The window's fields agree with the lines fed so far.
    pub closed spec fn wf(&self) -> bool {
        let scan = self.scan@;
        let k = scan.len() as int;
        let r = ring_len(k, self.before);
        &&& ascending(scan)
        &&& match self.last_index {
            None => k == 0,
            Some(i) => k > 0 && scan[k - 1].line.index == i,
        }
        &&& self.ring@.len() == r
        &&& forall|j: int| 0 <= j < r ==> (#[trigger] self.ring@[j])@ == scan[k - r + j].line
        &&& unsent_ok(scan, self.before, self.after, self.unsent as int)
        &&& pending_ok(scan, self.after, self.pending_through)
    }

    /// The lines fed to a window carry strictly growing numbers.
    pub proof fn lemma_wf_ascending(&self)
        requires
            self.wf(),
        ensures
            ascending(self.scanned()),
    {
    }

    /// A window for a new source. `before` and `after` are the context sizes;
    /// `Some(0)` asks for context of no lines.
    pub fn new(before: Option<usize>, after: Option<usize>) -> (window: ContextWindow)
        ensures
            window.wf(),
            window.before() == before,
            window.after() == after,
            window.scanned() == Seq::<Scanned>::empty(),
    {
        ContextWindow {
            before,
            after,
            ring: VecDeque::new(),
            unsent: 0,
            pending_through: None,
            last_index: None,
            scan: Ghost(Seq::empty()),
        }
    }

    /// Whether a line with this number may be fed next.
    pub fn can_take(&self, index: usize) -> (ok: bool)
        requires
            self.wf(),
        ensures
            ok == self.accepts(index),
    {
        match self.last_index {
            None => true,
            Some(last) => last < index,
        }
    }

    /// Takes the next line of the source with the outcome of its match test
    /// and returns the lines to emit now, in order: on a match the leading
    /// context that was not emitted yet, then the line itself; a line without
    /// a match only if it lies in the trailing context of an earlier match.
    /// No line is returned that was emitted before.
    pub fn feed(&mut self, line: RawLine, hit: bool) -> (out: Vec<RawLine>)
        requires
            old(self).wf(),
            old(self).accepts(line.index),
        ensures
            final(self).wf(),
            final(self).before() == old(self).before(),
            final(self).after() == old(self).after(),
            final(self).scanned() == old(self).scanned().push(Scanned { line: line@, hit }),
            emission(final(self).scanned(), old(self).before(), old(self).after()) == emission(
                old(self).scanned(),
                old(self).before(),
                old(self).after(),
            ) + views(out@),
            out@.len() > 0 <==> hit || old(self).pending().contains(line.index as int),
            out@.len() > 0 ==> out@.last()@ == line@,
            out@.len() <= growth_bound(old(self).before(), hit),
            forall|j: int|
                0 <= j < out@.len() ==> !old(self).emitted().contains(
                    (#[trigger] out@[j]).index as int,
                ),
    {
        let ghost scan = self.scan@;
        let ghost next = Scanned { line: line@, hit };
        let ghost grown = scan.push(next);
        let ghost k = scan.len() as int;
        let ghost lead_count = if hit {
            leading_count(self.before, self.unsent as int)
        } else {
            0
        };
        let trailing = match self.pending_through {
            Some(through) => line.index <= through,
            None => false,
        };
        proof {
            assert(ascending(grown)) by {
                assert forall|p: int, q: int| 0 <= p < q < grown.len() implies grown[p].line.index
                    < grown[q].line.index by {
                    if q == k && p < k - 1 {
                        assert(scan[p].line.index < scan[k - 1].line.index);
                    }
                }
            }
            lemma_step(scan, next, self.before, self.after, self.unsent as int);
            assert(trailing == exists|m: int| trails(grown, self.after, m, k)) by {
                if trailing {
                    let m = choose|m: int|
                        0 <= m < scan.len() && (#[trigger] scan[m]).hit && self.pending_through->0
                            == reach(scan[m].line.index, self.after->0);
                    assert(grown[m] == scan[m]);
                    assert(trails(grown, self.after, m, k));
                }
                if exists|m: int| trails(grown, self.after, m, k) {
                    let m = choose|m: int| trails(grown, self.after, m, k);
                    assert(grown[m] == scan[m]);
                    assert(scan[m].hit);
                }
            }
            assert(trailing == self.pending().contains(line.index as int)) by {
                if trailing {
                    let m = choose|m: int| trails(grown, self.after, m, k);
                    assert(grown[m] == scan[m]);
                    assert(scan[m].hit);
                    if m < k - 1 {
                        assert(scan[m].line.index < scan[k - 1].line.index);
                    }
                }
                if self.pending().contains(line.index as int) {
                    let m = choose|m: int|
                        0 <= m < scan.len() && (#[trigger] scan[m]).hit && scan[m].line.index
                            < line.index <= scan[m].line.index + self.after->0;
                    assert(grown[m] == scan[m]);
                    assert(trails(grown, self.after, m, k));
                }
            }
            assert forall|p: int, n: int|
                k - lead_count <= p < k && n == scan[p].line.index implies !self.emitted().contains(
                n,
            ) by {
                if self.emitted().contains(n) {
                    let q = choose|q: int| #[trigger]
                        selected(scan, self.before, self.after, q) && scan[q].line.index == n;
                    if q < p {
                        assert(scan[q].line.index < scan[p].line.index);
                    } else if p < q {
                        assert(scan[p].line.index < scan[q].line.index);
                    }
                    assert(!selected(scan, self.before, self.after, p));
                }
            }
            assert(!self.emitted().contains(line.index as int)) by {
                if self.emitted().contains(line.index as int) {
                    let q = choose|q: int| #[trigger]
                        selected(scan, self.before, self.after, q) && scan[q].line.index
                            == line.index;
                    if q < k - 1 {
                        assert(scan[q].line.index < scan[k - 1].line.index);
                    }
                }
            }
        }
        let ghost emitted_before = self.emitted();
        let mut out: Vec<RawLine> = Vec::new();
        if let Some(b) = self.before {
            if self.ring.len() > b {
                self.ring.pop_front();
            }
            let held: usize = self.ring.len();
            assert(held == if k <= b { k } else { b as int });
            assert(forall|j: int| 0 <= j < held ==> (#[trigger] self.ring@[j])@ == scan[k - held + j].line);
            if hit {
                let lead: usize = if self.unsent <= held {
                    self.unsent
                } else {
                    held
                };
                assert(lead == lead_count);
                let mut j: usize = held - lead;
                while j < held
                    invariant
                        lead <= held,
                        held - lead <= j <= held,
                        held <= k,
                        k == scan.len(),
                        self.ring@.len() == held,
                        forall|i: int|
                            0 <= i < held ==> (#[trigger] self.ring@[i])@ == scan[k - held + i].line,
                        views(out@) =~= lines_of(scan).subrange(k - lead, k - held + j),
                    decreases held - j,
                {
                    let ghost sent = out@;
                    let copy = self.ring[j].duplicate();
                    out.push(copy);
                    proof {
                        assert(copy@ == scan[k - held + j].line);
                        assert(views(out@) =~= views(sent).push(copy@));
                        assert(lines_of(scan).subrange(k - lead, k - held + j + 1) =~= lines_of(
                            scan,
                        ).subrange(k - lead, k - held + j).push(scan[k - held + j].line));
                    }
                    j += 1;
                }
            }
            self.ring.push_back(line.duplicate());
        }
        assert(views(out@) =~= lines_of(scan).subrange(k - lead_count, k));
        assert(out@.len() == lead_count);
        assert forall|j: int| 0 <= j < out@.len() implies !emitted_before.contains(
            (#[trigger] out@[j]).index as int,
        ) by {
            assert(views(out@)[j] == scan[k - lead_count + j].line);
        }
        if hit {
            if let Some(a) = self.after {
                let through: usize = if a > usize::MAX - line.index {
                    usize::MAX
                } else {
                    line.index + a
                };
                self.pending_through = Some(through);
            }
        }
        self.last_index = Some(line.index);
        if hit || trailing {
            self.unsent = 0;
            let ghost sent = out@;
            out.push(line);
            assert(views(out@) =~= views(sent) + seq![next.line]);
        } else {
            if self.unsent < self.ring.len() {
                self.unsent = self.unsent + 1;
            }
        }
        self.scan = Ghost(grown);
        proof {
            assert(pending_ok(grown, self.after, self.pending_through)) by {
                if self.after is Some {
                    let a = self.after->0;
                    assert forall|m: int| 0 <= m < grown.len() && (#[trigger] grown[m]).hit implies
                        self.pending_through is Some && reach(grown[m].line.index, a)
                        <= self.pending_through->0 by {
                        if m < k {
                            assert(grown[m] == scan[m]);
                        }
                    }
                    if self.pending_through is Some {
                        if hit {
                            assert(grown[k].hit);
                        } else {
                            let m = choose|m: int|
                                0 <= m < scan.len() && (#[trigger] scan[m]).hit
                                    && self.pending_through->0 == reach(scan[m].line.index, a);
                            assert(grown[m] == scan[m]);
                            assert(grown[m].hit);
                        }
                    }
                }
            }
            let r2 = ring_len(k + 1, self.before);
            assert forall|j: int| 0 <= j < r2 implies (#[trigger] self.ring@[j])@ == grown[k + 1
                - r2 + j].line by {
                if j < r2 - 1 {
                    assert(grown[k + 1 - r2 + j] == scan[k + 1 - r2 + j]);
                }
            }
        }
        out
    }
}

} // verus!
