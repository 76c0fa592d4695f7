//! The search itself: numbering the lines of a source, scanning them,
//! rendering what is emitted, and gathering the output of all sources.

use crate::config::{Config, ConfigView, Mode};
use crate::laws::{lemma_emission_ascends, lemma_emission_members, selects};
use crate::matcher::is_match;
use crate::render::{record_of, render, rendered, EmissionRecord};
use crate::walker::{is_candidate, PathKind, WalkEntry};
use crate::window::{emission, selected, views, ContextWindow, LineView, RawLine, Scanned};
use vstd::prelude::*;

verus! {

/// What is returned for a listed source that does not exist.
pub const NOT_FOUND: &'static str = "No such file or directory";

/// A source with its content: one entry for each line, `None` where the
/// line could not be read as text.
#[derive(Clone, Debug)]
pub struct Source {
    pub entry: WalkEntry,
    pub lines: Vec<Option<String>>,
}

/// The values of a sequence of strings.
pub open spec fn texts(items: Seq<String>) -> Seq<Seq<char>> {
    Seq::new(items.len(), |i: int| items[i]@)
}

/// The readable lines among the first `n` of a content, each with its
/// place in the content as its number.
pub open spec fn numbered(content: Seq<Option<String>>, n: int) -> Seq<LineView>
    decreases n,
{
    if n <= 0 {
        Seq::empty()
    } else {
        match content[n - 1] {
            Some(text) => numbered(content, n - 1).push(LineView { index: n - 1, text: text@ }),
            None => numbered(content, n - 1),
        }
    }
}

/// Line numbers grow strictly along the lines.
pub open spec fn rising(lines: Seq<LineView>) -> bool {
    forall|i: int, j: int| 0 <= i < j < lines.len() ==> lines[i].index < lines[j].index
}

/// The lines with the outcome of the match test on each.
pub open spec fn outcomes(lines: Seq<LineView>, pattern: Seq<char>, ignore_case: bool) -> Seq<
    Scanned,
> {
    Seq::new(
        lines.len(),
        |p: int| Scanned { line: lines[p], hit: is_match(lines[p].text, pattern, ignore_case) },
    )
}

/// The lines as they are printed, each with the prefixes asked for.
pub open spec fn rendered_lines(
    lines: Seq<LineView>,
    label: Seq<char>,
    show_filename: bool,
    show_line_number: bool,
) -> Seq<Seq<char>> {
    Seq::new(
        lines.len(),
        |i: int|
            rendered(
                record_of(lines[i], label, show_filename, show_line_number),
                show_filename,
                show_line_number,
            ),
    )
}

/// The output lines of one source: what its scan emits, rendered.
pub open spec fn found_in(
    label: Seq<char>,
    content: Seq<Option<String>>,
    config: ConfigView,
    show_filename: bool,
) -> Seq<Seq<char>> {
    rendered_lines(
        emission(
            outcomes(numbered(content, content.len() as int), config.pattern, config.ignore_case),
            config.before_context,
            config.after_context,
        ),
        label,
        show_filename,
        config.line_number,
    )
}

/// Whether a source is searched: in a walk the candidates, of listed files
/// the regular ones, and whatever is read from standard input.
pub open spec fn is_searched(config: ConfigView, entry: WalkEntry) -> bool {
    match config.mode() {
        Mode::Recursive => is_candidate(
            entry.path@,
            entry.depth,
            entry.kind,
            entry.is_symlink,
            config.recursive_following_symlink,
            config.exclude_dir,
        ),
        Mode::StandardInput => true,
        Mode::Files => entry.kind == PathKind::RegularFile,
    }
}

/// The output lines of one source under a request.
pub open spec fn source_output(config: ConfigView, source: Source) -> Seq<Seq<char>> {
    if is_searched(config, source.entry) {
        found_in(source.entry.path@, source.lines@, config, config.shows_filename())
    } else {
        Seq::empty()
    }
}

/// The output lines of the first `n` sources, source after source.
pub open spec fn gathered(config: ConfigView, sources: Seq<Source>, n: int) -> Seq<Seq<char>>
    decreases n,
{
    if n <= 0 {
        Seq::empty()
    } else {
        gathered(config, sources, n - 1) + source_output(config, sources[n - 1])
    }
}

/// One of the sources does not exist.
pub open spec fn any_missing(sources: Seq<Source>) -> bool {
    exists|i: int| 0 <= i < sources.len() && (#[trigger] sources[i]).entry.kind == PathKind::NotFound
}

/// Numbered lines carry strictly growing numbers, each the place of a
/// line of the content.
proof fn lemma_numbered(content: Seq<Option<String>>, n: int)
    requires
        0 <= n <= content.len(),
    ensures
        rising(numbered(content, n)),
        forall|i: int|
            0 <= i < numbered(content, n).len() ==> 0 <= (#[trigger] numbered(content, n)[i]).index
                < n,
    decreases n,
{
    if n > 0 {
        lemma_numbered(content, n - 1);
    }
}

/// Numbers the lines of a content from zero and drops those that could not
/// be read; the lines that stay keep their numbers.
pub fn number_lines(content: &Vec<Option<String>>) -> (lines: Vec<RawLine>)
    ensures
        views(lines@) == numbered(content@, content@.len() as int),
        rising(views(lines@)),
        forall|i: int| 0 <= i < lines@.len() ==> (#[trigger] lines@[i]).index < usize::MAX,
{
    let mut lines: Vec<RawLine> = Vec::new();
    let mut i: usize = 0;
    while i < content.len()
        invariant
            i <= content@.len(),
            views(lines@) =~= numbered(content@, i as int),
        decreases content@.len() - i,
    {
        if let Some(text) = &content[i] {
            lines.push(RawLine { index: i, text: text.clone() });
        }
        i += 1;
    }
    proof {
        lemma_numbered(content@, content@.len() as int);
        assert forall|i: int| 0 <= i < lines@.len() implies (#[trigger] lines@[i]).index
            < usize::MAX by {
            assert(views(lines@)[i].index == lines@[i].index);
        }
    }
    lines
}

/// Scans the lines of one source: tests each against the pattern and
/// returns what is emitted, the matches with their context, each line once
/// and in the order of the source.
pub fn scan(
    lines: &Vec<RawLine>,
    pattern: &str,
    ignore_case: bool,
    before: Option<usize>,
    after: Option<usize>,
) -> (out: Vec<RawLine>)
    requires
        rising(views(lines@)),
    ensures
        views(out@) == emission(outcomes(views(lines@), pattern@, ignore_case), before, after),
{
    let ghost all = outcomes(views(lines@), pattern@, ignore_case);
    let mut window = ContextWindow::new(before, after);
    let mut out: Vec<RawLine> = Vec::new();
    let mut i: usize = 0;
    assert(all.take(0) =~= Seq::<Scanned>::empty());
    while i < lines.len()
        invariant
            i <= lines@.len(),
            rising(views(lines@)),
            all == outcomes(views(lines@), pattern@, ignore_case),
            window.wf(),
            window.before() == before,
            window.after() == after,
            window.scanned() == all.take(i as int),
            views(out@) == emission(all.take(i as int), before, after),
        decreases lines@.len() - i,
    {
        let line = lines[i].duplicate();
        let hit = crate::matcher::matches(line.text.as_str(), pattern, ignore_case);
        proof {
            assert(all[i as int].line == views(lines@)[i as int]);
            if i > 0 {
                assert(all.take(i as int).last() == all[i - 1]);
                assert(views(lines@)[i - 1].index < views(lines@)[i as int].index);
            }
            assert(all.take(i as int).push(Scanned { line: line@, hit }) =~= all.take(i + 1));
        }
        let ghost sent = out@;
        let mut released = window.feed(line, hit);
        let ghost fresh = released@;
        out.append(&mut released);
        assert(views(out@) =~= views(sent) + views(fresh));
        i += 1;
    }
    assert(all.take(i as int) =~= all);
    out
}

/// The record of an emitted line: the label if sources are shown, the
/// one-based line number if numbers are shown, and the text.
pub fn make_record(
    line: RawLine,
    label: &str,
    show_filename: bool,
    show_line_number: bool,
) -> (record: EmissionRecord)
    requires
        line.index < usize::MAX,
    ensures
        record@ == record_of(line@, label@, show_filename, show_line_number),
{
    EmissionRecord {
        source_label: if show_filename {
            Some(label.to_owned())
        } else {
            None
        },
        line_number: if show_line_number {
            Some(line.index + 1)
        } else {
            None
        },
        text: line.text,
    }
}

/// Renders emitted lines, one output line for each.
pub fn render_lines(
    lines: &Vec<RawLine>,
    label: &str,
    show_filename: bool,
    show_line_number: bool,
) -> (items: Vec<String>)
    requires
        forall|j: int| 0 <= j < lines@.len() ==> (#[trigger] lines@[j]).index < usize::MAX,
    ensures
        texts(items@) == rendered_lines(views(lines@), label@, show_filename, show_line_number),
{
    let mut items: Vec<String> = Vec::new();
    let mut i: usize = 0;
    while i < lines.len()
        invariant
            i <= lines@.len(),
            forall|j: int| 0 <= j < lines@.len() ==> (#[trigger] lines@[j]).index < usize::MAX,
            items@.len() == i,
            forall|j: int|
                0 <= j < i ==> (#[trigger] items@[j])@ == rendered(
                    record_of(lines@[j]@, label@, show_filename, show_line_number),
                    show_filename,
                    show_line_number,
                ),
        decreases lines@.len() - i,
    {
        let record = make_record(lines[i].duplicate(), label, show_filename, show_line_number);
        let item = render(&record, show_filename, show_line_number);
        items.push(item);
        i += 1;
    }
    assert(texts(items@) =~= rendered_lines(
        views(lines@),
        label@,
        show_filename,
        show_line_number,
    ));
    items
}

/// Searches the content of one source and returns its output lines: the
/// matches with their context, each rendered with the prefixes asked for.
pub fn search_in_file(
    filename: &str,
    content: &Vec<Option<String>>,
    config: &Config,
    show_filename: bool,
) -> (items: Vec<String>)
    ensures
        texts(items@) == found_in(filename@, content@, config@, show_filename),
{
    let lines = number_lines(content);
    let ghost all = outcomes(views(lines@), config@.pattern, config@.ignore_case);
    let emitted = scan(
        &lines,
        config.pattern,
        config.ignore_case,
        config.before_context,
        config.after_context,
    );
    proof {
        lemma_emission_members(all, config.before_context, config.after_context);
        assert forall|i: int| 0 <= i < emitted@.len() implies (#[trigger] emitted@[i]).index
            < usize::MAX by {
            let line = views(emitted@)[i];
            assert(line.index == emitted@[i].index);
            assert(line == emission(all, config.before_context, config.after_context)[i]);
            assert(selects(
                all,
                config.before_context,
                config.after_context,
                all.len() as int,
                line,
            ));
            let p = choose|p: int|
                0 <= p < all.len() && #[trigger] selected(
                    all,
                    config.before_context,
                    config.after_context,
                    p,
                ) && all[p].line == line;
            assert(all[p].line == views(lines@)[p]);
            assert(views(lines@)[p].index == lines@[p].index);
            assert(lines@[p].index < usize::MAX);
        }
    }
    render_lines(&emitted, filename, show_filename, config.line_number)
}

/// Searches one more line of a source that is read line by line: tests the
/// line, feeds it to the window of the source and returns the output lines
/// that are due now, which are what the line adds to the emission.
pub fn search_line(
    window: &mut ContextWindow,
    line: RawLine,
    config: &Config,
    label: &str,
    show_filename: bool,
) -> (items: Vec<String>)
    requires
        old(window).wf(),
        old(window).accepts(line.index),
        line.index < usize::MAX,
    ensures
        final(window).wf(),
        final(window).before() == old(window).before(),
        final(window).after() == old(window).after(),
        final(window).scanned() == old(window).scanned().push(
            Scanned { line: line@, hit: is_match(line@.text, config@.pattern, config@.ignore_case) },
        ),
        texts(items@) == rendered_lines(
            emission(final(window).scanned(), old(window).before(), old(window).after()).skip(
                emission(
                    old(window).scanned(),
                    old(window).before(),
                    old(window).after(),
                ).len() as int,
            ),
            label@,
            show_filename,
            config@.line_number,
        ),
{
    let ghost before = window.before();
    let ghost after = window.after();
    let ghost sent = emission(window.scanned(), before, after);
    let ghost bound = line.index;
    let hit = crate::matcher::matches(line.text.as_str(), config.pattern, config.ignore_case);
    proof {
        window.lemma_wf_ascending();
    }
    let ghost earlier = window.scanned();
    let released = window.feed(line, hit);
    proof {
        let grown = window.scanned();
        let all = emission(grown, before, after);
        assert(all.skip(sent.len() as int) =~= views(released@));
        window.lemma_wf_ascending();
        lemma_emission_ascends(grown, before, after);
        assert(grown.last().line.index == bound);
        assert forall|j: int| 0 <= j < released@.len() implies (#[trigger] released@[j]).index
            < usize::MAX by {
            assert(views(released@)[j] == all[sent.len() + j]);
            assert(views(released@)[j].index == released@[j].index);
        }
    }
    render_lines(&released, label, show_filename, config.line_number)
}

/// Carries out a request on sources that were read beforehand and returns
/// all output lines, source after source.
///
/// In a walk the sources are the entries of the walk, and the candidates
/// among them are searched. Listed files must all exist: if one does not,
/// the whole request fails and nothing is returned for the others; listed
/// sources that are no regular files give no lines. What was read from
/// standard input is searched as it is.
pub fn grep(config: &Config, sources: &Vec<Source>) -> (result: Result<Vec<String>, &'static str>)
    ensures
        match result {
            Err(message) => {
                &&& config@.mode() == Mode::Files
                &&& any_missing(sources@)
                &&& message@ == NOT_FOUND@
            },
            Ok(items) => {
                &&& !(config@.mode() == Mode::Files && any_missing(sources@))
                &&& texts(items@) == gathered(config@, sources@, sources@.len() as int)
            },
        },
{
    let mode = config.mode();
    let shown = config.shows_filename();
    if mode == Mode::Files {
        let mut k: usize = 0;
        while k < sources.len()
            invariant
                k <= sources@.len(),
                config@.mode() == Mode::Files,
                forall|j: int| 0 <= j < k ==> (#[trigger] sources@[j]).entry.kind != PathKind::NotFound,
            decreases sources@.len() - k,
        {
            if sources[k].entry.kind == PathKind::NotFound {
                assert(sources@[k as int].entry.kind == PathKind::NotFound);
                return Err(NOT_FOUND);
            }
            k += 1;
        }
    }
    let mut items: Vec<String> = Vec::new();
    let mut i: usize = 0;
    while i < sources.len()
        invariant
            i <= sources@.len(),
            mode == config@.mode(),
            shown == config@.shows_filename(),
            texts(items@) == gathered(config@, sources@, i as int),
        decreases sources@.len() - i,
    {
        let source = &sources[i];
        let searched = match mode {
            Mode::Recursive => source.entry.is_candidate(
                config.recursive_following_symlink,
                config.exclude_dir,
            ),
            Mode::StandardInput => true,
            Mode::Files => source.entry.kind == PathKind::RegularFile,
        };
        if searched {
            let ghost gathered_before = items@;
            let mut found = search_in_file(
                source.entry.path.as_str(),
                &source.lines,
                config,
                shown,
            );
            let ghost fresh = found@;
            items.append(&mut found);
            assert(texts(items@) =~= texts(gathered_before) + texts(fresh));
        } else {
            assert(texts(items@) =~= texts(items@) + Seq::<Seq<char>>::empty());
        }
        i += 1;
    }
    Ok(items)
}

} // verus!
