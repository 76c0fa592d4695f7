//! The search request and the mode it resolves to.

use vstd::prelude::*;
use vstd::string::StrSliceExecFns;

verus! {

/// One search request: the pattern, the sources and the options. It is
/// built once and then only read.
pub struct Config<'a> {
    pub pattern: &'a str,
    pub filenames: Vec<&'a str>,
    pub line_number: bool,
    pub recursive: bool,
    pub recursive_following_symlink: bool,
    pub ignore_case: bool,
    pub exclude_dir: Option<&'a str>,
    pub before_context: Option<usize>,
    pub after_context: Option<usize>,
}

/// The mathematical value of a [`Config`].
pub struct ConfigView {
    pub pattern: Seq<char>,
    pub filenames: Seq<Seq<char>>,
    pub line_number: bool,
    pub recursive: bool,
    pub recursive_following_symlink: bool,
    pub ignore_case: bool,
    pub exclude_dir: Option<Seq<char>>,
    pub before_context: Option<usize>,
    pub after_context: Option<usize>,
}

/// How a request is carried out.
#[derive(Clone, Copy, Debug, PartialEq, Eq, Structural)]
pub enum Mode {
    /// Walk the tree below a root and search every candidate file.
    Recursive,
    /// Search the lines of standard input.
    StandardInput,
    /// Search the listed files, in order.
    Files,
}

impl<'a> View for Config<'a> {
    type V = ConfigView;

    open spec fn view(&self) -> ConfigView {
        ConfigView {
            pattern: self.pattern@,
            filenames: Seq::new(self.filenames@.len(), |i: int| self.filenames@[i]@),
            line_number: self.line_number,
            recursive: self.recursive,
            recursive_following_symlink: self.recursive_following_symlink,
            ignore_case: self.ignore_case,
            exclude_dir: match self.exclude_dir {
                Some(name) => Some(name@),
                None => None,
            },
            before_context: self.before_context,
            after_context: self.after_context,
        }
    }
}

impl ConfigView {
    /// The request walks a tree.
    pub open spec fn walks(self) -> bool {
        self.recursive || self.recursive_following_symlink
    }

    /// The request names standard input: no source at all, or the single
    /// source `-`.
    pub open spec fn names_standard_input(self) -> bool {
        self.filenames.len() == 0 || (self.filenames.len() == 1 && self.filenames[0] == seq!['-'])
    }

    /// The mode of the request. Walking comes first; standard input is read
    /// only where nothing is walked.
    pub open spec fn mode(self) -> Mode {
        if self.walks() {
            Mode::Recursive
        } else if self.names_standard_input() {
            Mode::StandardInput
        } else {
            Mode::Files
        }
    }

    /// The root of the walk: the first source, or the current directory.
    pub open spec fn root(self) -> Seq<char> {
        if self.filenames.len() == 0 {
            seq!['.']
        } else {
            self.filenames[0]
        }
    }

    /// Whether output lines carry the name of their source: always in a
    /// walk, and with more than one listed file.
    pub open spec fn shows_filename(self) -> bool {
        match self.mode() {
            Mode::Recursive => true,
            Mode::StandardInput => false,
            Mode::Files => self.filenames.len() > 1,
        }
    }
}

impl<'a> Config<'a> {
    /// A request without context lines.
    pub fn new(
        pattern: &'a str,
        filenames: Vec<&'a str>,
        line_number: bool,
        recursive: bool,
        recursive_following_symlink: bool,
        ignore_case: bool,
        exclude_dir: Option<&'a str>,
    ) -> (config: Config<'a>)
        ensures
            config.pattern == pattern,
            config.filenames == filenames,
            config.line_number == line_number,
            config.recursive == recursive,
            config.recursive_following_symlink == recursive_following_symlink,
            config.ignore_case == ignore_case,
            config.exclude_dir == exclude_dir,
            config.before_context is None,
            config.after_context is None,
    {
        Config {
            pattern,
            filenames,
            line_number,
            recursive,
            recursive_following_symlink,
            ignore_case,
            exclude_dir,
            before_context: None,
            after_context: None,
        }
    }

    /// The same request with context lines: `before` lines in front of each
    /// match and `after` lines behind it. `Some(0)` asks for none.
    pub fn with_context(self, before: Option<usize>, after: Option<usize>) -> (config: Config<'a>)
        ensures
            config@ == (ConfigView { before_context: before, after_context: after, ..self@ }),
            config.pattern == self.pattern,
            config.filenames == self.filenames,
            config.exclude_dir == self.exclude_dir,
    {
        Config {
            pattern: self.pattern,
            filenames: self.filenames,
            line_number: self.line_number,
            recursive: self.recursive,
            recursive_following_symlink: self.recursive_following_symlink,
            ignore_case: self.ignore_case,
            exclude_dir: self.exclude_dir,
            before_context: before,
            after_context: after,
        }
    }

    /// Resolves the mode of the request.
    pub fn mode(&self) -> (mode: Mode)
        ensures
            mode == self@.mode(),
    {
        if self.recursive || self.recursive_following_symlink {
            Mode::Recursive
        } else if self.filenames.len() == 0 {
            Mode::StandardInput
        } else if self.filenames.len() == 1 && is_dash(self.filenames[0]) {
            Mode::StandardInput
        } else {
            Mode::Files
        }
    }

    /// The root of the walk: the first source, or `.` where none is given.
    pub fn root(&self) -> (root: &'a str)
        ensures
            root@ == self@.root(),
    {
        if self.filenames.len() == 0 {
            proof {
                reveal_strlit(".");
                assert("."@ =~= seq!['.']);
            }
            "."
        } else {
            self.filenames[0]
        }
    }

    /// Whether output lines carry the name of their source.
    pub fn shows_filename(&self) -> (shown: bool)
        ensures
            shown == self@.shows_filename(),
    {
        match self.mode() {
            Mode::Recursive => true,
            Mode::StandardInput => false,
            Mode::Files => self.filenames.len() > 1,
        }
    }
}

/// Whether a source is the name of standard input, `-`.
pub fn is_dash(name: &str) -> (dash: bool)
    ensures
        dash == (name@ == seq!['-']),
{
    if name.unicode_len() == 1 {
        let first = name.get_char(0);
        assert(first == '-' ==> name@ =~= seq!['-']);
        first == '-'
    } else {
        false
    }
}

} // verus!
