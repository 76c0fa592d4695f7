//! Rendering of emitted lines: the optional source and line-number prefixes.

use vstd::prelude::*;
use vstd::string::StringExecFns;

verus! {

/// One line to print: its text, and the source and the one-based line
/// number it may be annotated with.
#[derive(Clone, Debug)]
pub struct EmissionRecord {
    pub source_label: Option<String>,
    pub line_number: Option<usize>,
    pub text: String,
}

/// The mathematical value of an [`EmissionRecord`].
pub struct RecordView {
    pub source_label: Option<Seq<char>>,
    pub line_number: Option<nat>,
    pub text: Seq<char>,
}

impl View for EmissionRecord {
    type V = RecordView;

    open spec fn view(&self) -> RecordView {
        RecordView {
            source_label: match self.source_label {
                Some(label) => Some(label@),
                None => None,
            },
            line_number: match self.line_number {
                Some(n) => Some(n as nat),
                None => None,
            },
            text: self.text@,
        }
    }
}

/// The character of a decimal digit.
pub open spec fn digit(d: nat) -> char {
    if d == 0 {
        '0'
    } else if d == 1 {
        '1'
    } else if d == 2 {
        '2'
    } else if d == 3 {
        '3'
    } else if d == 4 {
        '4'
    } else if d == 5 {
        '5'
    } else if d == 6 {
        '6'
    } else if d == 7 {
        '7'
    } else if d == 8 {
        '8'
    } else {
        '9'
    }
}

/// A number in decimal digits, without leading zeros.
pub open spec fn decimal(n: nat) -> Seq<char>
    decreases n,
{
    if n < 10 {
        seq![digit(n)]
    } else {
        decimal(n / 10).push(digit(n % 10))
    }
}

/// The source prefix: the label and a colon, where a label is shown.
pub open spec fn label_prefix(label: Option<Seq<char>>, show_filename: bool) -> Seq<char> {
    match label {
        Some(name) if show_filename => name.push(':'),
        _ => Seq::empty(),
    }
}

/// The line-number prefix: the number, a colon and a space, where a number
/// is shown.
pub open spec fn number_prefix(line_number: Option<nat>, show_line_number: bool) -> Seq<char> {
    match line_number {
        Some(n) if show_line_number => decimal(n).push(':').push(' '),
        _ => Seq::empty(),
    }
}

/// A record as it is printed: source prefix, line-number prefix, text.
pub open spec fn rendered(record: RecordView, show_filename: bool, show_line_number: bool) -> Seq<
    char,
> {
    label_prefix(record.source_label, show_filename) + number_prefix(
        record.line_number,
        show_line_number,
    ) + record.text
}

/// The record of an emitted line: the label where sources are shown, the
/// one-based line number where numbers are shown, and the text.
pub open spec fn record_of(
    line: crate::window::LineView,
    label: Seq<char>,
    show_filename: bool,
    show_line_number: bool,
) -> RecordView {
    RecordView {
        source_label: if show_filename {
            Some(label)
        } else {
            None
        },
        line_number: if show_line_number {
            Some((line.index + 1) as nat)
        } else {
            None
        },
        text: line.text,
    }
}

/// The text of one decimal digit.
fn digit_text(d: usize) -> (text: &'static str)
    requires
        d < 10,
    ensures
        text@ == seq![digit(d as nat)],
{
    proof {
        reveal_strlit("0");
        reveal_strlit("1");
        reveal_strlit("2");
        reveal_strlit("3");
        reveal_strlit("4");
        reveal_strlit("5");
        reveal_strlit("6");
        reveal_strlit("7");
        reveal_strlit("8");
        reveal_strlit("9");
    }
    let text = if d == 0 {
        "0"
    } else if d == 1 {
        "1"
    } else if d == 2 {
        "2"
    } else if d == 3 {
        "3"
    } else if d == 4 {
        "4"
    } else if d == 5 {
        "5"
    } else if d == 6 {
        "6"
    } else if d == 7 {
        "7"
    } else if d == 8 {
        "8"
    } else {
        "9"
    };
    assert(text@ =~= seq![digit(d as nat)]);
    text
}

/// Writes a number in decimal digits.
pub fn decimal_string(n: usize) -> (text: String)
    ensures
        text@ == decimal(n as nat),
    decreases n,
{
    if n < 10 {
        String::from_str(digit_text(n))
    } else {
        let mut text = decimal_string(n / 10);
        text.append(digit_text(n % 10));
        assert(text@ =~= decimal(n as nat));
        text
    }
}

/// Renders one record. The prefixes come in a fixed order: the source, if
/// it is shown and the record has one; the line number, if it is shown and
/// the record has one; then the text as it is.
pub fn render(record: &EmissionRecord, show_filename: bool, show_line_number: bool) -> (line:
    String)
    ensures
        line@ == rendered(record@, show_filename, show_line_number),
{
    proof {
        reveal_strlit(":");
        reveal_strlit(": ");
    }
    let mut line = String::new();
    if show_filename {
        if let Some(label) = &record.source_label {
            line.append(label.as_str());
            line.append(":");
        }
    }
    assert(line@ =~= label_prefix(record@.source_label, show_filename));
    if show_line_number {
        if let Some(n) = record.line_number {
            let number = decimal_string(n);
            line.append(number.as_str());
            line.append(": ");
        }
    }
    assert(line@ =~= label_prefix(record@.source_label, show_filename) + number_prefix(
        record@.line_number,
        show_line_number,
    ));
    line.append(record.text.as_str());
    line
}

} // verus!
