//! The line printer: copies lines, optionally numbering all of them or only
//! the non-blank ones. The counter starts at 1 for every source.
use vstd::prelude::*;
use vstd::string::StringExecFns;
use vstd::string::StrSliceExecFns;
use crate::text::{aligned_number, decimal, pad_left, views};

verus! {

/// Width of the field that holds a line number.
pub const NUMBER_WIDTH: usize = 6;

/// `line` prefixed with `n` right-aligned in six columns and a tab.
pub open spec fn numbered(n: nat, line: Seq<char>) -> Seq<char> {
    pad_left(decimal(n), NUMBER_WIDTH as nat) + seq!['\t'] + line
}

/// What the printer emits for `line` given the number it is assigned, if any.
pub open spec fn rendered(line: Seq<char>, number: Option<nat>) -> Seq<char> {
    match number {
        Option::Some(n) => numbered(n, line),
        Option::None => line,
    }
}

/// Settings of the line printer.
pub struct Config {
    /// The sources, in the order in which they are printed; `-` is standard input.
    pub files: Vec<String>,
    /// Number every line.
    pub number_lines: bool,
    /// Number the non-empty lines only; ignored when `number_lines` is set.
    pub number_nonblank_lines: bool,
}

/// The message reported when a source cannot be opened.
pub open spec fn open_failure(filename: Seq<char>, cause: Seq<char>) -> Seq<char> {
    "Failed to open "@ + filename + ": "@ + cause
}

/// Builds the message reported when `filename` cannot be opened for `cause`.
pub fn open_failure_message(filename: &str, cause: &str) -> (r: String)
    ensures
        r@ == open_failure(filename@, cause@),
{
    let mut r = String::from_str("Failed to open ");
    r.append(filename);
    r.append(": ");
    r.append(cause);
    r
}

impl Config {
    pub fn new(files: Vec<String>, number_lines: bool, number_nonblank_lines: bool) -> (r: Config)
        ensures
            r.files@ == files@,
            r.number_lines == number_lines,
            r.number_nonblank_lines == number_nonblank_lines,
    {
        Config { files, number_lines, number_nonblank_lines }
    }

    /// Whether `line` is assigned a number.
    pub open spec fn numbers(&self, line: Seq<char>) -> bool {
        self.number_lines || (self.number_nonblank_lines && line.len() > 0)
    }

    /// How many of the first `i` lines are assigned a number.
    pub open spec fn counted_before(&self, lines: Seq<Seq<char>>, i: int) -> nat
        decreases i,
    {
        if i <= 0 {
            0
        } else {
            self.counted_before(lines, i - 1) + if self.numbers(lines[i - 1]) {
                1nat
            } else {
                0nat
            }
        }
    }

    /// The number that line `i` of a source is assigned, if any.
    pub open spec fn assigned_number(&self, lines: Seq<Seq<char>>, i: int) -> Option<nat> {
        if self.numbers(lines[i]) {
            Option::Some(self.counted_before(lines, i) + 1)
        } else {
            Option::None
        }
    }

    /// What the printer emits for a source made of `lines`.
    pub open spec fn rendered_source(&self, lines: Seq<Seq<char>>) -> Seq<Seq<char>> {
        Seq::new(lines.len(), |i: int| rendered(lines[i], self.assigned_number(lines, i)))
    }

    /// Whether `line` is assigned a number.
    pub fn numbers_line(&self, line: &str) -> (r: bool)
        ensures
            r == self.numbers(line@),
    {
        self.number_lines || (self.number_nonblank_lines && line.unicode_len() > 0)
    }

    /// The output line for `line`, using `number` if the line is numbered.
    pub fn format_line(&self, number: u64, line: &str) -> (r: String)
        ensures
            self.numbers(line@) ==> r@ == numbered(number as nat, line@),
            !self.numbers(line@) ==> r@ == line@,
    {
        if self.numbers_line(line) {
            let mut r = aligned_number(number, NUMBER_WIDTH);
            proof { reveal_strlit("\t"); }
            r.append("\t");
            r.append(line);
            assert(r@ =~= numbered(number as nat, line@));
            r
        } else {
            String::from_str(line)
        }
    }

    /// The output lines for a source made of `lines`.
    pub fn render_source(&self, lines: &Vec<String>) -> (r: Vec<String>)
        ensures
            r@.len() == lines@.len(),
            views(r@) == self.rendered_source(views(lines@)),
    {
        let ghost lv = views(lines@);
        let mut out: Vec<String> = Vec::new();
        let mut assigned: u64 = 0;
        let mut i: usize = 0;
        while i < lines.len()
            invariant
                lv == views(lines@),
                i <= lines.len(),
                out.len() == i,
                assigned == self.counted_before(lv, i as int),
                assigned <= i,
                forall|j: int| 0 <= j < i ==> #[trigger] out@[j]@ == self.rendered_source(lv)[j],
            decreases lines.len() - i,
        {
            let line = lines[i].as_str();
            let numbered_here = self.numbers_line(line);
            let o = self.format_line(assigned + 1, line);
            out.push(o);
            if numbered_here {
                assigned = assigned + 1;
            }
            i = i + 1;
        }
        assert(views(out@) =~= self.rendered_source(lv));
        out
    }
}

/// Lines that are not numbered leave the count unchanged.
proof fn lemma_count_unchanged(cfg: Config, lines: Seq<Seq<char>>, a: int, b: int)
    requires
        0 <= a <= b <= lines.len(),
        forall|k: int| a <= k < b ==> !cfg.numbers(#[trigger] lines[k]),
    ensures
        cfg.counted_before(lines, b) == cfg.counted_before(lines, a),
    decreases b - a,
{
    if b > a {
        lemma_count_unchanged(cfg, lines, a, b - 1);
    }
}

/// When every line is numbered, the count before line `i` is `i`.
proof fn lemma_count_all(cfg: Config, lines: Seq<Seq<char>>, i: int)
    requires
        cfg.number_lines,
        0 <= i <= lines.len(),
    ensures
        cfg.counted_before(lines, i) == i,
    decreases i,
{
    if i > 0 {
        lemma_count_all(cfg, lines, i - 1);
    }
}

/// With neither numbering flag, every line of a source is printed verbatim
/// and in order.
pub proof fn lemma_plain_is_verbatim(cfg: Config, lines: Seq<Seq<char>>)
    requires
        !cfg.number_lines,
        !cfg.number_nonblank_lines,
    ensures
        cfg.rendered_source(lines) == lines,
{
    assert(cfg.rendered_source(lines) =~= lines);
}

/// When every line is numbered, each line of a source is numbered, and line
/// `i` (counting from 0) gets the number `i + 1`.
pub proof fn lemma_number_all(cfg: Config, lines: Seq<Seq<char>>)
    requires
        cfg.number_lines,
    ensures
        forall|i: int|
            0 <= i < lines.len() ==> #[trigger] cfg.assigned_number(lines, i) == Option::Some(
                (i + 1) as nat,
            ),
        forall|i: int|
            0 <= i < lines.len() ==> #[trigger] cfg.rendered_source(lines)[i] == numbered(
                (i + 1) as nat,
                lines[i],
            ),
{
    assert forall|i: int| 0 <= i < lines.len() implies #[trigger] cfg.assigned_number(lines, i)
        == Option::Some((i + 1) as nat) by {
        lemma_count_all(cfg, lines, i);
    }
    assert forall|i: int| 0 <= i < lines.len() implies #[trigger] cfg.rendered_source(lines)[i]
        == numbered((i + 1) as nat, lines[i]) by {
        lemma_count_all(cfg, lines, i);
    }
}

/// When only non-blank lines are numbered, an empty line gets no number and
/// is printed as it is, every other line gets one, the first non-empty line
/// gets 1, and each following non-empty line gets one more than the
/// non-empty line before it.
pub proof fn lemma_number_nonblank(cfg: Config, lines: Seq<Seq<char>>)
    requires
        !cfg.number_lines,
        cfg.number_nonblank_lines,
    ensures
        forall|i: int|
            0 <= i < lines.len() && lines[i].len() == 0 ==> #[trigger] cfg.assigned_number(lines, i)
                == Option::<nat>::None && cfg.rendered_source(lines)[i] == lines[i],
        forall|i: int|
            0 <= i < lines.len() && lines[i].len() > 0 ==> (#[trigger] cfg.assigned_number(
                lines,
                i,
            )) is Some,
        forall|i: int|
            0 <= i < lines.len() && lines[i].len() > 0 && (forall|k: int|
                0 <= k < i ==> #[trigger] lines[k].len() == 0) ==> #[trigger] cfg.assigned_number(
                lines,
                i,
            ) == Option::Some(1nat),
        forall|i: int, j: int|
            #![trigger cfg.assigned_number(lines, i), cfg.assigned_number(lines, j)]
            0 <= i < j < lines.len() && lines[i].len() > 0 && lines[j].len() > 0 && (forall|k: int|
                i < k < j ==> #[trigger] lines[k].len() == 0) ==> cfg.assigned_number(lines, j)
                == Option::Some(cfg.assigned_number(lines, i)->0 + 1),
{
    assert forall|i: int|
        0 <= i < lines.len() && lines[i].len() > 0 && (forall|k: int|
            0 <= k < i ==> #[trigger] lines[k].len() == 0) implies #[trigger] cfg.assigned_number(
        lines,
        i,
    ) == Option::Some(1nat) by {
        assert forall|k: int| 0 <= k < i implies !cfg.numbers(#[trigger] lines[k]) by {
            assert(lines[k].len() == 0);
        }
        lemma_count_unchanged(cfg, lines, 0, i);
    }
    assert forall|i: int, j: int|
        #![trigger cfg.assigned_number(lines, i), cfg.assigned_number(lines, j)]
        0 <= i < j < lines.len() && lines[i].len() > 0 && lines[j].len() > 0 && (forall|k: int|
            i < k < j ==> #[trigger] lines[k].len() == 0) implies cfg.assigned_number(lines, j)
        == Option::Some(cfg.assigned_number(lines, i)->0 + 1) by {
        assert forall|k: int| i + 1 <= k < j implies !cfg.numbers(#[trigger] lines[k]) by {
            assert(lines[k].len() == 0);
        }
        lemma_count_unchanged(cfg, lines, i + 1, j);
    }
}

} // verus!
