//! The duplicate collapser: consecutive lines that are equal once trailing
//! whitespace is removed form a run, and each run is emitted once, as the
//! text of its first line, optionally prefixed with its length.
use vstd::prelude::*;
use vstd::string::StringExecFns;
use crate::text::{aligned_number, decimal, pad_left, views};

verus! {

/// Width of the field that holds a run's count.
pub const COUNT_WIDTH: usize = 4;

/// What `str::trim_end` returns for a string: the string without its
/// trailing whitespace.
pub uninterp spec fn trim_end_of(s: Seq<char>) -> Seq<char>;

/// Relies on `str::trim_end`, whose result depends on the characters alone.
#[verifier::external_body]
fn trimmed(s: &str) -> (r: String)
    ensures
        r@ == trim_end_of(s@),
{
    s.trim_end().to_string()
}

/// Whether two lines belong to the same run: they are equal once trailing
/// whitespace is removed.
pub fn same_run(a: &str, b: &str) -> (r: bool)
    ensures
        r == (trim_end_of(a@) == trim_end_of(b@)),
{
    let ta = trimmed(a);
    let tb = trimmed(b);
    ta == tb
}

/// A completed run: the text of its first line, terminator included, and how
/// many lines it holds.
pub struct Run {
    pub text: String,
    pub count: u64,
}

impl View for Run {
    type V = (Seq<char>, nat);

    open spec fn view(&self) -> (Seq<char>, nat) {
        (self.text@, self.count as nat)
    }
}

/// The views of a sequence of runs.
pub open spec fn run_views(v: Seq<Run>) -> Seq<(Seq<char>, nat)> {
    v.map_values(|r: Run| r@)
}

/// The runs `rs` after one more line `l` is read: `l` joins the last run if
/// it matches that run's text once trimmed, and starts a new run otherwise.
pub open spec fn extend_runs(rs: Seq<(Seq<char>, nat)>, l: Seq<char>) -> Seq<(Seq<char>, nat)> {
    if rs.len() > 0 && trim_end_of(rs.last().0) == trim_end_of(l) {
        rs.update(rs.len() - 1, (rs.last().0, rs.last().1 + 1))
    } else {
        rs.push((l, 1nat))
    }
}

/// The runs of a sequence of lines, in order.
pub open spec fn runs_of(lines: Seq<Seq<char>>) -> Seq<(Seq<char>, nat)>
    decreases lines.len(),
{
    if lines.len() == 0 {
        Seq::empty()
    } else {
        extend_runs(runs_of(lines.drop_last()), lines.last())
    }
}

/// What is written for a run of `count` lines whose first line is `text`.
pub open spec fn flushed(text: Seq<char>, count: nat, show_count: bool) -> Seq<char> {
    if show_count {
        pad_left(decimal(count), COUNT_WIDTH as nat) + seq![' '] + text
    } else {
        text
    }
}

/// What is written for the runs `rs`, one entry per run.
pub open spec fn rendered_runs(rs: Seq<(Seq<char>, nat)>, show_count: bool) -> Seq<Seq<char>> {
    Seq::new(rs.len(), |i: int| flushed(rs[i].0, rs[i].1, show_count))
}

/// `text` repeated `n` times.
pub open spec fn repeat(text: Seq<char>, n: nat) -> Seq<Seq<char>>
    decreases n,
{
    if n == 0 {
        Seq::empty()
    } else {
        repeat(text, (n - 1) as nat).push(text)
    }
}

/// The lines that the runs `rs` stand for: each run's text repeated by its
/// count.
pub open spec fn expand(rs: Seq<(Seq<char>, nat)>) -> Seq<Seq<char>>
    decreases rs.len(),
{
    if rs.len() == 0 {
        Seq::empty()
    } else {
        expand(rs.drop_last()) + repeat(rs.last().0, rs.last().1)
    }
}

/// The sum of the counts of the runs `rs`.
pub open spec fn total(rs: Seq<(Seq<char>, nat)>) -> nat
    decreases rs.len(),
{
    if rs.len() == 0 {
        0
    } else {
        total(rs.drop_last()) + rs.last().1
    }
}

/// The run in progress while the input is read.
pub enum RunState {
    /// No line has been read yet.
    NoRun,
    /// A run has begun with `text` and holds `count` lines so far.
    InRun { text: String, count: u64 },
}

impl RunState {
    /// The run in progress, as a sequence of at most one run.
    pub open spec fn pending(&self) -> Seq<(Seq<char>, nat)> {
        match self {
            RunState::NoRun => Seq::empty(),
            RunState::InRun { text, count } => seq![(text@, *count as nat)],
        }
    }

    /// How many lines the run in progress holds.
    pub open spec fn count_so_far(&self) -> nat {
        match self {
            RunState::NoRun => 0,
            RunState::InRun { count, .. } => *count as nat,
        }
    }

    /// Whether one more line can join the run in progress without its count
    /// overflowing.
    pub open spec fn can_step(&self) -> bool {
        self.count_so_far() < u64::MAX
    }

    pub fn new() -> (r: RunState)
        ensures
            r is NoRun,
    {
        RunState::NoRun
    }

    /// Whether one more line can join the run in progress without its count
    /// overflowing.
    pub fn has_room(&self) -> (r: bool)
        ensures
            r == self.can_step(),
    {
        match self {
            RunState::NoRun => true,
            RunState::InRun { count, .. } => *count < u64::MAX,
        }
    }

    /// Reads one more line: returns the next state and the run that the line
    /// completed, if it did not join the run in progress.
    pub fn step(self, line: String) -> (r: (RunState, Option<Run>))
        requires
            self.can_step(),
        ensures
            r.0 is InRun,
            r.0.count_so_far() <= self.count_so_far() + 1,
            r.1 is Some ==> self is InRun,
            match r.1 {
                Option::Some(done) => seq![done@] + r.0.pending(),
                Option::None => r.0.pending(),
            } == extend_runs(self.pending(), line@),
    {
        match self {
            RunState::NoRun => {
                let r = (RunState::InRun { text: line, count: 1 }, Option::None);
                assert(r.0.pending() =~= extend_runs(self.pending(), line@));
                r
            },
            RunState::InRun { text, count } => {
                if same_run(text.as_str(), line.as_str()) {
                    let r = (RunState::InRun { text, count: count + 1 }, Option::None);
                    assert(r.0.pending() =~= extend_runs(self.pending(), line@));
                    r
                } else {
                    let done = Run { text, count };
                    let r = (RunState::InRun { text: line, count: 1 }, Option::Some(done));
                    assert(seq![done@] + r.0.pending() =~= extend_runs(self.pending(), line@));
                    r
                }
            },
        }
    }

    /// Ends the input: returns the run in progress, if any.
    pub fn finish(self) -> (r: Option<Run>)
        ensures
            match r {
                Option::Some(done) => seq![done@],
                Option::None => Seq::empty(),
            } == self.pending(),
    {
        match self {
            RunState::NoRun => Option::None,
            RunState::InRun { text, count } => Option::Some(Run { text, count }),
        }
    }
}

/// What is written for `run`: its text, prefixed with its count right-aligned
/// in four columns and a space when `show_count` is set.
pub fn render_run(run: &Run, show_count: bool) -> (r: String)
    ensures
        r@ == flushed(run.text@, run.count as nat, show_count),
{
    if show_count {
        let mut r = aligned_number(run.count, COUNT_WIDTH);
        proof { reveal_strlit(" "); }
        r.append(" ");
        r.append(run.text.as_str());
        assert(r@ =~= flushed(run.text@, run.count as nat, show_count));
        r
    } else {
        run.text.clone()
    }
}

/// Settings of the duplicate collapser.
pub struct Config {
    /// The input source; `-` is standard input.
    pub in_file: String,
    /// The output file; standard output when absent.
    pub out_file: Option<String>,
    /// Prefix each emitted run with its count.
    pub count: bool,
}

impl Config {
    pub fn new(in_file: String, out_file: Option<String>, count: bool) -> (r: Config)
        ensures
            r.in_file@ == in_file@,
            r.out_file == out_file,
            r.count == count,
    {
        Config { in_file, out_file, count }
    }
}

/// The message reported when the input `filename` cannot be opened for
/// `cause`.
pub open spec fn input_failure(filename: Seq<char>, cause: Seq<char>) -> Seq<char> {
    filename + ": "@ + cause
}

/// Builds the message reported when the input `filename` cannot be opened.
pub fn input_failure_message(filename: &str, cause: &str) -> (r: String)
    ensures
        r@ == input_failure(filename@, cause@),
{
    let mut r = String::from_str(filename);
    r.append(": ");
    r.append(cause);
    r
}

/// Reading one more line only touches the run in progress.
proof fn lemma_extend_after(done: Seq<(Seq<char>, nat)>, p: Seq<(Seq<char>, nat)>, l: Seq<char>)
    requires
        p.len() == 1,
    ensures
        extend_runs(done + p, l) == done + extend_runs(p, l),
{
    assert((done + p).last() == p.last());
    if trim_end_of(p.last().0) == trim_end_of(l) {
        assert(extend_runs(done + p, l) =~= done + extend_runs(p, l));
    } else {
        assert(extend_runs(done + p, l) =~= done + extend_runs(p, l));
    }
}

/// The runs of `lines`, in order.
pub fn collapse_runs(lines: &Vec<String>) -> (r: Vec<Run>)
    ensures
        r@.len() == runs_of(views(lines@)).len(),
        run_views(r@) == runs_of(views(lines@)),
{
    let ghost lv = views(lines@);
    let mut out: Vec<Run> = Vec::new();
    let mut state = RunState::new();
    let mut i: usize = 0;
    while i < lines.len()
        invariant
            lv == views(lines@),
            i <= lines.len(),
            run_views(out@) + state.pending() == runs_of(lv.take(i as int)),
            state is NoRun <==> i == 0,
            state.count_so_far() <= i,
        decreases lines.len() - i,
    {
        let ghost before = state.pending();
        let ghost done = run_views(out@);
        let line = lines[i].clone();
        assert(lv.take(i + 1).drop_last() =~= lv.take(i as int));
        assert(lv[i as int] == line@);
        if i > 0 {
            proof { lemma_extend_after(done, before, line@); }
        } else {
            assert(done + before =~= before);
            assert(done =~= Seq::empty());
        }
        let (next, emitted) = state.step(line);
        match emitted {
            Option::Some(run) => {
                out.push(run);
                assert(run_views(out@) =~= done.push(run@));
                assert(run_views(out@) + next.pending() =~= done + (seq![run@] + next.pending()));
            },
            Option::None => {},
        }
        state = next;
        i = i + 1;
    }
    assert(lv.take(i as int) =~= lv);
    let ghost done = run_views(out@);
    match state.finish() {
        Option::Some(run) => {
            out.push(run);
            assert(run_views(out@) =~= done + seq![run@]);
        },
        Option::None => {
            assert(done + Seq::<(Seq<char>, nat)>::empty() =~= done);
        },
    }
    out
}

/// What the collapser writes for `lines`, one entry per run.
pub fn collapse(lines: &Vec<String>, show_count: bool) -> (r: Vec<String>)
    ensures
        r@.len() == runs_of(views(lines@)).len(),
        views(r@) == rendered_runs(runs_of(views(lines@)), show_count),
{
    let runs = collapse_runs(lines);
    let ghost rs = run_views(runs@);
    let mut out: Vec<String> = Vec::new();
    let mut i: usize = 0;
    while i < runs.len()
        invariant
            rs == run_views(runs@),
            i <= runs.len(),
            out.len() == i,
            forall|j: int| 0 <= j < i ==> #[trigger] out@[j]@ == rendered_runs(rs, show_count)[j],
        decreases runs.len() - i,
    {
        let o = render_run(&runs[i], show_count);
        out.push(o);
        i = i + 1;
    }
    assert(views(out@) =~= rendered_runs(rs, show_count));
    out
}

/// Every run holds at least one line, and adjacent runs differ once trimmed.
pub open spec fn separated(rs: Seq<(Seq<char>, nat)>) -> bool {
    &&& forall|i: int| 0 <= i < rs.len() ==> #[trigger] rs[i].1 >= 1
    &&& forall|i: int|
        0 < i < rs.len() ==> trim_end_of(#[trigger] rs[i].0) != trim_end_of(rs[i - 1].0)
}

/// Runs are maximal: each holds at least one line, and two adjacent runs
/// never match once trimmed.
pub proof fn lemma_runs_separated(lines: Seq<Seq<char>>)
    ensures
        separated(runs_of(lines)),
    decreases lines.len(),
{
    if lines.len() > 0 {
        lemma_runs_separated(lines.drop_last());
        let rs = runs_of(lines.drop_last());
        let next = runs_of(lines);
        assert forall|i: int| 0 < i < next.len() implies trim_end_of(#[trigger] next[i].0)
            != trim_end_of(next[i - 1].0) by {
            if i < rs.len() {
                assert(next[i].0 == rs[i].0 && next[i - 1].0 == rs[i - 1].0);
            }
        }
    }
}

/// The counts of the runs add up to the number of lines read.
pub proof fn lemma_runs_total(lines: Seq<Seq<char>>)
    ensures
        total(runs_of(lines)) == lines.len(),
    decreases lines.len(),
{
    if lines.len() > 0 {
        lemma_runs_total(lines.drop_last());
        let rs = runs_of(lines.drop_last());
        let l = lines.last();
        if rs.len() > 0 && trim_end_of(rs.last().0) == trim_end_of(l) {
            let next = rs.update(rs.len() - 1, (rs.last().0, rs.last().1 + 1));
            assert(next.drop_last() =~= rs.drop_last());
        } else {
            assert(rs.push((l, 1nat)).drop_last() =~= rs);
        }
    }
}

/// Adding a line to the last run adds its text to the expansion.
proof fn lemma_expand_bump(rs: Seq<(Seq<char>, nat)>)
    requires
        rs.len() > 0,
    ensures
        expand(rs.update(rs.len() - 1, (rs.last().0, rs.last().1 + 1))) == expand(rs).push(
            rs.last().0,
        ),
{
    let t = rs.last().0;
    let c = rs.last().1;
    let next = rs.update(rs.len() - 1, (t, c + 1));
    assert(next.drop_last() =~= rs.drop_last());
    assert(repeat(t, c + 1) == repeat(t, c).push(t));
    assert(expand(next) =~= expand(rs).push(t));
}

/// A new run of one line adds its text to the expansion.
proof fn lemma_expand_push(rs: Seq<(Seq<char>, nat)>, l: Seq<char>)
    ensures
        expand(rs.push((l, 1nat))) == expand(rs).push(l),
{
    let next = rs.push((l, 1nat));
    assert(next.drop_last() =~= rs);
    assert(repeat(l, 0) =~= Seq::<Seq<char>>::empty());
    assert(repeat(l, 1) =~= seq![l]);
    assert(expand(next) =~= expand(rs).push(l));
}

proof fn lemma_rebuild_induct(lines: Seq<Seq<char>>)
    requires
        forall|i: int|
            0 < i < lines.len() && trim_end_of(lines[i - 1]) == trim_end_of(#[trigger] lines[i])
                ==> lines[i - 1] == lines[i],
    ensures
        expand(runs_of(lines)) == lines,
        lines.len() > 0 ==> runs_of(lines).len() > 0 && runs_of(lines).last().0 == lines.last(),
    decreases lines.len(),
{
    if lines.len() > 0 {
        let prev = lines.drop_last();
        assert forall|i: int|
            0 < i < prev.len() && trim_end_of(prev[i - 1]) == trim_end_of(#[trigger] prev[i])
                implies prev[i - 1] == prev[i] by {
            assert(prev[i] == lines[i] && prev[i - 1] == lines[i - 1]);
        }
        lemma_rebuild_induct(prev);
        let rs = runs_of(prev);
        let l = lines.last();
        assert(lines =~= prev.push(l));
        assert(runs_of(lines) == extend_runs(rs, l));
        if rs.len() > 0 && trim_end_of(rs.last().0) == trim_end_of(l) {
            assert(lines[lines.len() - 2] == prev.last());
            lemma_expand_bump(rs);
        } else {
            lemma_expand_push(rs, l);
        }
    }
}

/// Where lines that match once trimmed are equal outright, repeating each
/// run's text by its count gives back the input, line for line and so byte
/// for byte.
pub proof fn lemma_runs_rebuild(lines: Seq<Seq<char>>)
    requires
        forall|i: int|
            0 < i < lines.len() && trim_end_of(lines[i - 1]) == trim_end_of(#[trigger] lines[i])
                ==> lines[i - 1] == lines[i],
    ensures
        expand(runs_of(lines)) == lines,
        expand(runs_of(lines)).flatten() == lines.flatten(),
{
    lemma_rebuild_induct(lines);
}

/// Lines of which no two adjacent ones match once trimmed form one run each.
proof fn lemma_distinct_lines(s: Seq<Seq<char>>)
    requires
        forall|i: int| 0 < i < s.len() ==> trim_end_of(#[trigger] s[i]) != trim_end_of(s[i - 1]),
    ensures
        runs_of(s) == s.map_values(|t: Seq<char>| (t, 1nat)),
    decreases s.len(),
{
    if s.len() > 0 {
        let prev = s.drop_last();
        assert forall|i: int| 0 < i < prev.len() implies trim_end_of(#[trigger] prev[i])
            != trim_end_of(prev[i - 1]) by {
            assert(prev[i] == s[i] && prev[i - 1] == s[i - 1]);
        }
        lemma_distinct_lines(prev);
        if prev.len() > 0 {
            assert(runs_of(prev).last().0 == s[s.len() - 2]);
        }
        assert(runs_of(s) =~= s.map_values(|t: Seq<char>| (t, 1nat)));
    }
}

/// Collapsing the output of a collapse without counts changes nothing.
pub proof fn lemma_collapse_idempotent(lines: Seq<Seq<char>>)
    ensures
        rendered_runs(runs_of(rendered_runs(runs_of(lines), false)), false) == rendered_runs(
            runs_of(lines),
            false,
        ),
{
    let rs = runs_of(lines);
    let out = rendered_runs(rs, false);
    lemma_runs_separated(lines);
    assert forall|i: int| 0 < i < out.len() implies trim_end_of(#[trigger] out[i]) != trim_end_of(
        out[i - 1],
    ) by {
        assert(out[i] == rs[i].0 && out[i - 1] == rs[i - 1].0);
    }
    lemma_distinct_lines(out);
    assert(rendered_runs(runs_of(out), false) =~= out);
}

} // verus!
