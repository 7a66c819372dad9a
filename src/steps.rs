//! The swept parameters of each step, and the parser of the log file that
//! lists them.
use vstd::prelude::*;
use vstd::string::StringSliceAdditionalSpecFns;
use vstd::utf8::{decode_utf8, valid_utf8};
use crate::error::{ErrorView, SimulationError};
use crate::text::{
    copy_range, fields, split_bytes, split_whitespace_bytes, starts_with, starts_with_bytes,
    string_from_utf8, tokens, views,
};

verus! {

/// One swept parameter and its value in one step, both as written in the log.
#[derive(Debug, Clone, Default)]
pub struct SteppingVariable {
    /// The name of the parameter.
    pub name: String,
    /// The decimal value of the parameter, as written in the log.
    pub value: String,
}

/// A step: the values of the swept parameters, in the order of the log line.
pub type Step = Vec<SteppingVariable>;

/// What a `SteppingVariable` holds, as plain values.
pub struct SteppingView {
    pub name: Seq<char>,
    pub value: Seq<char>,
}

impl View for SteppingVariable {
    type V = SteppingView;

    open spec fn view(&self) -> SteppingView {
        SteppingView { name: self.name@, value: self.value@ }
    }
}

impl PartialEq for SteppingVariable {
    fn eq(&self, o: &SteppingVariable) -> (r: bool) {
        self.name == o.name && self.value == o.value
    }
}

impl vstd::std_specs::cmp::PartialEqSpecImpl for SteppingVariable {
    open spec fn obeys_eq_spec() -> bool {
        true
    }

    open spec fn eq_spec(&self, o: &SteppingVariable) -> bool {
        self@ == o@
    }
}

pub open spec fn step_view(s: Seq<SteppingVariable>) -> Seq<SteppingView> {
    s.map_values(|x: SteppingVariable| x@)
}

pub open spec fn steps_view(s: Seq<Step>) -> Seq<Seq<SteppingView>> {
    s.map_values(|x: Step| step_view(x@))
}

/// ".step"
pub open spec fn step_marker() -> Seq<u8> {
    seq![46u8, 115u8, 116u8, 101u8, 112u8]
}

/// The parameter set by a `name=value` word: exactly one `=`, with text on both sides.
pub open spec fn assignment_of(word: Seq<u8>) -> Option<SteppingView> {
    let f = fields(word, 61);
    if f.len() == 2 && f[0].len() > 0 && f[1].len() > 0 && valid_utf8(f[0]) && valid_utf8(f[1]) {
        Some(SteppingView { name: decode_utf8(f[0]), value: decode_utf8(f[1]) })
    } else {
        None
    }
}

/// The parameters set by the words from `i` on, after those already in `acc`;
/// or the first of those words that is not an assignment.
pub open spec fn assignments_from(words: Seq<Seq<u8>>, i: int, acc: Seq<SteppingView>) -> Result<
    Seq<SteppingView>,
    Seq<u8>,
>
    decreases words.len() - i,
{
    if i < 0 || i >= words.len() {
        Ok(acc)
    } else {
        match assignment_of(words[i]) {
            Some(a) => assignments_from(words, i + 1, acc.push(a)),
            None => Err(words[i]),
        }
    }
}

/// The step declared by a `.step` line: every word after the first is an
/// assignment. Otherwise, the first word that is not.
pub open spec fn step_of_line(line: Seq<u8>) -> Result<Seq<SteppingView>, Seq<u8>> {
    assignments_from(tokens(line), 1, seq![])
}

/// The steps declared from line `k` on, after those already in `acc`. A word
/// that is not an assignment makes the log malformed, and is named.
pub open spec fn log_scan(lines: Seq<Seq<u8>>, k: int, acc: Seq<Seq<SteppingView>>) -> Result<
    Seq<Seq<SteppingView>>,
    ErrorView,
>
    decreases lines.len() - k,
{
    if k < 0 || k >= lines.len() {
        Ok(acc)
    } else if starts_with(lines[k], step_marker()) {
        match step_of_line(lines[k]) {
            Ok(s) => log_scan(lines, k + 1, acc.push(s)),
            Err(word) => Err(ErrorView::MalformedHeader(Some(word))),
        }
    } else {
        log_scan(lines, k + 1, acc)
    }
}

/// The steps listed by a log file, in file order.
pub open spec fn steps_of(log: Seq<u8>) -> Result<Seq<Seq<SteppingView>>, ErrorView> {
    log_scan(fields(log, 10), 0, seq![])
}

/// A word without `=` assigns nothing.
pub proof fn lemma_word_without_equals(word: Seq<u8>)
    requires
        forall|j: int| 0 <= j < word.len() ==> word[j] != 61,
    ensures
        assignment_of(word) is None,
{
    crate::text::lemma_fields_without_sep(word, 61, 0, 0);
}

/// Where word `i` assigns nothing, the words from `j <= i` on are refused,
/// naming a word that assigns nothing.
proof fn lemma_assignments_fail(words: Seq<Seq<u8>>, j: int, acc: Seq<SteppingView>, i: int)
    requires
        0 <= j <= i < words.len(),
        assignment_of(words[i]) is None,
    ensures
        assignments_from(words, j, acc) is Err,
        assignment_of(assignments_from(words, j, acc)->Err_0) is None,
    decreases i - j,
{
    if j < i {
        if let Some(a) = assignment_of(words[j]) {
            lemma_assignments_fail(words, j + 1, acc.push(a), i);
        }
    }
}

/// A word named by a refusal assigns nothing.
proof fn lemma_refused_word(words: Seq<Seq<u8>>, j: int, acc: Seq<SteppingView>)
    requires
        assignments_from(words, j, acc) is Err,
    ensures
        assignment_of(assignments_from(words, j, acc)->Err_0) is None,
    decreases words.len() - j,
{
    if 0 <= j < words.len() {
        if let Some(a) = assignment_of(words[j]) {
            lemma_refused_word(words, j + 1, acc.push(a));
        }
    }
}

/// Where the `.step` line `k` declares no step, the lines from `j <= k` on
/// are refused as malformed, naming a word that assigns nothing.
proof fn lemma_log_scan_fails(lines: Seq<Seq<u8>>, j: int, acc: Seq<Seq<SteppingView>>, k: int)
    requires
        0 <= j <= k < lines.len(),
        starts_with(lines[k], step_marker()),
        step_of_line(lines[k]) is Err,
        assignment_of(step_of_line(lines[k])->Err_0) is None,
    ensures
        log_scan(lines, j, acc) matches Err(ErrorView::MalformedHeader(Some(w))) && assignment_of(
            w,
        ) is None,
    decreases k - j,
{
    if j < k {
        if starts_with(lines[j], step_marker()) {
            if let Ok(s) = step_of_line(lines[j]) {
                lemma_log_scan_fails(lines, j + 1, acc.push(s), k);
            } else {
                lemma_refused_word(tokens(lines[j]), 1, seq![]);
            }
        } else {
            lemma_log_scan_fails(lines, j + 1, acc, k);
        }
    }
}

/// A log whose `.step` line `k` holds, after its first word, a word `i`
/// without `=` is refused as malformed, and the error names a word that is
/// not `name=value`.
pub proof fn lemma_log_word_without_equals(log: Seq<u8>, k: int, i: int)
    requires
        0 <= k < fields(log, 10).len(),
        starts_with(fields(log, 10)[k], step_marker()),
        1 <= i < tokens(fields(log, 10)[k]).len(),
        forall|j: int|
            0 <= j < tokens(fields(log, 10)[k])[i].len() ==> tokens(fields(log, 10)[k])[i][j]
                != 61,
    ensures
        steps_of(log) matches Err(ErrorView::MalformedHeader(Some(w))) && assignment_of(w) is None,
{
    let line = fields(log, 10)[k];
    lemma_word_without_equals(tokens(line)[i]);
    lemma_assignments_fail(tokens(line), 1, seq![], i);
    lemma_log_scan_fails(fields(log, 10), 0, seq![], k);
}

fn parse_assignment(word: &[u8]) -> (r: Option<SteppingVariable>)
    ensures
        match assignment_of(word@) {
            Some(a) => r is Some && r->Some_0@ == a,
            None => r is None,
        },
{
    let f = split_bytes(word, 61);
    proof {
        assert(f@.len() == fields(word@, 61).len());
    }
    if f.len() != 2 || f[0].len() == 0 || f[1].len() == 0 {
        proof {
            if f@.len() == 2 {
                assert(views(f@)[0] == f@[0]@);
                assert(views(f@)[1] == f@[1]@);
            }
        }
        return None;
    }
    proof {
        assert(views(f@)[0] == f@[0]@);
        assert(views(f@)[1] == f@[1]@);
        assert(f@[0]@.subrange(0, f@[0]@.len() as int) =~= f@[0]@);
        assert(f@[1]@.subrange(0, f@[1]@.len() as int) =~= f@[1]@);
    }
    let name_bytes = copy_range(f[0].as_slice(), 0, f[0].len());
    let value_bytes = copy_range(f[1].as_slice(), 0, f[1].len());
    match string_from_utf8(name_bytes) {
        Some(name) => match string_from_utf8(value_bytes) {
            Some(value) => Some(SteppingVariable { name, value }),
            None => None,
        },
        None => None,
    }
}

fn parse_step_line(line: &[u8]) -> (r: Result<Step, Vec<u8>>)
    ensures
        match step_of_line(line@) {
            Ok(s) => r is Ok && step_view(r->Ok_0@) == s,
            Err(w) => r is Err && r->Err_0@ == w,
        },
{
    let words = split_whitespace_bytes(line);
    let ghost ws = tokens(line@);
    let mut step: Step = Vec::new();
    let mut i: usize = 1;
    proof {
        assert(step_view(step@) =~= seq![]);
        if words@.len() == 0 {
            assert(step_of_line(line@) == Ok::<Seq<SteppingView>, Seq<u8>>(
                Seq::<SteppingView>::empty(),
            ));
        }
    }
    if words.len() == 0 {
        return Ok(step);
    }
    while i < words.len()
        invariant
            views(words@) == ws,
            ws == tokens(line@),
            1 <= i <= words@.len(),
            step_of_line(line@) == assignments_from(ws, i as int, step_view(step@)),
        decreases words@.len() - i,
    {
        proof {
            assert(ws.len() == words@.len());
            assert(ws[i as int] == words@[i as int]@);
        }
        match parse_assignment(words[i].as_slice()) {
            Some(a) => {
                proof {
                    assert(step_view(step@.push(a)) =~= step_view(step@).push(a@));
                }
                step.push(a);
            },
            None => {
                let bad = copy_range(words[i].as_slice(), 0, words[i].len());
                proof {
                    assert(words@[i as int]@.subrange(0, words@[i as int]@.len() as int)
                        =~= words@[i as int]@);
                }
                return Err(bad);
            },
        }
        i += 1;
    }
    proof {
        assert(ws.len() == words@.len());
    }
    Ok(step)
}

/// Reads the steps listed by a log file: one per line that begins with
/// `.step`, in file order. The values are kept as written: whether a value is
/// a valid number is not checked here.
pub fn parse_log(log: &[u8]) -> (r: Result<Vec<Step>, SimulationError>)
    ensures
        match steps_of(log@) {
            Ok(ss) => r is Ok && steps_view(r->Ok_0@) == ss,
            Err(e) => r is Err && r->Err_0@ == e,
        },
{
    let marker: [u8; 5] = [46, 115, 116, 101, 112];
    proof {
        assert(marker@ =~= step_marker());
    }
    let lines = split_bytes(log, 10);
    let ghost ls = fields(log@, 10);
    let mut steps: Vec<Step> = Vec::new();
    let mut k: usize = 0;
    proof {
        assert(steps_view(steps@) =~= seq![]);
    }
    while k < lines.len()
        invariant
            views(lines@) == ls,
            ls == fields(log@, 10),
            k <= lines@.len(),
            marker@ == step_marker(),
            steps_of(log@) == log_scan(ls, k as int, steps_view(steps@)),
        decreases lines@.len() - k,
    {
        proof {
            assert(ls.len() == lines@.len());
            assert(ls[k as int] == lines@[k as int]@);
        }
        if starts_with_bytes(lines[k].as_slice(), &marker) {
            match parse_step_line(lines[k].as_slice()) {
                Ok(s) => {
                    proof {
                        assert(steps_view(steps@.push(s)) =~= steps_view(steps@).push(
                            step_view(s@),
                        ));
                    }
                    steps.push(s);
                },
                Err(word) => {
                    return Err(SimulationError::MalformedHeader(Some(word)));
                },
            }
        }
        k += 1;
    }
    proof {
        assert(ls.len() == lines@.len());
    }
    Ok(steps)
}

impl SteppingVariable {
    /// The parameter set by a `name=value` word of a `.step` line; a word of
    /// another shape is refused, and named in the error.
    pub fn new(log_excerpt: &str) -> (r: Result<SteppingVariable, SimulationError>)
        ensures
            match assignment_of(log_excerpt.spec_bytes()) {
                Some(a) => r is Ok && r->Ok_0@ == a,
                None => r is Err && r->Err_0@ == ErrorView::MalformedHeader(
                    Some(log_excerpt.spec_bytes()),
                ),
            },
    {
        let bytes = log_excerpt.as_bytes();
        match parse_assignment(bytes) {
            Some(v) => Ok(v),
            None => {
                let word = copy_range(bytes, 0, bytes.len());
                proof {
                    assert(bytes@.subrange(0, bytes@.len() as int) =~= bytes@);
                }
                Err(SimulationError::MalformedHeader(Some(word)))
            },
        }
    }
}

/// Whether two steps set the same parameters to the same values, in the same order.
pub fn same_step(a: &Step, b: &Step) -> (r: bool)
    ensures
        r == (step_view(a@) == step_view(b@)),
{
    if a.len() != b.len() {
        proof {
            assert(step_view(a@).len() != step_view(b@).len());
        }
        return false;
    }
    let mut i: usize = 0;
    while i < a.len()
        invariant
            a@.len() == b@.len(),
            i <= a@.len(),
            forall|j: int| 0 <= j < i ==> a@[j]@ == b@[j]@,
        decreases a@.len() - i,
    {
        if !(a[i].name == b[i].name && a[i].value == b[i].value) {
            proof {
                assert(step_view(a@)[i as int] != step_view(b@)[i as int]);
            }
            return false;
        }
        i += 1;
    }
    proof {
        assert(step_view(a@) =~= step_view(b@));
    }
    true
}

} // verus!
