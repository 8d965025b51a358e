//! Rendering of diagnostics as reports that point into the source text.
use vstd::prelude::*;

use crate::diagnostics::diagnostic::{Diagnostic, Label};
use crate::diagnostics::error_code::code_text;
use crate::diagnostics::severity::severity_text;
use crate::text::{chars_of, push_chars, push_decimal, push_repeat, push_str, string_from_chars};

verus! {

// ---------------------------------------------------------------------------
// Lines of a source text
// ---------------------------------------------------------------------------

/// The pieces of `s` between line feeds (one more piece than line feeds).
pub open spec fn split_at_newlines(s: Seq<char>) -> Seq<Seq<char>>
    decreases s.len(),
{
    if s.len() == 0 {
        seq![Seq::<char>::empty()]
    } else {
        let r = split_at_newlines(s.drop_last());
        if s.last() == '\n' {
            r.push(Seq::<char>::empty())
        } else {
            r.update(r.len() - 1, r.last().push(s.last()))
        }
    }
}

proof fn lemma_split_nonempty(s: Seq<char>)
    ensures
        split_at_newlines(s).len() >= 1,
    decreases s.len(),
{
    if s.len() > 0 {
        lemma_split_nonempty(s.drop_last());
    }
}

/// A line without the carriage return that ended it.
pub open spec fn strip_cr(l: Seq<char>) -> Seq<char> {
    if l.len() > 0 && l.last() == '\r' {
        l.drop_last()
    } else {
        l
    }
}

/// The lines of a text: split at `\n` or `\r\n`, where a final line ending
/// does not start another line and an empty text has no lines.
pub open spec fn lines_of(s: Seq<char>) -> Seq<Seq<char>> {
    if s.len() == 0 {
        Seq::empty()
    } else {
        let ends_nl = s.last() == '\n';
        let body = if ends_nl {
            s.drop_last()
        } else {
            s
        };
        let p = split_at_newlines(body);
        Seq::new(
            p.len(),
            |k: int|
                if k < p.len() - 1 || ends_nl {
                    strip_cr(p[k])
                } else {
                    p[k]
                },
        )
    }
}

fn strip_cr_exec(l: Vec<char>) -> (r: Vec<char>)
    ensures
        r@ == strip_cr(l@),
{
    let mut l = l;
    if l.len() > 0 && l[l.len() - 1] == '\r' {
        l.pop();
    }
    l
}

/// The lines of the text `src`.
pub fn split_lines(src: &[char]) -> (r: Vec<Vec<char>>)
    requires
        src@.len() < usize::MAX,
    ensures
        r@.len() == lines_of(src@).len(),
        forall|k: int| 0 <= k < r@.len() ==> (#[trigger] r@[k])@ == lines_of(src@)[k],
{
    let n = src.len();
    if n == 0 {
        return Vec::new();
    }
    let ends_nl = src[n - 1] == '\n';
    let body_len = if ends_nl {
        n - 1
    } else {
        n
    };
    let ghost body = src@.take(body_len as int);
    let mut done: Vec<Vec<char>> = Vec::new();
    let mut current: Vec<char> = Vec::new();
    let mut i: usize = 0;
    assert(body.take(0) =~= Seq::<char>::empty());
    while i < body_len
        invariant
            body_len <= n == src@.len(),
            n < usize::MAX,
            body == src@.take(body_len as int),
            i <= body_len,
            done@.len() <= i,
            split_at_newlines(body.take(i as int)).len() == done@.len() + 1,
            forall|k: int|
                0 <= k < done@.len() ==> (#[trigger] done@[k])@ == split_at_newlines(
                    body.take(i as int),
                )[k],
            current@ == split_at_newlines(body.take(i as int)).last(),
        decreases body_len - i,
    {
        let c = src[i];
        proof {
            lemma_split_nonempty(body.take(i as int));
            assert(body.take(i + 1).drop_last() =~= body.take(i as int));
        }
        if c == '\n' {
            let finished = current;
            done.push(finished);
            current = Vec::new();
        } else {
            current.push(c);
        }
        i = i + 1;
    }
    assert(body.take(body_len as int) =~= body);
    let ghost p = split_at_newlines(body);
    let total = done.len() + 1;
    let mut out: Vec<Vec<char>> = Vec::new();
    let mut j: usize = 0;
    let mut rest = done;
    rest.push(current);
    while j < total
        invariant
            total == p.len(),
            rest@.len() == total,
            forall|k: int| 0 <= k < total ==> (#[trigger] rest@[k])@ == p[k],
            j <= total,
            out@.len() == j,
            forall|k: int|
                0 <= k < j ==> (#[trigger] out@[k])@ == (if k < p.len() - 1 || ends_nl {
                    strip_cr(p[k])
                } else {
                    p[k]
                }),
            ends_nl == (src@.last() == '\n'),
            body == (if ends_nl { src@.drop_last() } else { src@ }),
            src@.len() > 0,
        decreases total - j,
    {
        let line = copy_line(&rest, j);
        if j + 1 < total || ends_nl {
            out.push(strip_cr_exec(line));
        } else {
            out.push(line);
        }
        j = j + 1;
    }
    out
}

fn copy_line(v: &Vec<Vec<char>>, j: usize) -> (r: Vec<char>)
    requires
        j < v@.len(),
    ensures
        r@ == v@[j as int]@,
{
    crate::text::copy_chars(v[j].as_slice(), 0, v[j].len())
}

// ---------------------------------------------------------------------------
// The report
// ---------------------------------------------------------------------------

pub open spec fn spaces(n: nat) -> Seq<char> {
    crate::text::repeat_char(' ', n)
}

pub open spec fn max_nat(a: nat, b: nat) -> nat {
    if a >= b {
        a
    } else {
        b
    }
}

/// The first line of a diagnostic's report: `severity[code]: message`.
pub open spec fn header_text(d: Diagnostic) -> Seq<char> {
    match d.code {
        Some(c) => severity_text(d.severity) + "["@ + code_text(c) + "]: "@ + d.message@ + "\n"@,
        None => severity_text(d.severity) + ": "@ + d.message@ + "\n"@,
    }
}

/// The source line and caret underline of a primary label whose line exists.
pub open spec fn caret_text(lines: Seq<Seq<char>>, l: Label) -> Seq<char> {
    let line_idx = l.span.start.line as nat;
    let col_idx = max_nat(l.span.start.column as nat, 1);
    let pad = crate::text::decimal(line_idx).len();
    let start_col = (col_idx - 1) as nat;
    let end_col = if l.span.end.line == l.span.start.line {
        max_nat(l.span.end.column as nat, col_idx)
    } else {
        col_idx
    };
    let width = max_nat((end_col - start_col) as nat, 1);
    crate::text::decimal(line_idx) + " | "@ + lines[line_idx - 1] + "\n"@ + spaces(pad) + " | "@
        + spaces(start_col) + crate::text::repeat_char('^', width) + if l.message@.len() > 0 {
        " "@ + l.message@ + "\n"@
    } else {
        "\n"@
    }
}

/// The location block of a primary label.
pub open spec fn label_text(name: Seq<char>, lines: Seq<Seq<char>>, l: Label) -> Seq<char> {
    let line_idx = l.span.start.line as nat;
    let col_idx = max_nat(l.span.start.column as nat, 1);
    let pad = crate::text::decimal(line_idx).len();
    spaces(pad) + "--> "@ + name + ":"@ + crate::text::decimal(line_idx) + ":"@
        + crate::text::decimal(col_idx) + "\n"@ + spaces(pad) + " |\n"@ + (if 1 <= line_idx
        <= lines.len() {
        caret_text(lines, l)
    } else {
        Seq::empty()
    }) + spaces(pad) + " |\n"@
}

/// The lines printed for one secondary label.
pub open spec fn secondary_text(lines: Seq<Seq<char>>, l: Label) -> Seq<char> {
    let line_idx = l.span.start.line as nat;
    if 1 <= line_idx <= lines.len() {
        let pad = crate::text::decimal(line_idx).len();
        let col = (max_nat(l.span.start.column as nat, 1) - 1) as nat;
        crate::text::decimal(line_idx) + " | "@ + lines[line_idx - 1] + "\n"@ + spaces(pad)
            + " | "@ + spaces(col) + "--- "@ + l.message@ + "\n"@
    } else {
        Seq::empty()
    }
}

/// The secondary labels `0..k` of a diagnostic.
pub open spec fn secondaries_text(lines: Seq<Seq<char>>, ls: Seq<Label>, k: int) -> Seq<char>
    decreases k,
{
    if k <= 0 {
        Seq::empty()
    } else {
        secondaries_text(lines, ls, k - 1) + secondary_text(lines, ls[k - 1])
    }
}

/// The notes `0..k` of a diagnostic.
pub open spec fn notes_text(notes: Seq<String>, k: int) -> Seq<char>
    decreases k,
{
    if k <= 0 {
        Seq::empty()
    } else {
        notes_text(notes, k - 1) + "  = note: "@ + notes[k - 1]@ + "\n"@
    }
}

/// The full report of one diagnostic.
pub open spec fn diagnostic_text(name: Seq<char>, lines: Seq<Seq<char>>, d: Diagnostic) -> Seq<
    char,
> {
    header_text(d) + (match d.primary_label {
        Some(l) => label_text(name, lines, l),
        None => Seq::empty(),
    }) + secondaries_text(lines, d.secondary_labels@, d.secondary_labels@.len() as int)
        + notes_text(d.notes@, d.notes@.len() as int) + (match d.help {
        Some(h) => "  = help: "@ + h@ + "\n"@,
        None => Seq::empty(),
    })
}

/// The reports of diagnostics `0..k`, separated by empty lines.
pub open spec fn report_text(name: Seq<char>, lines: Seq<Seq<char>>, ds: Seq<Diagnostic>, k: int) -> Seq<
    char,
>
    decreases k,
{
    if k <= 0 {
        Seq::empty()
    } else {
        report_text(name, lines, ds, k - 1) + (if k - 1 > 0 {
            "\n"@
        } else {
            Seq::empty()
        }) + diagnostic_text(name, lines, ds[k - 1])
    }
}

fn max_u64(a: u64, b: u64) -> (r: u64)
    ensures
        r == max_nat(a as nat, b as nat),
{
    if a >= b {
        a
    } else {
        b
    }
}

fn push_line(out: &mut Vec<char>, lines: &Vec<Vec<char>>, idx: usize)
    requires
        idx < lines@.len(),
    ensures
        final(out)@ == old(out)@ + lines@[idx as int]@,
{
    push_chars(out, lines[idx].as_slice());
}

#[verifier::rlimit(60)]
fn render_label(out: &mut Vec<char>, name: &[char], lines: &Vec<Vec<char>>, l: &Label)
    ensures
        final(out)@ == old(out)@ + label_text(
            name@,
            Seq::new(lines@.len(), |k: int| lines@[k]@),
            *l,
        ),
{
    let ghost ls = Seq::new(lines@.len(), |k: int| lines@[k]@);
    let line_idx = l.span.start.line as u64;
    let col_idx = max_u64(l.span.start.column as u64, 1);
    let digits = crate::text::decimal_chars(line_idx);
    let pad = digits.len();
    let ghost before = out@;
    push_repeat(out, ' ', pad);
    push_str(out, "--> ");
    push_chars(out, name);
    push_str(out, ":");
    push_decimal(out, line_idx);
    push_str(out, ":");
    push_decimal(out, col_idx);
    push_str(out, "\n");
    push_repeat(out, ' ', pad);
    push_str(out, " |\n");
    let ghost mid = out@;
    if 1 <= line_idx && line_idx <= lines.len() as u64 {
        let start_col = col_idx - 1;
        let end_col = if l.span.end.line == l.span.start.line {
            max_u64(l.span.end.column as u64, col_idx)
        } else {
            col_idx
        };
        let width = max_u64(end_col - start_col, 1);
        push_decimal(out, line_idx);
        push_str(out, " | ");
        push_line(out, lines, (line_idx - 1) as usize);
        push_str(out, "\n");
        push_repeat(out, ' ', pad);
        push_str(out, " | ");
        push_repeat(out, ' ', start_col as usize);
        push_repeat(out, '^', width as usize);
        let msg = chars_of(l.message.as_str());
        if msg.len() > 0 {
            push_str(out, " ");
            push_chars(out, msg.as_slice());
            push_str(out, "\n");
        } else {
            push_str(out, "\n");
        }
        assert(out@ =~= mid + caret_text(ls, *l));
    } else {
        assert(out@ =~= mid + Seq::<char>::empty());
    }
    push_repeat(out, ' ', pad);
    push_str(out, " |\n");
    assert(out@ =~= old(out)@ + label_text(name@, ls, *l));
}

fn render_secondary(out: &mut Vec<char>, lines: &Vec<Vec<char>>, l: &Label)
    ensures
        final(out)@ == old(out)@ + secondary_text(
            Seq::new(lines@.len(), |k: int| lines@[k]@),
            *l,
        ),
{
    let ghost ls = Seq::new(lines@.len(), |k: int| lines@[k]@);
    let line_idx = l.span.start.line as u64;
    if 1 <= line_idx && line_idx <= lines.len() as u64 {
        let digits = crate::text::decimal_chars(line_idx);
        let pad = digits.len();
        let col = max_u64(l.span.start.column as u64, 1) - 1;
        push_decimal(out, line_idx);
        push_str(out, " | ");
        push_line(out, lines, (line_idx - 1) as usize);
        push_str(out, "\n");
        push_repeat(out, ' ', pad);
        push_str(out, " | ");
        push_repeat(out, ' ', col as usize);
        push_str(out, "--- ");
        push_str(out, l.message.as_str());
        push_str(out, "\n");
        assert(out@ =~= old(out)@ + secondary_text(ls, *l));
    } else {
        assert(out@ =~= old(out)@ + secondary_text(ls, *l));
    }
}

fn render_secondaries(out: &mut Vec<char>, lines: &Vec<Vec<char>>, ls_exec: &Vec<Label>)
    ensures
        final(out)@ == old(out)@ + secondaries_text(
            Seq::new(lines@.len(), |k: int| lines@[k]@),
            ls_exec@,
            ls_exec@.len() as int,
        ),
{
    let ghost ls = Seq::new(lines@.len(), |k: int| lines@[k]@);
    let mut i: usize = 0;
    while i < ls_exec.len()
        invariant
            i <= ls_exec@.len(),
            out@ == old(out)@ + secondaries_text(ls, ls_exec@, i as int),
            ls == Seq::new(lines@.len(), |k: int| lines@[k]@),
        decreases ls_exec@.len() - i,
    {
        render_secondary(out, lines, &ls_exec[i]);
        assert(out@ =~= old(out)@ + secondaries_text(ls, ls_exec@, i + 1));
        i = i + 1;
    }
}

fn render_notes(out: &mut Vec<char>, notes: &Vec<String>)
    ensures
        final(out)@ == old(out)@ + notes_text(notes@, notes@.len() as int),
{
    let mut j: usize = 0;
    while j < notes.len()
        invariant
            j <= notes@.len(),
            out@ == old(out)@ + notes_text(notes@, j as int),
        decreases notes@.len() - j,
    {
        push_str(out, "  = note: ");
        push_str(out, notes[j].as_str());
        push_str(out, "\n");
        assert(out@ =~= old(out)@ + notes_text(notes@, j + 1));
        j = j + 1;
    }
}

#[verifier::rlimit(60)]
fn render_diagnostic(out: &mut Vec<char>, name: &[char], lines: &Vec<Vec<char>>, d: &Diagnostic)
    ensures
        final(out)@ == old(out)@ + diagnostic_text(
            name@,
            Seq::new(lines@.len(), |k: int| lines@[k]@),
            *d,
        ),
{
    let ghost ls = Seq::new(lines@.len(), |k: int| lines@[k]@);
    push_str(out, d.severity.as_str());
    match d.code {
        Some(c) => {
            push_str(out, "[");
            push_str(out, c.as_str());
            push_str(out, "]: ");
        },
        None => {
            push_str(out, ": ");
        },
    }
    push_str(out, d.message.as_str());
    push_str(out, "\n");
    assert(out@ =~= old(out)@ + header_text(*d));
    let ghost after_header = out@;
    match &d.primary_label {
        Some(l) => {
            render_label(out, name, lines, l);
        },
        None => {
            assert(out@ =~= after_header + Seq::<char>::empty());
        },
    }
    render_secondaries(out, lines, &d.secondary_labels);
    render_notes(out, &d.notes);
    let ghost after_notes = out@;
    match &d.help {
        Some(h) => {
            push_str(out, "  = help: ");
            push_str(out, h.as_str());
            push_str(out, "\n");
        },
        None => {},
    }
    assert(out@ =~= old(out)@ + diagnostic_text(name@, ls, *d));
}

/// Renders diagnostics as a report that quotes and underlines the source
/// lines they point to.
pub fn render_report(source_name: &str, source: &str, diagnostics: &[Diagnostic]) -> (r: String)
    requires
        source@.len() < usize::MAX,
    ensures
        r@ == report_text(
            source_name@,
            lines_of(source@),
            diagnostics@,
            diagnostics@.len() as int,
        ),
{
    let src = chars_of(source);
    let name = chars_of(source_name);
    let lines = split_lines(src.as_slice());
    let ghost ls = Seq::new(lines@.len(), |k: int| lines@[k]@);
    assert(ls =~= lines_of(source@));
    let mut out: Vec<char> = Vec::new();
    let mut i: usize = 0;
    while i < diagnostics.len()
        invariant
            i <= diagnostics@.len(),
            name@ == source_name@,
            ls == Seq::new(lines@.len(), |k: int| lines@[k]@),
            ls == lines_of(source@),
            out@ == report_text(source_name@, ls, diagnostics@, i as int),
        decreases diagnostics@.len() - i,
    {
        let ghost before = out@;
        if i > 0 {
            out.push('\n');
            assert(out@ =~= before + "\n"@) by {
                reveal_strlit("\n");
            }
        } else {
            assert(out@ =~= before + Seq::<char>::empty());
        }
        render_diagnostic(&mut out, name.as_slice(), &lines, &diagnostics[i]);
        assert(out@ =~= report_text(source_name@, ls, diagnostics@, i + 1));
        i = i + 1;
    }
    string_from_chars(out.as_slice())
}

// ---------------------------------------------------------------------------
// Laws of the rendered secondary labels
// ---------------------------------------------------------------------------

/// The secondary labels `0..n` render as each label's rendering, in order,
/// one after another: the concatenation of `secondary_text` of labels
/// `0, 1, ..., n - 1`, none left out.
pub proof fn lemma_secondaries_each_rendered(lines: Seq<Seq<char>>, ls: Seq<Label>, n: int)
    requires
        0 <= n <= ls.len(),
    ensures
        secondaries_text(lines, ls, n) == Seq::new(n as nat, |k: int| secondary_text(lines, ls[k])).flatten(),
    decreases n,
{
    if n > 0 {
        lemma_secondaries_each_rendered(lines, ls, n - 1);
        let prev = Seq::new((n - 1) as nat, |k: int| secondary_text(lines, ls[k]));
        let all = Seq::new(n as nat, |k: int| secondary_text(lines, ls[k]));
        assert(all =~= prev.push(secondary_text(lines, ls[n - 1])));
        prev.lemma_flatten_push(secondary_text(lines, ls[n - 1]));
    }
}

/// The notes `0..n` render one after another, in order, none left out:
/// each as `  = note: `, the note and a line break.
pub proof fn lemma_notes_each_rendered(notes: Seq<String>, n: int)
    requires
        0 <= n <= notes.len(),
    ensures
        notes_text(notes, n) == Seq::new(n as nat, |k: int| "  = note: "@ + notes[k]@ + "\n"@).flatten(),
    decreases n,
{
    if n > 0 {
        lemma_notes_each_rendered(notes, n - 1);
        let prev = Seq::new((n - 1) as nat, |k: int| "  = note: "@ + notes[k]@ + "\n"@);
        let all = Seq::new(n as nat, |k: int| "  = note: "@ + notes[k]@ + "\n"@);
        let last = "  = note: "@ + notes[n - 1]@ + "\n"@;
        assert(all =~= prev.push(last));
        prev.lemma_flatten_push(last);
        assert(notes_text(notes, n) =~= prev.flatten() + last);
    }
}

proof fn lemma_secondaries_prefix(lines: Seq<Seq<char>>, ls: Seq<Label>, j: int, n: int) -> (rest: Seq<char>)
    requires
        0 <= j <= n,
    ensures
        secondaries_text(lines, ls, n) == secondaries_text(lines, ls, j) + rest,
    decreases n - j,
{
    if j == n {
        assert(secondaries_text(lines, ls, n) =~= secondaries_text(lines, ls, j) + Seq::<char>::empty());
        Seq::empty()
    } else {
        let r = lemma_secondaries_prefix(lines, ls, j, n - 1);
        let rest = r + secondary_text(lines, ls[n - 1]);
        assert(secondaries_text(lines, ls, n) =~= secondaries_text(lines, ls, j) + rest);
        rest
    }
}

proof fn lemma_window_of_concat(
    a: Seq<char>,
    before: Seq<char>,
    st: Seq<char>,
    rest: Seq<char>,
    b: Seq<char>,
    c: Seq<char>,
)
    ensures
        ({
            let text = a + (before + st + rest) + b + c;
            let off = a.len() + before.len();
            off + st.len() <= text.len() && text.subrange(off as int, (off + st.len()) as int) == st
        }),
{
    let text = a + (before + st + rest) + b + c;
    let off = a.len() + before.len();
    assert(text =~= a + before + st + (rest + b + c));
    assert(text.subrange(off as int, (off + st.len()) as int) =~= st);
}

/// The report of a diagnostic holds every one of its secondary labels, the
/// first included: for each label `k`, its rendering (the quoted source
/// line and the `---` underline with the message) stands in the report, at
/// the offset right after the header, the primary label and the secondary
/// labels before `k`.
pub proof fn lemma_report_holds_secondaries(name: Seq<char>, lines: Seq<Seq<char>>, d: Diagnostic, k: int)
    requires
        0 <= k < d.secondary_labels@.len(),
    ensures
        ({
            let text = diagnostic_text(name, lines, d);
            let head = header_text(d) + (match d.primary_label {
                Some(l) => label_text(name, lines, l),
                None => Seq::empty(),
            });
            let off = head.len() + secondaries_text(lines, d.secondary_labels@, k).len();
            let st = secondary_text(lines, d.secondary_labels@[k]);
            off + st.len() <= text.len() && text.subrange(off as int, (off + st.len()) as int) == st
        }),
{
    let ls = d.secondary_labels@;
    let n = ls.len() as int;
    let head = header_text(d) + (match d.primary_label {
        Some(l) => label_text(name, lines, l),
        None => Seq::empty(),
    });
    let notes = notes_text(d.notes@, d.notes@.len() as int);
    let help = match d.help {
        Some(h) => "  = help: "@ + h@ + "\n"@,
        None => Seq::<char>::empty(),
    };
    let rest = lemma_secondaries_prefix(lines, ls, k + 1, n);
    let before = secondaries_text(lines, ls, k);
    let st = secondary_text(lines, ls[k]);
    assert(secondaries_text(lines, ls, k + 1) == before + st);
    assert(secondaries_text(lines, ls, n) == before + st + rest);
    assert(diagnostic_text(name, lines, d) == head + secondaries_text(lines, ls, n) + notes + help);
    lemma_window_of_concat(head, before, st, rest, notes, help);
}

} // verus!
