//! Per-file outcome report of a batch operation.

use vstd::prelude::*;

use crate::locale::{tr, tr_spec, Locale};
use crate::text::{dec, push_dec, push_str};

verus! {

/// One file's line in a report: the file, and optionally where the result
/// went and a detail (reason, error message or note).
#[derive(Debug, Clone)]
pub struct Entry {
    pub file: String,
    pub output: Option<String>,
    pub detail: Option<String>,
}

/// Abstract value of an [`Entry`].
pub struct EntryView {
    pub file: Seq<char>,
    pub output: Option<Seq<char>>,
    pub detail: Option<Seq<char>>,
}

/// Abstract value of an optional string.
pub open spec fn opt_view(o: Option<String>) -> Option<Seq<char>> {
    match o {
        Some(s) => Some(s@),
        None => None,
    }
}

impl View for Entry {
    type V = EntryView;

    open spec fn view(&self) -> EntryView {
        EntryView { file: self.file@, output: opt_view(self.output), detail: opt_view(self.detail) }
    }
}

/// Outcome of a batch: files done, skipped and failed, in the order in which
/// they were recorded, and whether it was only a preview.
#[derive(Debug, Clone)]
pub struct Report {
    pub dry_run: bool,
    pub ok: Vec<Entry>,
    pub skipped: Vec<Entry>,
    pub errors: Vec<Entry>,
}

/// Abstract value of a [`Report`].
pub struct ReportView {
    pub dry_run: bool,
    pub ok: Seq<EntryView>,
    pub skipped: Seq<EntryView>,
    pub errors: Seq<EntryView>,
}

impl View for Report {
    type V = ReportView;

    open spec fn view(&self) -> ReportView {
        ReportView {
            dry_run: self.dry_run,
            ok: self.ok@.map_values(|e: Entry| e@),
            skipped: self.skipped@.map_values(|e: Entry| e@),
            errors: self.errors@.map_values(|e: Entry| e@),
        }
    }
}

/// An entry for a failed or skipped file: no output, the given detail.
pub open spec fn note_entry(file: Seq<char>, detail: Seq<char>) -> EntryView {
    EntryView { file, output: None, detail: Some(detail) }
}

/// The one-line summary of counts, as [`Report::summary`] renders it.
pub open spec fn summary_text(loc: Locale, ok: nat, skipped: nat, failed: nat) -> Seq<char> {
    tr_spec(loc, "成功"@, "ok:"@) + " "@ + dec(ok) + ", "@ + tr_spec(loc, "跳过"@, "skipped:"@)
        + " "@ + dec(skipped) + ", "@ + tr_spec(loc, "失败"@, "failed:"@) + " "@ + dec(failed)
}

impl Report {
    /// An empty report; `dry_run` marks a preview.
    pub fn new(dry_run: bool) -> (res: Report)
        ensures
            res@.dry_run == dry_run,
            res@.ok.len() == 0,
            res@.skipped.len() == 0,
            res@.errors.len() == 0,
    {
        Report { dry_run, ok: Vec::new(), skipped: Vec::new(), errors: Vec::new() }
    }

    /// Records a file done, with where its result went and an optional note.
    pub fn push_ok(&mut self, file: String, output: Option<String>, detail: Option<String>)
        ensures
            final(self)@.ok == old(self)@.ok.push(
                EntryView { file: file@, output: opt_view(output), detail: opt_view(detail) },
            ),
            final(self)@.skipped == old(self)@.skipped,
            final(self)@.errors == old(self)@.errors,
            final(self)@.dry_run == old(self)@.dry_run,
    {
        self.ok.push(Entry { file, output, detail });
        proof {
            assert(self@.ok =~= old(self)@.ok.push(self.ok@.last()@));
        }
    }

    /// Records a file skipped, with the reason.
    pub fn push_skip(&mut self, file: String, reason: String)
        ensures
            final(self)@.skipped == old(self)@.skipped.push(note_entry(file@, reason@)),
            final(self)@.ok == old(self)@.ok,
            final(self)@.errors == old(self)@.errors,
            final(self)@.dry_run == old(self)@.dry_run,
    {
        self.skipped.push(Entry { file, output: None, detail: Some(reason) });
        proof {
            assert(self@.skipped =~= old(self)@.skipped.push(self.skipped@.last()@));
        }
    }

    /// Records a file that failed, with the error.
    pub fn push_err(&mut self, file: String, error: String)
        ensures
            final(self)@.errors == old(self)@.errors.push(note_entry(file@, error@)),
            final(self)@.ok == old(self)@.ok,
            final(self)@.skipped == old(self)@.skipped,
            final(self)@.dry_run == old(self)@.dry_run,
    {
        self.errors.push(Entry { file, output: None, detail: Some(error) });
        proof {
            assert(self@.errors =~= old(self)@.errors.push(self.errors@.last()@));
        }
    }

    /// "ok: N, skipped: N, failed: N" in the given language.
    pub fn summary(&self, loc: Locale) -> (res: String)
        ensures
            res@ == summary_text(
                loc,
                self@.ok.len(),
                self@.skipped.len(),
                self@.errors.len(),
            ),
    {
        let mut s = tr(loc, "成功", "ok:");
        push_str(&mut s, " ");
        push_dec(&mut s, self.ok.len() as u128);
        push_str(&mut s, ", ");
        let t = tr(loc, "跳过", "skipped:");
        push_str(&mut s, t.as_str());
        push_str(&mut s, " ");
        push_dec(&mut s, self.skipped.len() as u128);
        push_str(&mut s, ", ");
        let t = tr(loc, "失败", "failed:");
        push_str(&mut s, t.as_str());
        push_str(&mut s, " ");
        push_dec(&mut s, self.errors.len() as u128);
        s
    }
}

/// `Some(s)` as `s`, `None` as nothing.
pub open spec fn or_empty(o: Option<Seq<char>>) -> Seq<char> {
    match o {
        Some(s) => s,
        None => seq![],
    }
}

/// The printed line of one entry. A file done (`kind == 0`) reads
/// `✓ <file> -> <output>`, then `  (<detail>)` when it has a detail; a file
/// skipped (`kind == 1`) or failed (`kind == 2`) reads `- <file>  [<detail>]`
/// or `✗ <file>  [<detail>]`. Each line ends with a line break.
pub open spec fn entry_line(e: EntryView, kind: int) -> Seq<char> {
    if kind == 0 {
        "✓ "@ + e.file + " -> "@ + or_empty(e.output) + (match e.detail {
            Some(d) => "  ("@ + d + ")"@,
            None => seq![],
        }) + "\n"@
    } else {
        (if kind == 1 {
            "- "@
        } else {
            "✗ "@
        }) + e.file + "  ["@ + or_empty(e.detail) + "]\n"@
    }
}

/// The printed lines of a list of entries of one kind, in order.
pub open spec fn entry_lines(entries: Seq<EntryView>, kind: int) -> Seq<char>
    decreases entries.len(),
{
    if entries.len() == 0 {
        seq![]
    } else {
        entry_lines(entries.drop_last(), kind) + entry_line(entries.last(), kind)
    }
}

/// The printed form of a report: the files done, skipped and failed, then
/// an empty line and the summary; a preview is marked before the summary
/// and followed by a hint on how to apply it.
pub open spec fn report_text(loc: Locale, r: ReportView) -> Seq<char> {
    let summary = summary_text(loc, r.ok.len(), r.skipped.len(), r.errors.len());
    entry_lines(r.ok, 0) + entry_lines(r.skipped, 1) + entry_lines(r.errors, 2) + "\n"@ + (if r.dry_run {
        tr_spec(loc, "[预览模式]"@, "[dry-run]"@) + " "@ + summary + tr_spec(
            loc,
            "（加 -x 真正执行）"@,
            " (add -x to apply)"@,
        )
    } else {
        summary
    }) + "\n"@
}

fn push_opt(s: &mut String, o: &Option<String>)
    ensures
        final(s)@ == old(s)@ + or_empty(opt_view(*o)),
{
    match o {
        Some(t) => push_str(s, t.as_str()),
        None => {
            assert(old(s)@ + seq![] =~= old(s)@);
        },
    }
}

fn push_entry_line(s: &mut String, e: &Entry, kind: u8)
    requires
        kind <= 2,
    ensures
        final(s)@ == old(s)@ + entry_line(e@, kind as int),
{
    let ghost start = s@;
    if kind == 0 {
        push_str(s, "✓ ");
        push_str(s, e.file.as_str());
        push_str(s, " -> ");
        push_opt(s, &e.output);
        let ghost mid = s@;
        match &e.detail {
            Some(d) => {
                push_str(s, "  (");
                push_str(s, d.as_str());
                push_str(s, ")");
                assert(s@ =~= mid + ("  ("@ + d@ + ")"@));
            },
            None => {
                assert(s@ =~= mid + seq![]);
            },
        }
        push_str(s, "\n");
    } else {
        if kind == 1 {
            push_str(s, "- ");
        } else {
            push_str(s, "✗ ");
        }
        push_str(s, e.file.as_str());
        push_str(s, "  [");
        push_opt(s, &e.detail);
        push_str(s, "]\n");
    }
    assert(s@ =~= start + entry_line(e@, kind as int));
}

fn push_entry_lines(s: &mut String, entries: &Vec<Entry>, kind: u8)
    requires
        kind <= 2,
    ensures
        final(s)@ == old(s)@ + entry_lines(entries@.map_values(|e: Entry| e@), kind as int),
{
    let ghost v = entries@.map_values(|e: Entry| e@);
    let ghost start = s@;
    assert(v.take(0) =~= seq![]);
    assert(start + seq![] =~= start);
    for i in 0..entries.len()
        invariant
            kind <= 2,
            v == entries@.map_values(|e: Entry| e@),
            s@ == start + entry_lines(v.take(i as int), kind as int),
    {
        let ghost before = s@;
        push_entry_line(s, &entries[i], kind);
        proof {
            assert(v.take(i + 1).drop_last() =~= v.take(i as int));
            assert(v.take(i + 1).last() == entries@[i as int]@);
            assert(s@ =~= start + entry_lines(v.take(i + 1), kind as int));
        }
    }
    assert(v.take(v.len() as int) =~= v);
}

impl Report {
    /// The text printed for the report, as [`report_text`] states it.
    pub fn render_text(&self, loc: Locale) -> (res: String)
        ensures
            res@ == report_text(loc, self@),
    {
        let mut s = String::new();
        push_entry_lines(&mut s, &self.ok, 0);
        push_entry_lines(&mut s, &self.skipped, 1);
        push_entry_lines(&mut s, &self.errors, 2);
        push_str(&mut s, "\n");
        let ghost body = s@;
        let summary = self.summary(loc);
        if self.dry_run {
            let mark = tr(loc, "[预览模式]", "[dry-run]");
            push_str(&mut s, mark.as_str());
            push_str(&mut s, " ");
            push_str(&mut s, summary.as_str());
            let hint = tr(loc, "（加 -x 真正执行）", " (add -x to apply)");
            push_str(&mut s, hint.as_str());
        } else {
            push_str(&mut s, summary.as_str());
        }
        push_str(&mut s, "\n");
        assert(s@ =~= report_text(loc, self@));
        s
    }

    /// The exit status of a run that produced this report: 0 when no file
    /// failed, 1 otherwise.
    pub fn exit_status(&self) -> (res: u8)
        ensures
            res == (if self@.errors.len() == 0 {
                0u8
            } else {
                1u8
            }),
    {
        if self.errors.len() == 0 {
            0
        } else {
            1
        }
    }
}

/// What happened to one file of a batch.
#[derive(Debug, Clone)]
pub enum Outcome {
    /// Done: where the result was written, and an optional note.
    Done { output: String, detail: Option<String> },
    /// Skipped, with the reason.
    Skip(String),
    /// Failed, with the error.
    Fail(String),
}

/// The entries that the outcomes of files `0..n` add to the list of files
/// done, skipped (`kind == 1`) or failed (`kind == 2`), in order.
pub open spec fn outcome_entries(results: Seq<(String, Outcome)>, kind: int, n: int) -> Seq<EntryView>
    decreases n,
{
    if n <= 0 {
        seq![]
    } else {
        let prev = outcome_entries(results, kind, n - 1);
        let (file, o) = results[n - 1];
        match o {
            Outcome::Done { output, detail } => if kind == 0 {
                prev.push(EntryView { file: file@, output: Some(output@), detail: opt_view(detail) })
            } else {
                prev
            },
            Outcome::Skip(r) => if kind == 1 {
                prev.push(note_entry(file@, r@))
            } else {
                prev
            },
            Outcome::Fail(e) => if kind == 2 {
                prev.push(note_entry(file@, e@))
            } else {
                prev
            },
        }
    }
}

/// A batch reports every file exactly once: one failure does not stop the
/// others, and nothing is reported twice.
pub proof fn law_batch_reports_every_file(results: Seq<(String, Outcome)>, n: int)
    requires
        0 <= n <= results.len(),
    ensures
        outcome_entries(results, 0, n).len() + outcome_entries(results, 1, n).len()
            + outcome_entries(results, 2, n).len() == n,
    decreases n,
{
    if n > 0 {
        law_batch_reports_every_file(results, n - 1);
    }
}

/// The report of a batch from the outcome of every file, in file order.
pub fn collect_outcomes(results: &Vec<(String, Outcome)>) -> (res: Report)
    ensures
        !res@.dry_run,
        res@.ok == outcome_entries(results@, 0, results@.len() as int),
        res@.skipped == outcome_entries(results@, 1, results@.len() as int),
        res@.errors == outcome_entries(results@, 2, results@.len() as int),
{
    let mut report = Report::new(false);
    let n = results.len();
    for i in 0..n
        invariant
            n == results@.len(),
            !report@.dry_run,
            report@.ok == outcome_entries(results@, 0, i as int),
            report@.skipped == outcome_entries(results@, 1, i as int),
            report@.errors == outcome_entries(results@, 2, i as int),
    {
        let file = results[i].0.clone();
        match &results[i].1 {
            Outcome::Done { output, detail } => {
                let d = match detail {
                    Some(d) => Some(d.clone()),
                    None => None,
                };
                report.push_ok(file, Some(output.clone()), d);
            },
            Outcome::Skip(r) => report.push_skip(file, r.clone()),
            Outcome::Fail(e) => report.push_err(file, e.clone()),
        }
    }
    report
}

} // verus!
