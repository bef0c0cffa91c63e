//! The health check of a store, its identity, its recipients and its git files.

use vstd::prelude::*;

use crate::crypto;
use crate::crypto::{recipients_contain, Identity};
use crate::error;
use crate::error::{Error, Failure};
use crate::generations::GENERATIONS_FILE;
use crate::git;
use crate::git::ensure_git_templates;
use crate::hardening;
use crate::hardening::HardenStatus;
use crate::health;
use crate::health::{generation_census, live_paths, repair_generations};
use crate::laws;
use crate::listing;
use crate::moves;
use crate::moves::{rollforward_or_back_move, MoveRecovery, MOVE_READY};
use crate::path;
use crate::recipients::RECIPIENTS_FILE;
use crate::rotation;
use crate::rotation::{rollforward_or_back, RotationRecovery, ROTATE_READY};
use crate::secrets;
use crate::secrets::{load_recipients, read_secret};
use crate::store;
use crate::store::open_dir;
use crate::text;
use crate::text::{copy_text, join, size_text, split_chars, to_chars, trim};
use crate::tree;
use crate::tree::{Effect, Files, Tree};

verus! {

/// A line of the report.
pub enum ReportLine {
    /// The result of a check.
    Check { label: String, ok: bool, detail: String },
    /// Something worth knowing.
    Note(String),
}

/// What a [`ReportLine`] says.
#[verifier::ext_equal]
pub enum Line {
    Check { label: Seq<char>, ok: bool, detail: Seq<char> },
    Note(Seq<char>),
}

impl View for ReportLine {
    type V = Line;

    open spec fn view(&self) -> Line {
        match *self {
            ReportLine::Check { label, ok, detail } => Line::Check {
                label: label@,
                ok,
                detail: detail@,
            },
            ReportLine::Note(detail) => Line::Note(detail@),
        }
    }
}

/// The number of checks that failed.
pub open spec fn failures_in(lines: Seq<Line>) -> nat
    decreases lines.len(),
{
    if lines.len() == 0 {
        0
    } else {
        failures_in(lines.drop_last()) + (if lines.last() is Check && !lines.last()->ok {
            1nat
        } else {
            0nat
        })
    }
}

proof fn lemma_failures_bound(lines: Seq<Line>)
    ensures
        failures_in(lines) <= lines.len(),
    decreases lines.len(),
{
    if lines.len() > 0 {
        lemma_failures_bound(lines.drop_last());
    }
}

/// What was found, in order.
pub struct Report {
    lines: Vec<ReportLine>,
    failures: usize,
}

impl Report {
    /// The lines.
    pub closed spec fn view(&self) -> Seq<Line> {
        Seq::new(self.lines@.len(), |i: int| self.lines@[i]@)
    }

    /// Whether the failures are counted.
    pub closed spec fn wf(&self) -> bool {
        self.failures == failures_in(self@)
    }

    /// An empty report.
    pub fn new() -> (r: Self)
        ensures
            r.wf(),
            r@ == Seq::<Line>::empty(),
    {
        let r = Report { lines: Vec::new(), failures: 0 };
        assert(r@ =~= Seq::<Line>::empty());
        r
    }

    fn push(&mut self, line: ReportLine, failed: bool)
        requires
            old(self).wf(),
            failed == (line@ is Check && !line@->ok),
        ensures
            final(self).wf(),
            final(self)@ == old(self)@.push(line@),
    {
        proof {
            lemma_failures_bound(self@);
            assert(self@.push(line@).drop_last() =~= self@);
        }
        if failed {
            self.failures = self.failures.saturating_add(1);
        }
        self.lines.push(line);
        let total: usize = self.lines.len();
        assert(self@ =~= old(self)@.push(line@));
        assert(total == old(self)@.len() + 1);
    }

    /// Adds the result of a check.
    pub fn check(&mut self, label: &str, ok: bool, detail: &str)
        requires
            old(self).wf(),
        ensures
            final(self).wf(),
            final(self)@ == old(self)@.push(
                (Line::Check { label: label@, ok, detail: detail@ }),
            ),
    {
        self.push(
            ReportLine::Check { label: copy_text(label), ok, detail: copy_text(detail) },
            !ok,
        );
    }

    /// Adds a note.
    pub fn note(&mut self, detail: &str)
        requires
            old(self).wf(),
        ensures
            final(self).wf(),
            final(self)@ == old(self)@.push(Line::Note(detail@)),
    {
        self.push(ReportLine::Note(copy_text(detail)), false);
    }

    /// How many checks failed.
    pub fn failures(&self) -> (r: usize)
        requires
            self.wf(),
        ensures
            r == failures_in(self@),
    {
        self.failures
    }

    /// The lines.
    pub fn lines(&self) -> (r: &[ReportLine])
        ensures
            r@.len() == self@.len(),
            forall|i: int| 0 <= i < r@.len() ==> #[trigger] r@[i]@ == self@[i],
    {
        self.lines.as_slice()
    }
}

/// A check that failed.
pub open spec fn failure(label: Seq<char>, detail: Seq<char>) -> Line {
    Line::Check { label, ok: false, detail }
}

fn concat2(a: &str, b: &str) -> (r: String)
    ensures
        r@ == a@ + b@,
{
    let mut r = copy_text(a);
    r.append(b);
    r
}

fn concat3(a: &str, b: &str, c: &str) -> (r: String)
    ensures
        r@ == a@ + b@ + c@,
{
    let mut r = copy_text(a);
    r.append(b);
    r.append(c);
    r
}

// ---------------------------------------------------------------------------
// The process
// ---------------------------------------------------------------------------

/// What is reported of the process's hardening. Memory locking is a note only.
#[verifier::opaque]
pub open spec fn hardening_lines(status: Option<&HardenStatus>) -> Seq<Line> {
    match status {
        None => seq![Line::Note("process hardening: status unavailable"@)],
        Some(s) => seq![
            Line::Check {
                label: "hardening core_dump"@,
                ok: !(s.core_dump@ is Failed),
                detail: hardening::measure_text(s.core_dump@),
            },
            Line::Note(
                "hardening mlock ("@ + s.platform@ + "): "@ + hardening::measure_text(s.mlock@),
            ),
            Line::Check {
                label: "hardening debugger_deny"@,
                ok: !(s.debugger_deny@ is Failed),
                detail: hardening::measure_text(s.debugger_deny@),
            },
        ],
    }
}

/// Reports the process's hardening.
pub fn report_hardening(report: &mut Report, status: Option<&HardenStatus>)
    requires
        old(report).wf(),
    ensures
        final(report).wf(),
        final(report)@ == old(report)@ + hardening_lines(status),
{
    proof {
        reveal(hardening_lines);
    }
    match status {
        None => {
            report.note("process hardening: status unavailable");
        },
        Some(s) => {
            let core = s.core_dump.detail();
            report.check("hardening core_dump", s.core_dump.is_ok(), core.as_str());
            let mut note = concat3("hardening mlock (", s.platform, "): ");
            let memory = s.mlock.detail();
            note.append(memory.as_str());
            report.note(note.as_str());
            let debugger = s.debugger_deny.detail();
            report.check("hardening debugger_deny", s.debugger_deny.is_ok(), debugger.as_str());
        },
    }
    assert(report@ =~= old(report)@ + hardening_lines(status));
}

// ---------------------------------------------------------------------------
// Files
// ---------------------------------------------------------------------------

/// What is reported of the files' permissions.
#[verifier::opaque]
pub open spec fn permission_lines(issues: Seq<Seq<char>>, enforced: bool) -> Seq<Line> {
    if issues.len() > 0 {
        Seq::new(issues.len(), |i: int| failure("file permissions"@, issues[i]))
    } else if enforced {
        seq![Line::Check { label: "file permissions owner-only"@, ok: true, detail: "ok"@ }]
    } else {
        seq![
            Line::Note(
                "file permissions: not enforced on this platform (Windows ACLs out of scope)"@,
            ),
        ]
    }
}

/// Reports the files' permissions: what is wrong with them, if anything. Not every
/// platform enforces them.
pub fn check_permissions(issues: &[String], enforced: bool, report: &mut Report)
    requires
        old(report).wf(),
    ensures
        final(report).wf(),
        final(report)@ == old(report)@ + permission_lines(text::views(issues@), enforced),
{
    proof {
        reveal(permission_lines);
    }
    let ghost all = text::views(issues@);
    if issues.len() > 0 {
        let ghost want = permission_lines(all, enforced);
        assert(report@ + want.take(0) =~= report@);
        for i in 0..issues.len()
            invariant
                report.wf(),
                all == text::views(issues@),
                all.len() > 0,
                want == permission_lines(all, enforced),
                report@ == old(report)@ + want.take(i as int),
        {
            proof {
                reveal(permission_lines);
            }
            report.check("file permissions", false, issues[i].as_str());
            assert(want[i as int] == failure("file permissions"@, issues@[i as int]@));
            assert(report@ =~= old(report)@ + want.take(i + 1));
        }
        assert(want.take(want.len() as int) =~= want);
    } else if enforced {
        report.check("file permissions owner-only", true, "ok");
        assert(report@ =~= old(report)@ + permission_lines(all, enforced));
    } else {
        report.note("file permissions: not enforced on this platform (Windows ACLs out of scope)");
        assert(report@ =~= old(report)@ + permission_lines(all, enforced));
    }
}

/// Whether a name is that of a scratch file: its last segment has the extension
/// `tmp`, and none of its directories is hidden.
pub open spec fn is_scratch(name: Seq<char>) -> bool {
    let segs = text::pieces(name, '/');
    let last = segs.last();
    &&& last.len() > 4
    &&& last.skip(last.len() - 4) == seq!['.', 't', 'm', 'p']
    &&& forall|i: int|
        0 <= i < segs.len() - 1 ==> !((#[trigger] segs[i]).len() > 0 && segs[i][0] == '.')
}

/// The scratch files of a tree.
pub open spec fn scratch_files(files: Files) -> Set<Seq<char>> {
    files.dom().filter(|n: Seq<char>| is_scratch(n))
}

fn is_scratch_name(name: &str) -> (r: bool)
    ensures
        r == is_scratch(name@),
{
    let cs = to_chars(name);
    proof {
        text::lemma_pieces_nonempty(cs@, '/');
    }
    let segs = split_chars(cs.as_slice(), '/');
    let count: usize = segs.len();
    let last = &segs[count - 1];
    let ghost end = text::pieces(name@, '/').last();
    assert(last@ == end);
    let n: usize = last.len();
    if n <= 4 {
        return false;
    }
    let ghost ext = end.skip(n - 4);
    if !(last[n - 4] == '.' && last[n - 3] == 't' && last[n - 2] == 'm' && last[n - 1] == 'p') {
        assert(ext[0] == last@[n - 4]);
        assert(ext[1] == last@[n - 3]);
        assert(ext[2] == last@[n - 2]);
        assert(ext[3] == last@[n - 1]);
        return false;
    }
    assert(ext =~= seq!['.', 't', 'm', 'p']);
    let dirs: usize = count - 1;
    for i in 0..dirs
        invariant
            dirs + 1 == segs@.len(),
            segs@.len() == text::pieces(name@, '/').len(),
            forall|j: int|
                0 <= j < segs@.len() ==> #[trigger] segs@[j]@ == text::pieces(name@, '/')[j],
            forall|j: int|
                0 <= j < i ==> !((#[trigger] text::pieces(name@, '/')[j]).len() > 0 && text::pieces(
                    name@,
                    '/',
                )[j][0] == '.'),
    {
        let seg = &segs[i];
        assert(seg@ == text::pieces(name@, '/')[i as int]);
        if seg.len() > 0 && seg[0] == '.' {
            return false;
        }
    }
    true
}

/// Counts the scratch files.
pub fn orphan_temp_count(t: &Tree) -> (r: usize)
    requires
        t.wf(),
    ensures
        r == scratch_files(t.files()).len(),
{
    let mut n: usize = 0;
    let total: usize = t.len();
    let ghost names = t.names();
    let ghost mut seen: Seq<Seq<char>> = Seq::empty();
    for i in 0..total
        invariant
            t.wf(),
            names == t.names(),
            total == names.len(),
            n == seen.len(),
            n <= i,
            seen.no_duplicates(),
            forall|x: Seq<char>| #[trigger]
                seen.contains(x) <==> names.take(i as int).contains(x) && is_scratch(x),
    {
        let (name, _) = t.entry(i);
        let ghost before = seen;
        proof {
            t.lemma_distinct(i as int);
            assert(names.take(i + 1) =~= names.take(i as int).push(name@));
            lemma_take_one_more(names, i as int);
        }
        if is_scratch_name(name) {
            n = n + 1;
            proof {
                seen = before.push(name@);
                lemma_push_contains(before, name@);
                assert(!before.contains(name@));
                assert forall|a: int, b: int| 0 <= a < seen.len() && 0 <= b < seen.len() && a
                    != b implies seen[a] != seen[b] by {
                    if a < before.len() {
                        assert(before.contains(before[a]));
                    }
                    if b < before.len() {
                        assert(before.contains(before[b]));
                    }
                }
            }
        }
        assert forall|x: Seq<char>| #[trigger] seen.contains(x) <==> names.take(i + 1).contains(x)
            && is_scratch(x) by {
            assert(before.contains(x) <==> names.take(i as int).contains(x) && is_scratch(x));
        }
    }
    proof {
        assert(names.take(total as int) =~= names);
        t.lemma_names();
        assert(seen.to_set() =~= scratch_files(t.files())) by {
            assert forall|x: Seq<char>| seen.to_set().contains(x) <==> scratch_files(
                t.files(),
            ).contains(x) by {
                assert(seen.contains(x) <==> names.take(total as int).contains(x) && is_scratch(x));
                assert(t.files().contains_key(x) <==> names.contains(x));
            }
        }
        seen.unique_seq_to_set();
    }
    n
}

/// What one more element adds to the first ones.
proof fn lemma_take_one_more(s: Seq<Seq<char>>, i: int)
    requires
        0 <= i < s.len(),
    ensures
        forall|x: Seq<char>| #[trigger]
            s.take(i + 1).contains(x) <==> x == s[i] || s.take(i).contains(x),
{
    assert(s.take(i + 1) =~= s.take(i).push(s[i]));
    lemma_push_contains(s.take(i), s[i]);
}

/// What a longer sequence holds.
proof fn lemma_push_contains(s: Seq<Seq<char>>, y: Seq<char>)
    ensures
        forall|x: Seq<char>| #[trigger] s.push(y).contains(x) <==> x == y || s.contains(x),
{
    assert forall|x: Seq<char>| #[trigger] s.push(y).contains(x) <==> x == y || s.contains(x) by {
        if s.push(y).contains(x) {
            let i = s.push(y).index_of(x);
            assert(s.push(y)[i] == x);
            if i < s.len() {
                assert(s[i] == x);
            }
        }
        if s.contains(x) {
            let i = s.index_of(x);
            assert(s.push(y)[i] == x);
        }
        if x == y {
            assert(s.push(y)[s.len() as int] == x);
        }
    }
}

/// What is reported of scratch files that were left over.
#[verifier::opaque]
pub open spec fn artifact_lines(files: Files) -> Seq<Line> {
    let n = scratch_files(files).len();
    if n > 0 {
        seq![
            Line::Note(
                text::decimal(n)
                    + " leftover *.tmp scratch file(s) under the store — safe to delete"@,
            ),
        ]
    } else {
        Seq::empty()
    }
}

/// Reports scratch files that were left over.
pub fn check_runtime_artifacts(t: &Tree, report: &mut Report)
    requires
        t.wf(),
        old(report).wf(),
    ensures
        final(report).wf(),
        final(report)@ == old(report)@ + artifact_lines(t.files()),
{
    proof {
        reveal(artifact_lines);
    }
    let temps = orphan_temp_count(t);
    if temps > 0 {
        let n = size_text(temps);
        let note = concat2(
            n.as_str(),
            " leftover *.tmp scratch file(s) under the store — safe to delete",
        );
        report.note(note.as_str());
    }
    assert(report@ =~= old(report)@ + artifact_lines(t.files()));
}

// ---------------------------------------------------------------------------
// Git files
// ---------------------------------------------------------------------------

/// The note on lines that were appended.
pub open spec fn template_note(
    attributes: Seq<Seq<char>>,
    ignore: Seq<Seq<char>>,
) -> Seq<char> {
    let first = "appended attributes: "@ + text::joined(attributes, ", "@);
    let second = "appended ignore: "@ + text::joined(ignore, ", "@);
    if attributes.len() > 0 && ignore.len() > 0 {
        first + "; "@ + second
    } else if attributes.len() > 0 {
        first
    } else {
        second
    }
}

/// What is reported of the git files. Where the store's directory is missing, writing
/// them fails, and `fault` is what the system says of it.
#[verifier::opaque]
pub open spec fn template_lines(found: bool, fault: Seq<char>, files: Files) -> Seq<Line> {
    if !found {
        seq![failure("git templates"@, fault)]
    } else {
        match git::template_result(files) {
            Err(e) => seq![failure("git templates"@, error::message(e))],
            Ok(added) => if added.0.len() == 0 && added.1.len() == 0 {
                seq![Line::Check { label: "git templates current"@, ok: true, detail: "ok"@ }]
            } else {
                seq![Line::Note(template_note(added.0, added.1))]
            },
        }
    }
}

/// The changes to the git files.
#[verifier::opaque]
pub open spec fn template_changes(found: bool, files: Files) -> Seq<Effect> {
    if found {
        git::template_effects(files)
    } else {
        Seq::empty()
    }
}

/// Brings the git files up to date, and reports what was missing.
pub fn check_git_templates(found: bool, fault: &str, t: &mut Tree, report: &mut Report)
    requires
        old(t).wf(),
        old(report).wf(),
    ensures
        final(report).wf(),
        final(report)@ == old(report)@ + template_lines(found, fault@, old(t).files()),
        tree::advanced(*old(t), *final(t), template_changes(found, old(t).files())),
{
    proof {
        reveal(template_lines);
        reveal(template_changes);
    }
    if !found {
        proof {
            tree::lemma_advanced_none(*t);
        }
        report.check("git templates", false, fault);
        assert(report@ =~= old(report)@ + template_lines(found, fault@, old(t).files()));
        return ;
    }
    match ensure_git_templates(t) {
        Ok(delta) => {
            let a = delta.attributes_added;
            let b = delta.ignore_added;
            assert(text::views(a@).len() == a@.len());
            assert(text::views(b@).len() == b@.len());
            if a.len() == 0 && b.len() == 0 {
                report.check("git templates current", true, "ok");
            } else {
                let joined_a = join(a.as_slice(), ", ");
                let joined_b = join(b.as_slice(), ", ");
                let first = concat2("appended attributes: ", joined_a.as_str());
                let second = concat2("appended ignore: ", joined_b.as_str());
                if a.len() > 0 && b.len() > 0 {
                    let both = concat3(first.as_str(), "; ", second.as_str());
                    report.note(both.as_str());
                } else if a.len() > 0 {
                    report.note(first.as_str());
                } else {
                    report.note(second.as_str());
                }
            }
        },
        Err(e) => {
            let m = e.message();
            report.check("git templates", false, m.as_str());
        },
    }
    assert(report@ =~= old(report)@ + template_lines(found, fault@, old(t).files()));
}

// ---------------------------------------------------------------------------
// Generations
// ---------------------------------------------------------------------------

/// What is reported of a repair.
pub open spec fn repair_lines(files: Files, key: Seq<u8>) -> Seq<Line> {
    let skipped = health::unreadable(files, health::live(files), key);
    let first = Line::Note(
        "repaired .ks-generations ("@ + text::decimal(health::repaired(files, key).dom().len())
            + " entries)"@,
    );
    match secrets::index_at(files) {
        Err(e) => seq![failure("repair-generations"@, error::message(e))],
        Ok(_) => if skipped.len() > 0 {
            seq![
                first,
                Line::Note(
                    "skipped unreadable: "@ + text::joined(skipped, ", "@)
                        + " — `ks rm <path>` then re-insert from known plaintext (not mv/cp/rotate)"@,
                ),
            ]
        } else {
            seq![first]
        },
    }
}

/// The secrets of some kind.
pub open spec fn lagging(files: Files, key: Seq<u8>) -> Seq<Seq<char>> {
    health::live(files).filter(|p: Seq<char>| health::is_lagging(files, p, key))
}

/// The secrets whose envelope is older than the index says.
pub open spec fn stale(files: Files, key: Seq<u8>) -> Seq<Seq<char>> {
    health::live(files).filter(|p: Seq<char>| health::is_stale(files, p, key))
}

/// The secrets that the index does not know.
pub open spec fn unindexed(files: Files, key: Seq<u8>) -> Seq<Seq<char>> {
    health::live(files).filter(|p: Seq<char>| health::is_missing(files, p, key))
}

/// The secrets whose envelope opens.
pub open spec fn opened(files: Files, key: Seq<u8>) -> Seq<Seq<char>> {
    health::live(files).filter(|p: Seq<char>| health::readable(files, p, key))
}

/// The numbers of a census.
pub open spec fn census_detail(files: Files, key: Seq<u8>) -> Seq<char> {
    "sealed="@ + text::decimal(opened(files, key).len()) + " lag="@ + text::decimal(
        lagging(files, key).len(),
    ) + " stale="@ + text::decimal(stale(files, key).len()) + " missing_index="@ + text::decimal(
        unindexed(files, key).len(),
    ) + " tombstones="@ + text::decimal(health::tombstones(files).len())
}

/// What is reported of a census.
pub open spec fn census_lines(files: Files, key: Seq<u8>) -> Seq<Line> {
    match secrets::index_at(files) {
        Err(e) => seq![failure("generations census"@, error::message(e))],
        Ok(_) => counted_lines(files, key),
    }
}

/// What is reported of a census of an index that can be read.
pub open spec fn counted_lines(files: Files, key: Seq<u8>) -> Seq<Line> {
    let first = seq![
        Line::Check {
            label: "generations fully protected"@,
            ok: health::all_protected(files, key),
            detail: census_detail(files, key),
        },
    ];
    let lag = if lagging(files, key).len() > 0 {
        seq![
            Line::Note(
                "generation lag on: "@ + text::joined(lagging(files, key), ", "@)
                    + " (run doctor --repair-generations)"@,
            ),
        ]
    } else {
        Seq::empty()
    };
    let old_ones = if stale(files, key).len() > 0 {
        seq![
            Line::Note(
                "stale (envelope < index) on: "@ + text::joined(stale(files, key), ", "@)
                    + " — single-device: doctor --repair-generations; multi-device durable: set known plaintext while index is still high (do not repair first)"@,
            ),
        ]
    } else {
        Seq::empty()
    };
    first + lag + old_ones
}

/// The files on which the census is taken.
pub open spec fn census_files(files: Files, key: Seq<u8>, repair: bool) -> Files {
    let open = tree::replayed(files, store::open_effects(files));
    if repair {
        tree::replayed(open, health::repair_effects(open, key))
    } else {
        open
    }
}

/// What is reported of the generations.
#[verifier::opaque]
pub open spec fn generation_lines(
    found: bool,
    dir: Seq<char>,
    files: Files,
    key: Seq<u8>,
    repair: bool,
) -> Seq<Line> {
    match store::opening(found, dir, files) {
        Err(e) => seq![failure("open store for generations"@, error::message(e))],
        Ok(_) => {
            let open = tree::replayed(files, store::open_effects(files));
            if repair && secrets::index_at(open) is Err {
                repair_lines(open, key)
            } else {
                (if repair {
                    repair_lines(open, key)
                } else {
                    Seq::empty()
                }) + census_lines(census_files(files, key, repair), key)
            }
        },
    }
}

/// The changes that checking the generations makes.
#[verifier::opaque]
pub open spec fn generation_changes(
    found: bool,
    dir: Seq<char>,
    files: Files,
    key: Seq<u8>,
    repair: bool,
) -> Seq<Effect> {
    match store::opening(found, dir, files) {
        Err(_) => Seq::empty(),
        Ok(_) => {
            let open = tree::replayed(files, store::open_effects(files));
            store::open_effects(files) + (if repair {
                health::repair_effects(open, key)
            } else {
                Seq::empty()
            })
        },
    }
}

/// Repairs the index, reports it, and says whether it was done.
fn note_repair(t: &mut Tree, identity: &Identity, report: &mut Report) -> (r: bool)
    requires
        old(t).wf(),
        old(report).wf(),
    ensures
        final(report).wf(),
        final(report)@ == old(report)@ + repair_lines(old(t).files(), identity@),
        tree::advanced(
            *old(t),
            *final(t),
            health::repair_effects(old(t).files(), identity@),
        ),
        r == (secrets::index_at(old(t).files()) is Ok),
{
    let done = match repair_generations(t, identity) {
        Ok(d) => d,
        Err(e) => {
            let m = e.message();
            report.check("repair-generations", false, m.as_str());
            assert(report@ =~= old(report)@ + repair_lines(old(t).files(), identity@));
            return false;
        },
    };
    let entries = size_text(done.entries);
    let note = concat3("repaired .ks-generations (", entries.as_str(), " entries)");
    report.note(note.as_str());
    assert(text::views(done.skipped@).len() == done.skipped@.len());
    if done.skipped.len() > 0 {
        let list = join(done.skipped.as_slice(), ", ");
        let note = concat3(
            "skipped unreadable: ",
            list.as_str(),
            " — `ks rm <path>` then re-insert from known plaintext (not mv/cp/rotate)",
        );
        report.note(note.as_str());
    }
    assert(report@ =~= old(report)@ + repair_lines(old(t).files(), identity@));
    true
}

/// Reports a census.
fn note_census(t: &Tree, identity: &Identity, report: &mut Report)
    requires
        t.wf(),
        old(report).wf(),
    ensures
        final(report).wf(),
        final(report)@ == old(report)@ + census_lines(t.files(), identity@),
{
    let ghost files = t.files();
    let ghost key = identity@;
    let c = match generation_census(t, identity) {
        Ok(c) => c,
        Err(e) => {
            let m = e.message();
            report.check("generations census", false, m.as_str());
            assert(report@ =~= old(report)@ + census_lines(files, key));
            return ;
        },
    };
    assert(text::views(c.lag_paths@).len() == c.lag_paths@.len());
    assert(text::views(c.stale_paths@).len() == c.stale_paths@.len());
    assert(text::views(c.missing_index@).len() == c.missing_index@.len());
    let sealed = size_text(c.sealed_count);
    let lag = size_text(c.lag_paths.len());
    let old_ones = size_text(c.stale_paths.len());
    let missing = size_text(c.missing_index.len());
    let dead = size_text(c.tombstone_count);
    let mut detail = concat3("sealed=", sealed.as_str(), " lag=");
    detail.append(lag.as_str());
    detail.append(" stale=");
    detail.append(old_ones.as_str());
    detail.append(" missing_index=");
    detail.append(missing.as_str());
    detail.append(" tombstones=");
    detail.append(dead.as_str());
    assert(detail@ =~= census_detail(files, key));
    report.check("generations fully protected", c.fully_protected, detail.as_str());
    if c.lag_paths.len() > 0 {
        let list = join(c.lag_paths.as_slice(), ", ");
        let note = concat3(
            "generation lag on: ",
            list.as_str(),
            " (run doctor --repair-generations)",
        );
        report.note(note.as_str());
    }
    if c.stale_paths.len() > 0 {
        let list = join(c.stale_paths.as_slice(), ", ");
        let note = concat3(
            "stale (envelope < index) on: ",
            list.as_str(),
            " — single-device: doctor --repair-generations; multi-device durable: set known plaintext while index is still high (do not repair first)",
        );
        report.note(note.as_str());
    }
    assert(report@ =~= old(report)@ + census_lines(files, key));
}

/// Rebuilds the generation index if asked to, and reports how the envelopes agree
/// with it.
pub fn check_generations(
    found: bool,
    dir: &str,
    t: &mut Tree,
    identity: &Identity,
    repair: bool,
    report: &mut Report,
)
    requires
        old(t).wf(),
        old(report).wf(),
    ensures
        final(report).wf(),
        final(report)@ == old(report)@ + generation_lines(
            found,
            dir@,
            old(t).files(),
            identity@,
            repair,
        ),
        tree::advanced(
            *old(t),
            *final(t),
            generation_changes(found, dir@, old(t).files(), identity@, repair),
        ),
{
    proof {
        reveal(generation_lines);
        reveal(generation_changes);
    }
    let ghost t0 = *t;
    let ghost key = identity@;
    match open_dir(found, dir, t) {
        Ok(_) => {},
        Err(e) => {
            proof {
                tree::lemma_advanced_none(t0);
            }
            let m = e.message();
            report.check("open store for generations", false, m.as_str());
            assert(report@ =~= old(report)@ + generation_lines(
                found,
                dir@,
                t0.files(),
                key,
                repair,
            ));
            return ;
        },
    }
    let ghost t1 = *t;
    let ghost first = store::open_effects(t0.files());
    if repair {
        let done = note_repair(t, identity, report);
        proof {
            tree::lemma_advanced_concat(
                t0,
                t1,
                *t,
                first,
                health::repair_effects(t1.files(), key),
            );
        }
        if !done {
            assert(report@ =~= old(report)@ + generation_lines(
                found,
                dir@,
                t0.files(),
                key,
                repair,
            ));
            return ;
        }
    } else {
        assert(first + Seq::<Effect>::empty() =~= first);
        assert(report@ =~= old(report)@ + Seq::<Line>::empty());
    }
    note_census(t, identity, report);
    assert(report@ =~= old(report)@ + generation_lines(found, dir@, t0.files(), key, repair));
}

// ---------------------------------------------------------------------------
// Journals
// ---------------------------------------------------------------------------

/// The notes on journals that are committed and wait for an identity.
#[verifier::opaque]
pub open spec fn pending_lines(files: Files) -> Seq<Line> {
    (if tree::present(files, ROTATE_READY@) {
        seq![
            Line::Note(
                "interrupted recipient rotation (READY) pending unlock — doctor will recover when identity unlocks"@,
            ),
        ]
    } else {
        Seq::empty()
    }) + (if tree::present(files, MOVE_READY@) {
        seq![
            Line::Note(
                "interrupted rename (READY) pending unlock — doctor will recover when identity unlocks"@,
            ),
        ]
    } else {
        Seq::empty()
    })
}

/// Notes journals that are committed and wait for an identity.
pub fn note_pending_journals(t: &Tree, report: &mut Report)
    requires
        t.wf(),
        old(report).wf(),
    ensures
        final(report).wf(),
        final(report)@ == old(report)@ + pending_lines(t.files()),
{
    proof {
        reveal(pending_lines);
    }
    if t.is_present(ROTATE_READY) {
        report.note(
            "interrupted recipient rotation (READY) pending unlock — doctor will recover when identity unlocks",
        );
    }
    if t.is_present(MOVE_READY) {
        report.note(
            "interrupted rename (READY) pending unlock — doctor will recover when identity unlocks",
        );
    }
    assert(report@ =~= old(report)@ + pending_lines(t.files()));
}

/// What resolving a committed rotation does, and is reported.
pub open spec fn rotation_lines(files: Files, key: Seq<u8>) -> Seq<Line> {
    if !tree::present(files, ROTATE_READY@) {
        Seq::empty()
    } else {
        match rotation::rotation_recovery(files, key).result {
            Ok(RotationRecovery::Completed) => seq![
                Line::Note(
                    "recovered interrupted recipient rotation (authenticated READY)"@,
                ),
            ],
            Ok(_) => Seq::empty(),
            Err(e) => seq![failure("recover interrupted rotation"@, error::message(e))],
        }
    }
}

/// The changes that resolving a committed rotation makes.
pub open spec fn rotation_changes(files: Files, key: Seq<u8>) -> Seq<Effect> {
    if tree::present(files, ROTATE_READY@) {
        rotation::rotation_recovery(files, key).effects
    } else {
        Seq::empty()
    }
}

/// What resolving a committed move does, and is reported.
pub open spec fn move_lines(files: Files, key: Seq<u8>) -> Seq<Line> {
    if !tree::present(files, MOVE_READY@) {
        Seq::empty()
    } else {
        match moves::move_recovery(files, key).result {
            Ok(MoveRecovery::Completed) => seq![
                Line::Note("recovered interrupted rename (authenticated READY)"@),
            ],
            Ok(_) => Seq::empty(),
            Err(e) => seq![failure("recover interrupted rename"@, error::message(e))],
        }
    }
}

/// The changes that resolving a committed move makes.
pub open spec fn move_changes(files: Files, key: Seq<u8>) -> Seq<Effect> {
    if tree::present(files, MOVE_READY@) {
        moves::move_recovery(files, key).effects
    } else {
        Seq::empty()
    }
}

/// What is reported of committed journals once there is an identity.
#[verifier::opaque]
pub open spec fn recovery_lines(
    found: bool,
    dir: Seq<char>,
    files: Files,
    key: Seq<u8>,
) -> Seq<Line> {
    match store::opening(found, dir, files) {
        Err(e) => seq![failure("open store for journal recover"@, error::message(e))],
        Ok(_) => {
            let f1 = tree::replayed(files, store::open_effects(files));
            let f2 = tree::replayed(f1, rotation_changes(f1, key));
            rotation_lines(f1, key) + move_lines(f2, key)
        },
    }
}

/// The changes that resolving committed journals makes.
#[verifier::opaque]
pub open spec fn recovery_changes(
    found: bool,
    dir: Seq<char>,
    files: Files,
    key: Seq<u8>,
) -> Seq<Effect> {
    match store::opening(found, dir, files) {
        Err(_) => Seq::empty(),
        Ok(_) => {
            let f1 = tree::replayed(files, store::open_effects(files));
            let f2 = tree::replayed(f1, rotation_changes(f1, key));
            store::open_effects(files) + rotation_changes(f1, key) + move_changes(f2, key)
        },
    }
}

/// Resolves committed journals, and reports it.
pub fn recover_ready_journals(
    found: bool,
    dir: &str,
    t: &mut Tree,
    identity: &Identity,
    report: &mut Report,
)
    requires
        old(t).wf(),
        old(report).wf(),
    ensures
        final(report).wf(),
        final(report)@ == old(report)@ + recovery_lines(found, dir@, old(t).files(), identity@),
        tree::advanced(
            *old(t),
            *final(t),
            recovery_changes(found, dir@, old(t).files(), identity@),
        ),
{
    proof {
        reveal(recovery_lines);
        reveal(recovery_changes);
    }
    let ghost t0 = *t;
    let ghost key = identity@;
    match open_dir(found, dir, t) {
        Ok(_) => {},
        Err(e) => {
            proof {
                tree::lemma_advanced_none(t0);
            }
            let m = e.message();
            report.check("open store for journal recover", false, m.as_str());
            assert(report@ =~= old(report)@ + recovery_lines(found, dir@, t0.files(), key));
            return ;
        },
    }
    let ghost t1 = *t;
    proof {
        tree::lemma_advanced_none(t1);
    }
    if t.is_present(ROTATE_READY) {
        match rollforward_or_back(t, identity) {
            Ok(RotationRecovery::Completed) => {
                report.note("recovered interrupted recipient rotation (authenticated READY)");
            },
            Ok(_) => {},
            Err(e) => {
                let m = e.message();
                report.check("recover interrupted rotation", false, m.as_str());
            },
        }
    }
    assert(report@ =~= old(report)@ + rotation_lines(t1.files(), key));
    let ghost t2 = *t;
    proof {
        tree::lemma_advanced_none(t2);
        tree::lemma_advanced_concat(
            t0,
            t1,
            t2,
            store::open_effects(t0.files()),
            rotation_changes(t1.files(), key),
        );
    }
    let ghost r1 = report@;
    if t.is_present(MOVE_READY) {
        match rollforward_or_back_move(t, identity) {
            Ok(MoveRecovery::Completed) => {
                report.note("recovered interrupted rename (authenticated READY)");
            },
            Ok(_) => {},
            Err(e) => {
                let m = e.message();
                report.check("recover interrupted rename", false, m.as_str());
            },
        }
    }
    proof {
        tree::lemma_advanced_concat(
            t0,
            t2,
            *t,
            store::open_effects(t0.files()) + rotation_changes(t1.files(), key),
            move_changes(t2.files(), key),
        );
        assert(report@ =~= r1 + move_lines(t2.files(), key));
        assert(report@ =~= old(report)@ + recovery_lines(found, dir@, t0.files(), key));
    }
}

// ---------------------------------------------------------------------------
// Secrets
// ---------------------------------------------------------------------------

/// How many secrets are sampled.
pub const SAMPLE: usize = 20;

/// The secrets that are sampled.
pub open spec fn sampled(files: Files) -> Seq<Seq<char>> {
    let all = health::live(files);
    if all.len() <= SAMPLE {
        all
    } else {
        all.take(SAMPLE as int)
    }
}

/// Those of some secrets that cannot be read.
pub open spec fn bad_ones(files: Files, paths: Seq<Seq<char>>, key: Seq<u8>) -> Seq<Seq<char>> {
    paths.filter(|p: Seq<char>| secrets::got(files, p, key) is Err)
}

/// What is reported of a sample of the secrets.
pub open spec fn sample_lines(files: Files, key: Seq<u8>) -> Seq<Line> {
    let bad = bad_ones(files, sampled(files), key).len();
    if health::live(files).len() == 0 {
        Seq::empty()
    } else {
        seq![
            Line::Check {
                label: "secrets decrypt & verify ("@ + text::decimal(sampled(files).len())
                    + " sampled)"@,
                ok: bad == 0,
                detail: if bad == 0 {
                    "ok"@
                } else {
                    text::decimal(bad) + " failed integrity/decrypt"@
                },
            },
        ]
    }
}

/// What is reported of the secrets.
#[verifier::opaque]
pub open spec fn secret_lines(
    found: bool,
    dir: Seq<char>,
    files: Files,
    key: Seq<u8>,
) -> Seq<Line> {
    match store::opening(found, dir, files) {
        Err(e) => seq![failure("open store for secret sample"@, error::message(e))],
        Ok(_) => sample_lines(tree::replayed(files, store::open_effects(files)), key),
    }
}

/// The changes that opening a store makes, if it can be opened.
#[verifier::opaque]
pub open spec fn opening_changes(found: bool, dir: Seq<char>, files: Files) -> Seq<Effect> {
    match store::opening(found, dir, files) {
        Err(_) => Seq::empty(),
        Ok(_) => store::open_effects(files),
    }
}

/// Reads the first secrets, and reports how many fail.
pub fn check_secrets(
    found: bool,
    dir: &str,
    t: &mut Tree,
    identity: &Identity,
    report: &mut Report,
)
    requires
        old(t).wf(),
        old(report).wf(),
    ensures
        final(report).wf(),
        final(report)@ == old(report)@ + secret_lines(found, dir@, old(t).files(), identity@),
        tree::advanced(
            *old(t),
            *final(t),
            opening_changes(found, dir@, old(t).files()),
        ),
{
    proof {
        reveal(secret_lines);
        reveal(opening_changes);
    }
    let ghost t0 = *t;
    let ghost key = identity@;
    match open_dir(found, dir, t) {
        Ok(_) => {},
        Err(e) => {
            proof {
                tree::lemma_advanced_none(t0);
            }
            let m = e.message();
            report.check("open store for secret sample", false, m.as_str());
            assert(report@ =~= old(report)@ + secret_lines(found, dir@, t0.files(), key));
            return ;
        },
    }
    let ghost files = t.files();
    let paths = live_paths(t);
    let ghost all = text::views(paths@);
    assert(all.len() == paths@.len());
    if paths.len() == 0 {
        assert(report@ =~= old(report)@ + secret_lines(found, dir@, t0.files(), key));
        return ;
    }
    let checked: usize = if paths.len() <= SAMPLE {
        paths.len()
    } else {
        SAMPLE
    };
    let ghost some = sampled(files);
    assert(some =~= all.take(checked as int));
    let mut bad: usize = 0;
    let ghost pred = |p: Seq<char>| secrets::got(files, p, key) is Err;
    proof {
        health::lemma_filter_empty(pred);
        assert(some.take(0) =~= Seq::empty());
    }
    for i in 0..checked
        invariant
            t.wf(),
            files == t.files(),
            key == identity@,
            all == text::views(paths@),
            checked <= paths@.len(),
            some == all.take(checked as int),
            pred == (|p: Seq<char>| secrets::got(files, p, key) is Err),
            bad == some.take(i as int).filter(pred).len(),
            bad <= i,
    {
        let p = paths[i].as_str();
        assert(some.take(i + 1) =~= some.take(i as int).push(p@));
        proof {
            health::lemma_filter_push(some.take(i as int), p@, pred);
        }
        if read_secret(t, p, identity).is_err() {
            bad = bad + 1;
        }
    }
    assert(some.take(checked as int) =~= some);
    let count = size_text(checked);
    let label = concat3("secrets decrypt & verify (", count.as_str(), " sampled)");
    if bad == 0 {
        report.check(label.as_str(), true, "ok");
    } else {
        let n = size_text(bad);
        let detail = concat2(n.as_str(), " failed integrity/decrypt");
        report.check(label.as_str(), false, detail.as_str());
    }
    assert(report@ =~= old(report)@ + secret_lines(found, dir@, t0.files(), key));
}

// ---------------------------------------------------------------------------
// The identity
// ---------------------------------------------------------------------------

/// What came of unlocking the identity.
pub enum Unlock {
    /// It was not tried: there is neither a passphrase nor a terminal to ask at.
    Skipped,
    /// It was tried.
    Tried(Result<Identity, Error>),
}

/// Whether unlocking can be tried: a passphrase is set, or there is a terminal to
/// ask at.
pub fn can_unlock(passphrase: Option<&str>, terminal: bool) -> (r: bool)
    ensures
        r == ((passphrase matches Some(p) && p@.len() > 0) || terminal),
{
    let set = match passphrase {
        Some(p) => p.unicode_len() > 0,
        None => false,
    };
    set || terminal
}

/// What is reported of the identity.
#[verifier::opaque]
pub open spec fn identity_lines(unlock: Unlock, files: Files) -> Seq<Line> {
    match unlock {
        Unlock::Skipped => seq![
            Line::Note(
                "identity unlocks: skipped (set KS_PASSPHRASE for non-interactive checks)"@,
            ),
        ],
        Unlock::Tried(Err(e)) => seq![failure("identity unlocks"@, error::message(e@))],
        Unlock::Tried(Ok(id)) => {
            let first = seq![
                Line::Check {
                    label: "identity unlocks"@,
                    ok: true,
                    detail: "ok (env or prompt)"@,
                },
            ];
            match secrets::recipients_at(files, RECIPIENTS_FILE@) {
                Ok(list) => first.push(
                    Line::Check {
                        label: "identity is in .age-recipients"@,
                        ok: list.contains(id.public()),
                        detail: id.public(),
                    },
                ),
                Err(_) => first,
            }
        },
    }
}

/// Reports whether the identity unlocks and is among the recipients, and hands it
/// on.
pub fn check_identity(unlock: Unlock, t: &Tree, report: &mut Report) -> (r: Option<Identity>)
    requires
        t.wf(),
        old(report).wf(),
    ensures
        final(report).wf(),
        final(report)@ == old(report)@ + identity_lines(unlock, t.files()),
        r == (match unlock {
            Unlock::Tried(Ok(id)) => Some(id),
            _ => None,
        }),
{
    proof {
        reveal(identity_lines);
    }
    match unlock {
        Unlock::Skipped => {
            report.note("identity unlocks: skipped (set KS_PASSPHRASE for non-interactive checks)");
            assert(report@ =~= old(report)@ + identity_lines(unlock, t.files()));
            None
        },
        Unlock::Tried(Err(e)) => {
            let m = e.message();
            report.check("identity unlocks", false, m.as_str());
            assert(report@ =~= old(report)@ + identity_lines(unlock, t.files()));
            None
        },
        Unlock::Tried(Ok(identity)) => {
            report.check("identity unlocks", true, "ok (env or prompt)");
            if let Ok(list) = load_recipients(t, RECIPIENTS_FILE) {
                let own = identity.to_public();
                let listed = recipients_contain(list.as_slice(), &own);
                report.check("identity is in .age-recipients", listed, own.as_str());
            }
            assert(report@ =~= old(report)@ + identity_lines(unlock, t.files()));
            Some(identity)
        },
    }
}

// ---------------------------------------------------------------------------
// Git status
// ---------------------------------------------------------------------------

/// What `git status` said: its text, or why there is none. It may not have run.
pub open spec fn git_status(output: Result<git::Output, Error>) -> Result<Seq<char>, Failure> {
    match output {
        Ok(out) => git::ran(git::status_command(), out),
        Err(e) => Err(e@),
    }
}

/// What is reported of git: a failure, or, for output that is read by programs, the
/// branch.
pub open spec fn git_lines(repo: bool, output: Result<git::Output, Error>, json: bool) -> Seq<
    Line,
> {
    if !repo {
        seq![Line::Note("git: not a repository"@)]
    } else {
        match git_status(output) {
            Ok(out) => if json {
                seq![Line::Note("git "@ + text::trimmed(text::pieces(out, '\n')[0]))]
            } else {
                Seq::empty()
            },
            Err(e) => seq![failure("git status"@, error::message(e))],
        }
    }
}

/// Reports what `git status` said, or that it could not be run. Hands on its text,
/// where it is to be shown.
pub fn report_git(
    repo: bool,
    output: &Result<git::Output, Error>,
    json: bool,
    report: &mut Report,
) -> (r: Option<String>)
    requires
        old(report).wf(),
    ensures
        final(report).wf(),
        final(report)@ == old(report)@ + git_lines(repo, *output, json),
        match git_status(*output) {
            Ok(out) => if repo && !json {
                r matches Some(s) && s@ == out
            } else {
                r is None
            },
            Err(_) => r is None,
        },
{
    if !repo {
        report.note("git: not a repository");
        assert(report@ =~= old(report)@ + git_lines(repo, *output, json));
        return None;
    }
    let ran = match output {
        Ok(out) => out,
        Err(e) => {
            let m = e.message();
            report.check("git status", false, m.as_str());
            assert(report@ =~= old(report)@ + git_lines(repo, *output, json));
            return None;
        },
    };
    match git::status(ran) {
        Ok(out) => {
            if json {
                let cs = to_chars(out.as_str());
                proof {
                    text::lemma_pieces_nonempty(cs@, '\n');
                }
                let lines = split_chars(cs.as_slice(), '\n');
                let first = crate::text::from_chars(lines[0].as_slice());
                let branch = trim(first.as_str());
                let note = concat2("git ", branch.as_str());
                report.note(note.as_str());
                assert(report@ =~= old(report)@ + git_lines(repo, *output, json));
                None
            } else {
                assert(report@ =~= old(report)@ + git_lines(repo, *output, json));
                Some(out)
            }
        },
        Err(e) => {
            let m = e.message();
            report.check("git status", false, m.as_str());
            assert(report@ =~= old(report)@ + git_lines(repo, *output, json));
            None
        },
    }
}

// ---------------------------------------------------------------------------
// All together
// ---------------------------------------------------------------------------

/// What is looked at before the identity is unlocked.
pub struct Scene<'a> {
    /// The hardening of the process, if it is known.
    pub hardening: Option<&'a HardenStatus>,
    /// The identity file, and whether it exists.
    pub identity_path: &'a str,
    /// Whether the identity file exists.
    pub identity_found: bool,
    /// The store's directory.
    pub store_dir: &'a str,
    /// Whether the store's directory exists.
    pub store_found: bool,
    /// What the system says of a write into the store's directory, if that is missing.
    pub template_fault: &'a str,
    /// The recipient list's file, as it is shown.
    pub recipients_path: &'a str,
    /// What is wrong with the files' permissions.
    pub issues: &'a [String],
    /// Whether the platform enforces permissions.
    pub enforced: bool,
}

/// Whether the recipient list can be read.
pub open spec fn recipients_ok(files: Files) -> bool {
    secrets::recipients_at(files, RECIPIENTS_FILE@) is Ok
}

/// What is reported when the store is opened for the first time.
#[verifier::opaque]
pub open spec fn opening_lines(found: bool, dir: Seq<char>, files: Files) -> Seq<Line> {
    if !recipients_ok(files) {
        Seq::empty()
    } else {
        match store::opening(found, dir, files) {
            Ok(_) => pending_lines(tree::replayed(files, store::open_effects(files))),
            Err(e) => seq![failure("open store"@, error::message(e))],
        }
    }
}

/// The changes that opening the store for the first time makes.
#[verifier::opaque]
pub open spec fn first_changes(found: bool, dir: Seq<char>, files: Files) -> Seq<Effect> {
    if recipients_ok(files) {
        opening_changes(found, dir, files)
    } else {
        Seq::empty()
    }
}

/// What is reported of which files there are.
pub open spec fn presence_lines(scene: Scene, files: Files) -> Seq<Line> {
    seq![
        Line::Check {
            label: "identity file present"@,
            ok: scene.identity_found,
            detail: scene.identity_path@,
        },
        Line::Check {
            label: "store directory present"@,
            ok: scene.store_found,
            detail: scene.store_dir@,
        },
        Line::Check {
            label: ".age-recipients valid"@,
            ok: recipients_ok(files),
            detail: scene.recipients_path@,
        },
    ]
}

/// What is reported before the identity is unlocked.
pub open spec fn survey_lines(scene: Scene, files: Files) -> Seq<Line> {
    let f1 = tree::replayed(files, first_changes(scene.store_found, scene.store_dir@, files));
    hardening_lines(scene.hardening) + presence_lines(scene, files) + opening_lines(
        scene.store_found,
        scene.store_dir@,
        files,
    ) + permission_lines(text::views(scene.issues@), scene.enforced) + template_lines(
        scene.store_found,
        scene.template_fault@,
        f1,
    )
}

/// The changes that are made before the identity is unlocked.
pub open spec fn survey_changes(scene: Scene, files: Files) -> Seq<Effect> {
    let first = first_changes(scene.store_found, scene.store_dir@, files);
    first + template_changes(scene.store_found, tree::replayed(files, first))
}

/// Opens the store for the first time, if the recipient list can be read.
fn open_first(ok: bool, found: bool, dir: &str, t: &mut Tree, report: &mut Report)
    requires
        old(t).wf(),
        old(report).wf(),
        ok == recipients_ok(old(t).files()),
    ensures
        final(report).wf(),
        final(report)@ == old(report)@ + opening_lines(found, dir@, old(t).files()),
        tree::advanced(*old(t), *final(t), first_changes(found, dir@, old(t).files())),
{
    proof {
        reveal(opening_lines);
        reveal(first_changes);
        reveal(opening_changes);
        tree::lemma_advanced_none(*t);
    }
    if ok {
        match open_dir(found, dir, t) {
            Ok(_) => {
                note_pending_journals(t, report);
            },
            Err(e) => {
                let m = e.message();
                report.check("open store", false, m.as_str());
            },
        }
    }
    assert(report@ =~= old(report)@ + opening_lines(found, dir@, old(t).files()));
}

/// Lines that follow one another.
proof fn lemma_lines_concat(
    r: Seq<Line>,
    a: Seq<Line>,
    b: Seq<Line>,
    c: Seq<Line>,
    d: Seq<Line>,
    e: Seq<Line>,
)
    ensures
        r + a + b + c + d + e == r + (a + b + c + d + e),
{
    assert(r + a + b + c + d + e =~= r + (a + b + c + d + e));
}

/// The part of the health check that needs no identity.
pub fn survey(scene: &Scene, t: &mut Tree, report: &mut Report)
    requires
        old(t).wf(),
        old(report).wf(),
    ensures
        final(report).wf(),
        final(report)@ == old(report)@ + survey_lines(*scene, old(t).files()),
        tree::advanced(*old(t), *final(t), survey_changes(*scene, old(t).files())),
{
    let ghost t0 = *t;
    let ghost r0 = report@;
    report_hardening(report, scene.hardening);
    report.check("identity file present", scene.identity_found, scene.identity_path);
    report.check("store directory present", scene.store_found, scene.store_dir);
    let ok = load_recipients(t, RECIPIENTS_FILE).is_ok();
    report.check(".age-recipients valid", ok, scene.recipients_path);
    let ghost r1 = report@;
    open_first(ok, scene.store_found, scene.store_dir, t, report);
    let ghost t1 = *t;
    let ghost first = first_changes(scene.store_found, scene.store_dir@, t0.files());
    check_permissions(scene.issues, scene.enforced, report);
    check_git_templates(scene.store_found, scene.template_fault, t, report);
    proof {
        tree::lemma_advanced_concat(
            t0,
            t1,
            *t,
            first,
            template_changes(scene.store_found, t1.files()),
        );
        let a = hardening_lines(scene.hardening);
        let b = presence_lines(*scene, t0.files());
        let c = opening_lines(scene.store_found, scene.store_dir@, t0.files());
        let d = permission_lines(text::views(scene.issues@), scene.enforced);
        let e = template_lines(scene.store_found, scene.template_fault@, t1.files());
        assert(r1 =~= r0 + a + b);
        lemma_lines_concat(r0, a, b, c, d, e);
    }
}

/// What is reported once it is known whether the identity unlocks.
pub open spec fn examination_lines(
    found: bool,
    dir: Seq<char>,
    unlock: Unlock,
    files: Files,
    repair: bool,
) -> Seq<Line> {
    match unlock {
        Unlock::Tried(Ok(id)) => {
            let f1 = tree::replayed(files, recovery_changes(found, dir, files, id@));
            let f2 = tree::replayed(f1, generation_changes(found, dir, f1, id@, repair));
            let f3 = tree::replayed(f2, opening_changes(found, dir, f2));
            identity_lines(unlock, files) + recovery_lines(found, dir, files, id@)
                + generation_lines(found, dir, f1, id@, repair) + secret_lines(
                found,
                dir,
                f2,
                id@,
            ) + artifact_lines(f3)
        },
        _ => identity_lines(unlock, files) + artifact_lines(files),
    }
}

/// The changes that are made once it is known whether the identity unlocks.
pub open spec fn examination_changes(
    found: bool,
    dir: Seq<char>,
    unlock: Unlock,
    files: Files,
    repair: bool,
) -> Seq<Effect> {
    match unlock {
        Unlock::Tried(Ok(id)) => {
            let first = recovery_changes(found, dir, files, id@);
            let f1 = tree::replayed(files, first);
            let second = generation_changes(found, dir, f1, id@, repair);
            let f2 = tree::replayed(f1, second);
            first + second + opening_changes(found, dir, f2)
        },
        _ => Seq::empty(),
    }
}

/// The part of the health check that follows the attempt to unlock the identity:
/// journals are resolved, the index is repaired before secrets are sampled.
pub fn examine(
    found: bool,
    dir: &str,
    unlock: Unlock,
    t: &mut Tree,
    repair: bool,
    report: &mut Report,
)
    requires
        old(t).wf(),
        old(report).wf(),
    ensures
        final(report).wf(),
        final(report)@ == old(report)@ + examination_lines(
            found,
            dir@,
            unlock,
            old(t).files(),
            repair,
        ),
        tree::advanced(
            *old(t),
            *final(t),
            examination_changes(found, dir@, unlock, old(t).files(), repair),
        ),
{
    let ghost t0 = *t;
    let ghost r0 = report@;
    match check_identity(unlock, t, report) {
        Some(identity) => {
            let ghost key = identity@;
            recover_ready_journals(found, dir, t, &identity, report);
            let ghost t1 = *t;
            check_generations(found, dir, t, &identity, repair, report);
            let ghost t2 = *t;
            check_secrets(found, dir, t, &identity, report);
            let ghost t3 = *t;
            proof {
                let first = recovery_changes(found, dir@, t0.files(), key);
                let second = generation_changes(found, dir@, t1.files(), key, repair);
                tree::lemma_advanced_concat(t0, t1, t2, first, second);
                tree::lemma_advanced_concat(
                    t0,
                    t2,
                    t3,
                    first + second,
                    opening_changes(found, dir@, t2.files()),
                );
            }
            check_runtime_artifacts(t, report);
            proof {
                lemma_lines_concat(
                    r0,
                    identity_lines(unlock, t0.files()),
                    recovery_lines(found, dir@, t0.files(), key),
                    generation_lines(found, dir@, t1.files(), key, repair),
                    secret_lines(found, dir@, t2.files(), key),
                    artifact_lines(t3.files()),
                );
            }
        },
        None => {
            proof {
                tree::lemma_advanced_none(t0);
            }
            check_runtime_artifacts(t, report);
            let ghost a = identity_lines(unlock, t0.files());
            let ghost b = artifact_lines(t0.files());
            assert(r0 + a + b =~= r0 + (a + b));
        },
    }
}

/// How a health check ends.
pub struct Verdict {
    /// Whether all checks passed.
    pub ok: bool,
    /// The exit code.
    pub code: u8,
    /// The last line for people.
    pub summary: String,
}

/// Ends a health check: the exit code is zero if no check failed.
pub fn finish(report: &Report) -> (r: Verdict)
    requires
        report.wf(),
    ensures
        r.ok == (failures_in(report@) == 0),
        r.code == (if failures_in(report@) == 0 {
            0int
        } else {
            1int
        }),
        r.summary@ == (if failures_in(report@) == 0 {
            "all checks passed"@
        } else {
            text::decimal(failures_in(report@)) + " check(s) failed"@
        }),
{
    let failures = report.failures();
    if failures == 0 {
        Verdict { ok: true, code: 0, summary: copy_text("all checks passed") }
    } else {
        let n = size_text(failures);
        Verdict { ok: false, code: 1, summary: concat2(n.as_str(), " check(s) failed") }
    }
}

// ---------------------------------------------------------------------------
// Laws
// ---------------------------------------------------------------------------

/// The failures of lines that follow one another are those of both together; a failed
/// check counts one, and every other line none.
pub proof fn law_failures(a: Seq<Line>, b: Seq<Line>, line: Line)
    ensures
        failures_in(a + b) == failures_in(a) + failures_in(b),
        failures_in(seq![line]) == (if line is Check && !line->ok {
            1nat
        } else {
            0nat
        }),
        failures_in(Seq::<Line>::empty()) == 0,
    decreases b.len(),
{
    assert(seq![line].drop_last() =~= Seq::empty());
    assert(failures_in(seq![line].drop_last()) == 0);
    assert(seq![line].last() == line);
    if b.len() == 0 {
        assert(a + b =~= a);
    } else {
        law_failures(a, b.drop_last(), line);
        assert((a + b).drop_last() =~= a + b.drop_last());
        assert((a + b).last() == b.last());
    }
}

/// No check failed exactly if no line is a failed check.
pub proof fn law_no_failures(lines: Seq<Line>)
    ensures
        failures_in(lines) == 0 <==> forall|i: int|
            0 <= i < lines.len() ==> !((#[trigger] lines[i]) is Check && !lines[i]->ok),
    decreases lines.len(),
{
    if lines.len() > 0 {
        let rest = lines.drop_last();
        law_no_failures(rest);
        if failures_in(lines) == 0 {
            assert forall|i: int| 0 <= i < lines.len() implies !((#[trigger] lines[i]) is Check
                && !lines[i]->ok) by {
                if i < rest.len() {
                    assert(rest[i] == lines[i]);
                }
            }
        }
        if forall|i: int|
            0 <= i < lines.len() ==> !((#[trigger] lines[i]) is Check && !lines[i]->ok) {
            assert forall|i: int| 0 <= i < rest.len() implies !((#[trigger] rest[i]) is Check
                && !rest[i]->ok) by {
                assert(rest[i] == lines[i]);
            }
            assert(!(lines[lines.len() - 1] is Check && !lines[lines.len() - 1]->ok));
        }
    }
}

/// Lines of which none is a failed check have no failures.
proof fn lemma_clean(lines: Seq<Line>)
    requires
        forall|i: int| 0 <= i < lines.len() ==> !((#[trigger] lines[i]) is Check && !lines[i]->ok),
    ensures
        failures_in(lines) == 0,
{
    law_no_failures(lines);
}

/// Lines of which one is a failed check have failures.
proof fn lemma_unclean(lines: Seq<Line>, i: int)
    requires
        0 <= i < lines.len(),
        lines[i] is Check && !lines[i]->ok,
    ensures
        failures_in(lines) > 0,
{
    law_no_failures(lines);
}

/// The hardening passes exactly if neither the suppression of core dumps nor the denial
/// of debuggers failed; that memory could not be locked is no failure.
pub proof fn law_hardening_passes(status: HardenStatus)
    ensures
        failures_in(hardening_lines(Some(&status))) == 0 <==> !(status.core_dump@ is Failed) && !(
        status.debugger_deny@ is Failed),
        failures_in(hardening_lines(None)) == 0,
{
    reveal(hardening_lines);
    let lines = hardening_lines(Some(&status));
    if status.core_dump@ is Failed {
        lemma_unclean(lines, 0);
    } else if status.debugger_deny@ is Failed {
        lemma_unclean(lines, 2);
    } else {
        lemma_clean(lines);
    }
    lemma_clean(hardening_lines(None));
}

/// The permissions pass exactly if nothing is wrong with them; each thing that is wrong
/// counts.
pub proof fn law_permissions_pass(issues: Seq<Seq<char>>, enforced: bool)
    ensures
        failures_in(permission_lines(issues, enforced)) == 0 <==> issues.len() == 0,
        permission_lines(issues, enforced).len() >= issues.len(),
{
    reveal(permission_lines);
    let lines = permission_lines(issues, enforced);
    if issues.len() > 0 {
        lemma_unclean(lines, 0);
    } else {
        lemma_clean(lines);
    }
}

/// What is there passes exactly if the identity file, the directory of the store and a
/// recipient list that can be read are.
pub proof fn law_presence_passes(scene: Scene, files: Files)
    ensures
        failures_in(presence_lines(scene, files)) == 0 <==> scene.identity_found
            && scene.store_found && secrets::recipients_at(files, ".age-recipients"@) is Ok,
{
    let lines = presence_lines(scene, files);
    if !scene.identity_found {
        lemma_unclean(lines, 0);
    } else if !scene.store_found {
        lemma_unclean(lines, 1);
    } else if !recipients_ok(files) {
        lemma_unclean(lines, 2);
    } else {
        lemma_clean(lines);
    }
}

/// The identity passes exactly if it was not tried to unlock it, or it unlocked and is
/// among the recipients, as far as these can be read.
pub proof fn law_identity_passes(unlock: Unlock, files: Files)
    ensures
        failures_in(identity_lines(unlock, files)) == 0 <==> match unlock {
            Unlock::Skipped => true,
            Unlock::Tried(Err(_)) => false,
            Unlock::Tried(Ok(id)) => secrets::recipients_at(
                files,
                ".age-recipients"@,
            ) matches Ok(list) ==> list.contains(id.public()),
        },
{
    reveal(identity_lines);
    let lines = identity_lines(unlock, files);
    match unlock {
        Unlock::Skipped => {
            lemma_clean(lines);
        },
        Unlock::Tried(Err(e)) => {
            lemma_unclean(lines, 0);
        },
        Unlock::Tried(Ok(id)) => match secrets::recipients_at(files, RECIPIENTS_FILE@) {
            Ok(list) => {
                assert(lines.len() == 2);
                if list.contains(id.public()) {
                    lemma_clean(lines);
                } else {
                    lemma_unclean(lines, 1);
                }
            },
            Err(_) => {
                lemma_clean(lines);
            },
        },
    }
}

/// The census passes exactly if the index can be read, and every listed envelope opens
/// and has the generation that the index says.
pub proof fn law_census_passes(files: Files, key: Seq<u8>)
    requires
        files.dom().finite(),
    ensures
        failures_in(census_lines(files, key)) == 0 <==> secrets::index_at(files) is Ok && forall|
            p: Seq<char>,
        |
            health::live(files).contains(p) ==> ((#[trigger] secrets::unsealed(
                files,
                p,
                key,
            )) matches Ok(c) && secrets::index_in(files).contains_key(p) && secrets::index_in(
                files,
            )[p] == c.generation),
{
    let lines = census_lines(files, key);
    if secrets::index_at(files) is Err {
        lemma_unclean(lines, 0);
    } else {
        assert(lines[0] == Line::Check {
            label: "generations fully protected"@,
            ok: health::all_protected(files, key),
            detail: census_detail(files, key),
        });
        if health::all_protected(files, key) {
            assert forall|p: Seq<char>| health::live(files).contains(p) implies ((
            #[trigger] secrets::unsealed(files, p, key)) matches Ok(c) && secrets::index_in(
                files,
            ).contains_key(p) && secrets::index_in(files)[p] == c.generation) by {
                assert(health::is_protected(files, p, key));
            }
            lemma_clean(lines);
        } else {
            let p = choose|p: Seq<char>| #[trigger]
                health::live(files).contains(p) && !health::is_protected(files, p, key);
            assert(health::live(files).contains(p));
            let u = secrets::unsealed(files, p, key);
            lemma_unclean(lines, 0);
        }
    }
}

/// The sample passes exactly if each of the first twenty listed secrets, or of all where
/// there are fewer, can be read.
pub proof fn law_sample_passes(files: Files, key: Seq<u8>)
    ensures
        failures_in(sample_lines(files, key)) == 0 <==> forall|i: int|
            0 <= i < health::live(files).len() && i < 20 ==> secrets::got(
                files,
                #[trigger] health::live(files)[i],
                key,
            ) is Ok,
{
    let all = health::live(files);
    let some = sampled(files);
    let lines = sample_lines(files, key);
    let pred = |p: Seq<char>| secrets::got(files, p, key) is Err;
    assert(forall|i: int| 0 <= i < some.len() ==> #[trigger] some[i] == all[i]);
    if forall|i: int|
        0 <= i < all.len() && i < 20 ==> secrets::got(files, #[trigger] all[i], key) is Ok {
        assert forall|i: int| 0 <= i < some.len() implies !pred(#[trigger] some[i]) by {
            assert(some[i] == all[i]);
        }
        health::lemma_filter_none(some, pred);
        lemma_clean(lines);
    } else {
        let i = choose|i: int|
            0 <= i < all.len() && i < 20 && !(secrets::got(files, #[trigger] all[i], key) is Ok);
        assert(some[i] == all[i]);
        lemma_filter_some(some, pred, i);
        lemma_unclean(lines, 0);
    }
}

/// Filtering for what some element is leaves something.
proof fn lemma_filter_some(s: Seq<Seq<char>>, pred: spec_fn(Seq<char>) -> bool, i: int)
    requires
        0 <= i < s.len(),
        pred(s[i]),
    ensures
        s.filter(pred).len() > 0,
    decreases s.len(),
{
    reveal(Seq::filter);
    if i < s.len() - 1 {
        assert(s.drop_last()[i] == s[i]);
        lemma_filter_some(s.drop_last(), pred, i);
    }
}

/// A name without a slash is that of a scratch file exactly if it is longer than `.tmp`
/// and ends in it; one with a slash exactly if what stands before its first slash does
/// not begin with a dot, and what stands behind it is one.
pub proof fn law_scratch_names(a: Seq<char>, b: Seq<char>)
    requires
        !a.contains('/'),
    ensures
        is_scratch(a) <==> a.len() > 4 && a.skip(a.len() - 4) == ".tmp"@,
        is_scratch(a + seq!['/'] + b) <==> !(a.len() > 0 && a[0] == '.') && is_scratch(b),
{
    reveal_strlit(".tmp");
    assert(".tmp"@ =~= seq!['.', 't', 'm', 'p']);
    text::lemma_pieces_single(a, '/');
    text::lemma_pieces_concat(a, b, '/');
    text::lemma_pieces_nonempty(b, '/');
    let x = text::pieces(a, '/');
    let y = text::pieces(b, '/');
    let z = text::pieces(a + seq!['/'] + b, '/');
    assert(z == x + y);
    assert(z.last() == y.last());
    assert(z[0] == a);
    if is_scratch(a + seq!['/'] + b) {
        assert forall|i: int| 0 <= i < y.len() - 1 implies !((#[trigger] y[i]).len() > 0 && y[i][0]
            == '.') by {
            assert(z[i + 1] == y[i]);
        }
    }
    if !(a.len() > 0 && a[0] == '.') && is_scratch(b) {
        assert forall|i: int| 0 <= i < z.len() - 1 implies !((#[trigger] z[i]).len() > 0 && z[i][0]
            == '.') by {
            if i > 0 {
                assert(z[i] == y[i - 1]);
            }
        }
    }
}

/// Scratch files are noted exactly where there are some, and are no failure.
pub proof fn law_scratch_is_noted(files: Files)
    requires
        files.dom().finite(),
    ensures
        artifact_lines(files).len() > 0 <==> exists|n: Seq<char>| #[trigger]
            files.contains_key(n) && is_scratch(n),
        failures_in(artifact_lines(files)) == 0,
{
    reveal(artifact_lines);
    lemma_clean(artifact_lines(files));
    let s = scratch_files(files);
    if exists|n: Seq<char>| #[trigger] files.contains_key(n) && is_scratch(n) {
        let n = choose|n: Seq<char>| #[trigger] files.contains_key(n) && is_scratch(n);
        assert(s.contains(n));
        assert(s.len() > 0);
    }
    if s.len() > 0 {
        let n = s.choose();
        assert(s.contains(n));
        assert(files.contains_key(n));
    }
}

/// A committed journal that waits is noted, one note for each, and is no failure.
pub proof fn law_pending_is_noted(files: Files)
    ensures
        pending_lines(files).len() == (if tree::present(files, ".ks-rotate/READY"@) {
            1int
        } else {
            0int
        }) + (if tree::present(files, ".ks-move/READY"@) {
            1int
        } else {
            0int
        }),
        failures_in(pending_lines(files)) == 0,
{
    reveal(pending_lines);
    lemma_clean(pending_lines(files));
}

/// The git files pass exactly if the directory of the store is there and both can be
/// read; lines that are missing are appended, and are no failure.
pub proof fn law_templates_pass(found: bool, fault: Seq<char>, files: Files)
    ensures
        failures_in(template_lines(found, fault, files)) == 0 <==> found && git::template_result(
            files,
        ) is Ok,
        found ==> template_changes(found, files) == git::template_effects(files),
        !found ==> template_changes(found, files).len() == 0,
{
    reveal(template_lines);
    reveal(template_changes);
    let lines = template_lines(found, fault, files);
    if found && git::template_result(files) is Ok {
        lemma_clean(lines);
    } else {
        lemma_unclean(lines, 0);
    }
}

/// A store in which nothing is staged is opened without a change.
proof fn lemma_opened_as_is(files: Files)
    requires
        forall|n: Seq<char>| #[trigger]
            files.contains_key(n) ==> n != ".ks-rotate"@ && !tree::inside(".ks-rotate"@, n) && n
                != ".ks-move"@ && !tree::inside(".ks-move"@, n),
    ensures
        store::open_effects(files) == Seq::<Effect>::empty(),
        tree::replayed(files, store::open_effects(files)) == files,
        !tree::present(files, ROTATE_READY@),
        !tree::present(files, MOVE_READY@),
{
    reveal_strlit(".ks-rotate");
    reveal_strlit(".ks-rotate/READY");
    reveal_strlit(".ks-move");
    reveal_strlit(".ks-move/READY");
    let none = Seq::<Effect>::empty();
    assert(none + none =~= none);
    assert(tree::inside(".ks-rotate"@, ROTATE_READY@)) by {
        assert(ROTATE_READY@.subrange(0, 11) =~= ".ks-rotate"@ + seq!['/']);
    }
    assert(tree::inside(".ks-move"@, MOVE_READY@)) by {
        assert(MOVE_READY@.subrange(0, 9) =~= ".ks-move"@ + seq!['/']);
    }
    if tree::has_dir(files, ROTATE_READY@) {
        let n = choose|n: Seq<char>| #[trigger]
            files.contains_key(n) && tree::inside(ROTATE_READY@, n);
        tree::lemma_inside_inside(".ks-rotate"@, ROTATE_READY@, n);
    }
    if tree::has_dir(files, MOVE_READY@) {
        let n = choose|n: Seq<char>| #[trigger]
            files.contains_key(n) && tree::inside(MOVE_READY@, n);
        tree::lemma_inside_inside(".ks-move"@, MOVE_READY@, n);
    }
}

/// The failures of five parts.
proof fn lemma_five(a: Seq<Line>, b: Seq<Line>, c: Seq<Line>, d: Seq<Line>, e: Seq<Line>)
    ensures
        failures_in(a + b + c + d + e) == failures_in(a) + failures_in(b) + failures_in(c)
            + failures_in(d) + failures_in(e),
{
    let dummy = Line::Note(Seq::empty());
    law_failures(a, b, dummy);
    law_failures(a + b, c, dummy);
    law_failures(a + b + c, d, dummy);
    law_failures(a + b + c + d, e, dummy);
}

/// After a repair nothing is staged if nothing was, and the recipient list is the same.
proof fn lemma_repair_stages_nothing(files: Files, key: Seq<u8>)
    requires
        secrets::index_at(files) is Ok,
        forall|n: Seq<char>| #[trigger]
            files.contains_key(n) ==> n != ".ks-rotate"@ && !tree::inside(".ks-rotate"@, n) && n
                != ".ks-move"@ && !tree::inside(".ks-move"@, n),
    ensures
        ({
            let now = tree::replayed(files, health::repair_effects(files, key));
            &&& forall|n: Seq<char>| #[trigger]
                now.contains_key(n) ==> n != ".ks-rotate"@ && !tree::inside(".ks-rotate"@, n) && n
                    != ".ks-move"@ && !tree::inside(".ks-move"@, n)
            &&& secrets::recipients_at(now, RECIPIENTS_FILE@) is Ok <==> secrets::recipients_at(
                files,
                RECIPIENTS_FILE@,
            ) is Ok
        }),
{
    reveal_strlit(".ks-rotate");
    reveal_strlit(".ks-move");
    reveal_strlit(".ks-generations");
    reveal_strlit(".age-recipients");
    let e = secrets::index_write(health::repaired(files, key));
    let now = tree::replayed(files, health::repair_effects(files, key));
    let index = GENERATIONS_FILE@;
    tree::lemma_replayed_push(files, Seq::empty(), e);
    assert(Seq::empty().push(e) =~= seq![e]);
    tree::lemma_not_inside(".ks-rotate"@, index);
    tree::lemma_not_inside(".ks-move"@, index);
    tree::lemma_not_inside(RECIPIENTS_FILE@, index);
    assert(index[1] != RECIPIENTS_FILE@[1]);
    assert(index.len() != ".ks-rotate"@.len());
    assert(index.len() != ".ks-move"@.len());
    assert forall|n: Seq<char>| tree::inside(RECIPIENTS_FILE@, n) implies (
    #[trigger] now.contains_key(n) <==> files.contains_key(n)) by {}
    tree::lemma_same_dir(now, files, RECIPIENTS_FILE@);
}

/// The parts of an examination with a repair, where nothing is staged.
proof fn lemma_repair_run(dir: Seq<char>, key: Seq<u8>, files: Files)
    requires
        forall|n: Seq<char>| #[trigger]
            files.contains_key(n) ==> n != ".ks-rotate"@ && !tree::inside(".ks-rotate"@, n) && n
                != ".ks-move"@ && !tree::inside(".ks-move"@, n),
        secrets::recipients_at(files, RECIPIENTS_FILE@) is Ok,
        secrets::index_at(files) is Ok,
    ensures
        ({
            let none = Seq::<Effect>::empty();
            let repair = health::repair_effects(files, key);
            let now = tree::replayed(files, repair);
            &&& recovery_changes(true, dir, files, key) == none
            &&& recovery_lines(true, dir, files, key) == Seq::<Line>::empty()
            &&& generation_changes(true, dir, files, key, true) == repair
            &&& generation_lines(true, dir, files, key, true) == repair_lines(files, key)
                + census_lines(now, key)
            &&& opening_changes(true, dir, now) == none
            &&& secret_lines(true, dir, now, key) == sample_lines(now, key)
        }),
{
    reveal(recovery_changes);
    reveal(recovery_lines);
    reveal(generation_changes);
    reveal(generation_lines);
    reveal(secret_lines);
    reveal(opening_changes);
    let none = Seq::<Effect>::empty();
    let repair = health::repair_effects(files, key);
    let now = tree::replayed(files, repair);
    lemma_opened_as_is(files);
    lemma_repair_stages_nothing(files, key);
    lemma_opened_as_is(now);
    assert(none + none + none =~= none);
    assert(none + repair =~= repair);
    assert(Seq::<Line>::empty() + Seq::<Line>::empty() =~= Seq::<Line>::empty());
}

/// The examination of a store in which nothing is staged, with an identity that unlocks
/// and is a recipient, and a repair: it passes exactly if every listed envelope opens,
/// whatever the index said before; and then every listed secret can be read.
pub proof fn law_examination_with_repair(dir: Seq<char>, id: Identity, files: Files)
    requires
        files.dom().finite(),
        forall|n: Seq<char>| #[trigger]
            files.contains_key(n) ==> n != ".ks-rotate"@ && !tree::inside(".ks-rotate"@, n) && n
                != ".ks-move"@ && !tree::inside(".ks-move"@, n),
        secrets::recipients_at(files, ".age-recipients"@) matches Ok(list) && list.contains(
            id.public(),
        ),
        secrets::index_at(files) is Ok,
        forall|p: Seq<char>| #[trigger] health::live(files).contains(p) ==> path::valid_path(p),
    ensures
        ({
            let unlock = Unlock::Tried(Ok(id));
            let lines = examination_lines(true, dir, unlock, files, true);
            let after = tree::replayed(
                files,
                examination_changes(true, dir, unlock, files, true),
            );
            let open = forall|p: Seq<char>|
                health::live(files).contains(p) ==> (#[trigger] secrets::unsealed(
                    files,
                    p,
                    id@,
                )) is Ok;
            &&& failures_in(lines) == 0 <==> open
            &&& open ==> forall|p: Seq<char>| #[trigger]
                health::live(files).contains(p) ==> secrets::got(after, p, id@) is Ok
        }),
{
    let key = id@;
    let unlock = Unlock::Tried(Ok::<Identity, Error>(id));
    let repair = health::repair_effects(files, key);
    let now = tree::replayed(files, repair);
    lemma_repair_run(dir, key, files);
    let none = Seq::<Effect>::empty();
    assert(none + repair + none =~= repair);
    assert(examination_changes(true, dir, unlock, files, true) == repair);
    let a = identity_lines(unlock, files);
    let b = Seq::<Line>::empty();
    let c = repair_lines(files, key) + census_lines(now, key);
    let d = sample_lines(now, key);
    let e = artifact_lines(now);
    assert(examination_lines(true, dir, unlock, files, true) == a + b + c + d + e);
    lemma_five(a, b, c, d, e);
    law_identity_passes(unlock, files);
    law_failures(repair_lines(files, key), census_lines(now, key), Line::Note(Seq::empty()));
    lemma_clean(repair_lines(files, key));
    lemma_repair_heals(files, key);
    law_scratch_is_noted(now);
}

/// After a repair the census and the sample pass exactly if every listed envelope opens.
proof fn lemma_repair_heals(files: Files, key: Seq<u8>)
    requires
        files.dom().finite(),
        secrets::index_at(files) is Ok,
        forall|p: Seq<char>| #[trigger] health::live(files).contains(p) ==> path::valid_path(p),
    ensures
        ({
            let now = tree::replayed(files, health::repair_effects(files, key));
            let open = forall|p: Seq<char>|
                health::live(files).contains(p) ==> (#[trigger] secrets::unsealed(
                    files,
                    p,
                    key,
                )) is Ok;
            &&& now.dom().finite()
            &&& failures_in(census_lines(now, key)) == 0 <==> open
            &&& open ==> failures_in(sample_lines(now, key)) == 0
            &&& open ==> forall|p: Seq<char>| #[trigger]
                health::live(files).contains(p) ==> secrets::got(now, p, key) is Ok
        }),
{
    let now = tree::replayed(files, health::repair_effects(files, key));
    listing::lemma_walk_exists(files, secrets::top());
    assert forall|q: Seq<char>|
        listing::listed(files, secrets::top(), q) && (#[trigger] secrets::unsealed(
            files,
            q,
            key,
        )) is Ok implies path::valid_path(q) by {
        assert(health::live(files).contains(q));
    }
    laws::lemma_repaired_files(files, key);
    law_census_passes(now, key);
    law_sample_passes(now, key);
    let all = health::live(files);
    if forall|p: Seq<char>| all.contains(p) ==> (#[trigger] secrets::unsealed(files, p, key)) is Ok {
        assert forall|p: Seq<char>| all.contains(p) implies ((#[trigger] secrets::unsealed(
            now,
            p,
            key,
        )) matches Ok(x) && secrets::index_in(now).contains_key(p) && secrets::index_in(now)[p]
            == x.generation) by {
            assert(secrets::unsealed(files, p, key) is Ok);
        }
        assert forall|p: Seq<char>| #[trigger] all.contains(p) implies secrets::got(
            now,
            p,
            key,
        ) is Ok by {
            assert(secrets::unsealed(files, p, key) is Ok);
            assert(secrets::unsealed(now, p, key) is Ok);
        }
        assert forall|i: int| 0 <= i < all.len() && i < 20 implies secrets::got(
            now,
            #[trigger] all[i],
            key,
        ) is Ok by {
            assert(all.contains(all[i]));
        }
    } else {
        let p = choose|p: Seq<char>|
            all.contains(p) && !((#[trigger] secrets::unsealed(files, p, key)) is Ok);
        assert(secrets::unsealed(now, p, key) == secrets::unsealed(files, p, key));
        assert(health::live(now).contains(p));
    }
}

/// The examination of a store in which nothing is staged, with an identity that unlocks
/// and is a recipient, without a repair: it passes exactly if every listed envelope
/// opens and has the generation that the index says; and it changes nothing.
pub proof fn law_examination(dir: Seq<char>, id: Identity, files: Files)
    requires
        files.dom().finite(),
        forall|n: Seq<char>| #[trigger]
            files.contains_key(n) ==> n != ".ks-rotate"@ && !tree::inside(".ks-rotate"@, n) && n
                != ".ks-move"@ && !tree::inside(".ks-move"@, n),
        secrets::recipients_at(files, ".age-recipients"@) matches Ok(list) && list.contains(
            id.public(),
        ),
        forall|p: Seq<char>| #[trigger] health::live(files).contains(p) ==> path::valid_path(p),
    ensures
        ({
            let unlock = Unlock::Tried(Ok(id));
            &&& failures_in(examination_lines(true, dir, unlock, files, false)) == 0
                <==> secrets::index_at(files) is Ok && forall|p: Seq<char>|
                health::live(files).contains(p) ==> ((#[trigger] secrets::unsealed(
                    files,
                    p,
                    id@,
                )) matches Ok(c) && secrets::index_in(files).contains_key(p) && secrets::index_in(
                    files,
                )[p] == c.generation)
            &&& examination_changes(true, dir, unlock, files, false).len() == 0
        }),
{
    let key = id@;
    let unlock = Unlock::Tried(Ok::<Identity, Error>(id));
    lemma_opened_as_is(files);
    reveal(recovery_changes);
    reveal(recovery_lines);
    reveal(generation_changes);
    reveal(generation_lines);
    reveal(secret_lines);
    reveal(opening_changes);
    let none = Seq::<Effect>::empty();
    assert(none + none =~= none);
    assert(recovery_changes(true, dir, files, key) =~= none);
    assert(generation_changes(true, dir, files, key, false) =~= none);
    listing::lemma_walk_exists(files, secrets::top());
    let a = identity_lines(unlock, files);
    let b = recovery_lines(true, dir, files, key);
    let c = generation_lines(true, dir, files, key, false);
    let d = secret_lines(true, dir, files, key);
    let e = artifact_lines(files);
    lemma_five(a, b, c, d, e);
    law_identity_passes(unlock, files);
    assert(b =~= Seq::empty());
    assert(c =~= census_lines(files, key));
    law_scratch_is_noted(files);
    law_census_passes(files, key);
    law_sample_passes(files, key);
    let all = health::live(files);
    if failures_in(census_lines(files, key)) == 0 {
        assert forall|i: int| 0 <= i < all.len() && i < 20 implies secrets::got(
            files,
            #[trigger] all[i],
            key,
        ) is Ok by {
            assert(all.contains(all[i]));
            assert(secrets::unsealed(files, all[i], key) is Ok);
        }
    }
}

/// Without an identity nothing is changed, and it passes unless unlocking failed.
pub proof fn law_examination_without_identity(
    found: bool,
    dir: Seq<char>,
    files: Files,
    repair: bool,
    e: Error,
)
    requires
        files.dom().finite(),
    ensures
        examination_changes(found, dir, Unlock::Skipped, files, repair).len() == 0,
        examination_changes(found, dir, Unlock::Tried(Err(e)), files, repair).len() == 0,
        failures_in(examination_lines(found, dir, Unlock::Skipped, files, repair)) == 0,
        failures_in(examination_lines(found, dir, Unlock::Tried(Err(e)), files, repair)) > 0,
{
    let dummy = Line::Note(Seq::empty());
    let skipped = Unlock::Skipped;
    let failed = Unlock::Tried(Err::<Identity, Error>(e));
    law_failures(identity_lines(skipped, files), artifact_lines(files), dummy);
    law_failures(identity_lines(failed, files), artifact_lines(files), dummy);
    law_identity_passes(skipped, files);
    law_identity_passes(failed, files);
    law_scratch_is_noted(files);
}

/// The survey passes exactly if the hardening does, the identity file, the directory and
/// a readable recipient list are there, nothing is wrong with the permissions, and the
/// git files can be read.
pub proof fn law_survey_passes(scene: Scene, files: Files)
    ensures
        ({
            let opened = if secrets::recipients_at(files, ".age-recipients"@) is Ok
                && scene.store_found {
                tree::replayed(files, store::open_effects(files))
            } else {
                files
            };
            failures_in(survey_lines(scene, files)) == 0 <==> {
                &&& scene.hardening matches Some(s) ==> !(s.core_dump@ is Failed) && !(
                s.debugger_deny@ is Failed)
                &&& scene.identity_found
                &&& scene.store_found
                &&& secrets::recipients_at(files, ".age-recipients"@) is Ok
                &&& scene.issues@.len() == 0
                &&& git::template_result(opened) is Ok
            }
        }),
{
    reveal(opening_lines);
    reveal(first_changes);
    reveal(opening_changes);
    let first = first_changes(scene.store_found, scene.store_dir@, files);
    let f1 = tree::replayed(files, first);
    let a = hardening_lines(scene.hardening);
    let b = presence_lines(scene, files);
    let c = opening_lines(scene.store_found, scene.store_dir@, files);
    let d = permission_lines(text::views(scene.issues@), scene.enforced);
    let e = template_lines(scene.store_found, scene.template_fault@, f1);
    lemma_five(a, b, c, d, e);
    match scene.hardening {
        Some(s) => {
            law_hardening_passes(*s);
        },
        None => {
            reveal(hardening_lines);
            lemma_clean(a);
        },
    }
    law_presence_passes(scene, files);
    law_permissions_pass(text::views(scene.issues@), scene.enforced);
    law_templates_pass(scene.store_found, scene.template_fault@, f1);
    if recipients_ok(files) && scene.store_found {
        law_pending_is_noted(tree::replayed(files, store::open_effects(files)));
        assert(c == pending_lines(tree::replayed(files, store::open_effects(files))));
    } else if !recipients_ok(files) {
        assert(failures_in(c) == 0);
    }
    assert(text::views(scene.issues@).len() == scene.issues@.len());
}

/// The report on git passes exactly if the store is no repository, or `git status` ran
/// and went well.
pub proof fn law_git_passes(repo: bool, output: Result<git::Output, Error>, json: bool)
    ensures
        failures_in(git_lines(repo, output, json)) == 0 <==> !repo || (output matches Ok(out)
            && out.success),
{
    let lines = git_lines(repo, output, json);
    if !repo || (output matches Ok(out) && out.success) {
        lemma_clean(lines);
    } else {
        lemma_unclean(lines, 0);
    }
}

/// The recovery of committed journals passes exactly if the store can be opened and each
/// journal that is committed is completed; one that is refused changes nothing, and
/// does not keep the other from being looked at.
pub proof fn law_recovery_passes(dir: Seq<char>, files: Files, key: Seq<u8>)
    requires
        secrets::recipients_at(files, ".age-recipients"@) is Ok,
    ensures
        ({
            let f1 = tree::replayed(files, store::open_effects(files));
            let r1 = rotation::rotation_recovery(f1, key);
            let f2 = if tree::present(f1, ".ks-rotate/READY"@) {
                tree::replayed(f1, r1.effects)
            } else {
                f1
            };
            let r2 = moves::move_recovery(f2, key);
            &&& failures_in(recovery_lines(true, dir, files, key)) == 0 <==> (tree::present(
                f1,
                ".ks-rotate/READY"@,
            ) ==> r1.result is Ok) && (tree::present(f2, ".ks-move/READY"@) ==> r2.result is Ok)
            &&& tree::replayed(files, recovery_changes(true, dir, files, key)) == (if tree::present(
                f2,
                ".ks-move/READY"@,
            ) {
                tree::replayed(f2, r2.effects)
            } else {
                f2
            })
        }),
{
    reveal(recovery_lines);
    reveal(recovery_changes);
    let open = store::open_effects(files);
    let f1 = tree::replayed(files, open);
    let one = rotation_changes(f1, key);
    let f2 = tree::replayed(f1, one);
    let two = move_changes(f2, key);
    law_failures(rotation_lines(f1, key), move_lines(f2, key), Line::Note(Seq::empty()));
    law_no_failures(rotation_lines(f1, key));
    law_no_failures(move_lines(f2, key));
    if tree::present(f1, ROTATE_READY@) && rotation::rotation_recovery(f1, key).result is Err {
        lemma_unclean(rotation_lines(f1, key), 0);
    } else {
        lemma_clean(rotation_lines(f1, key));
    }
    if tree::present(f2, MOVE_READY@) && moves::move_recovery(f2, key).result is Err {
        lemma_unclean(move_lines(f2, key), 0);
    } else {
        lemma_clean(move_lines(f2, key));
    }
    tree::lemma_replayed_concat(files, open, one);
    tree::lemma_replayed_concat(files, open + one, two);
}

/// For programs, the first line that `git status` wrote is noted, white space around it
/// aside; for people nothing is, and the text is shown.
pub proof fn law_git_branch_is_noted(out: git::Output, line: Seq<char>, rest: Seq<char>)
    requires
        out.success,
        !line.contains('\n'),
        text::lossy_text(out.stdout@) == line + seq!['\n'] + rest || text::lossy_text(out.stdout@)
            == line,
    ensures
        git_lines(true, Ok(out), true) == seq![Line::Note("git "@ + text::trimmed(line))],
        git_lines(true, Ok(out), false).len() == 0,
        git_lines(false, Ok(out), true) == seq![Line::Note("git: not a repository"@)],
{
    text::lemma_pieces_single(line, '\n');
    text::lemma_pieces_concat(line, rest, '\n');
}

/// What was appended to the git files is noted, the attributes before the names that are
/// ignored; where nothing was missing, a check passes.
pub proof fn law_appended_lines_are_noted(files: Files, a: Seq<Seq<char>>, b: Seq<Seq<char>>)
    requires
        git::template_result(files) == Ok::<(Seq<Seq<char>>, Seq<Seq<char>>), Failure>((a, b)),
    ensures
        a.len() > 0 && b.len() > 0 ==> template_lines(true, Seq::empty(), files) == seq![
            Line::Note(
                "appended attributes: "@ + text::joined(a, ", "@) + "; "@ + ("appended ignore: "@
                    + text::joined(b, ", "@)),
            ),
        ],
        a.len() > 0 && b.len() == 0 ==> template_lines(true, Seq::empty(), files) == seq![
            Line::Note("appended attributes: "@ + text::joined(a, ", "@)),
        ],
        a.len() == 0 && b.len() > 0 ==> template_lines(true, Seq::empty(), files) == seq![
            Line::Note("appended ignore: "@ + text::joined(b, ", "@)),
        ],
        a.len() == 0 && b.len() == 0 ==> template_lines(true, Seq::empty(), files).len() == 1,
{
    reveal(template_lines);
}

/// A repair notes how many entries the index has now, and, where there are any, the
/// secrets that could not be opened, by their paths.
pub proof fn law_repair_is_noted(files: Files, key: Seq<u8>)
    requires
        secrets::index_at(files) is Ok,
    ensures
        ({
            let lines = repair_lines(files, key);
            let skipped = health::unreadable(files, health::live(files), key);
            &&& lines[0] == Line::Note(
                "repaired .ks-generations ("@ + text::decimal(
                    health::repaired(files, key).dom().len(),
                ) + " entries)"@,
            )
            &&& lines.len() == (if skipped.len() > 0 {
                2int
            } else {
                1int
            })
            &&& skipped.len() > 0 ==> (lines[1] matches Line::Note(note) && note.len()
                >= ("skipped unreadable: "@ + text::joined(skipped, ", "@)).len() && note.take(
                ("skipped unreadable: "@ + text::joined(skipped, ", "@)).len() as int,
            ) == "skipped unreadable: "@ + text::joined(skipped, ", "@))
        }),
{
    let lines = repair_lines(files, key);
    let skipped = health::unreadable(files, health::live(files), key);
    if skipped.len() > 0 {
        let head = "skipped unreadable: "@ + text::joined(skipped, ", "@);
        let note = head
            + " — `ks rm <path>` then re-insert from known plaintext (not mv/cp/rotate)"@;
        assert(lines[1] == Line::Note(note));
        assert(note.take(head.len() as int) =~= head);
    }
}

/// A census reports the numbers of secrets of each kind, and names those whose index lags
/// and those that are stale, where there are any.
pub proof fn law_census_is_reported(files: Files, key: Seq<u8>)
    requires
        secrets::index_at(files) is Ok,
    ensures
        ({
            let lines = census_lines(files, key);
            let lag = lagging(files, key);
            let old_ones = stale(files, key);
            &&& lines.len() == 1 + (if lag.len() > 0 {
                1int
            } else {
                0int
            }) + (if old_ones.len() > 0 {
                1int
            } else {
                0int
            })
            &&& lines[0] is Check && lines[0]->label == "generations fully protected"@
            &&& lines[0]->detail == "sealed="@ + text::decimal(opened(files, key).len()) + " lag="@
                + text::decimal(lag.len()) + " stale="@ + text::decimal(old_ones.len())
                + " missing_index="@ + text::decimal(unindexed(files, key).len())
                + " tombstones="@ + text::decimal(health::tombstones(files).len())
            &&& lag.len() > 0 ==> lines[1] == Line::Note(
                "generation lag on: "@ + text::joined(lag, ", "@)
                    + " (run doctor --repair-generations)"@,
            )
            &&& old_ones.len() > 0 ==> lines.last() is Note
        }),
{
}

/// The kinds of secrets that a census reports are those that the census counts.
pub proof fn law_census_kinds(files: Files, key: Seq<u8>, census: health::GenerationCensus)
    requires
        secrets::index_at(files) is Ok,
        health::surveyed(files, key, Ok(census)),
    ensures
        lagging(files, key) == text::views(census.lag_paths@),
        stale(files, key) == text::views(census.stale_paths@),
        unindexed(files, key) == text::views(census.missing_index@),
        opened(files, key).len() == census.sealed_count,
        health::tombstones(files).len() == census.tombstone_count,
{
}

} // verus!
