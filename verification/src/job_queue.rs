//! The job queue: the scheduling state machine of the build.
//!
//! Units are enqueued with their jobs and dependencies; the machine is then
//! driven in turns. Each turn the caller asks it to `schedule` work — the
//! machine dequeues every unblocked unit, dispatches jobs while the token
//! budget allows, and trims excess tokens — and then feeds back exactly one
//! event (a token grant or a job completion) through `on_event`. Every
//! decision is returned as an [`Action`] for the embedding program to
//! perform: spawning a worker, running a cheap job inline, requesting or
//! releasing a token from the shared pool, and printing progress lines. The
//! build is over when no job is active; `outcome` then says how it ended.

use vstd::prelude::*;
use crate::freshness::Freshness;
use crate::unit::{CompileMode, Job, Key, PackageId, QueuedJob, Unit};
use crate::dependency_queue::{DependencyQueue, QueueEntry};

verus! {

/// The error a failed job reported.
#[derive(Clone, Debug)]
pub struct JobError {
    pub message: String,
}

/// Why a build ended without success.
#[derive(Clone, Debug)]
pub enum BuildError {
    /// The first job failure seen; later sibling failures are only reported,
    /// not kept.
    JobFailed { key: Key, message: String },
    /// The token-granting mechanism failed; the build cannot continue to
    /// schedule new work without it.
    TokenFailed { message: String },
    /// The queue was left non-empty with nothing active and nothing ready:
    /// an internal invariant violation (the input graph must be acyclic).
    Internal,
}

/// One event handed back to the state machine by the embedding program.
pub enum Event {
    /// A progress description emitted by a running job.
    Run(String),
    /// A message for the build-plan recorder.
    BuildPlanMsg(String),
    /// A line of captured compiler standard output.
    Stdout(String),
    /// A line of captured compiler standard error.
    Stderr(String),
    /// The outcome of one token request against the shared pool.
    Token(Result<(), String>),
    /// A dispatched job finished with the given result.
    Finish(Key, Result<(), JobError>),
}

/// The framed status a progress line reports for a package.
#[derive(Clone, Copy, PartialEq, Eq, Debug, Structural)]
pub enum StatusKind {
    Compiling,
    Checking,
    Documenting,
    Fresh,
}

/// Where a passed-through output line belongs.
#[derive(Clone, Copy, PartialEq, Eq, Debug, Structural)]
pub enum EchoKind {
    /// A "Running" line: verbose output only.
    RunningVerbose,
    /// Captured standard output: extra-verbose output only.
    StdoutExtraVerbose,
    /// Captured standard error: extra-verbose output only.
    StderrExtraVerbose,
    /// Forward to the build-plan recorder.
    BuildPlan,
}

/// What the embedding program must do, in order.
pub enum Action {
    /// Ask the shared token pool for one more concurrency slot.
    RequestToken,
    /// Return one held token to the shared pool.
    ReleaseToken,
    /// Run the job on the calling thread: it is fresh, so running it is
    /// cheap and needs no worker.
    RunInline(Key, Job),
    /// Spawn the job on a worker thread.
    Spawn(Key, Job),
    /// Print a framed progress line for the package.
    Report(StatusKind, PackageId),
    /// Flush the warnings buffered for the key's unit; `framed` asks for the
    /// framing message that introduces them after a failure.
    EmitWarnings { key: Key, framed: bool },
    /// Print a job's error.
    ReportError(String),
    /// Print a warning line with this message.
    Warn(String),
    /// Pass a line through to the stream the kind names.
    Echo(EchoKind, String),
}

/// One line that flushing a unit's buffered warnings prints.
pub enum WarningLine {
    /// A plain line on the error stream.
    Plain(String),
    /// A line styled as the shell styles warnings.
    Warn(String),
}

/// The view of a flush line: whether it is styled as a warning, and its
/// text.
pub open spec fn warning_line_view(l: WarningLine) -> (bool, Seq<char>) {
    match l {
        WarningLine::Plain(m) => (false, m@),
        WarningLine::Warn(m) => (true, m@),
    }
}

/// The views of a list of flush lines.
pub open spec fn warning_views(r: Seq<WarningLine>) -> Seq<(bool, Seq<char>)> {
    r.map_values(|l: WarningLine| warning_line_view(l))
}

/// What flushing a unit's buffered warnings prints, in order: when framed
/// and non-empty, the framing message, a blank line, every warning, and a
/// closing blank line; otherwise the warnings alone.
pub open spec fn spec_warning_lines(ws: Seq<Seq<char>>, framed: bool) -> Seq<(bool, Seq<char>)> {
    let body = ws.map_values(|w: Seq<char>| (true, w));
    if framed && ws.len() > 0 {
        seq![
            (false, "The following warnings were emitted during compilation:"@),
            (false, Seq::<char>::empty()),
        ] + body + seq![(false, Seq::<char>::empty())]
    } else {
        body
    }
}

/// Lays out the lines that flushing a unit's buffered warnings prints,
/// for the embedding program to put on the terminal one by one.
pub fn warning_lines(warnings: &Vec<String>, framed: bool) -> (r: Vec<WarningLine>)
    ensures
        warning_views(r@) == spec_warning_lines(warnings@.map_values(|w: String| w@), framed),
{
    let ghost wv = warnings@.map_values(|w: String| w@);
    let ghost body = wv.map_values(|w: Seq<char>| (true, w));
    let mut r: Vec<WarningLine> = Vec::new();
    let framing = framed && warnings.len() > 0;
    if framing {
        let ghost pre0 = r@;
        r.push(
            WarningLine::Plain(
                "The following warnings were emitted during compilation:".to_owned(),
            ),
        );
        proof {
            assert(warning_views(r@) =~= warning_views(pre0).push(
                (false, "The following warnings were emitted during compilation:"@),
            ));
        }
        let ghost pre1 = r@;
        r.push(WarningLine::Plain(String::new()));
        proof {
            assert(r@ =~= pre1.push(r@.last()));
            assert(warning_line_view(r@.last()) == (false, Seq::<char>::empty()));
            assert(warning_views(r@) =~= warning_views(pre1).push(
                (false, Seq::<char>::empty()),
            ));
        }
    }
    let ghost head = warning_views(r@);
    proof {
        if framing {
            assert(head =~= seq![
                (false, "The following warnings were emitted during compilation:"@),
                (false, Seq::<char>::empty()),
            ]);
        } else {
            assert(head =~= Seq::<(bool, Seq<char>)>::empty());
        }
        assert(body.take(0) =~= Seq::<(bool, Seq<char>)>::empty());
        assert(warning_views(r@) =~= head + body.take(0));
    }
    let mut i: usize = 0;
    while i < warnings.len()
        invariant
            i <= warnings@.len(),
            warnings@.map_values(|w: String| w@) == wv,
            body == wv.map_values(|w: Seq<char>| (true, w)),
            warning_views(r@) == head + body.take(i as int),
        decreases warnings@.len() - i,
    {
        let ghost pre = r@;
        r.push(WarningLine::Warn(warnings[i].clone()));
        proof {
            assert(r@ =~= pre.push(r@.last()));
            assert(warning_line_view(r@.last()) == (true, wv[i as int]));
            assert(warning_views(r@) =~= warning_views(pre).push((true, wv[i as int])));
            assert(body[i as int] == (true, wv[i as int]));
            assert(head + body.take(i + 1int) =~= (head + body.take(i as int)).push(
                (true, wv[i as int]),
            ));
        }
        i = i + 1;
    }
    proof {
        assert(body.take(wv.len() as int) == body);
    }
    if framing {
        let ghost pre = r@;
        r.push(WarningLine::Plain(String::new()));
        proof {
            assert(r@ =~= pre.push(r@.last()));
            assert(warning_line_view(r@.last()) == (false, Seq::<char>::empty()));
            assert(warning_views(r@) =~= warning_views(pre).push(
                (false, Seq::<char>::empty()),
            ));
        }
    }
    proof {
        assert(warning_views(r@) =~= spec_warning_lines(wv, framed));
    }
    r
}

/// Bookkeeping for a unit that has been dequeued: how many of its jobs are
/// still unfinished and the freshness accumulated over all of them.
pub struct PendingBuild {
    pub amt: usize,
    pub fresh: Freshness,
    /// The jobs the unit was dequeued with.
    pub jobs: Ghost<Seq<QueuedJob>>,
    /// The verdict the unit's dependencies handed down.
    pub dep_fresh: Ghost<Freshness>,
}

/// The scheduling state machine.
pub struct JobQueue {
    pub queue: DependencyQueue,
    /// Jobs dequeued and awaiting dispatch, oldest first.
    pub dispatch: Vec<(Key, Job, Freshness)>,
    /// Jobs dispatched and not yet finished.
    pub active: usize,
    /// Concurrency tokens currently held beyond the implicit first slot.
    pub tokens: usize,
    pub pending: Vec<(Key, PendingBuild)>,
    /// Packages already reported with a non-documentation line.
    pub compiled: Vec<PackageId>,
    /// Packages already reported with a "Documenting" line.
    pub documented: Vec<PackageId>,
    /// Outstanding (not yet dispatched) jobs per package.
    pub counts: Vec<(PackageId, usize)>,
    pub is_release: bool,
    /// In plan mode no progress lines are printed.
    pub build_plan: bool,
    /// The first fatal condition seen, if any.
    pub error: Option<BuildError>,
    /// Every progress line handed out so far, oldest first.
    pub reports: Ghost<Seq<(PackageId, StatusKind)>>,
}

/// The outstanding-job count recorded for a package (0 when absent).
pub open spec fn lookup_count(s: Seq<(PackageId, usize)>, pkg: PackageId) -> nat
    decreases s.len(),
{
    if s.len() == 0 {
        0
    } else if s.last().0 == pkg {
        s.last().1 as nat
    } else {
        lookup_count(s.drop_last(), pkg)
    }
}

/// The package column of the outstanding-count table.
pub open spec fn counts_keys(s: Seq<(PackageId, usize)>) -> Seq<PackageId> {
    s.map_values(|p: (PackageId, usize)| p.0)
}

/// How many queued jobs the waiting entries hold for a package.
pub open spec fn jobs_for(entries: Seq<QueueEntry>, pkg: PackageId) -> nat
    decreases entries.len(),
{
    if entries.len() == 0 {
        0
    } else {
        jobs_for(entries.drop_last(), pkg) + if entries.last().key.pkg == pkg {
            entries.last().jobs@.len()
        } else {
            0
        }
    }
}

/// How many dispatch-queue entries belong to a package.
pub open spec fn dispatch_for(d: Seq<(Key, Job, Freshness)>, pkg: PackageId) -> nat
    decreases d.len(),
{
    if d.len() == 0 {
        0
    } else {
        dispatch_for(d.drop_last(), pkg) + if d.last().0.pkg == pkg {
            1nat
        } else {
            0
        }
    }
}

/// A status line that must appear at most once per package: "Compiling" and
/// "Checking" share the once-per-package budget.
pub open spec fn is_compile_line(k: StatusKind) -> bool {
    k is Compiling || k is Checking
}

/// Progress lines never repeat: each package gets at most one
/// "Compiling"/"Checking" line and at most one "Documenting" line.
pub open spec fn reports_distinct(reports: Seq<(PackageId, StatusKind)>) -> bool {
    forall|i: int, j: int|
        0 <= i < j < reports.len() && (#[trigger] reports[i]).0 == (#[trigger] reports[j]).0
            ==> !(is_compile_line(reports[i].1) && is_compile_line(reports[j].1)) && !(
        reports[i].1 is Documenting && reports[j].1 is Documenting)
}

impl JobQueue {
    pub open spec fn counts_ok_with(self, pkg: PackageId, extra: nat) -> bool {
        forall|p: PackageId|
            #[trigger] lookup_count(self.counts@, p) == jobs_for(self.queue.entries@, p)
                + dispatch_for(self.dispatch@, p) + if p == pkg {
                extra
            } else {
                0nat
            }
    }

    pub open spec fn counts_ok(self) -> bool {
        forall|p: PackageId|
            #[trigger] lookup_count(self.counts@, p) == jobs_for(self.queue.entries@, p)
                + dispatch_for(self.dispatch@, p)
    }

    pub open spec fn pending_keys(self) -> Seq<Key> {
        self.pending@.map_values(|p: (Key, PendingBuild)| p.0)
    }

    pub open spec fn pending_ok(self) -> bool {
        &&& self.pending_keys().no_duplicates()
        &&& (forall|i: int|
            0 <= i < self.pending@.len() ==> (#[trigger] self.pending@[i]).1.fresh
                == combine_jobs(self.pending@[i].1.dep_fresh@, self.pending@[i].1.jobs@))
        &&& (forall|i: int|
            0 <= i < self.pending@.len() ==> ((#[trigger] self.pending@[i]).1.amt > 0
                <==> self.queue.in_flight@.contains(self.pending@[i].0)))
        &&& (forall|i: int|
            0 <= i < self.pending@.len() ==> self.queue.in_flight@.contains(
                (#[trigger] self.pending@[i]).0,
            ) || self.queue.is_finished(self.pending@[i].0))
        &&& (forall|k: Key| self.queue.in_flight@.contains(k) ==> self.pending_keys().contains(k))
    }

    pub open spec fn reports_ok(self) -> bool {
        &&& reports_distinct(self.reports@)
        &&& (forall|i: int|
            0 <= i < self.reports@.len() && is_compile_line((#[trigger] self.reports@[i]).1)
                ==> self.compiled@.contains(self.reports@[i].0))
        &&& (forall|i: int|
            0 <= i < self.reports@.len() && (#[trigger] self.reports@[i]).1 is Documenting
                ==> self.documented@.contains(self.reports@[i].0))
    }

    pub open spec fn wf(self) -> bool {
        &&& self.queue.wf()
        // the token bound: active workers never exceed held tokens plus the
        // one implicit slot
        &&& self.active <= self.tokens + 1
        &&& self.tokens < usize::MAX
        &&& counts_keys(self.counts@).no_duplicates()
        &&& self.counts_ok()
        &&& self.pending_ok()
        &&& self.reports_ok()
    }

    pub fn new(is_release: bool, build_plan: bool) -> (q: JobQueue)
        ensures
            q.wf(),
            !q.queue.sealed,
            q.queue.entries@.len() == 0,
            q.queue.in_flight@.len() == 0,
            q.queue.finished@.len() == 0,
            q.dispatch@.len() == 0,
            q.active == 0,
            q.tokens == 0,
            q.pending@.len() == 0,
            q.compiled@.len() == 0,
            q.documented@.len() == 0,
            q.counts@.len() == 0,
            q.is_release == is_release,
            q.build_plan == build_plan,
            q.error is None,
            q.reports@.len() == 0,
    {
        let q = JobQueue {
            queue: DependencyQueue::new(),
            dispatch: Vec::new(),
            active: 0,
            tokens: 0,
            pending: Vec::new(),
            compiled: Vec::new(),
            documented: Vec::new(),
            counts: Vec::new(),
            is_release,
            build_plan,
            error: None,
            reports: Ghost(Seq::empty()),
        };
        proof {
            assert forall|p: PackageId| #[trigger] lookup_count(q.counts@, p) == jobs_for(
                q.queue.entries@,
                p,
            ) + dispatch_for(q.dispatch@, p) by {
                assert(lookup_count(q.counts@, p) == 0);
                assert(jobs_for(q.queue.entries@, p) == 0);
                assert(dispatch_for(q.dispatch@, p) == 0);
            }
        }
        q
    }

    /// Feeds one unit with one job into the dependency queue, recording the
    /// unit's dependency edges (minus the test-on-bin exception) and counting
    /// the job against its package.
    pub fn enqueue(&mut self, unit: &Unit, dep_units: &Vec<Unit>, job: Job, fresh: Freshness)
        -> (r: Result<(), BuildError>)
        requires
            old(self).wf(),
            !old(self).queue.sealed,
            lookup_count(old(self).counts@, unit.pkg) < usize::MAX,
        ensures
            final(self).wf(),
            !final(self).queue.sealed,
            r is Ok,
            final(self).queue.waiting_keys().contains(Key::spec_new(*unit)),
            lookup_count(final(self).counts@, unit.pkg) == lookup_count(
                old(self).counts@,
                unit.pkg,
            ) + 1,
            // every other package's counter is untouched
            forall|p: PackageId|
                p != unit.pkg ==> #[trigger] lookup_count(final(self).counts@, p) == lookup_count(
                    old(self).counts@,
                    p,
                ),
            // a repeat registration appends exactly this job to the key's
            // entry and changes nothing else about it
            old(self).queue.waiting_keys().contains(Key::spec_new(*unit)) ==> {
                &&& final(self).queue.entries@.len() == old(self).queue.entries@.len()
                &&& exists|i: int|
                    {
                        &&& 0 <= i < old(self).queue.entries@.len()
                        &&& (#[trigger] old(self).queue.entries@[i]).key == Key::spec_new(*unit)
                        &&& final(self).queue.entries@[i].jobs@ == old(self).queue.entries@[i].jobs@.push(QueuedJob { job, fresh })
                        &&& final(self).queue.entries@[i].key == Key::spec_new(*unit)
                        &&& final(self).queue.entries@[i].deps@ == old(self).queue.entries@[i].deps@
                        &&& final(self).queue.entries@[i].fresh == old(self).queue.entries@[i].fresh
                        &&& (forall|j: int|
                            0 <= j < final(self).queue.entries@.len() && j != i ==> final(self).queue.entries@[j] == old(self).queue.entries@[j])
                    }
            },
            // a first registration adds the node at the end, with this one
            // job, a Fresh initial verdict, and the unit's dependency keys
            // (minus the test-on-bin edge, minus a self-edge)
            !old(self).queue.waiting_keys().contains(Key::spec_new(*unit)) ==> {
                &&& final(self).queue.entries@.len() == old(self).queue.entries@.len() + 1
                &&& final(self).queue.entries@.take(old(self).queue.entries@.len() as int) == old(self).queue.entries@
                &&& final(self).queue.entries@.last().key == Key::spec_new(*unit)
                &&& final(self).queue.entries@.last().jobs@ == seq![QueuedJob { job, fresh }]
                &&& final(self).queue.entries@.last().fresh == Freshness::Fresh
                &&& final(self).queue.entries@.last().deps@ == Key::spec_new(
                    *unit,
                ).spec_dependencies(dep_units@).filter(
                    (|d: Key| d != Key::spec_new(*unit)),
                )
            },
            final(self).queue.in_flight@ == old(self).queue.in_flight@,
            final(self).queue.finished@ == old(self).queue.finished@,
            final(self).active == old(self).active,
            final(self).tokens == old(self).tokens,
            final(self).dispatch@ == old(self).dispatch@,
            final(self).pending@ == old(self).pending@,
            final(self).compiled@ == old(self).compiled@,
            final(self).documented@ == old(self).documented@,
            final(self).error == old(self).error,
            final(self).reports@ == old(self).reports@,
            final(self).is_release == old(self).is_release,
            final(self).build_plan == old(self).build_plan,
    {
        let key = Key::new(unit);
        let deps = key.dependencies(dep_units);
        let ghost old_entries = self.queue.entries@;
        self.queue.queue(Freshness::Fresh, key, QueuedJob { job, fresh }, &deps);
        proof {
            let newe = self.queue.entries@;
            if old(self).queue.waiting_keys().contains(key) {
                let i = choose|i: int|
                    {
                        &&& 0 <= i < old_entries.len()
                        &&& (#[trigger] old_entries[i]).key == key
                        &&& newe[i].jobs@ == old_entries[i].jobs@.push(
                            QueuedJob { job, fresh },
                        )
                        &&& newe[i].key == key
                        &&& (forall|j: int|
                            0 <= j < newe.len() && j != i ==> newe[j] == old_entries[j])
                    };
                lemma_jobs_for_pointwise_delta(old_entries, newe, i, key.pkg, 1);
            } else {
                assert(newe.drop_last() =~= old_entries);
                assert forall|p: PackageId| #[trigger] jobs_for(newe, p) == jobs_for(
                    old_entries,
                    p,
                ) + if p == key.pkg {
                    1nat
                } else {
                    0nat
                } by {
                    assert(jobs_for(newe, p) == jobs_for(newe.drop_last(), p) + if newe.last().key.pkg
                        == p {
                        newe.last().jobs@.len()
                    } else {
                        0
                    });
                }
            }
        }
        // Count the job against the package for later reporting.
        let pkg = unit.pkg;
        let mut i: usize = 0;
        let mut idx: usize = 0;
        let mut found = false;
        let counts_len = self.counts.len();
        while i < counts_len
            invariant
                i <= self.counts@.len(),
                counts_len == self.counts@.len(),
                self.counts@ == old(self).counts@,
                !found ==> forall|j: int| 0 <= j < i ==> (#[trigger] self.counts@[j]).0 != pkg,
                found ==> idx < self.counts@.len() && self.counts@[idx as int].0 == pkg,
            decreases self.counts@.len() - i,
        {
            if !found && self.counts[i].0 == pkg {
                found = true;
                idx = i;
            }
            i = i + 1;
        }
        if found {
            proof {
                lemma_lookup_at_index(self.counts@, idx as int);
            }
            let (p0, c0) = self.counts.remove(idx);
            self.counts.insert(idx, (p0, c0 + 1));
            proof {
                assert(self.counts@ =~= old(self).counts@.update(idx as int, (pkg, (c0 + 1) as usize)));
                lemma_lookup_update(old(self).counts@, idx as int, (c0 + 1) as usize);
                lemma_counts_keys_update(old(self).counts@, idx as int, (c0 + 1) as usize);
            }
        } else {
            self.counts.push((pkg, 1));
            proof {
                assert(self.counts@.drop_last() =~= old(self).counts@);
                assert forall|p: PackageId| p != pkg implies #[trigger] lookup_count(
                    self.counts@,
                    p,
                ) == lookup_count(old(self).counts@, p) by {}
                assert(lookup_count(self.counts@, pkg) == 1);
                assert(lookup_count(old(self).counts@, pkg) == 0) by {
                    lemma_lookup_absent(old(self).counts@, pkg);
                }
                assert(counts_keys(self.counts@) =~= counts_keys(old(self).counts@).push(pkg));
                assert(counts_keys(self.counts@).no_duplicates()) by {
                    let ks = counts_keys(self.counts@);
                    let ko = counts_keys(old(self).counts@);
                    assert forall|a: int, b: int|
                        0 <= a < ks.len() && 0 <= b < ks.len() && a != b implies ks[a]
                        != ks[b] by {
                        if a < ko.len() && b < ko.len() {
                            assert(ks[a] == ko[a] && ks[b] == ko[b]);
                        } else if a < ko.len() {
                            assert(ks[b] == pkg);
                            assert(ks[a] == ko[a]);
                            assert(old(self).counts@[a].0 == ko[a]);
                        } else {
                            assert(ks[a] == pkg);
                            assert(ks[b] == ko[b]);
                            assert(old(self).counts@[b].0 == ko[b]);
                        }
                    }
                }
            }
        }
        proof {
            assert(self.queue.wf());
            assert(self.active <= self.tokens + 1);
            assert(counts_keys(self.counts@).no_duplicates());
            assert(self.counts_ok());
            assert(self.pending_ok());
            assert(self.reports_ok());
        }
        Ok(())
    }

    /// Ends the enqueue phase: from here on the machine only schedules and
    /// reacts to events.
    pub fn start(&mut self)
        requires
            old(self).wf(),
        ensures
            final(self).wf(),
            final(self).queue.sealed,
            final(self).queue.entries@ == old(self).queue.entries@,
            final(self).dispatch@ == old(self).dispatch@,
            final(self).active == old(self).active,
            final(self).tokens == old(self).tokens,
            final(self).error == old(self).error,
            final(self).reports@ == old(self).reports@,
    {
        self.queue.queue_finished();
    }

    /// True when nothing is running: the scheduling loop is over.
    pub fn done(&self) -> (r: bool)
        ensures
            r == (self.active == 0),
    {
        self.active == 0
    }
}

/// `lookup_count` reads the value stored at the (unique) index of a package.
proof fn lemma_lookup_at_index(s: Seq<(PackageId, usize)>, i: int)
    requires
        0 <= i < s.len(),
        counts_keys(s).no_duplicates(),
    ensures
        lookup_count(s, s[i].0) == s[i].1 as nat,
    decreases s.len(),
{
    let keys = counts_keys(s);
    if i == s.len() - 1 {
    } else {
        assert(keys[i] != keys[s.len() - 1]);
        assert(s.last().0 != s[i].0);
        assert(counts_keys(s.drop_last()) =~= keys.drop_last());
        lemma_lookup_at_index(s.drop_last(), i);
        assert(s.drop_last()[i] == s[i]);
    }
}

/// A package without an entry has count 0.
proof fn lemma_lookup_absent(s: Seq<(PackageId, usize)>, pkg: PackageId)
    requires
        forall|j: int| 0 <= j < s.len() ==> (#[trigger] s[j]).0 != pkg,
    ensures
        lookup_count(s, pkg) == 0,
    decreases s.len(),
{
    if s.len() > 0 {
        lemma_lookup_absent(s.drop_last(), pkg);
    }
}

/// Updating the entry at a package's index moves the lookup to the new value
/// and leaves all other packages alone.
proof fn lemma_lookup_update(s: Seq<(PackageId, usize)>, i: int, v: usize)
    requires
        0 <= i < s.len(),
        counts_keys(s).no_duplicates(),
    ensures
        lookup_count(s.update(i, (s[i].0, v)), s[i].0) == v as nat,
        forall|p: PackageId|
            p != s[i].0 ==> #[trigger] lookup_count(s.update(i, (s[i].0, v)), p) == lookup_count(
                s,
                p,
            ),
    decreases s.len(),
{
    let t = s.update(i, (s[i].0, v));
    if i == s.len() - 1 {
        assert(t.last() == (s[i].0, v));
        assert(t.drop_last() =~= s.drop_last());
        assert forall|p: PackageId| p != s[i].0 implies #[trigger] lookup_count(t, p)
            == lookup_count(s, p) by {
            assert(lookup_count(t, p) == lookup_count(t.drop_last(), p));
            assert(lookup_count(s, p) == lookup_count(s.drop_last(), p));
        }
    } else {
        assert(t.last() == s.last());
        assert(t.drop_last() =~= s.drop_last().update(i, (s[i].0, v)));
        assert(counts_keys(s.drop_last()) =~= counts_keys(s).drop_last());
        lemma_lookup_update(s.drop_last(), i, v);
        assert(s.drop_last()[i] == s[i]);
        assert(counts_keys(s)[i] != counts_keys(s)[s.len() - 1]);
        assert(s[i].0 != s.last().0);
        assert(lookup_count(t, s[i].0) == lookup_count(t.drop_last(), s[i].0));
        assert(lookup_count(t.drop_last(), s[i].0) == v as nat);
        assert forall|p: PackageId| p != s[i].0 implies #[trigger] lookup_count(t, p)
            == lookup_count(s, p) by {
            assert(lookup_count(t.drop_last(), p) == lookup_count(s.drop_last(), p));
            if s.last().0 == p {
                assert(lookup_count(t, p) == t.last().1 as nat);
                assert(lookup_count(s, p) == s.last().1 as nat);
            } else {
                assert(lookup_count(t, p) == lookup_count(t.drop_last(), p));
                assert(lookup_count(s, p) == lookup_count(s.drop_last(), p));
            }
        }
    }
}

/// Updating an entry in place keeps the key set.
proof fn lemma_counts_keys_update(s: Seq<(PackageId, usize)>, i: int, v: usize)
    requires
        0 <= i < s.len(),
        counts_keys(s).no_duplicates(),
    ensures
        counts_keys(s.update(i, (s[i].0, v))) =~= counts_keys(s),
{
}

/// When two entry sequences agree everywhere except index `i`, where only
/// the job list grew by `delta` for the same key, the job total of package
/// `p` moves by `delta` if `p` is that key's package and else stays.
proof fn lemma_jobs_for_delta_at(
    s1: Seq<QueueEntry>,
    s2: Seq<QueueEntry>,
    i: int,
    pkg: PackageId,
    delta: nat,
    p: PackageId,
)
    requires
        s1.len() == s2.len(),
        0 <= i < s1.len(),
        s2[i].key == s1[i].key,
        s1[i].key.pkg == pkg,
        s2[i].jobs@.len() == s1[i].jobs@.len() + delta,
        forall|j: int| 0 <= j < s1.len() && j != i ==> s2[j] == s1[j],
    ensures
        jobs_for(s2, p) == jobs_for(s1, p) + if p == pkg {
            delta
        } else {
            0nat
        },
    decreases s1.len(),
{
    if i == s1.len() - 1 {
        assert(s2.drop_last() =~= s1.drop_last());
        assert(jobs_for(s2.drop_last(), p) == jobs_for(s1.drop_last(), p));
        assert(s2.last() == s2[i]);
        assert(s1.last() == s1[i]);
    } else {
        assert(s2.last() == s1.last());
        assert(s2.drop_last().len() == s1.drop_last().len());
        assert(s2.drop_last()[i] == s2[i]);
        assert(s1.drop_last()[i] == s1[i]);
        assert forall|j: int|
            0 <= j < s1.drop_last().len() && j != i implies s2.drop_last()[j]
            == s1.drop_last()[j] by {
            assert(s2.drop_last()[j] == s2[j]);
            assert(s1.drop_last()[j] == s1[j]);
        }
        lemma_jobs_for_delta_at(s1.drop_last(), s2.drop_last(), i, pkg, delta, p);
    }
}

/// The forall form of `lemma_jobs_for_delta_at`.
proof fn lemma_jobs_for_pointwise_delta(
    s1: Seq<QueueEntry>,
    s2: Seq<QueueEntry>,
    i: int,
    pkg: PackageId,
    delta: nat,
)
    requires
        s1.len() == s2.len(),
        0 <= i < s1.len(),
        s2[i].key == s1[i].key,
        s1[i].key.pkg == pkg,
        s2[i].jobs@.len() == s1[i].jobs@.len() + delta,
        forall|j: int| 0 <= j < s1.len() && j != i ==> s2[j] == s1[j],
    ensures
        forall|p: PackageId|
            #[trigger] jobs_for(s2, p) == jobs_for(s1, p) + if p == pkg {
                delta
            } else {
                0nat
            },
{
    assert forall|p: PackageId| #[trigger] jobs_for(s2, p) == jobs_for(s1, p) + if p == pkg {
        delta
    } else {
        0nat
    } by {
        lemma_jobs_for_delta_at(s1, s2, i, pkg, delta, p);
    }
}

} // verus!

verus! {

/// The progress line, if any, for dispatching one job of `key` with
/// effective freshness `fresh`, given which packages were already reported
/// and how many jobs remain counted against the key's package.
pub open spec fn spec_report_line(
    compiled: Seq<PackageId>,
    documented: Seq<PackageId>,
    key: Key,
    fresh: Freshness,
    count: nat,
) -> Option<StatusKind> {
    if (compiled.contains(key.pkg) && !key.mode.spec_is_doc()) || (documented.contains(key.pkg)
        && key.mode.spec_is_doc()) || key.mode is Doctest {
        None
    } else if fresh is Dirty {
        if key.mode.spec_is_doc() {
            Some(StatusKind::Documenting)
        } else if key.mode.spec_is_check() {
            Some(StatusKind::Checking)
        } else {
            Some(StatusKind::Compiling)
        }
    } else if count == 0 {
        Some(StatusKind::Fresh)
    } else {
        None
    }
}

/// The progress lines among a list of actions, in order.
pub open spec fn report_lines(acts: Seq<Action>) -> Seq<(PackageId, StatusKind)>
    decreases acts.len(),
{
    if acts.len() == 0 {
        Seq::empty()
    } else {
        report_lines(acts.drop_last()) + match acts.last() {
            Action::Report(k, p) => seq![(p, k)],
            _ => Seq::empty(),
        }
    }
}

/// The verdict of a node combined over a list of its jobs.
pub open spec fn combine_jobs(init: Freshness, jobs: Seq<QueuedJob>) -> Freshness
    decreases jobs.len(),
{
    if jobs.len() == 0 {
        init
    } else {
        combine_jobs(init, jobs.drop_last()).spec_combine(jobs.last().fresh)
    }
}

proof fn lemma_report_lines_push(acts: Seq<Action>, a: Action)
    ensures
        report_lines(acts.push(a)) == report_lines(acts) + match a {
            Action::Report(k, p) => seq![(p, k)],
            _ => Seq::<(PackageId, StatusKind)>::empty(),
        },
{
    assert(acts.push(a).drop_last() =~= acts);
    assert(acts.push(a).last() == a);
}

proof fn lemma_report_lines_concat(a: Seq<Action>, b: Seq<Action>)
    ensures
        report_lines(a + b) == report_lines(a) + report_lines(b),
    decreases b.len(),
{
    if b.len() == 0 {
        assert(a + b =~= a);
        assert(report_lines(a) + report_lines(b) =~= report_lines(a));
    } else {
        lemma_report_lines_concat(a, b.drop_last());
        assert((a + b).drop_last() =~= a + b.drop_last());
        assert((a + b).last() == b.last());
        assert(report_lines(a + b) == report_lines(a + b.drop_last()) + match b.last() {
            Action::Report(k, p) => seq![(p, k)],
            _ => Seq::<(PackageId, StatusKind)>::empty(),
        });
        assert(report_lines(b) == report_lines(b.drop_last()) + match b.last() {
            Action::Report(k, p) => seq![(p, k)],
            _ => Seq::<(PackageId, StatusKind)>::empty(),
        });
        assert(report_lines(a) + report_lines(b) =~= report_lines(a + b));
    }
}

/// What dispatching one job does to the reporting books: from the
/// packages already reported and the outstanding-count table, the line
/// the job earns (if any), the books with that line recorded, and the
/// table with the job taken off its package's total.
pub open spec fn report_step(
    compiled: Seq<PackageId>,
    documented: Seq<PackageId>,
    counts: Seq<(PackageId, usize)>,
    key: Key,
    fresh: Freshness,
) -> (Seq<PackageId>, Seq<PackageId>, Seq<(PackageId, usize)>, Seq<(PackageId, StatusKind)>) {
    let c = (lookup_count(counts, key.pkg) - 1) as nat;
    let counts2 = counts.push((key.pkg, c as usize));
    match spec_report_line(compiled, documented, key, fresh, c) {
        Option::None => (compiled, documented, counts2, Seq::<(PackageId, StatusKind)>::empty()),
        Option::Some(k) => (
            if k is Documenting {
                compiled
            } else {
                compiled.push(key.pkg)
            },
            if k is Documenting {
                documented.push(key.pkg)
            } else {
                documented
            },
            counts2,
            seq![(key.pkg, k)],
        ),
    }
}

/// The progress lines a round of dispatches earns, walked in dispatch
/// order with the books carried from each job to the next, and the books
/// it leaves.
pub open spec fn report_run(
    compiled: Seq<PackageId>,
    documented: Seq<PackageId>,
    counts: Seq<(PackageId, usize)>,
    jobs: Seq<(Key, Job, Freshness)>,
) -> (Seq<PackageId>, Seq<PackageId>, Seq<(PackageId, usize)>, Seq<(PackageId, StatusKind)>)
    decreases jobs.len(),
{
    if jobs.len() == 0 {
        (compiled, documented, counts, Seq::<(PackageId, StatusKind)>::empty())
    } else {
        let prev = report_run(compiled, documented, counts, jobs.drop_last());
        let step = report_step(prev.0, prev.1, prev.2, jobs.last().0, jobs.last().2);
        (step.0, step.1, step.2, prev.3 + step.3)
    }
}

/// A recorded outstanding count never exceeds what a table entry can hold.
proof fn lemma_lookup_bound(s: Seq<(PackageId, usize)>, pkg: PackageId)
    ensures
        lookup_count(s, pkg) <= usize::MAX,
    decreases s.len(),
{
    if s.len() > 0 {
        lemma_lookup_bound(s.drop_last(), pkg);
    }
}

/// Pushing keeps every old member, and makes the new one a member.
proof fn lemma_push_contains<A>(s: Seq<A>, y: A)
    ensures
        forall|x: A| s.contains(x) ==> #[trigger] s.push(y).contains(x),
        s.push(y).contains(y),
{
    assert(s.push(y)[s.len() as int] == y);
    assert forall|x: A| s.contains(x) implies #[trigger] s.push(y).contains(x) by {
        let w = choose|w: int| 0 <= w < s.len() && s[w] == x;
        assert(s.push(y)[w] == x);
    }
}

/// Removing entry `i` takes away exactly its jobs from its package's total.
proof fn lemma_jobs_for_remove(s: Seq<QueueEntry>, i: int, p: PackageId)
    requires
        0 <= i < s.len(),
    ensures
        jobs_for(s.remove(i), p) + (if s[i].key.pkg == p {
            s[i].jobs@.len()
        } else {
            0nat
        }) == jobs_for(s, p),
    decreases s.len(),
{
    s.remove_ensures(i);
    if i == s.len() - 1 {
        assert(s.remove(i) =~= s.drop_last());
    } else {
        let t = s.remove(i);
        assert(t.last() == s[s.len() - 1]);
        assert(t.drop_last() =~= s.drop_last().remove(i)) by {
            s.drop_last().remove_ensures(i);
            assert forall|j: int| 0 <= j < t.drop_last().len() implies t.drop_last()[j] == s.drop_last().remove(i)[j] by {
                if j < i {
                    assert(t[j] == s[j]);
                    assert(s.drop_last().remove(i)[j] == s.drop_last()[j]);
                } else {
                    assert(t[j] == s[j + 1]);
                    assert(s.drop_last().remove(i)[j] == s.drop_last()[j + 1]);
                }
            }
        }
        lemma_jobs_for_remove(s.drop_last(), i, p);
        assert(s.drop_last()[i] == s[i]);
    }
}

proof fn lemma_dispatch_for_push(s: Seq<(Key, Job, Freshness)>, x: (Key, Job, Freshness), p: PackageId)
    ensures
        dispatch_for(s.push(x), p) == dispatch_for(s, p) + (if x.0.pkg == p {
            1nat
        } else {
            0nat
        }),
{
    assert(s.push(x).drop_last() =~= s);
    assert(s.push(x).last() == x);
}

proof fn lemma_dispatch_for_remove0(s: Seq<(Key, Job, Freshness)>, p: PackageId)
    requires
        s.len() > 0,
    ensures
        dispatch_for(s, p) == dispatch_for(s.remove(0), p) + (if s[0].0.pkg == p {
            1nat
        } else {
            0nat
        }),
    decreases s.len(),
{
    s.remove_ensures(0);
    if s.len() == 1 {
        assert(s.remove(0).len() == 0);
        assert(s.drop_last().len() == 0);
        assert(s.last() == s[0]);
    } else {
        let t = s.remove(0);
        assert(t.last() == s[s.len() - 1]);
        assert(t.drop_last() =~= s.drop_last().remove(0)) by {
            s.drop_last().remove_ensures(0);
            assert forall|j: int| 0 <= j < t.drop_last().len() implies t.drop_last()[j] == s.drop_last().remove(0)[j] by {
                assert(t[j] == s[j + 1]);
                assert(s.drop_last().remove(0)[j] == s.drop_last()[j + 1]);
            }
        }
        lemma_dispatch_for_remove0(s.drop_last(), p);
        assert(s.drop_last()[0] == s[0]);
    }
}

/// Whether a package id is in the list.
fn vec_contains_id(v: &Vec<PackageId>, x: PackageId) -> (r: bool)
    ensures
        r == v@.contains(x),
{
    let mut i: usize = 0;
    while i < v.len()
        invariant
            i <= v@.len(),
            forall|j: int| 0 <= j < i ==> v@[j] != x,
        decreases v@.len() - i,
    {
        if v[i] == x {
            return true;
        }
        i = i + 1;
    }
    false
}

/// The outstanding-job count recorded for a package.
fn counts_value(counts: &Vec<(PackageId, usize)>, pkg: PackageId) -> (r: usize)
    requires
        counts_keys(counts@).no_duplicates(),
    ensures
        r as nat == lookup_count(counts@, pkg),
{
    let mut i: usize = 0;
    while i < counts.len()
        invariant
            i <= counts@.len(),
            forall|j: int| 0 <= j < i ==> (#[trigger] counts@[j]).0 != pkg,
            counts_keys(counts@).no_duplicates(),
        decreases counts@.len() - i,
    {
        if counts[i].0 == pkg {
            proof {
                lemma_lookup_at_index(counts@, i as int);
            }
            return counts[i].1;
        }
        i = i + 1;
    }
    proof {
        lemma_lookup_absent(counts@, pkg);
    }
    0
}

impl JobQueue {
    /// Chooses the progress line for starting work on `key`, making sure a
    /// package is reported at most once outside documentation and at most
    /// once for documentation, and never for the synthetic always-fresh
    /// doctest placeholder.
    #[verifier::loop_isolation(false)]
    fn note_working_on(&mut self, key: Key, fresh: Freshness) -> (r: Option<StatusKind>)
        requires
            old(self).wf(),
        ensures
            final(self).wf(),
            r == spec_report_line(
                old(self).compiled@,
                old(self).documented@,
                key,
                fresh,
                lookup_count(old(self).counts@, key.pkg),
            ),
            final(self).queue == old(self).queue,
            final(self).dispatch@ == old(self).dispatch@,
            final(self).active == old(self).active,
            final(self).tokens == old(self).tokens,
            final(self).pending@ == old(self).pending@,
            final(self).counts@ == old(self).counts@,
            final(self).error == old(self).error,
            final(self).is_release == old(self).is_release,
            final(self).build_plan == old(self).build_plan,
            match r {
                Option::None => final(self).reports@ == old(self).reports@ && final(self).compiled@
                    == old(self).compiled@ && final(self).documented@ == old(self).documented@,
                Option::Some(k) => {
                    &&& final(self).reports@ == old(self).reports@.push((key.pkg, k))
                    &&& (k is Documenting ==> final(self).documented@ == old(self).documented@.push(key.pkg) && final(self).compiled@ == old(self).compiled@)
                    &&& (!(k is Documenting) ==> final(self).compiled@ == old(self).compiled@.push(
                        key.pkg,
                    ) && final(self).documented@ == old(self).documented@)
                },
            },
    {
        let pkg = key.pkg;
        let is_doc = key.mode.is_doc();
        let in_compiled = vec_contains_id(&self.compiled, pkg);
        let in_documented = vec_contains_id(&self.documented, pkg);
        if (in_compiled && !is_doc) || (in_documented && is_doc) || matches!(
            key.mode,
            CompileMode::Doctest,
        ) {
            return None;
        }
        let r: StatusKind;
        match fresh {
            Freshness::Dirty => {
                if is_doc {
                    self.documented.push(pkg);
                    r = StatusKind::Documenting;
                } else {
                    self.compiled.push(pkg);
                    if key.mode.is_check() {
                        r = StatusKind::Checking;
                    } else {
                        r = StatusKind::Compiling;
                    }
                }
            },
            Freshness::Fresh => {
                if counts_value(&self.counts, pkg) == 0 {
                    self.compiled.push(pkg);
                    r = StatusKind::Fresh;
                } else {
                    return None;
                }
            },
        }
        self.reports = Ghost(self.reports@.push((pkg, r)));
        proof {
            lemma_push_contains(old(self).compiled@, pkg);
            lemma_push_contains(old(self).documented@, pkg);
            lemma_push_contains(old(self).reports@, (pkg, r));
            let reps = self.reports@;
            assert(reps.last() == (pkg, r));
            assert forall|i: int, j: int|
                0 <= i < j < reps.len() && (#[trigger] reps[i]).0 == (#[trigger] reps[j]).0
                    implies !(is_compile_line(reps[i].1) && is_compile_line(reps[j].1)) && !(
                reps[i].1 is Documenting && reps[j].1 is Documenting) by {
                if j < old(self).reports@.len() {
                    assert(old(self).reports@[i] == reps[i]);
                    assert(old(self).reports@[j] == reps[j]);
                } else {
                    assert(reps[j] == (pkg, r));
                    assert(old(self).reports@[i] == reps[i]);
                    if reps[i].0 == pkg {
                        if is_compile_line(reps[i].1) && is_compile_line(r) {
                            assert(old(self).compiled@.contains(pkg));
                            assert(r is Compiling || r is Checking);
                            assert(fresh is Dirty && !is_doc);
                            assert(false);
                        }
                        if reps[i].1 is Documenting && r is Documenting {
                            assert(old(self).documented@.contains(pkg));
                            assert(false);
                        }
                    }
                }
            }
            assert forall|i: int|
                0 <= i < reps.len() && is_compile_line((#[trigger] reps[i]).1) implies self
                .compiled@.contains(reps[i].0) by {
                if i < old(self).reports@.len() {
                    assert(old(self).compiled@.contains(reps[i].0));
                } else {
                    assert(reps[i] == (pkg, r));
                }
            }
            assert forall|i: int|
                0 <= i < reps.len() && (#[trigger] reps[i]).1 is Documenting implies self
                .documented@.contains(reps[i].0) by {
                if i < old(self).reports@.len() {
                    assert(old(self).documented@.contains(reps[i].0));
                } else {
                    assert(reps[i] == (pkg, r));
                }
            }
        }
        Some(r)
    }

    /// Starts one job: counts it active, takes it off its package's
    /// outstanding total, hands out the dispatch action (inline when fresh,
    /// a worker when dirty), and reports progress unless in plan mode.
    #[verifier::loop_isolation(false)]
    fn run(&mut self, key: Key, fresh: Freshness, job: Job) -> (acts: Vec<Action>)
        requires
            old(self).queue.wf(),
            old(self).active <= old(self).tokens,
            old(self).tokens < usize::MAX,
            counts_keys(old(self).counts@).no_duplicates(),
            old(self).counts_ok_with(key.pkg, 1),
            old(self).pending_ok(),
            old(self).reports_ok(),
        ensures
            final(self).wf(),
            final(self).active == old(self).active + 1,
            final(self).tokens == old(self).tokens,
            final(self).queue == old(self).queue,
            final(self).dispatch@ == old(self).dispatch@,
            final(self).pending@ == old(self).pending@,
            final(self).error == old(self).error,
            final(self).is_release == old(self).is_release,
            final(self).build_plan == old(self).build_plan,
            acts@.len() >= 1,
            acts@[0] == (if fresh is Fresh {
                Action::RunInline(key, job)
            } else {
                Action::Spawn(key, job)
            }),
            dispatch_actions(acts@) == seq![(key, job, fresh)],
            token_requests(acts@) == 0,
            token_releases(acts@) == 0,
            final(self).reports@ == old(self).reports@ + report_lines(acts@),
            old(self).build_plan ==> report_lines(acts@).len() == 0 && final(self).compiled@ == old(
                self,
            ).compiled@ && final(self).documented@ == old(self).documented@,
            !old(self).build_plan ==> match spec_report_line(
                old(self).compiled@,
                old(self).documented@,
                key,
                fresh,
                (lookup_count(old(self).counts@, key.pkg) - 1) as nat,
            ) {
                Option::Some(k) => {
                    &&& report_lines(acts@) == seq![(key.pkg, k)]
                    &&& (k is Documenting ==> final(self).documented@ == old(
                        self,
                    ).documented@.push(key.pkg) && final(self).compiled@ == old(self).compiled@)
                    &&& (!(k is Documenting) ==> final(self).compiled@ == old(self).compiled@.push(
                        key.pkg,
                    ) && final(self).documented@ == old(self).documented@)
                },
                Option::None => report_lines(acts@) == Seq::<(PackageId, StatusKind)>::empty()
                    && final(self).compiled@ == old(self).compiled@ && final(self).documented@
                    == old(self).documented@,
            },
    {
        self.active = self.active + 1;
        // Take the job off the package's outstanding total.
        let pkg = key.pkg;
        let mut i: usize = 0;
        let mut idx: usize = 0;
        let mut found = false;
        let counts_len = self.counts.len();
        while i < counts_len
            invariant
                i <= self.counts@.len(),
                counts_len == self.counts@.len(),
                self.counts@ == old(self).counts@,
                !found ==> forall|j: int| 0 <= j < i ==> (#[trigger] self.counts@[j]).0 != pkg,
                found ==> idx < self.counts@.len() && self.counts@[idx as int].0 == pkg,
            decreases self.counts@.len() - i,
        {
            if !found && self.counts[i].0 == pkg {
                found = true;
                idx = i;
            }
            i = i + 1;
        }
        proof {
            assert(lookup_count(self.counts@, pkg) >= 1);
            if !found {
                lemma_lookup_absent(self.counts@, pkg);
                assert(false);
            }
            lemma_lookup_at_index(self.counts@, idx as int);
        }
        let (p0, c0) = self.counts.remove(idx);
        self.counts.insert(idx, (p0, c0 - 1));
        proof {
            assert(self.counts@ =~= old(self).counts@.update(idx as int, (pkg, (c0 - 1) as usize)));
            lemma_lookup_update(old(self).counts@, idx as int, (c0 - 1) as usize);
            lemma_counts_keys_update(old(self).counts@, idx as int, (c0 - 1) as usize);
        }
        let mut acts: Vec<Action> = Vec::new();
        match fresh {
            Freshness::Fresh => acts.push(Action::RunInline(key, job)),
            Freshness::Dirty => acts.push(Action::Spawn(key, job)),
        }
        proof {
            assert(report_lines(acts@) =~= Seq::<(PackageId, StatusKind)>::empty()) by {
                reveal_with_fuel(report_lines, 3);
                assert(acts@.drop_last().len() == 0);
            }
            assert(dispatch_actions(acts@) =~= seq![(key, job, fresh)]) by {
                reveal_with_fuel(dispatch_actions, 3);
                assert(acts@.drop_last().len() == 0);
                assert(acts@.last() == acts@[0]);
            }
            assert(token_requests(acts@) == 0) by {
                reveal_with_fuel(token_requests, 3);
                assert(acts@.drop_last().len() == 0);
            }
            assert(token_releases(acts@) == 0) by {
                reveal_with_fuel(token_releases, 3);
                assert(acts@.drop_last().len() == 0);
            }
        }
        if !self.build_plan {
            let line = self.note_working_on(key, fresh);
            if let Some(kind) = line {
                let ghost before = acts@;
                acts.push(Action::Report(kind, pkg));
                proof {
                    lemma_report_lines_push(before, Action::Report(kind, pkg));
                    lemma_projections_push(before, Action::Report(kind, pkg));
                    assert(dispatch_actions(acts@) =~= dispatch_actions(before));
                }
            }
        }
        proof {
            assert forall|p: PackageId| #[trigger] lookup_count(self.counts@, p) == jobs_for(
                self.queue.entries@,
                p,
            ) + dispatch_for(self.dispatch@, p) by {
                assert(lookup_count(old(self).counts@, p) == jobs_for(self.queue.entries@, p)
                    + dispatch_for(self.dispatch@, p) + if p == pkg {
                    1nat
                } else {
                    0nat
                });
            }
            assert(self.reports@ =~= old(self).reports@ + report_lines(acts@));
        }
        acts
    }
}

} // verus!

verus! {

impl JobQueue {
    /// The first step of a turn: dequeues every unblocked node, records
    /// its pending build, moves its jobs onto the dispatch queue with
    /// their effective freshness, and asks for one token per queued job
    /// beyond the first globally active.
    #[verifier::loop_isolation(false)]
    #[verifier::rlimit(100)]
    #[verifier::spinoff_prover]
    fn drain_ready(&mut self) -> (acts: Vec<Action>)
        requires
            old(self).wf(),
            old(self).queue.sealed,
        ensures
            final(self).wf(),
            final(self).queue.sealed,
            final(self).error == old(self).error,
            final(self).active == old(self).active,
            final(self).tokens == old(self).tokens,
            final(self).reports@ == old(self).reports@,
            final(self).compiled@ == old(self).compiled@,
            final(self).documented@ == old(self).documented@,
            final(self).counts@ == old(self).counts@,
            final(self).is_release == old(self).is_release,
            final(self).build_plan == old(self).build_plan,
            report_lines(acts@).len() == 0,
            dispatch_actions(acts@).len() == 0,
            token_releases(acts@) == 0,
            forall|i: int|
                0 <= i < final(self).queue.entries@.len() ==> (#[trigger] final(self).queue.entries@[i]).deps@.len() > 0,
            ({
                let ready = ready_entries(old(self).queue.entries@);
                &&& final(self).queue.entries@ == blocked_entries(old(self).queue.entries@)
                &&& final(self).queue.in_flight@ == old(self).queue.in_flight@ + entry_keys(ready)
                &&& final(self).queue.finished@ == old(self).queue.finished@
                &&& final(self).pending@.len() == old(self).pending@.len() + ready.len()
                &&& final(self).pending@.take(old(self).pending@.len() as int) == old(self).pending@
                &&& (forall|i: int|
                    0 <= i < ready.len() ==> pending_matches(
                        #[trigger] final(self).pending@[old(self).pending@.len() + i],
                        ready[i],
                    ))
                &&& final(self).dispatch@ == old(self).dispatch@ + flat_dispatch(ready)
                &&& token_requests(acts@) == spec_requests(
                    old(self).active as nat,
                    old(self).dispatch@.len(),
                    flat_dispatch(ready).len(),
                )
            }),
    {
        let mut acts: Vec<Action> = Vec::new();
        let ghost ready0 = ready_entries(old(self).queue.entries@);
        let ghost mut processed: int = 0;
        proof {
            assert(ready0.skip(0) =~= ready0);
            assert(ready0.take(0) =~= Seq::<QueueEntry>::empty());
            reveal_with_fuel(flat_dispatch, 2);
            reveal_with_fuel(dispatch_actions, 2);
            reveal_with_fuel(token_requests, 2);
            reveal_with_fuel(token_releases, 2);
            reveal_with_fuel(report_lines, 2);
            assert(flat_dispatch(ready0.take(0)).len() == 0);
            assert(self.dispatch@ =~= old(self).dispatch@ + flat_dispatch(ready0.take(0)));
            assert(entry_keys(ready0.take(0)) =~= Seq::<Key>::empty());
            assert(self.queue.in_flight@ =~= old(self).queue.in_flight@ + entry_keys(
                ready0.take(0),
            ));
            assert(self.pending@.take(old(self).pending@.len() as int) =~= old(self).pending@);
        }
        // Learn about everything that can run now.
        let mut drained = false;
        while !drained
            invariant
                self.wf(),
                self.queue.sealed,
                self.error == old(self).error,
                self.active == old(self).active,
                self.tokens == old(self).tokens,
                self.reports@ == old(self).reports@,
                self.compiled@ == old(self).compiled@,
                self.documented@ == old(self).documented@,
                self.counts@ == old(self).counts@,
                report_lines(acts@).len() == 0,
                dispatch_actions(acts@).len() == 0,
                token_releases(acts@) == 0,
                self.is_release == old(self).is_release,
                self.build_plan == old(self).build_plan,
                0 <= processed <= ready0.len(),
                ready_entries(self.queue.entries@) == ready0.skip(processed),
                blocked_entries(self.queue.entries@) == blocked_entries(
                    old(self).queue.entries@,
                ),
                self.dispatch@ == old(self).dispatch@ + flat_dispatch(ready0.take(processed)),
                self.queue.in_flight@ == old(self).queue.in_flight@ + entry_keys(
                    ready0.take(processed),
                ),
                self.queue.finished@ == old(self).queue.finished@,
                self.pending@.len() == old(self).pending@.len() + processed,
                self.pending@.take(old(self).pending@.len() as int) == old(self).pending@,
                forall|i: int|
                    0 <= i < processed ==> pending_matches(
                        #[trigger] self.pending@[old(self).pending@.len() + i],
                        ready0[i],
                    ),
                token_requests(acts@) == spec_requests(
                    old(self).active as nat,
                    old(self).dispatch@.len(),
                    flat_dispatch(ready0.take(processed)).len(),
                ),
                drained ==> ready0.skip(processed).len() == 0,
                drained ==> forall|i: int|
                    0 <= i < self.queue.entries@.len() ==> (#[trigger] self.queue.entries@[i]).deps@.len()
                        > 0,
            decreases self.queue.entries@.len() + (if drained {
                0int
            } else {
                1int
            }),
        {
            let ghost pre = *self;
            let next = self.queue.dequeue();
            match next {
                None => {
                    proof {
                        lemma_all_blocked(self.queue.entries@);
                    }
                    drained = true;
                },
                Some((fresh, key, jobs)) => {
                    proof {
                        let i = choose|i: int|
                            {
                                &&& 0 <= i < pre.queue.entries@.len()
                                &&& (#[trigger] pre.queue.entries@[i]).key == key
                                &&& pre.queue.entries@[i].deps@.len() == 0
                                &&& (forall|j: int|
                                    0 <= j < i ==> (#[trigger] pre.queue.entries@[j]).deps@.len()
                                        > 0)
                                &&& pre.queue.entries@[i].fresh == fresh
                                &&& pre.queue.entries@[i].jobs@ == jobs@
                                &&& self.queue.entries@ == pre.queue.entries@.remove(i)
                                &&& self.queue.in_flight@ == pre.queue.in_flight@.push(key)
                            };
                        assert forall|p: PackageId| #[trigger] lookup_count(self.counts@, p)
                            == jobs_for(self.queue.entries@, p) + dispatch_for(self.dispatch@, p)
                            + if p == key.pkg {
                            jobs@.len()
                        } else {
                            0nat
                        } by {
                            lemma_jobs_for_remove(pre.queue.entries@, i, p);
                        }
                        // the dequeued node is the next unblocked one
                        lemma_ready_split(pre.queue.entries@, i);
                        assert(ready0.skip(processed) == seq![pre.queue.entries@[i]]
                            + ready_entries(self.queue.entries@));
                        assert(ready0[processed] == pre.queue.entries@[i]) by {
                            assert(ready0.skip(processed)[0] == pre.queue.entries@[i]);
                        }
                        assert(ready_entries(self.queue.entries@) =~= ready0.skip(
                            processed + 1,
                        )) by {
                            assert forall|w: int|
                                0 <= w < ready_entries(self.queue.entries@).len()
                                implies ready_entries(self.queue.entries@)[w] == ready0.skip(
                                processed + 1,
                            )[w] by {
                                assert(ready0.skip(processed)[w + 1] == ready_entries(
                                    self.queue.entries@,
                                )[w]);
                            }
                        }
                        assert(blocked_entries(self.queue.entries@) == blocked_entries(
                            old(self).queue.entries@,
                        ));
                        // the dequeued key is brand new to the pending table
                        assert(pre.queue.waiting_keys().contains(key)) by {
                            assert(pre.queue.waiting_keys()[i] == key);
                        }
                        assert(!self.pending_keys().contains(key)) by {
                            if self.pending_keys().contains(key) {
                                let w = choose|w: int|
                                    0 <= w < self.pending@.len() && self.pending@[w].0 == key;
                                assert(self.pending_keys()[w] == key);
                                assert(pre.queue.in_flight@.contains(key) || pre.queue.is_finished(
                                    key,
                                ));
                            }
                        }
                        // the in-flight set grows by exactly this key
                        lemma_flat_snoc(ready0.take(processed), ready0[processed]);
                        assert(ready0.take(processed + 1) =~= ready0.take(processed).push(
                            ready0[processed],
                        ));
                        assert(self.queue.in_flight@ =~= old(self).queue.in_flight@ + entry_keys(
                            ready0.take(processed + 1),
                        ));
                    }
                    // Fold the node's accumulated verdict over its own jobs.
                    let mut total = fresh;
                    let mut t: usize = 0;
                    while t < jobs.len()
                        invariant
                            t <= jobs@.len(),
                            total == combine_jobs(fresh, jobs@.take(t as int)),
                        decreases jobs@.len() - t,
                    {
                        proof {
                            assert(jobs@.take(t + 1int).drop_last() == jobs@.take(t as int));
                        }
                        total = total.combine(jobs[t].fresh);
                        proof {
                            lemma_combine_comm(
                                combine_jobs(fresh, jobs@.take(t as int)),
                                jobs@[t as int].fresh,
                            );
                        }
                        t = t + 1;
                    }
                    proof {
                        assert(jobs@.take(jobs@.len() as int) == jobs@);
                    }
                    let ghost pend_pre = self.pending@;
                    self.pending.push(
                        (
                            key,
                            PendingBuild {
                                amt: jobs.len(),
                                fresh: total,
                                jobs: Ghost(jobs@),
                                dep_fresh: Ghost(fresh),
                            },
                        ),
                    );
                    proof {
                        assert(self.pending_keys() =~= pend_pre.map_values(
                            |p: (Key, PendingBuild)| p.0,
                        ).push(key));
                        assert(self.pending@.last().1.fresh == combine_jobs(
                            self.pending@.last().1.dep_fresh@,
                            self.pending@.last().1.jobs@,
                        ));
                        assert forall|w: int|
                            0 <= w < self.pending@.len() implies (#[trigger] self.pending@[w]).1.fresh
                            == combine_jobs(
                            self.pending@[w].1.dep_fresh@,
                            self.pending@[w].1.jobs@,
                        ) by {
                            if w < pend_pre.len() {
                                assert(self.pending@[w] == pend_pre[w]);
                            }
                        }
                        lemma_push_contains(pre.queue.in_flight@, key);
                        assert(self.pending_keys().no_duplicates()) by {
                            let ks = self.pending_keys();
                            let ko = pend_pre.map_values(|p: (Key, PendingBuild)| p.0);
                            assert(!ko.contains(key));
                            assert forall|a: int, b: int|
                                0 <= a < ks.len() && 0 <= b < ks.len() && a != b implies ks[a]
                                != ks[b] by {
                                if a < ko.len() && b < ko.len() {
                                    assert(ks[a] == ko[a] && ks[b] == ko[b]);
                                } else if a < ko.len() {
                                    assert(ks[b] == key && ks[a] == ko[a]);
                                } else if b < ko.len() {
                                    assert(ks[a] == key && ks[b] == ko[b]);
                                }
                            }
                        }
                        assert forall|w: int| 0 <= w < self.pending@.len() implies ((
                        #[trigger] self.pending@[w]).1.amt > 0 <==> self.queue.in_flight@.contains(
                            self.pending@[w].0,
                        )) by {
                            if w < pend_pre.len() {
                                assert(self.pending@[w] == pend_pre[w]);
                                assert(pend_pre[w].1.amt > 0 <==> pre.queue.in_flight@.contains(
                                    pend_pre[w].0,
                                ));
                                if pend_pre[w].1.amt > 0 {
                                } else {
                                    assert(!pre.queue.in_flight@.contains(pend_pre[w].0));
                                    assert(pre.queue.is_finished(pend_pre[w].0));
                                    assert(pend_pre[w].0 != key);
                                    if self.queue.in_flight@.contains(pend_pre[w].0) {
                                        let v = choose|v: int|
                                            0 <= v < self.queue.in_flight@.len()
                                                && self.queue.in_flight@[v] == pend_pre[w].0;
                                        if v < pre.queue.in_flight@.len() {
                                            assert(pre.queue.in_flight@[v] == pend_pre[w].0);
                                        } else {
                                            assert(self.queue.in_flight@[v] == key);
                                        }
                                    }
                                }
                            } else {
                                assert(self.pending@[w] == (key, PendingBuild {
                                    amt: jobs@.len() as usize,
                                    fresh: total,
                                    jobs: Ghost(jobs@),
                                    dep_fresh: Ghost(fresh),
                                }));
                                assert(jobs@.len() >= 1);
                                assert(self.queue.in_flight@.contains(key));
                            }
                        }
                        assert forall|w: int| 0 <= w < self.pending@.len() implies self
                            .queue.in_flight@.contains((#[trigger] self.pending@[w]).0)
                            || self.queue.is_finished(self.pending@[w].0) by {
                            if w < pend_pre.len() {
                                assert(self.pending@[w] == pend_pre[w]);
                                if pre.queue.in_flight@.contains(pend_pre[w].0) {
                                    let v = choose|v: int|
                                        0 <= v < pre.queue.in_flight@.len()
                                            && pre.queue.in_flight@[v] == pend_pre[w].0;
                                    assert(self.queue.in_flight@[v] == pend_pre[w].0);
                                }
                            } else {
                                assert(self.queue.in_flight@.contains(key));
                            }
                        }
                        assert forall|k2: Key| self.queue.in_flight@.contains(k2) implies self
                            .pending_keys().contains(k2) by {
                            let v = choose|v: int|
                                0 <= v < self.queue.in_flight@.len() && self.queue.in_flight@[v]
                                    == k2;
                            if v < pre.queue.in_flight@.len() {
                                assert(pre.queue.in_flight@[v] == k2);
                                assert(pre.queue.in_flight@.contains(k2));
                                let kp = pend_pre.map_values(|p: (Key, PendingBuild)| p.0);
                                assert(pre.pending_keys() == kp);
                                assert(pre.pending_keys().contains(k2));
                                let w = choose|w: int| 0 <= w < kp.len() && kp[w] == k2;
                                assert(self.pending_keys()[w] == k2);
                            } else {
                                assert(k2 == key);
                                assert(self.pending_keys().last() == key);
                            }
                        }
                        // the new record matches the node it came from
                        assert(self.pending@.take(old(self).pending@.len() as int) =~= old(
                            self,
                        ).pending@);
                        assert(pending_matches(
                            self.pending@[old(self).pending@.len() + processed],
                            ready0[processed],
                        )) by {
                            assert(self.pending@.last() == self.pending@[old(
                                self,
                            ).pending@.len() + processed]);
                            assert(ready0[processed].key == key);
                            assert(ready0[processed].fresh == fresh);
                            assert(ready0[processed].jobs@ == jobs@);
                        }
                        assert forall|i2: int|
                            0 <= i2 < processed + 1 implies pending_matches(
                            #[trigger] self.pending@[old(self).pending@.len() + i2],
                            ready0[i2],
                        ) by {
                            if i2 < processed {
                                assert(self.pending@[old(self).pending@.len() + i2]
                                    == pend_pre[old(self).pending@.len() + i2]);
                            }
                        }
                    }
                    // Queue each job for dispatch; each one beyond the first
                    // globally active asks for a token.
                    let mut j: usize = 0;
                    let ghost q_after = self.queue;
                    let ghost pend_after = self.pending@;
                    let ghost dpre0 = self.dispatch@;
                    let ghost ed = entry_dispatch(ready0[processed]);
                    proof {
                        assert(ed.len() == jobs@.len());
                        assert(self.dispatch@ =~= dpre0 + ed.take(0));
                    }
                    while j < jobs.len()
                        invariant
                            j <= jobs@.len(),
                            self.queue == q_after,
                            self.pending@ == pend_after,
                            self.compiled@ == pre.compiled@,
                            self.documented@ == pre.documented@,
                            self.reports@ == pre.reports@,
                            self.error == pre.error,
                            self.active == pre.active,
                            self.tokens == pre.tokens,
                            self.counts@ == pre.counts@,
                            self.is_release == pre.is_release,
                            self.build_plan == pre.build_plan,
                            report_lines(acts@).len() == 0,
                            dispatch_actions(acts@).len() == 0,
                            token_releases(acts@) == 0,
                            ed == entry_dispatch(ready0[processed]),
                            ed.len() == jobs@.len(),
                            dpre0 == old(self).dispatch@ + flat_dispatch(ready0.take(processed)),
                            self.dispatch@ == dpre0 + ed.take(j as int),
                            token_requests(acts@) == spec_requests(
                                old(self).active as nat,
                                old(self).dispatch@.len(),
                                (flat_dispatch(ready0.take(processed)).len() + j) as nat,
                            ),
                            forall|p: PackageId|
                                #[trigger] lookup_count(self.counts@, p) == jobs_for(
                                    self.queue.entries@,
                                    p,
                                ) + dispatch_for(self.dispatch@, p) + if p == key.pkg {
                                    (jobs@.len() - j) as nat
                                } else {
                                    0nat
                                },
                        decreases jobs@.len() - j,
                    {
                        let qj = jobs[j];
                        let eff = qj.fresh.combine(fresh);
                        let ghost disp_pre = self.dispatch@;
                        self.dispatch.push((key, qj.job, eff));
                        proof {
                            assert forall|p: PackageId| #[trigger] lookup_count(self.counts@, p)
                                == jobs_for(self.queue.entries@, p) + dispatch_for(
                                self.dispatch@,
                                p,
                            ) + if p == key.pkg {
                                (jobs@.len() - (j + 1)) as nat
                            } else {
                                0nat
                            } by {
                                lemma_dispatch_for_push(disp_pre, (key, qj.job, eff), p);
                            }
                            // the pushed entry is the node's next dispatch entry
                            assert(ed[j as int] == (key, qj.job, eff)) by {
                                assert(ready0[processed].jobs@[j as int] == qj);
                            }
                            assert(ed.take(j + 1int) =~= ed.take(j as int).push(ed[j as int]));
                            assert(self.dispatch@ =~= dpre0 + ed.take(j + 1int));
                        }
                        if self.active > 0 || self.dispatch.len() > 1 {
                            let ghost acts_pre = acts@;
                            acts.push(Action::RequestToken);
                            proof {
                                lemma_report_lines_push(acts_pre, Action::RequestToken);
                                assert(report_lines(acts@) =~= report_lines(acts_pre));
                                lemma_projections_push(acts_pre, Action::RequestToken);
                                assert(dispatch_actions(acts@) =~= dispatch_actions(acts_pre));
                            }
                        }
                        proof {
                            // a token is asked for exactly beyond the first
                            // globally active job
                            assert(self.dispatch@.len() == old(self).dispatch@.len()
                                + flat_dispatch(ready0.take(processed)).len() + j + 1);
                        }
                        j = j + 1;
                    }
                    proof {
                        assert(ed.take(ed.len() as int) == ed);
                        lemma_flat_snoc(ready0.take(processed), ready0[processed]);
                        assert(ready0.take(processed + 1) =~= ready0.take(processed).push(
                            ready0[processed],
                        ));
                        assert(flat_dispatch(ready0.take(processed + 1)) == flat_dispatch(
                            ready0.take(processed),
                        ) + ed);
                        assert(self.dispatch@ =~= old(self).dispatch@ + flat_dispatch(
                            ready0.take(processed + 1),
                        ));
                        processed = processed + 1;
                    }
                },
            }
        }
        proof {
            assert(ready0.take(processed) =~= ready0);
            assert(self.dispatch@ =~= old(self).dispatch@ + flat_dispatch(ready0));
            assert(self.queue.in_flight@ =~= old(self).queue.in_flight@ + entry_keys(ready0));
            lemma_all_blocked(self.queue.entries@);
            assert(self.queue.entries@ == blocked_entries(old(self).queue.entries@));
        }
        acts
    }

    /// The second step of a turn: hands out the front of the dispatch
    /// queue — inline when effectively fresh, to a worker when dirty —
    /// while no fatal error is recorded and the active count stays within
    /// the token budget.
    #[verifier::loop_isolation(false)]
    #[verifier::rlimit(100)]
    fn dispatch_jobs(&mut self) -> (acts: Vec<Action>)
        requires
            old(self).wf(),
            old(self).queue.sealed,
        ensures
            final(self).wf(),
            final(self).queue.sealed,
            final(self).error == old(self).error,
            final(self).tokens == old(self).tokens,
            final(self).queue == old(self).queue,
            final(self).pending@ == old(self).pending@,
            final(self).is_release == old(self).is_release,
            final(self).build_plan == old(self).build_plan,
            final(self).reports@ == old(self).reports@ + report_lines(acts@),
            ({
                let n: int = if old(self).error is Some {
                    0int
                } else if old(self).dispatch@.len() <= old(self).tokens + 1 - old(self).active {
                    old(self).dispatch@.len() as int
                } else {
                    old(self).tokens + 1 - old(self).active
                };
                let rr = report_run(
                    old(self).compiled@,
                    old(self).documented@,
                    old(self).counts@,
                    old(self).dispatch@.take(n),
                );
                &&& final(self).dispatch@ == old(self).dispatch@.skip(n)
                &&& final(self).active == old(self).active + n
                &&& dispatch_actions(acts@) == old(self).dispatch@.take(n)
                &&& token_requests(acts@) == 0
                &&& token_releases(acts@) == 0
                &&& (old(self).build_plan ==> report_lines(acts@).len() == 0
                    && final(self).compiled@ == old(self).compiled@
                    && final(self).documented@ == old(self).documented@)
                &&& (!old(self).build_plan ==> report_lines(acts@) == rr.3 && final(self).compiled@
                    == rr.0 && final(self).documented@ == rr.1)
            }),
    {
        let mut acts: Vec<Action> = Vec::new();
        let ghost full0 = old(self).dispatch@;
        let ghost mut popped: int = 0;
        proof {
            assert(full0.skip(0) =~= full0);
            assert(full0.take(0) =~= Seq::<(Key, Job, Freshness)>::empty());
            reveal_with_fuel(dispatch_actions, 2);
            reveal_with_fuel(token_requests, 2);
            reveal_with_fuel(token_releases, 2);
            reveal_with_fuel(report_lines, 2);
            assert(dispatch_actions(acts@) =~= full0.take(0));
            assert(self.reports@ =~= old(self).reports@ + report_lines(acts@));
            assert(report_run(
                old(self).compiled@,
                old(self).documented@,
                old(self).counts@,
                full0.take(0),
            ).3 =~= Seq::<(PackageId, StatusKind)>::empty());
        }
        while self.error.is_none() && self.active <= self.tokens && self.dispatch.len() > 0
            invariant
                self.wf(),
                self.queue.sealed,
                self.error == old(self).error,
                self.tokens == old(self).tokens,
                self.reports@ == old(self).reports@ + report_lines(acts@),
                self.is_release == old(self).is_release,
                self.build_plan == old(self).build_plan,
                self.queue == old(self).queue,
                self.pending@ == old(self).pending@,
                0 <= popped <= full0.len(),
                self.dispatch@ == full0.skip(popped),
                self.active == old(self).active + popped,
                old(self).error is Some ==> popped == 0,
                old(self).error is None ==> popped <= old(self).tokens + 1 - old(self).active,
                dispatch_actions(acts@) == full0.take(popped),
                token_requests(acts@) == 0,
                token_releases(acts@) == 0,
                old(self).build_plan ==> report_lines(acts@).len() == 0 && self.compiled@ == old(
                    self,
                ).compiled@ && self.documented@ == old(self).documented@,
                !old(self).build_plan ==> ({
                    let rr = report_run(
                        old(self).compiled@,
                        old(self).documented@,
                        old(self).counts@,
                        full0.take(popped),
                    );
                    &&& report_lines(acts@) == rr.3
                    &&& self.compiled@ == rr.0
                    &&& self.documented@ == rr.1
                    &&& (forall|p: PackageId| #[trigger] lookup_count(self.counts@, p)
                        == lookup_count(rr.2, p))
                }),
            decreases self.dispatch@.len(),
        {
            let ghost pre = *self;
            let (key, job, fresh) = self.dispatch.remove(0);
            proof {
                assert forall|p: PackageId| #[trigger] lookup_count(self.counts@, p) == jobs_for(
                    self.queue.entries@,
                    p,
                ) + dispatch_for(self.dispatch@, p) + if p == key.pkg {
                    1nat
                } else {
                    0nat
                } by {
                    lemma_dispatch_for_remove0(pre.dispatch@, p);
                }
                assert((key, job, fresh) == full0[popped]) by {
                    assert(full0.skip(popped)[0] == full0[popped]);
                }
                assert(self.dispatch@ =~= full0.skip(popped + 1)) by {
                    pre.dispatch@.remove_ensures(0);
                    assert forall|w: int|
                        0 <= w < self.dispatch@.len() implies self.dispatch@[w] == full0.skip(
                        popped + 1,
                    )[w] by {
                        assert(self.dispatch@[w] == pre.dispatch@[w + 1]);
                        assert(pre.dispatch@[w + 1] == full0[popped + 1 + w]);
                    }
                }
            }
            let mut racts = self.run(key, fresh, job);
            let ghost rv = racts@;
            let ghost acts_pre = acts@;
            acts.append(&mut racts);
            proof {
                lemma_report_lines_concat(acts_pre, rv);
                lemma_projections_concat(acts_pre, rv);
                assert(self.reports@ =~= old(self).reports@ + report_lines(acts@));
                assert(full0.take(popped + 1) =~= full0.take(popped).push(full0[popped]));
                assert(dispatch_actions(acts@) =~= full0.take(popped + 1));
                // the reporting books advance by exactly this job's step
                let c0 = old(self).compiled@;
                let d0 = old(self).documented@;
                let n0 = old(self).counts@;
                let rr = report_run(c0, d0, n0, full0.take(popped));
                let rr2 = report_run(c0, d0, n0, full0.take(popped + 1));
                let stp = report_step(rr.0, rr.1, rr.2, key, fresh);
                assert(full0.take(popped + 1).drop_last() =~= full0.take(popped));
                assert(full0.take(popped + 1).last() == full0[popped]);
                assert(rr2 == (stp.0, stp.1, stp.2, rr.3 + stp.3));
                if !old(self).build_plan {
                    lemma_lookup_bound(pre.counts@, key.pkg);
                    assert(lookup_count(rr.2, key.pkg) == lookup_count(pre.counts@, key.pkg));
                    assert(lookup_count(pre.counts@, key.pkg) >= 1);
                    assert(report_lines(rv) == stp.3);
                    assert(self.compiled@ == stp.0);
                    assert(self.documented@ == stp.1);
                    assert(report_lines(acts@) =~= rr2.3);
                    let cv = ((lookup_count(rr.2, key.pkg) - 1) as nat) as usize;
                    assert(stp.2 == rr.2.push((key.pkg, cv)));
                    assert forall|p: PackageId| #[trigger] lookup_count(self.counts@, p)
                        == lookup_count(rr2.2, p) by {
                        assert(rr2.2.drop_last() =~= rr.2);
                        assert(rr2.2.last() == (key.pkg, cv));
                        assert(lookup_count(pre.counts@, p) == lookup_count(rr.2, p));
                        if p == key.pkg {
                            assert(lookup_count(rr2.2, p) == cv as nat);
                        } else {
                            assert(lookup_count(rr2.2, p) == lookup_count(rr.2, p));
                        }
                    }
                }
                popped = popped + 1;
            }
        }
        proof {
            // how many were handed out: everything, or as many as the
            // budget allowed, or none at all under a recorded error
            if old(self).error is None {
                if self.dispatch@.len() == 0 {
                    assert(popped == full0.len());
                } else {
                    assert(self.active > self.tokens);
                    assert(popped == old(self).tokens + 1 - old(self).active);
                }
            }
        }
        acts
    }

    /// The last step of a turn: gives back every held token beyond what
    /// the remaining active workers can use, so none is hoarded while the
    /// loop blocks for the next event.
    #[verifier::loop_isolation(false)]
    fn trim_tokens(&mut self) -> (acts: Vec<Action>)
        requires
            old(self).wf(),
        ensures
            final(self).wf(),
            final(self).active == old(self).active,
            final(self).queue == old(self).queue,
            final(self).pending@ == old(self).pending@,
            final(self).dispatch@ == old(self).dispatch@,
            final(self).counts@ == old(self).counts@,
            final(self).compiled@ == old(self).compiled@,
            final(self).documented@ == old(self).documented@,
            final(self).error == old(self).error,
            final(self).reports@ == old(self).reports@,
            final(self).is_release == old(self).is_release,
            final(self).build_plan == old(self).build_plan,
            final(self).tokens == (if old(self).active > 0 {
                old(self).active - 1
            } else {
                old(self).tokens as int
            }),
            token_releases(acts@) == old(self).tokens - final(self).tokens,
            report_lines(acts@).len() == 0,
            dispatch_actions(acts@).len() == 0,
            token_requests(acts@) == 0,
    {
        // Drop tokens we hold beyond what the active workers can use.
        let mut acts: Vec<Action> = Vec::new();
        proof {
            reveal_with_fuel(dispatch_actions, 2);
            reveal_with_fuel(token_requests, 2);
            reveal_with_fuel(token_releases, 2);
            reveal_with_fuel(report_lines, 2);
        }
        if self.active > 0 {
            while self.tokens > self.active - 1
                invariant
                    self.wf(),
                    self.active > 0,
                    self.active == old(self).active,
                    self.queue == old(self).queue,
                    self.pending@ == old(self).pending@,
                    self.dispatch@ == old(self).dispatch@,
                    self.counts@ == old(self).counts@,
                    self.compiled@ == old(self).compiled@,
                    self.documented@ == old(self).documented@,
                    self.error == old(self).error,
                    self.reports@ == old(self).reports@,
                    self.is_release == old(self).is_release,
                    self.build_plan == old(self).build_plan,
                    report_lines(acts@).len() == 0,
                    dispatch_actions(acts@).len() == 0,
                    token_requests(acts@) == 0,
                    token_releases(acts@) == old(self).tokens - self.tokens,
                    self.tokens <= old(self).tokens,
                decreases self.tokens,
            {
                self.tokens = self.tokens - 1;
                let ghost acts_pre = acts@;
                acts.push(Action::ReleaseToken);
                proof {
                    lemma_report_lines_push(acts_pre, Action::ReleaseToken);
                    assert(report_lines(acts@) =~= report_lines(acts_pre));
                    lemma_projections_push(acts_pre, Action::ReleaseToken);
                    assert(dispatch_actions(acts@) =~= dispatch_actions(acts_pre));
                }
            }
        }
        acts
    }

    /// One scheduling turn, run before blocking for the next event: the
    /// unblocked nodes move into flight with their pending records, their
    /// jobs join the dispatch queue with their effective freshness, the
    /// front of that queue is handed out while no error is recorded and
    /// the token budget lasts (inline when effectively fresh, on a worker
    /// when dirty), one token is requested per queued job beyond the first
    /// globally active, and held tokens are trimmed to one less than the
    /// workers that remain.
    #[verifier::rlimit(100)]
    pub fn schedule(&mut self) -> (acts: Vec<Action>)
        requires
            old(self).wf(),
            old(self).queue.sealed,
        ensures
            final(self).wf(),
            final(self).queue.sealed,
            final(self).error == old(self).error,
            final(self).active >= old(self).active,
            final(self).reports@ == old(self).reports@ + report_lines(acts@),
            // everything that was ready has been taken; what waits is blocked
            forall|i: int|
                0 <= i < final(self).queue.entries@.len() ==> (#[trigger] final(self).queue.entries@[i]).deps@.len() > 0,
            // if nothing is active and nothing failed, the dispatch queue
            // was fully drained: the loop may terminate without orphans
            (final(self).error is None && final(self).active == 0) ==> final(self).dispatch@.len() == 0,
            final(self).is_release == old(self).is_release,
            final(self).build_plan == old(self).build_plan,
            ({
                let ready = ready_entries(old(self).queue.entries@);
                let full = old(self).dispatch@ + flat_dispatch(ready);
                let n: int = if old(self).error is Some {
                    0int
                } else if full.len() <= old(self).tokens + 1 - old(self).active {
                    full.len() as int
                } else {
                    old(self).tokens + 1 - old(self).active
                };
                &&& final(self).queue.entries@ == blocked_entries(old(self).queue.entries@)
                &&& final(self).queue.in_flight@ == old(self).queue.in_flight@ + entry_keys(ready)
                &&& final(self).queue.finished@ == old(self).queue.finished@
                &&& final(self).pending@.len() == old(self).pending@.len() + ready.len()
                &&& final(self).pending@.take(old(self).pending@.len() as int) == old(self).pending@
                &&& (forall|i: int|
                    0 <= i < ready.len() ==> pending_matches(
                        #[trigger] final(self).pending@[old(self).pending@.len() + i],
                        ready[i],
                    ))
                &&& final(self).dispatch@ == full.skip(n)
                &&& final(self).active == old(self).active + n
                &&& dispatch_actions(acts@) == full.take(n)
                &&& (old(self).build_plan ==> report_lines(acts@).len() == 0)
                // each dispatched job earns exactly the line the
                // once-per-package rule grants it, in dispatch order
                &&& (!old(self).build_plan ==> report_lines(acts@) == report_run(
                    old(self).compiled@,
                    old(self).documented@,
                    old(self).counts@,
                    full.take(n),
                ).3)
                &&& token_requests(acts@) == spec_requests(
                    old(self).active as nat,
                    old(self).dispatch@.len(),
                    flat_dispatch(ready).len(),
                )
                &&& final(self).tokens == (if old(self).active + n > 0 {
                    old(self).active + n - 1
                } else {
                    old(self).tokens as int
                })
                &&& token_releases(acts@) == old(self).tokens - final(self).tokens
            }),
    {
        let ghost ready0 = ready_entries(old(self).queue.entries@);
        let ghost full0 = old(self).dispatch@ + flat_dispatch(ready0);
        let mut acts = self.drain_ready();
        let ghost mid1 = *self;
        let ghost a1 = acts@;
        let mut d = self.dispatch_jobs();
        let ghost a2 = d@;
        acts.append(&mut d);
        let mut t = self.trim_tokens();
        let ghost a3 = t@;
        acts.append(&mut t);
        proof {
            lemma_report_lines_concat(a1, a2);
            lemma_report_lines_concat(a1 + a2, a3);
            lemma_projections_concat(a1, a2);
            lemma_projections_concat(a1 + a2, a3);
            assert(acts@ =~= (a1 + a2) + a3);
            assert(mid1.dispatch@ == full0);
            assert(dispatch_actions(acts@) =~= dispatch_actions(a2));
            assert(token_requests(acts@) == token_requests(a1));
            assert(token_releases(acts@) == token_releases(a3));
            assert(report_lines(acts@) =~= report_lines(a2));
            assert(self.reports@ =~= old(self).reports@ + report_lines(acts@));
            assert(mid1.compiled@ == old(self).compiled@);
            assert(mid1.documented@ == old(self).documented@);
            assert(mid1.counts@ == old(self).counts@);
        }
        acts
    }
}

/// Commutativity of the freshness combine, as a lemma for fold order.
proof fn lemma_combine_comm(a: Freshness, b: Freshness)
    ensures
        a.spec_combine(b) == b.spec_combine(a),
{
}

} // verus!

verus! {

/// Job totals only depend on each entry's key and job list.
proof fn lemma_jobs_for_same(s1: Seq<QueueEntry>, s2: Seq<QueueEntry>, p: PackageId)
    requires
        s1.len() == s2.len(),
        forall|j: int|
            0 <= j < s1.len() ==> (#[trigger] s2[j]).key == s1[j].key && s2[j].jobs@
                == s1[j].jobs@,
    ensures
        jobs_for(s1, p) == jobs_for(s2, p),
    decreases s1.len(),
{
    if s1.len() > 0 {
        assert(s2.drop_last().len() == s1.drop_last().len());
        assert forall|j: int| 0 <= j < s1.drop_last().len() implies (#[trigger] s2.drop_last()[j]).key
            == s1.drop_last()[j].key && s2.drop_last()[j].jobs@ == s1.drop_last()[j].jobs@ by {
            assert(s2.drop_last()[j] == s2[j]);
            assert(s1.drop_last()[j] == s1[j]);
        }
        lemma_jobs_for_same(s1.drop_last(), s2.drop_last(), p);
        assert(s2.last() == s2[s1.len() - 1]);
        assert(s1.last() == s1[s1.len() - 1]);
    }
}

impl JobQueue {
    /// Books one successful job completion for `key`: when it was the
    /// unit's last outstanding job, the unit's accumulated verdict is
    /// finalized into the dependency queue, unblocking dependents. A
    /// custom-build-script unit whose package surfaces warnings gets its
    /// buffered warnings flushed.
    #[verifier::loop_isolation(false)]
    fn finish(&mut self, key: &Key, show_warnings: bool) -> (acts: Vec<Action>)
        requires
            old(self).wf(),
            old(self).queue.in_flight@.contains(*key),
        ensures
            final(self).wf(),
            final(self).queue.sealed == old(self).queue.sealed,
            final(self).active == old(self).active,
            final(self).tokens == old(self).tokens,
            final(self).dispatch@ == old(self).dispatch@,
            final(self).compiled@ == old(self).compiled@,
            final(self).documented@ == old(self).documented@,
            final(self).counts@ == old(self).counts@,
            final(self).reports@ == old(self).reports@,
            final(self).error == old(self).error,
            final(self).is_release == old(self).is_release,
            final(self).build_plan == old(self).build_plan,
            acts@ == if key.mode is RunCustomBuild && show_warnings {
                seq![Action::EmitWarnings { key: *key, framed: false }]
            } else {
                Seq::<Action>::empty()
            },
            exists|i: int|
                {
                    &&& 0 <= i < old(self).pending@.len()
                    &&& (#[trigger] old(self).pending@[i]).0 == *key
                    &&& old(self).pending@[i].1.amt >= 1
                    &&& final(self).pending@ == old(self).pending@.update(
                        i,
                        (
                            *key,
                            PendingBuild {
                                amt: (old(self).pending@[i].1.amt - 1) as usize,
                                fresh: old(self).pending@[i].1.fresh,
                                jobs: old(self).pending@[i].1.jobs,
                                dep_fresh: old(self).pending@[i].1.dep_fresh,
                            },
                        ),
                    )
                    &&& (old(self).pending@[i].1.amt == 1 ==> final(self).queue.finished@ == old(self).queue.finished@.push((*key, old(self).pending@[i].1.fresh)) && final(self).queue.entries@.len() == old(self).queue.entries@.len())
                    &&& (old(self).pending@[i].1.amt > 1 ==> final(self).queue == old(self).queue)
                },
    {
        let mut acts: Vec<Action> = Vec::new();
        if key.mode.is_run_custom_build() && show_warnings {
            acts.push(Action::EmitWarnings { key: *key, framed: false });
            proof {
                assert(acts@ =~= seq![Action::EmitWarnings { key: *key, framed: false }]);
            }
        }
        // The key is in flight, so its pending record exists and has
        // outstanding jobs.
        proof {
            assert(old(self).pending_keys().contains(*key));
        }
        let mut i: usize = 0;
        let mut idx: usize = 0;
        let mut found = false;
        let pending_len = self.pending.len();
        while i < pending_len
            invariant
                i <= self.pending@.len(),
                pending_len == self.pending@.len(),
                *self == *old(self),
                !found ==> forall|j: int| 0 <= j < i ==> (#[trigger] self.pending@[j]).0 != *key,
                found ==> idx < self.pending@.len() && self.pending@[idx as int].0 == *key,
            decreases self.pending@.len() - i,
        {
            if !found && self.pending[i].0 == *key {
                found = true;
                idx = i;
            }
            i = i + 1;
        }
        proof {
            if !found {
                let w = choose|w: int|
                    0 <= w < self.pending_keys().len() && self.pending_keys()[w] == *key;
                assert(self.pending@[w].0 == *key);
                assert(false);
            }
        }
        let ghost oldq = *old(self);
        let entry = self.pending.remove(idx);
        let amt0 = entry.1.amt;
        let fresh0 = entry.1.fresh;
        proof {
            assert(oldq.pending@[idx as int].1.amt > 0);
        }
        self.pending.insert(
            idx,
            (
                *key,
                PendingBuild {
                    amt: amt0 - 1,
                    fresh: fresh0,
                    jobs: entry.1.jobs,
                    dep_fresh: entry.1.dep_fresh,
                },
            ),
        );
        proof {
            assert(self.pending@ =~= oldq.pending@.update(
                idx as int,
                (
                    *key,
                    PendingBuild {
                        amt: (amt0 - 1) as usize,
                        fresh: fresh0,
                        jobs: entry.1.jobs,
                        dep_fresh: entry.1.dep_fresh,
                    },
                ),
            ));
            assert(self.pending_keys() =~= oldq.pending_keys());
            assert forall|w: int|
                0 <= w < self.pending@.len() implies (#[trigger] self.pending@[w]).1.fresh
                == combine_jobs(self.pending@[w].1.dep_fresh@, self.pending@[w].1.jobs@) by {
                if w != idx {
                    assert(self.pending@[w] == oldq.pending@[w]);
                } else {
                    assert(self.pending@[w].1.fresh == oldq.pending@[w].1.fresh);
                    assert(self.pending@[w].1.jobs == oldq.pending@[w].1.jobs);
                    assert(self.pending@[w].1.dep_fresh == oldq.pending@[w].1.dep_fresh);
                }
            }
        }
        if amt0 - 1 == 0 {
            self.queue.finish(key, fresh0);
            proof {
                let j0 = choose|j: int|
                    {
                        &&& 0 <= j < oldq.queue.in_flight@.len()
                        &&& oldq.queue.in_flight@[j] == *key
                        &&& self.queue.in_flight@ == oldq.queue.in_flight@.remove(j)
                    };
                oldq.queue.in_flight@.remove_ensures(j0);
                assert forall|p: PackageId| #[trigger] lookup_count(self.counts@, p) == jobs_for(
                    self.queue.entries@,
                    p,
                ) + dispatch_for(self.dispatch@, p) by {
                    lemma_jobs_for_same(oldq.queue.entries@, self.queue.entries@, p);
                }
                assert forall|w: int| 0 <= w < self.pending@.len() implies ((
                #[trigger] self.pending@[w]).1.amt > 0 <==> self.queue.in_flight@.contains(
                    self.pending@[w].0,
                )) by {
                    if w == idx {
                        assert(self.pending@[w].1.amt == 0);
                        if self.queue.in_flight@.contains(*key) {
                            let v = choose|v: int|
                                0 <= v < self.queue.in_flight@.len() && self.queue.in_flight@[v]
                                    == *key;
                            if v < j0 {
                                assert(oldq.queue.in_flight@[v] == *key);
                                assert(!oldq.queue.in_flight@.no_duplicates());
                            } else {
                                assert(oldq.queue.in_flight@[v + 1] == *key);
                                assert(!oldq.queue.in_flight@.no_duplicates());
                            }
                        }
                    } else {
                        assert(self.pending@[w] == oldq.pending@[w]);
                        assert(oldq.pending@[w].0 != *key) by {
                            if oldq.pending@[w].0 == *key {
                                assert(oldq.pending_keys()[w] == *key);
                                assert(oldq.pending_keys()[idx as int] == *key);
                                assert(!oldq.pending_keys().no_duplicates());
                            }
                        }
                        assert(oldq.queue.in_flight@.contains(oldq.pending@[w].0)
                            <==> self.queue.in_flight@.contains(oldq.pending@[w].0)) by {
                            if oldq.queue.in_flight@.contains(oldq.pending@[w].0) {
                                let v = choose|v: int|
                                    0 <= v < oldq.queue.in_flight@.len()
                                        && oldq.queue.in_flight@[v] == oldq.pending@[w].0;
                                if v < j0 {
                                    assert(self.queue.in_flight@[v] == oldq.pending@[w].0);
                                } else if v > j0 {
                                    assert(self.queue.in_flight@[v - 1] == oldq.pending@[w].0);
                                } else {
                                }
                            }
                            if self.queue.in_flight@.contains(oldq.pending@[w].0) {
                                let v = choose|v: int|
                                    0 <= v < self.queue.in_flight@.len()
                                        && self.queue.in_flight@[v] == oldq.pending@[w].0;
                                if v < j0 {
                                    assert(oldq.queue.in_flight@[v] == oldq.pending@[w].0);
                                } else {
                                    assert(oldq.queue.in_flight@[v + 1] == oldq.pending@[w].0);
                                }
                            }
                        }
                    }
                }
                assert forall|w: int| 0 <= w < self.pending@.len() implies self
                    .queue.in_flight@.contains((#[trigger] self.pending@[w]).0)
                    || self.queue.is_finished(self.pending@[w].0) by {
                    assert(self.queue.finished_keys() =~= oldq.queue.finished_keys().push(*key));
                    if w == idx {
                        assert(self.queue.finished_keys().last() == *key);
                    } else {
                        assert(self.pending@[w] == oldq.pending@[w]);
                        if oldq.queue.in_flight@.contains(oldq.pending@[w].0) {
                            if oldq.pending@[w].1.amt > 0 {
                                assert(self.pending@[w].1.amt > 0);
                                assert(self.queue.in_flight@.contains(self.pending@[w].0));
                            } else {
                                assert(!oldq.queue.in_flight@.contains(oldq.pending@[w].0));
                            }
                        } else {
                            assert(oldq.queue.is_finished(oldq.pending@[w].0));
                            let v = choose|v: int|
                                0 <= v < oldq.queue.finished_keys().len()
                                    && oldq.queue.finished_keys()[v] == oldq.pending@[w].0;
                            assert(self.queue.finished_keys()[v] == oldq.pending@[w].0);
                        }
                    }
                }
                assert forall|k2: Key| self.queue.in_flight@.contains(k2) implies self
                    .pending_keys().contains(k2) by {
                    let v = choose|v: int|
                        0 <= v < self.queue.in_flight@.len() && self.queue.in_flight@[v] == k2;
                    if v < j0 {
                        assert(oldq.queue.in_flight@[v] == k2);
                    } else {
                        assert(oldq.queue.in_flight@[v + 1] == k2);
                    }
                    assert(oldq.queue.in_flight@.contains(k2));
                    assert(oldq.pending_keys().contains(k2));
                }
            }
        } else {
            proof {
                assert forall|w: int| 0 <= w < self.pending@.len() implies ((
                #[trigger] self.pending@[w]).1.amt > 0 <==> self.queue.in_flight@.contains(
                    self.pending@[w].0,
                )) by {
                    if w != idx {
                        assert(self.pending@[w] == oldq.pending@[w]);
                    }
                }
                assert forall|w: int| 0 <= w < self.pending@.len() implies self
                    .queue.in_flight@.contains((#[trigger] self.pending@[w]).0)
                    || self.queue.is_finished(self.pending@[w].0) by {
                    if w != idx {
                        assert(self.pending@[w] == oldq.pending@[w]);
                    }
                }
            }
        }
        acts
    }
}

} // verus!

verus! {

impl JobQueue {
    /// Handles exactly one event received after a scheduling turn.
    ///
    /// A token grant adds to the held pool; a token failure is fatal (first
    /// error wins) but already-active jobs are still drained. A finished job
    /// lowers the active count, gives back one excess token while others
    /// still run, and on success finalizes the unit; on failure the error is
    /// recorded (first error wins), buffered warnings are flushed, and when
    /// siblings are still active they are left to finish, with a notice.
    /// `show_warnings` is the configured policy for the finishing unit's
    /// package; it matters only for a custom-build unit that succeeds.
    pub fn on_event(&mut self, event: Event, show_warnings: bool) -> (acts: Vec<Action>)
        requires
            old(self).wf(),
            old(self).queue.sealed,
            match event {
                Event::Token(r) => r is Ok ==> old(self).tokens + 1 < usize::MAX,
                Event::Finish(k, _) => old(self).active >= 1 && old(self).queue.in_flight@.contains(k),
                _ => true,
            },
        ensures
            final(self).wf(),
            final(self).queue.sealed,
            final(self).is_release == old(self).is_release,
            final(self).build_plan == old(self).build_plan,
            final(self).reports@ == old(self).reports@,
            final(self).dispatch@ == old(self).dispatch@,
            final(self).compiled@ == old(self).compiled@,
            final(self).documented@ == old(self).documented@,
            final(self).counts@ == old(self).counts@,
            match event {
                Event::Run(s) => *final(self) == *old(self) && acts@ =~= seq![
                    Action::Echo(EchoKind::RunningVerbose, s),
                ],
                Event::BuildPlanMsg(s) => *final(self) == *old(self) && acts@ =~= seq![
                    Action::Echo(EchoKind::BuildPlan, s),
                ],
                Event::Stdout(s) => *final(self) == *old(self) && acts@ =~= seq![
                    Action::Echo(EchoKind::StdoutExtraVerbose, s),
                ],
                Event::Stderr(s) => *final(self) == *old(self) && acts@ =~= seq![
                    Action::Echo(EchoKind::StderrExtraVerbose, s),
                ],
                Event::Token(r) => {
                    &&& acts@.len() == 0
                    &&& final(self).active == old(self).active
                    &&& final(self).pending@ == old(self).pending@
                    &&& final(self).queue == old(self).queue
                    &&& (r is Ok ==> final(self).tokens == old(self).tokens + 1 && final(self).error == old(self).error)
                    &&& (r matches Err(m) ==> final(self).tokens == old(self).tokens && final(self).error == (if old(self).error is None {
                        Some(BuildError::TokenFailed { message: m })
                    } else {
                        old(self).error
                    }))
                },
                Event::Finish(k, res) => {
                    &&& final(self).active == old(self).active - 1
                    &&& final(self).tokens == (if old(self).active - 1 > 0 {
                        old(self).tokens - 1
                    } else {
                        old(self).tokens as int
                    })
                    &&& (res is Ok ==> final(self).error == old(self).error && exists|i: int|
                        {
                            &&& 0 <= i < old(self).pending@.len()
                            &&& (#[trigger] old(self).pending@[i]).0 == k
                            &&& old(self).pending@[i].1.amt >= 1
                            &&& final(self).pending@ == old(self).pending@.update(
                                i,
                                (
                                    k,
                                    PendingBuild {
                                        amt: (old(self).pending@[i].1.amt - 1) as usize,
                                        fresh: old(self).pending@[i].1.fresh,
                                        jobs: old(self).pending@[i].1.jobs,
                                        dep_fresh: old(self).pending@[i].1.dep_fresh,
                                    },
                                ),
                            )
                            &&& (old(self).pending@[i].1.amt == 1 ==> final(self).queue.finished@ == old(self).queue.finished@.push(
                                (k, old(self).pending@[i].1.fresh),
                            ))
                            &&& (old(self).pending@[i].1.amt > 1 ==> final(self).queue == old(self).queue)
                        })
                    // on success the actions are exactly: one token given
                    // back while siblings still run, then the warning flush
                    // for a custom-build unit whose package surfaces them
                    &&& (res is Ok ==> acts@.len() == (if old(self).active - 1 > 0 {
                        1int
                    } else {
                        0int
                    }) + (if k.mode is RunCustomBuild && show_warnings {
                        1int
                    } else {
                        0int
                    }))
                    &&& (res is Ok && old(self).active - 1 > 0 ==> acts@[0]
                        == Action::ReleaseToken)
                    &&& (res is Ok && k.mode is RunCustomBuild && show_warnings ==> acts@[acts@.len()
                        - 1] == Action::EmitWarnings { key: k, framed: false })
                    &&& (res matches Err(e) ==> {
                        &&& final(self).pending@ == old(self).pending@
                        &&& final(self).queue == old(self).queue
                        &&& final(self).error == (if old(self).error is None {
                            Some(BuildError::JobFailed { key: k, message: e.message })
                        } else {
                            old(self).error
                        })
                        // on failure the actions are exactly: one token
                        // given back while siblings still run, the framed
                        // warning flush, and — only while siblings drain —
                        // the printed error and the notice to wait
                        &&& acts@.len() == (if old(self).active - 1 > 0 {
                            4int
                        } else {
                            1int
                        })
                        &&& (old(self).active - 1 > 0 ==> acts@[0] == Action::ReleaseToken
                            && acts@[1] == Action::EmitWarnings { key: k, framed: true }
                            && acts@[2] == Action::ReportError(e.message) && (acts@[3]
                            matches Action::Warn(m) && m@
                            == "build failed, waiting for other jobs to finish..."@))
                        &&& (old(self).active - 1 == 0 ==> acts@[0] == Action::EmitWarnings {
                            key: k,
                            framed: true,
                        })
                    })
                },
            },
    {
        match event {
            Event::Run(s) => {
                let mut acts: Vec<Action> = Vec::new();
                acts.push(Action::Echo(EchoKind::RunningVerbose, s));
                acts
            },
            Event::BuildPlanMsg(s) => {
                let mut acts: Vec<Action> = Vec::new();
                acts.push(Action::Echo(EchoKind::BuildPlan, s));
                acts
            },
            Event::Stdout(s) => {
                let mut acts: Vec<Action> = Vec::new();
                acts.push(Action::Echo(EchoKind::StdoutExtraVerbose, s));
                acts
            },
            Event::Stderr(s) => {
                let mut acts: Vec<Action> = Vec::new();
                acts.push(Action::Echo(EchoKind::StderrExtraVerbose, s));
                acts
            },
            Event::Token(r) => {
                match r {
                    Ok(()) => {
                        self.tokens = self.tokens + 1;
                    },
                    Err(m) => {
                        if self.error.is_none() {
                            self.error = Some(BuildError::TokenFailed { message: m });
                        }
                    },
                }
                Vec::new()
            },
            Event::Finish(key, res) => {
                self.active = self.active - 1;
                let mut acts: Vec<Action> = Vec::new();
                if self.active > 0 {
                    // one excess token is no longer needed
                    self.tokens = self.tokens - 1;
                    acts.push(Action::ReleaseToken);
                }
                match res {
                    Ok(()) => {
                        let mut facts = self.finish(&key, show_warnings);
                        let ghost fv = facts@;
                        let ghost pre = acts@;
                        acts.append(&mut facts);
                        proof {
                            if key.mode is RunCustomBuild && show_warnings {
                                assert(acts@[pre.len() as int] == Action::EmitWarnings {
                                    key,
                                    framed: false,
                                });
                            }
                        }
                        acts
                    },
                    Err(e) => {
                        acts.push(Action::EmitWarnings { key, framed: true });
                        proof {
                            assert(acts@.last() == Action::EmitWarnings { key, framed: true });
                        }
                        if self.active > 0 {
                            if self.error.is_none() {
                                self.error = Some(
                                    BuildError::JobFailed { key, message: e.message.clone() },
                                );
                            }
                            acts.push(Action::ReportError(e.message));
                            acts.push(
                                Action::Warn(
                                    "build failed, waiting for other jobs to finish...".to_owned(),
                                ),
                            );
                            proof {
                                assert(acts@.contains(
                                    Action::EmitWarnings { key, framed: true },
                                )) by {
                                    assert(acts@[acts@.len() - 3] == Action::EmitWarnings {
                                        key,
                                        framed: true,
                                    });
                                }
                            }
                        } else {
                            if self.error.is_none() {
                                self.error = Some(
                                    BuildError::JobFailed { key, message: e.message },
                                );
                            }
                            proof {
                                assert(acts@.contains(
                                    Action::EmitWarnings { key, framed: true },
                                )) by {
                                    assert(acts@[acts@.len() - 1] == Action::EmitWarnings {
                                        key,
                                        framed: true,
                                    });
                                }
                            }
                        }
                        acts
                    },
                }
            },
        }
    }

    /// The terminal result, read once nothing is active any more (the loop
    /// never ends while a worker runs). An error recorded during the run is
    /// propagated; otherwise an empty queue means success, and a non-empty
    /// one an internal invariant violation, impossible for the acyclic
    /// graphs the planner hands over.
    pub fn outcome(self) -> (r: Result<(), BuildError>)
        requires
            self.active == 0,
        ensures
            self.error is Some ==> (r matches Err(e) && Some(e) == self.error),
            self.error is None && self.queue.entries@.len() == 0 && self.queue.in_flight@.len()
                == 0 ==> r is Ok,
            self.error is None && (self.queue.entries@.len() > 0 || self.queue.in_flight@.len()
                > 0) ==> (r matches Err(e) && e is Internal),
    {
        match self.error {
            Some(e) => Err(e),
            None => {
                if self.queue.is_empty() {
                    Ok(())
                } else {
                    Err(BuildError::Internal)
                }
            },
        }
    }
}

/// The token bound: a well-formed machine never has more active workers
/// than held tokens plus the one implicit slot that always lets the build
/// make progress.
pub proof fn lemma_token_bound(q: JobQueue)
    requires
        q.wf(),
    ensures
        q.active <= q.tokens + 1,
{
}

/// Across a whole run, each package is reported at most once with
/// "Compiling" or "Checking", and at most once with "Documenting", no
/// matter how many jobs it has.
pub proof fn lemma_at_most_one_report(q: JobQueue)
    requires
        q.wf(),
    ensures
        reports_distinct(q.reports@),
{
}

} // verus!

verus! {

/// The fold of verdicts is Dirty exactly when the seed or some job is.
proof fn lemma_combine_jobs_dirty(init: Freshness, jobs: Seq<QueuedJob>)
    ensures
        combine_jobs(init, jobs) is Dirty <==> (init is Dirty || exists|j: int|
            0 <= j < jobs.len() && (#[trigger] jobs[j]).fresh is Dirty),
    decreases jobs.len(),
{
    if jobs.len() > 0 {
        lemma_combine_jobs_dirty(init, jobs.drop_last());
        if combine_jobs(init, jobs.drop_last()) is Dirty {
            if !(init is Dirty) {
                let j = choose|j: int|
                    0 <= j < jobs.drop_last().len() && (#[trigger] jobs.drop_last()[j]).fresh
                        is Dirty;
                assert(jobs[j].fresh is Dirty);
            }
        }
        if jobs.last().fresh is Dirty {
            assert(jobs[jobs.len() - 1].fresh is Dirty);
        }
        if exists|j: int| 0 <= j < jobs.len() && (#[trigger] jobs[j]).fresh is Dirty {
            let j = choose|j: int| 0 <= j < jobs.len() && (#[trigger] jobs[j]).fresh is Dirty;
            if j < jobs.len() - 1 {
                assert(jobs.drop_last()[j].fresh is Dirty);
            }
        }
    }
}

/// A unit is never considered fresher than the weakest verdict among its
/// own jobs: one Dirty job, or a Dirty verdict handed down by its
/// dependencies, taints the unit's accumulated verdict.
pub proof fn lemma_unit_no_fresher_than_jobs(q: JobQueue, i: int)
    requires
        q.wf(),
        0 <= i < q.pending@.len(),
    ensures
        q.pending@[i].1.dep_fresh@ is Dirty ==> q.pending@[i].1.fresh is Dirty,
        (exists|j: int|
            0 <= j < q.pending@[i].1.jobs@.len() && (#[trigger] q.pending@[i].1.jobs@[j]).fresh
                is Dirty) ==> q.pending@[i].1.fresh is Dirty,
{
    lemma_combine_jobs_dirty(q.pending@[i].1.dep_fresh@, q.pending@[i].1.jobs@);
}

} // verus!

verus! {

/// The dispatch entries one unblocked node contributes: each of its jobs
/// with its effective freshness — the job's own tag combined with the
/// verdict the node's dependencies handed down.
pub open spec fn entry_dispatch(e: QueueEntry) -> Seq<(Key, Job, Freshness)> {
    e.jobs@.map_values(|qj: QueuedJob| (e.key, qj.job, qj.fresh.spec_combine(e.fresh)))
}

/// The nodes of the list that are unblocked right now, in order.
pub open spec fn ready_entries(entries: Seq<QueueEntry>) -> Seq<QueueEntry>
    decreases entries.len(),
{
    if entries.len() == 0 {
        Seq::empty()
    } else {
        (if entries[0].deps@.len() == 0 {
            seq![entries[0]]
        } else {
            Seq::empty()
        }) + ready_entries(entries.drop_first())
    }
}

/// The nodes of the list that stay blocked, in order.
pub open spec fn blocked_entries(entries: Seq<QueueEntry>) -> Seq<QueueEntry>
    decreases entries.len(),
{
    if entries.len() == 0 {
        Seq::empty()
    } else {
        (if entries[0].deps@.len() > 0 {
            seq![entries[0]]
        } else {
            Seq::empty()
        }) + blocked_entries(entries.drop_first())
    }
}

/// The dispatch entries of a list of nodes, concatenated in order.
pub open spec fn flat_dispatch(es: Seq<QueueEntry>) -> Seq<(Key, Job, Freshness)>
    decreases es.len(),
{
    if es.len() == 0 {
        Seq::empty()
    } else {
        entry_dispatch(es[0]) + flat_dispatch(es.drop_first())
    }
}

/// The keys of a list of nodes.
pub open spec fn entry_keys(es: Seq<QueueEntry>) -> Seq<Key> {
    es.map_values(|e: QueueEntry| e.key)
}

/// The dispatched jobs among a list of actions, in order, with the
/// freshness the variant encodes: inline runs are fresh, spawned ones
/// dirty.
pub open spec fn dispatch_actions(acts: Seq<Action>) -> Seq<(Key, Job, Freshness)>
    decreases acts.len(),
{
    if acts.len() == 0 {
        Seq::empty()
    } else {
        dispatch_actions(acts.drop_last()) + match acts.last() {
            Action::RunInline(k, j) => seq![(k, j, Freshness::Fresh)],
            Action::Spawn(k, j) => seq![(k, j, Freshness::Dirty)],
            _ => Seq::empty(),
        }
    }
}

/// How many tokens a list of actions requests.
pub open spec fn token_requests(acts: Seq<Action>) -> nat
    decreases acts.len(),
{
    if acts.len() == 0 {
        0
    } else {
        token_requests(acts.drop_last()) + if acts.last() is RequestToken {
            1nat
        } else {
            0nat
        }
    }
}

/// How many tokens a list of actions gives back.
pub open spec fn token_releases(acts: Seq<Action>) -> nat
    decreases acts.len(),
{
    if acts.len() == 0 {
        0
    } else {
        token_releases(acts.drop_last()) + if acts.last() is ReleaseToken {
            1nat
        } else {
            0nat
        }
    }
}

/// One token is requested for every queued job beyond the first globally
/// active: with no worker running and nothing awaiting dispatch, the
/// very first job needs none.
pub open spec fn spec_requests(active: nat, predispatch: nat, pushed: nat) -> nat {
    if active == 0 && predispatch == 0 && pushed > 0 {
        (pushed - 1) as nat
    } else {
        pushed
    }
}

/// A pending record is exactly the bookkeeping of the node it was created
/// from.
pub open spec fn pending_matches(p: (Key, PendingBuild), e: QueueEntry) -> bool {
    &&& p.0 == e.key
    &&& p.1.amt == e.jobs@.len()
    &&& p.1.fresh == combine_jobs(e.fresh, e.jobs@)
    &&& p.1.jobs@ == e.jobs@
    &&& p.1.dep_fresh@ == e.fresh
}

proof fn lemma_projections_push(acts: Seq<Action>, a: Action)
    ensures
        dispatch_actions(acts.push(a)) == dispatch_actions(acts) + match a {
            Action::RunInline(k, j) => seq![(k, j, Freshness::Fresh)],
            Action::Spawn(k, j) => seq![(k, j, Freshness::Dirty)],
            _ => Seq::<(Key, Job, Freshness)>::empty(),
        },
        token_requests(acts.push(a)) == token_requests(acts) + (if a is RequestToken {
            1nat
        } else {
            0nat
        }),
        token_releases(acts.push(a)) == token_releases(acts) + (if a is ReleaseToken {
            1nat
        } else {
            0nat
        }),
{
    assert(acts.push(a).drop_last() =~= acts);
    assert(acts.push(a).last() == a);
}

proof fn lemma_projections_concat(a: Seq<Action>, b: Seq<Action>)
    ensures
        dispatch_actions(a + b) == dispatch_actions(a) + dispatch_actions(b),
        token_requests(a + b) == token_requests(a) + token_requests(b),
        token_releases(a + b) == token_releases(a) + token_releases(b),
    decreases b.len(),
{
    if b.len() == 0 {
        assert(a + b =~= a);
        assert(dispatch_actions(a) + dispatch_actions(b) =~= dispatch_actions(a));
    } else {
        lemma_projections_concat(a, b.drop_last());
        assert((a + b).drop_last() =~= a + b.drop_last());
        assert((a + b).last() == b.last());
        assert(dispatch_actions(a) + dispatch_actions(b) =~= dispatch_actions(a + b));
    }
}

/// Taking the first unblocked node out front-splits the ready list and
/// keeps the blocked one.
proof fn lemma_ready_split(s: Seq<QueueEntry>, i: int)
    requires
        0 <= i < s.len(),
        s[i].deps@.len() == 0,
        forall|j: int| 0 <= j < i ==> (#[trigger] s[j]).deps@.len() > 0,
    ensures
        ready_entries(s) == seq![s[i]] + ready_entries(s.remove(i)),
        blocked_entries(s) == blocked_entries(s.remove(i)),
    decreases i,
{
    s.remove_ensures(i);
    if i == 0 {
        assert(s.remove(0) =~= s.drop_first());
    } else {
        let t = s.drop_first();
        assert(s[0].deps@.len() > 0);
        assert(s.remove(i)[0] == s[0]);
        assert(s.remove(i).drop_first() =~= t.remove(i - 1)) by {
            t.remove_ensures(i - 1);
            assert forall|w: int|
                0 <= w < s.remove(i).drop_first().len() implies s.remove(i).drop_first()[w]
                == t.remove(i - 1)[w] by {
                if w < i - 1 {
                    assert(s.remove(i)[w + 1] == s[w + 1]);
                    assert(t.remove(i - 1)[w] == t[w]);
                } else {
                    assert(s.remove(i)[w + 1] == s[w + 2]);
                    assert(t.remove(i - 1)[w] == t[w + 1]);
                }
            }
        }
        assert forall|j: int| 0 <= j < i - 1 implies (#[trigger] t[j]).deps@.len() > 0 by {
            assert(t[j] == s[j + 1]);
        }
        assert(t[i - 1] == s[i]);
        lemma_ready_split(t, i - 1);
        assert(ready_entries(s) == ready_entries(t));
        assert(ready_entries(s.remove(i)) == ready_entries(s.remove(i).drop_first()));
        assert(blocked_entries(s) == seq![s[0]] + blocked_entries(t));
        assert(blocked_entries(s.remove(i)) == seq![s[0]] + blocked_entries(
            s.remove(i).drop_first(),
        ));
    }
}

/// A list with every node blocked has no ready nodes and stays whole.
proof fn lemma_all_blocked(s: Seq<QueueEntry>)
    requires
        forall|i: int| 0 <= i < s.len() ==> (#[trigger] s[i]).deps@.len() > 0,
    ensures
        ready_entries(s) == Seq::<QueueEntry>::empty(),
        blocked_entries(s) == s,
    decreases s.len(),
{
    if s.len() > 0 {
        let t = s.drop_first();
        assert forall|j: int| 0 <= j < t.len() implies (#[trigger] t[j]).deps@.len() > 0 by {
            assert(t[j] == s[j + 1]);
        }
        lemma_all_blocked(t);
        assert(blocked_entries(s) =~= s);
    }
}

/// Appending one node at the end adds its jobs and its key at the end.
proof fn lemma_flat_snoc(s: Seq<QueueEntry>, e: QueueEntry)
    ensures
        flat_dispatch(s.push(e)) == flat_dispatch(s) + entry_dispatch(e),
        entry_keys(s.push(e)) =~= entry_keys(s).push(e.key),
    decreases s.len(),
{
    if s.len() == 0 {
        reveal_with_fuel(flat_dispatch, 3);
        assert(s.push(e)[0] == e);
        assert(s.push(e).drop_first() =~= Seq::<QueueEntry>::empty());
        assert(flat_dispatch(s.push(e).drop_first()) == flat_dispatch(
            Seq::<QueueEntry>::empty(),
        ));
        assert(flat_dispatch(s.push(e)) =~= entry_dispatch(e));
        assert(flat_dispatch(s) + entry_dispatch(e) =~= entry_dispatch(e));
    } else {
        assert(s.push(e)[0] == s[0]);
        assert(s.push(e).drop_first() =~= s.drop_first().push(e));
        lemma_flat_snoc(s.drop_first(), e);
        assert(flat_dispatch(s.push(e).drop_first()) == flat_dispatch(s.drop_first().push(e)));
        assert(flat_dispatch(s.push(e)) =~= flat_dispatch(s) + entry_dispatch(e));
    }
}

} // verus!
