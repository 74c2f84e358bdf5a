//! Background jobs: their numbers, and what `jobs` and the reaping before each
//! command report about them.

use vstd::prelude::*;
use crate::text::{
    decimal, push_chars, push_decimal, push_str_chars, str_chars, string_from_chars,
    trim_end_matches_chars, trim_end_matches_spec,
};

verus! {

/// A background job: its number and the command line that started it.
pub struct Jobs {
    pub job_num: usize,
    pub cmd: String,
}

/// The background jobs, oldest first.
pub struct JobTable {
    jobs: Vec<Jobs>,
}

/// What is known of a job's process when the shell checks on it.
#[derive(Clone, Copy, Debug, PartialEq, Eq, Structural)]
pub enum JobStatus {
    /// Still running.
    Running,
    /// Finished.
    Done,
    /// The check failed.
    Unknown,
}

/// The text a report prints, and the numbers of the jobs it removed because they finished.
pub struct JobsReport {
    pub output: String,
    pub finished: Vec<usize>,
}

/// A job as a plain value: its number and its command line.
pub open spec fn job_view(j: Jobs) -> (nat, Seq<char>) {
    (j.job_num as nat, j.cmd@)
}

impl View for JobTable {
    type V = Seq<(nat, Seq<char>)>;

    closed spec fn view(&self) -> Seq<(nat, Seq<char>)> {
        self.jobs@.map_values(|j: Jobs| job_view(j))
    }
}

/// The numbers of the jobs in `jobs`.
pub open spec fn job_nums(jobs: Seq<(nat, Seq<char>)>) -> Seq<nat> {
    jobs.map_values(|j: (nat, Seq<char>)| j.0)
}

/// The marker shown after the number of the job at position `i` of `n`: `+` for the
/// newest, `-` for the one before it.
pub open spec fn job_marker(i: int, n: int) -> char {
    if i == n - 1 {
        '+'
    } else if i == n - 2 {
        '-'
    } else {
        ' '
    }
}

/// `[N]M`, the start of each line about a job.
pub open spec fn job_prefix(num: nat, marker: char) -> Seq<char> {
    "["@ + decimal(num) + "]"@ + seq![marker]
}

/// The command line shown for a finished job: without trailing ` &`.
pub open spec fn done_cmd(cmd: Seq<char>) -> Seq<char> {
    trim_end_matches_spec(cmd, " &"@)
}

/// The line that `jobs` prints about one job.
pub open spec fn jobs_line(job: (nat, Seq<char>), st: JobStatus, marker: char) -> Seq<char> {
    match st {
        JobStatus::Running => job_prefix(job.0, marker) + "  Running                 "@ + job.1 + "\n"@,
        JobStatus::Done => job_prefix(job.0, marker) + "  Done                 "@ + done_cmd(job.1) + "\n"@,
        JobStatus::Unknown => Seq::empty(),
    }
}

/// The line printed about one job when finished jobs are reaped before a command.
pub open spec fn reap_line(job: (nat, Seq<char>), st: JobStatus, marker: char) -> Seq<char> {
    match st {
        JobStatus::Done => job_prefix(job.0, marker) + "  Done                    "@ + done_cmd(job.1) + "\n"@,
        _ => Seq::empty(),
    }
}

/// The lines about the first `k` jobs (those of `jobs` when `reap` is false, those of
/// the reaping otherwise).
pub open spec fn report_text(
    jobs: Seq<(nat, Seq<char>)>,
    st: Seq<JobStatus>,
    k: int,
    reap: bool,
) -> Seq<char>
    decreases k,
{
    if k <= 0 {
        Seq::empty()
    } else {
        let m = job_marker(k - 1, jobs.len() as int);
        report_text(jobs, st, k - 1, reap) + if reap {
            reap_line(jobs[k - 1], st[k - 1], m)
        } else {
            jobs_line(jobs[k - 1], st[k - 1], m)
        }
    }
}

/// The first `k` jobs without the finished ones.
pub open spec fn kept_jobs(jobs: Seq<(nat, Seq<char>)>, st: Seq<JobStatus>, k: int) -> Seq<
    (nat, Seq<char>),
>
    decreases k,
{
    if k <= 0 {
        Seq::empty()
    } else if st[k - 1] == JobStatus::Done {
        kept_jobs(jobs, st, k - 1)
    } else {
        kept_jobs(jobs, st, k - 1).push(jobs[k - 1])
    }
}

/// The numbers of the finished jobs among the first `k`.
pub open spec fn finished_jobs(jobs: Seq<(nat, Seq<char>)>, st: Seq<JobStatus>, k: int) -> Seq<nat>
    decreases k,
{
    if k <= 0 {
        Seq::empty()
    } else if st[k - 1] == JobStatus::Done {
        finished_jobs(jobs, st, k - 1).push(jobs[k - 1].0)
    } else {
        finished_jobs(jobs, st, k - 1)
    }
}

/// `[N] PID`, the line printed when a background job starts.
pub open spec fn job_started_spec(num: nat, pid: nat) -> Seq<char> {
    "["@ + decimal(num) + "] "@ + decimal(pid) + "\n"@
}

/// The line printed when job `job_num` starts as process `pid`.
pub fn job_started_message(job_num: usize, pid: u32) -> (r: String)
    ensures
        r@ == job_started_spec(job_num as nat, pid as nat),
{
    let mut out: Vec<char> = Vec::new();
    push_str_chars("[", &mut out);
    push_decimal(job_num, &mut out);
    push_str_chars("] ", &mut out);
    push_decimal(pid as usize, &mut out);
    push_str_chars("\n", &mut out);
    string_from_chars(out.as_slice())
}

/// Appends the start of a job's line.
fn push_job_prefix(num: usize, marker: char, out: &mut Vec<char>)
    ensures
        final(out)@ == old(out)@ + job_prefix(num as nat, marker),
{
    push_str_chars("[", out);
    push_decimal(num, out);
    push_str_chars("]", out);
    out.push(marker);
    assert(final(out)@ =~= old(out)@ + job_prefix(num as nat, marker));
}

/// The marker for position `i` of `n`.
fn marker_at(i: usize, n: usize) -> (m: char)
    requires
        i < n,
    ensures
        m == job_marker(i as int, n as int),
{
    if i == n - 1 {
        '+'
    } else if i == n - 2 {
        '-'
    } else {
        ' '
    }
}

impl JobTable {
    /// No jobs.
    pub fn new() -> (t: JobTable)
        ensures
            t@ == Seq::<(nat, Seq<char>)>::empty(),
    {
        let t = JobTable { jobs: Vec::new() };
        assert(t@ =~= Seq::<(nat, Seq<char>)>::empty());
        t
    }

    /// The number of jobs.
    pub fn len(&self) -> (n: usize)
        ensures
            n == self@.len(),
    {
        self.jobs.len()
    }

    /// The number of the job at position `i`.
    pub fn job_num(&self, i: usize) -> (n: usize)
        requires
            i < self@.len(),
        ensures
            n == self@[i as int].0,
    {
        self.jobs[i].job_num
    }

    /// Whether some job has number `num`.
    fn is_used(&self, num: usize) -> (r: bool)
        ensures
            r == job_nums(self@).contains(num as nat),
    {
        let mut i: usize = 0;
        while i < self.jobs.len()
            invariant
                i <= self.jobs@.len(),
                forall|j: int| 0 <= j < i ==> job_nums(self@)[j] != num,
            decreases self.jobs@.len() - i,
        {
            if self.jobs[i].job_num == num {
                assert(job_nums(self@)[i as int] == num);
                return true;
            }
            i = i + 1;
        }
        false
    }

    /// Adds a job for `cmd` under the smallest number not in use, and returns that number.
    pub fn add_job(&mut self, cmd: String) -> (num: usize)
        requires
            old(self)@.len() < usize::MAX,
        ensures
            num >= 1,
            !job_nums(old(self)@).contains(num as nat),
            forall|m: nat| 1 <= m < num ==> job_nums(old(self)@).contains(m),
            final(self)@ == old(self)@.push((num as nat, cmd@)),
    {
        let mut num: usize = 1;
        let ghost nums = job_nums(self@);
        while self.is_used(num)
            invariant
                1 <= num <= self@.len() + 1,
                self@.len() < usize::MAX,
                nums == job_nums(self@),
                forall|m: nat| 1 <= m < num ==> nums.contains(m),
            decreases self@.len() + 1 - num,
        {
            proof {
                if num == self@.len() + 1 {
                    let ints = nums.map_values(|m: nat| m as int);
                    let used = ints.to_set();
                    let range = vstd::set_lib::set_int_range(1, num + 1);
                    assert forall|i: int| range.contains(i) implies used.contains(i) by {
                        assert(nums.contains(i as nat));
                        let j = choose|j: int| 0 <= j < nums.len() && nums[j] == i as nat;
                        assert(ints[j] == i);
                    }
                    ints.lemma_cardinality_of_set();
                    vstd::set_lib::lemma_int_range(1, num + 1);
                    vstd::set_lib::lemma_len_subset(range, used);
                    assert(false);
                }
            }
            num = num + 1;
        }
        let ghost before = self@;
        self.jobs.push(Jobs { job_num: num, cmd });
        assert(self@ =~= before.push((num as nat, cmd@)));
        num
    }

    /// Checks the jobs against their statuses, in order: keeps those that have not
    /// finished, and gives the lines about them (`jobs`' lines, or the reaping's when
    /// `reap` is true) with the numbers of the finished ones.
    fn report(&mut self, statuses: &[JobStatus], reap: bool) -> (r: JobsReport)
        requires
            statuses@.len() == old(self)@.len(),
        ensures
            r.output@ == report_text(old(self)@, statuses@, old(self)@.len() as int, reap),
            final(self)@ == kept_jobs(old(self)@, statuses@, old(self)@.len() as int),
            r.finished@.map_values(|n: usize| n as nat) == finished_jobs(
                old(self)@,
                statuses@,
                old(self)@.len() as int,
            ),
    {
        let ghost jobs = self@;
        let n = self.jobs.len();
        let mut output: Vec<char> = Vec::new();
        let mut kept: Vec<Jobs> = Vec::new();
        let mut finished: Vec<usize> = Vec::new();
        let mut i: usize = 0;
        while i < n
            invariant
                n == self.jobs@.len(),
                jobs == self@,
                statuses@.len() == n,
                i <= n,
                output@ == report_text(jobs, statuses@, i as int, reap),
                kept@.map_values(|j: Jobs| job_view(j)) == kept_jobs(jobs, statuses@, i as int),
                finished@.map_values(|x: usize| x as nat) == finished_jobs(
                    jobs,
                    statuses@,
                    i as int,
                ),
            decreases n - i,
        {
            let job = &self.jobs[i];
            let m = marker_at(i, n);
            let st = statuses[i];
            let ghost jv = jobs[i as int];
            assert(jv == job_view(*job));
            let ghost before_out = output@;
            match st {
                JobStatus::Running => {
                    if !reap {
                        push_job_prefix(job.job_num, m, &mut output);
                        push_str_chars("  Running                 ", &mut output);
                        push_str_chars(job.cmd.as_str(), &mut output);
                        push_str_chars("\n", &mut output);
                    }
                },
                JobStatus::Done => {
                    push_job_prefix(job.job_num, m, &mut output);
                    if reap {
                        push_str_chars("  Done                    ", &mut output);
                    } else {
                        push_str_chars("  Done                 ", &mut output);
                    }
                    let cmd_chars = str_chars(job.cmd.as_str());
                    let pat = str_chars(" &");
                    let done = trim_end_matches_chars(cmd_chars.as_slice(), pat.as_slice());
                    push_chars(done.as_slice(), &mut output);
                    push_str_chars("\n", &mut output);
                },
                JobStatus::Unknown => {},
            }
            proof {
                let line = if reap {
                    reap_line(jv, st, m)
                } else {
                    jobs_line(jv, st, m)
                };
                assert(output@ =~= before_out + line);
            }
            let ghost kept_before = kept@;
            let ghost fin_before = finished@;
            if st == JobStatus::Done {
                finished.push(job.job_num);
                assert(finished@.map_values(|x: usize| x as nat) =~= fin_before.map_values(
                    |x: usize| x as nat,
                ).push(jv.0));
            } else {
                let copy = Jobs { job_num: job.job_num, cmd: job.cmd.clone() };
                kept.push(copy);
                assert(kept@.map_values(|j: Jobs| job_view(j)) =~= kept_before.map_values(
                    |j: Jobs| job_view(j),
                ).push(jv));
            }
            i = i + 1;
        }
        self.jobs = kept;
        JobsReport { output: string_from_chars(output.as_slice()), finished }
    }
}

/// `jobs`: a line for each job that is running or has finished, and the finished ones
/// are removed; `statuses` holds the status of each job, in order.
pub fn jobs_builtin(table: &mut JobTable, statuses: &[JobStatus]) -> (r: JobsReport)
    requires
        statuses@.len() == old(table)@.len(),
    ensures
        r.output@ == report_text(old(table)@, statuses@, old(table)@.len() as int, false),
        final(table)@ == kept_jobs(old(table)@, statuses@, old(table)@.len() as int),
        r.finished@.map_values(|n: usize| n as nat) == finished_jobs(
            old(table)@,
            statuses@,
            old(table)@.len() as int,
        ),
{
    table.report(statuses, false)
}

/// Before each command: a line for each job that has finished, and those are removed;
/// `statuses` holds the status of each job, in order.
pub fn reap_jobs(table: &mut JobTable, statuses: &[JobStatus]) -> (r: JobsReport)
    requires
        statuses@.len() == old(table)@.len(),
    ensures
        r.output@ == report_text(old(table)@, statuses@, old(table)@.len() as int, true),
        final(table)@ == kept_jobs(old(table)@, statuses@, old(table)@.len() as int),
        r.finished@.map_values(|n: usize| n as nat) == finished_jobs(
            old(table)@,
            statuses@,
            old(table)@.len() as int,
        ),
{
    table.report(statuses, true)
}

/// No two jobs share a number.
pub open spec fn distinct_nums(jobs: Seq<(nat, Seq<char>)>) -> bool {
    forall|i: int, j: int| 0 <= i < j < jobs.len() ==> (#[trigger] jobs[i]).0 != (#[trigger] jobs[j]).0
}

/// Adding a job under a number not in use keeps the numbers distinct.
pub proof fn lemma_add_job_keeps_numbers_distinct(
    jobs: Seq<(nat, Seq<char>)>,
    num: nat,
    cmd: Seq<char>,
)
    requires
        distinct_nums(jobs),
        !job_nums(jobs).contains(num),
    ensures
        distinct_nums(jobs.push((num, cmd))),
{
    let t = jobs.push((num, cmd));
    assert forall|i: int, j: int| 0 <= i < j < t.len() implies (#[trigger] t[i]).0 != (
    #[trigger] t[j]).0 by {
        if j == jobs.len() {
            assert(job_nums(jobs)[i] == jobs[i].0);
        } else {
            assert(t[i] == jobs[i] && t[j] == jobs[j]);
        }
    }
}

/// The jobs kept among the first `k` are jobs among them, and keep their numbers distinct.
proof fn lemma_kept_distinct(jobs: Seq<(nat, Seq<char>)>, st: Seq<JobStatus>, k: int)
    requires
        0 <= k <= jobs.len(),
        k <= st.len(),
        distinct_nums(jobs),
    ensures
        distinct_nums(kept_jobs(jobs, st, k)),
        forall|a: int|
            #![trigger kept_jobs(jobs, st, k)[a]]
            0 <= a < kept_jobs(jobs, st, k).len() ==> exists|i: int|
                0 <= i < k && #[trigger] jobs[i] == kept_jobs(jobs, st, k)[a],
    decreases k,
{
    if k > 0 {
        lemma_kept_distinct(jobs, st, k - 1);
        let prev = kept_jobs(jobs, st, k - 1);
        let cur = kept_jobs(jobs, st, k);
        if st[k - 1] == JobStatus::Done {
            assert(cur == prev);
            assert forall|a: int| #![trigger cur[a]] 0 <= a < cur.len() implies exists|i: int|
                0 <= i < k && #[trigger] jobs[i] == cur[a] by {
                let i = choose|i: int| 0 <= i < k - 1 && #[trigger] jobs[i] == prev[a];
                assert(jobs[i] == cur[a]);
            }
        } else {
            assert(cur == prev.push(jobs[k - 1]));
            assert forall|a: int| #![trigger cur[a]] 0 <= a < cur.len() implies exists|i: int|
                0 <= i < k && #[trigger] jobs[i] == cur[a] by {
                if a < prev.len() {
                    let i = choose|i: int| 0 <= i < k - 1 && #[trigger] jobs[i] == prev[a];
                    assert(jobs[i] == cur[a]);
                } else {
                    assert(jobs[k - 1] == cur[a]);
                }
            }
            assert forall|a: int, b: int| 0 <= a < b < cur.len() implies (#[trigger] cur[a]).0
                != (#[trigger] cur[b]).0 by {
                assert(cur[a] == prev[a]);
                if b < prev.len() {
                    assert(cur[b] == prev[b]);
                } else {
                    let i = choose|i: int| 0 <= i < k - 1 && #[trigger] jobs[i] == prev[a];
                    assert(cur[b] == jobs[k - 1]);
                    assert(jobs[i].0 != jobs[k - 1].0);
                }
            }
        }
    }
}

/// Removing finished jobs keeps the numbers of the others distinct.
pub proof fn lemma_report_keeps_numbers_distinct(jobs: Seq<(nat, Seq<char>)>, st: Seq<JobStatus>)
    requires
        distinct_nums(jobs),
        st.len() == jobs.len(),
    ensures
        distinct_nums(kept_jobs(jobs, st, jobs.len() as int)),
{
    lemma_kept_distinct(jobs, st, jobs.len() as int);
}

} // verus!
