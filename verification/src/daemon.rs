//! The scheduler daemon's decisions.
//!
//! The daemon itself is a process loop: sleep, poll the store's version,
//! reload when it changed, evaluate due jobs. The loop, the sleeping and
//! every outside call stay in the unverified front end; what is decided on
//! each tick — which jobs a list of schedules gives rise to, and whether a
//! polled version demands a reload — is computed here.

use crate::schedule::cron_ok;
use crate::schedule::url_ok;
use crate::schedule::Schedule;
use vstd::prelude::*;
use vstd::string::*;

verus! {

/// One scheduled job, holding its own copies of the row's fields. Each job
/// binds `user`, `cron` and `url` by value, so rebuilding or dropping the
/// schedule list later can never alter a job already built.
#[derive(Debug)]
pub struct Job {
    pub user: String,
    pub cron: String,
    pub url: String,
}

/// The version token of the schedule store: the backing file's modification
/// time, as seconds and nanoseconds. The daemon compares tokens and never
/// looks inside, so another change signal could replace the timestamp.
#[derive(Clone, Copy, PartialEq, Eq, Structural, Debug)]
pub struct VersionToken {
    pub secs: i64,
    pub nanos: u32,
}

/// The jobs a schedule list gives rise to: one per schedule whose cron
/// expression and URL parse, in order, each binding the row's fields by
/// value. Rows that fail either parse are skipped.
pub fn build_jobs(schedules: &Vec<Schedule>) -> (r: Vec<Job>)
    ensures
        ({
            let valid = schedules@.filter(|s: Schedule| cron_ok(s.cron@) && url_ok(s.url@));
            &&& r@.len() == valid.len()
            &&& forall|i: int|
                0 <= i < r@.len() ==> (#[trigger] r@[i]).user@ == valid[i].user@ && r@[i].cron@
                    == valid[i].cron@ && r@[i].url@ == valid[i].url@
        }),
{
    let ghost rows = schedules@;
    let mut jobs: Vec<Job> = Vec::new();
    let mut i: usize = 0;
    while i < schedules.len()
        invariant
            i <= rows.len(),
            rows == schedules@,
            ({
                let valid = rows.subrange(0, i as int).filter(
                    |s: Schedule| cron_ok(s.cron@) && url_ok(s.url@),
                );
                &&& jobs@.len() == valid.len()
                &&& forall|k: int|
                    0 <= k < jobs@.len() ==> (#[trigger] jobs@[k]).user@ == valid[k].user@
                        && jobs@[k].cron@ == valid[k].cron@ && jobs@[k].url@ == valid[k].url@
            }),
        decreases rows.len() - i,
    {
        let s = &schedules[i];
        proof {
            let pred = |sc: Schedule| cron_ok(sc.cron@) && url_ok(sc.url@);
            let prev = rows.subrange(0, i as int);
            assert(rows.subrange(0, i + 1) =~= prev.push(rows[i as int]));
            prev.lemma_filter_push(rows[i as int], pred);
        }
        if crate::schedule::cron_expr_ok(s.cron.as_str()) && crate::schedule::url_parse_ok(
            s.url.as_str(),
        ) {
            let job = Job { user: s.user.clone(), cron: s.cron.clone(), url: s.url.clone() };
            jobs.push(job);
        }
        i += 1;
    }
    proof {
        assert(rows.subrange(0, rows.len() as int) =~= rows);
    }
    jobs
}

/// One tick's reload decision. `fetched` is the store's current version, or
/// nothing when it could not be read. When it could not be read, the last
/// seen version stands and no reload happens; otherwise the fetched version
/// becomes the new last seen one, and a reload is due exactly when it
/// differs from the old.
pub fn poll_reload(last: VersionToken, fetched: Option<VersionToken>) -> (r: (VersionToken, bool))
    ensures
        fetched is None ==> r.0 == last && !r.1,
        fetched matches Some(m) ==> r.0 == m && r.1 == (m != last),
{
    match fetched {
        None => (last, false),
        Some(m) => (m, m != last),
    }
}

} // verus!
