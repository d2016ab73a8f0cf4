//! Recurrence expressions and the search for their next occurrence.
//!
//! Instants are whole seconds since the Unix epoch (UTC).  Expressions are
//! the usual five-field cron lines (minute, hour, day of month, month, day of
//! week); a five-field line is handed to the `cron` crate with a leading
//! seconds field of `0`, any other line is handed over as written.

use vstd::prelude::*;
use vstd::string::StrSliceExecFns;
use vstd::string::StringExecFns;
use std::str::FromStr;
use chrono::DateTime;
use chrono::Utc;
use cron::Schedule as CronSchedule;

verus! {

/// The latest instant the evaluator accepts (9999-12-31T23:59:59Z).
pub const LATEST_INSTANT: i64 = 253_402_300_799;

/// Whether `cron` accepts `source` as a schedule.
pub uninterp spec fn cron_accepts(source: Seq<char>) -> bool;

/// Whether the schedule parsed from `source` matches the instant `t`.
pub uninterp spec fn cron_matches(source: Seq<char>, t: int) -> bool;

pub open spec fn is_blank(c: char) -> bool {
    c == ' ' || c == '\t' || c == '\n' || c == '\r'
}

/// Position `i` of `s` begins a field: a non-blank character at the start or after a blank.
pub open spec fn starts_field(s: Seq<char>, i: int) -> bool {
    !is_blank(s[i]) && (i == 0 || is_blank(s[i - 1]))
}

/// The number of blank-separated fields in `s`.
pub open spec fn field_count(s: Seq<char>) -> nat
    decreases s.len(),
{
    if s.len() == 0 {
        0
    } else {
        field_count(s.drop_last()) + if starts_field(s, s.len() - 1) {
            1nat
        } else {
            0nat
        }
    }
}

/// The text handed to `cron` for an expression: five fields get a seconds field of `0`.
pub open spec fn cron_source(expr: Seq<char>) -> Seq<char> {
    if field_count(expr) == 5 {
        seq!['0', ' '] + expr
    } else {
        expr
    }
}

/// `n` is the first instant strictly after `after` that `source` matches.
pub open spec fn is_first_match(source: Seq<char>, after: int, n: int) -> bool {
    &&& after < n
    &&& cron_matches(source, n)
    &&& forall|m: int| after < m < n ==> !#[trigger] cron_matches(source, m)
}

/// No instant strictly after `after` matches `source`.
pub open spec fn no_match_after(source: Seq<char>, after: int) -> bool {
    forall|m: int| after < m ==> !#[trigger] cron_matches(source, m)
}

/// The first instant strictly after `after` that `source` matches, if any.
pub open spec fn next_match(source: Seq<char>, after: int) -> Option<int> {
    if exists|n: int| #[trigger] is_first_match(source, after, n) {
        Some(choose|n: int| #[trigger] is_first_match(source, after, n))
    } else {
        None
    }
}

/// The next occurrence of `expr` at reference instant `now`: the search
/// starts one second early, so an occurrence at exactly `now` is found.
pub open spec fn occurrence(expr: Seq<char>, now: int) -> Option<int> {
    next_match(cron_source(expr), now - 1)
}

pub open spec fn opt_int(o: Option<i64>) -> Option<int> {
    match o {
        Some(n) => Some(n as int),
        None => None,
    }
}

/// At most one instant is the first match after a given instant.
pub proof fn lemma_first_match_unique(source: Seq<char>, after: int, n1: int, n2: int)
    requires
        is_first_match(source, after, n1),
        is_first_match(source, after, n2),
    ensures
        n1 == n2,
{
    if n1 < n2 {
        assert(!cron_matches(source, n1));
    } else if n2 < n1 {
        assert(!cron_matches(source, n2));
    }
}

/// The first match found from an instant is what `next_match` names.
pub proof fn lemma_next_match_is(source: Seq<char>, after: int, n: int)
    requires
        is_first_match(source, after, n),
    ensures
        next_match(source, after) == Some(n),
{
    let c = choose|k: int| #[trigger] is_first_match(source, after, k);
    lemma_first_match_unique(source, after, n, c);
}

/// When nothing matches later, `next_match` is `None`.
pub proof fn lemma_next_match_none(source: Seq<char>, after: int)
    requires
        no_match_after(source, after),
    ensures
        next_match(source, after) is None,
{
    if exists|n: int| #[trigger] is_first_match(source, after, n) {
        let n = choose|n: int| #[trigger] is_first_match(source, after, n);
        assert(cron_matches(source, n));
    }
}

/// The next occurrence never decreases as the reference instant advances, and
/// always lies strictly after one second before the reference instant.
pub proof fn lemma_occurrence_monotonic(expr: Seq<char>, t1: int, t2: int)
    requires
        t1 <= t2,
    ensures
        occurrence(expr, t1) matches Some(n1) ==> n1 > t1 - 1,
        occurrence(expr, t2) matches Some(n2) ==> (occurrence(expr, t1) matches Some(n1) && n1
            <= n2),
{
    let src = cron_source(expr);
    if let Some(n1) = occurrence(expr, t1) {
        assert(is_first_match(src, t1 - 1, n1));
    }
    if let Some(n2) = occurrence(expr, t2) {
        assert(is_first_match(src, t2 - 1, n2));
        assert(cron_matches(src, n2));
        if !(exists|n: int| #[trigger] is_first_match(src, t1 - 1, n)) {
            // the first match after t1 - 1 exists: it is n2 unless an earlier one is found
            assert(!is_first_match(src, t1 - 1, n2));
            let m = choose|m: int| t1 - 1 < m < n2 && cron_matches(src, m);
            lemma_least_match_exists(src, t1 - 1, m);
        }
        let n1 = choose|n: int| #[trigger] is_first_match(src, t1 - 1, n);
        if n1 > n2 {
            assert(!cron_matches(src, n2));
        }
    }
}

/// An occurrence is its own next occurrence: searching again from the
/// instant found finds that instant.
pub proof fn lemma_occurrence_is_own_next(expr: Seq<char>, t: int)
    requires
        occurrence(expr, t) is Some,
    ensures
        occurrence(expr, occurrence(expr, t)->0) == occurrence(expr, t),
{
    let src = cron_source(expr);
    let n = occurrence(expr, t)->0;
    assert(is_first_match(src, t - 1, n));
    assert(is_first_match(src, n - 1, n));
    lemma_next_match_is(src, n - 1, n);
}

/// If any instant after `after` matches, there is a first one.
pub proof fn lemma_least_match_exists(source: Seq<char>, after: int, m: int)
    requires
        after < m,
        cron_matches(source, m),
    ensures
        exists|n: int| #[trigger] is_first_match(source, after, n),
    decreases m - after,
{
    if forall|k: int| after < k < m ==> !#[trigger] cron_matches(source, k) {
        assert(is_first_match(source, after, m));
    } else {
        let k = choose|k: int| after < k < m && cron_matches(source, k);
        lemma_least_match_exists(source, after, k);
    }
}

#[verifier::external_type_specification]
#[verifier::external_body]
pub struct ExCronSchedule(CronSchedule);

#[verifier::external_type_specification]
#[verifier::external_body]
pub struct ExCronError(cron::error::Error);

/// Relies on `cron::Schedule::from_str`: whether the text parses depends on the text alone.
#[verifier::external_body]
fn parse_cron(source: &str) -> (r: Result<CronSchedule, cron::error::Error>)
    ensures
        r is Ok == cron_accepts(source@),
{
    CronSchedule::from_str(source)
}

/// Errors of the scheduler's public operations.
#[derive(Debug, Clone, Copy, PartialEq, Eq, Structural)]
pub enum ScheduleError {
    /// The recurrence expression does not parse.
    InvalidExpression,
    /// No rule has the given id, or the expression never occurs again.
    NotFound,
}

/// A parsed recurrence expression.
pub struct Recurrence {
    expression: String,
    source: String,
    schedule: CronSchedule,
}

/// Relies on `cron::Schedule::after(..).next()` on a schedule parsed from `rec.source`:
/// the first matching instant strictly after `after` (the search starts one second
/// later and walks forward in time), or `None` when none remains before the end of
/// the years `cron` knows; those end with 2100, so a match lies before `LATEST_INSTANT`.
#[verifier::external_body]
fn first_after(rec: &Recurrence, after: i64) -> (r: Option<i64>)
    requires
        0 <= after <= LATEST_INSTANT,
    ensures
        r matches Some(n) ==> n <= LATEST_INSTANT,
        r matches Some(n) ==> after < n && cron_matches(rec.source@, n as int) && forall|m: int|
            after < m < n ==> !#[trigger] cron_matches(rec.source@, m),
        r is None ==> forall|m: int| after < m ==> !#[trigger] cron_matches(rec.source@, m),
{
    let from = DateTime::<Utc>::from_timestamp(after, 0).unwrap();
    rec.schedule.after(&from).next().map(|d| d.timestamp())
}

/// Counts the blank-separated fields of `s`.
fn count_fields(s: &str) -> (r: usize)
    ensures
        r == field_count(s@),
{
    let n = s.unicode_len();
    let mut count: usize = 0;
    let mut i: usize = 0;
    let mut prev_blank = true;
    while i < n
        invariant
            i <= n,
            n == s@.len(),
            count == field_count(s@.take(i as int)),
            count <= i,
            prev_blank == (i == 0 || is_blank(s@[i - 1])),
        decreases n - i,
    {
        let c = s.get_char(i);
        let blank = c == ' ' || c == '\t' || c == '\n' || c == '\r';
        proof {
            let t = s@.take(i as int + 1);
            assert(t.drop_last() =~= s@.take(i as int));
            assert(t[i as int] == s@[i as int]);
            if i > 0 {
                assert(t[i - 1] == s@[i - 1]);
            }
        }
        if !blank && prev_blank {
            count = count + 1;
        }
        prev_blank = blank;
        i = i + 1;
    }
    assert(s@.take(n as int) =~= s@);
    count
}

impl Recurrence {
    /// The expression this recurrence was parsed from.
    pub closed spec fn text(&self) -> Seq<char> {
        self.expression@
    }

    /// The recurrence is well formed: it was parsed from the text handed to `cron`.
    pub closed spec fn wf(&self) -> bool {
        &&& self.source@ == cron_source(self.expression@)
        &&& cron_accepts(self.source@)
    }

    /// Parses a recurrence expression.
    pub fn parse(expression: &str) -> (r: Result<Recurrence, ScheduleError>)
        ensures
            r is Ok <==> cron_accepts(cron_source(expression@)),
            r matches Ok(rec) ==> rec.text() == expression@ && rec.wf(),
            r matches Err(e) ==> e == ScheduleError::InvalidExpression,
    {
        let fields = count_fields(expression);
        let source = if fields == 5 {
            let mut s = "0 ".to_owned();
            proof {
                reveal_strlit("0 ");
            }
            s.append(expression);
            assert(s@ =~= seq!['0', ' '] + expression@);
            s
        } else {
            expression.to_owned()
        };
        match parse_cron(source.as_str()) {
            Ok(schedule) => Ok(Recurrence { expression: expression.to_owned(), source, schedule }),
            Err(_) => Err(ScheduleError::InvalidExpression),
        }
    }

    /// The next occurrence at reference instant `now`, searching from one
    /// second before it; `None` when the expression never occurs again.
    pub fn next_occurrence(&self, now: i64) -> (r: Option<i64>)
        requires
            self.wf(),
            1 <= now <= LATEST_INSTANT,
        ensures
            opt_int(r) == occurrence(self.text(), now as int),
            r matches Some(n) ==> now <= n <= LATEST_INSTANT,
    {
        let r = first_after(self, now - 1);
        proof {
            match r {
                Some(n) => lemma_next_match_is(self.source@, now - 1, n as int),
                None => lemma_next_match_none(self.source@, now - 1),
            }
        }
        r
    }
}

/// Parses `expression` and finds its next occurrence at `now`.
pub fn next_run_time(expression: &str, now: i64) -> (r: Result<i64, ScheduleError>)
    requires
        1 <= now <= LATEST_INSTANT,
    ensures
        !cron_accepts(cron_source(expression@)) ==> r == Err::<i64, ScheduleError>(
            ScheduleError::InvalidExpression,
        ),
        cron_accepts(cron_source(expression@)) ==> match occurrence(expression@, now as int) {
            Some(n) => r matches Ok(k) && k == n,
            None => r == Err::<i64, ScheduleError>(ScheduleError::NotFound),
        },
        r matches Ok(k) ==> now <= k <= LATEST_INSTANT,
{
    match Recurrence::parse(expression) {
        Ok(rec) => match rec.next_occurrence(now) {
            Some(n) => Ok(n),
            None => Err(ScheduleError::NotFound),
        },
        Err(e) => Err(e),
    }
}

/// Checks that `expression` parses as a recurrence.
pub fn validate_cron_expression(expression: &str) -> (r: Result<(), ScheduleError>)
    ensures
        r is Ok <==> cron_accepts(cron_source(expression@)),
        r matches Err(e) ==> e == ScheduleError::InvalidExpression,
{
    match Recurrence::parse(expression) {
        Ok(_) => Ok(()),
        Err(e) => Err(e),
    }
}

} // verus!
