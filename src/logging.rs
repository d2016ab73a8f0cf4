//! Log settings: the level a configured name stands for, and which log files
//! fall outside the number kept.

use vstd::prelude::*;
use crate::text::same_text;

verus! {

/// The verbosity of the log.
#[derive(Debug, Clone, Copy, PartialEq, Eq, Structural)]
pub enum LogLevel {
    Trace,
    Debug,
    Info,
    Warn,
    Error,
}

/// What `str::to_lowercase` makes of a text.
pub uninterp spec fn lowercase_of(s: Seq<char>) -> Seq<char>;

/// Relies on `str::to_lowercase`: the result depends on the characters alone.
#[verifier::external_body]
fn lowercase(s: &str) -> (r: String)
    ensures
        r@ == lowercase_of(s@),
{
    s.to_lowercase()
}

/// The level a lower-case level name stands for; an unknown name means `Info`.
pub open spec fn level_for(name: Seq<char>) -> LogLevel {
    if name == "trace"@ {
        LogLevel::Trace
    } else if name == "debug"@ {
        LogLevel::Debug
    } else if name == "info"@ {
        LogLevel::Info
    } else if name == "warn"@ {
        LogLevel::Warn
    } else if name == "error"@ {
        LogLevel::Error
    } else {
        LogLevel::Info
    }
}

/// The level for a name already in lower case.
pub fn level_from_folded(name: &str) -> (r: LogLevel)
    ensures
        r == level_for(name@),
{
    if same_text(name, "trace") {
        LogLevel::Trace
    } else if same_text(name, "debug") {
        LogLevel::Debug
    } else if same_text(name, "info") {
        LogLevel::Info
    } else if same_text(name, "warn") {
        LogLevel::Warn
    } else if same_text(name, "error") {
        LogLevel::Error
    } else {
        LogLevel::Info
    }
}

/// The level for a configured name, in any case.
pub fn parse_level(name: &str) -> (r: LogLevel)
    ensures
        r == level_for(lowercase_of(name@)),
{
    let folded = lowercase(name);
    level_from_folded(folded.as_str())
}

/// A file found in the log directory.
pub struct LogFile {
    pub name: String,
    /// When it was last modified, in nanoseconds since the Unix epoch.
    pub modified: u128,
    /// A regular file whose extension is `log`.
    pub is_log: bool,
}

/// Among log files, `j` comes before `i` when newest come first: it is newer,
/// or as new and listed later.
pub open spec fn ranks_before(files: Seq<LogFile>, j: int, i: int) -> bool {
    &&& files[j].is_log
    &&& (files[j].modified > files[i].modified || (files[j].modified == files[i].modified && j > i))
}

/// How many of the first `n` files come before file `i`.
pub open spec fn count_before(files: Seq<LogFile>, i: int, n: int) -> nat
    decreases n,
{
    if n <= 0 {
        0
    } else {
        count_before(files, i, n - 1) + if ranks_before(files, n - 1, i) {
            1nat
        } else {
            0nat
        }
    }
}

/// File `i` is a log file beyond the `keep` newest.
pub open spec fn is_stale(files: Seq<LogFile>, i: int, keep: int) -> bool {
    files[i].is_log && count_before(files, i, files.len() as int) >= keep
}

/// The names of the stale files among the first `n`, in listing order.
pub open spec fn stale_names(files: Seq<LogFile>, keep: int, n: int) -> Seq<Seq<char>>
    decreases n,
{
    if n <= 0 {
        Seq::empty()
    } else {
        let p = stale_names(files, keep, n - 1);
        if is_stale(files, n - 1, keep) {
            p.push(files[n - 1].name@)
        } else {
            p
        }
    }
}

/// The names of the log files to delete so that the `max_files` newest stay.
pub fn stale_logs(files: &Vec<LogFile>, max_files: u32) -> (r: Vec<String>)
    ensures
        r@.map_values(|s: String| s@) == stale_names(files@, max_files as int, files@.len() as int),
{
    let n = files.len();
    let mut out: Vec<String> = Vec::new();
    let mut i: usize = 0;
    while i < n
        invariant
            i <= n,
            n == files@.len(),
            out@.map_values(|s: String| s@) == stale_names(files@, max_files as int, i as int),
        decreases n - i,
    {
        if files[i].is_log {
            let mut count: usize = 0;
            let mut j: usize = 0;
            while j < n
                invariant
                    i < n,
                    j <= n,
                    n == files@.len(),
                    count == count_before(files@, i as int, j as int),
                    count <= j,
                decreases n - j,
            {
                if files[j].is_log && (files[j].modified > files[i].modified || (files[j].modified
                    == files[i].modified && j > i)) {
                    count = count + 1;
                }
                j = j + 1;
            }
            if count >= max_files as usize {
                let ghost before = out@;
                out.push(files[i].name.clone());
                proof {
                    assert(out@.map_values(|s: String| s@) =~= before.map_values(|s: String| s@).push(
                        files@[i as int].name@,
                    ));
                }
            }
        }
        i = i + 1;
    }
    out
}

} // verus!
