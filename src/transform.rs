//! The transform applied to each sub-unit: counting the matches of a regular
//! expression, and the bounded worker pool that applies it in parallel.

use rayon::iter::{IndexedParallelIterator, IntoParallelRefIterator, ParallelIterator};
use vstd::prelude::*;

verus! {

#[verifier::external_type_specification]
#[verifier::external_body]
pub struct ExBytesRegex(regex::bytes::Regex);

#[verifier::external_type_specification]
#[verifier::external_body]
pub struct ExRegexError(regex::Error);

#[verifier::external_type_specification]
#[verifier::external_body]
pub struct ExThreadPool(rayon::ThreadPool);

#[verifier::external_type_specification]
#[verifier::external_body]
pub struct ExThreadPoolBuildError(rayon::ThreadPoolBuildError);

/// Whether `pattern` is accepted by the regular-expression compiler.
pub uninterp spec fn pattern_compiles(pattern: Seq<char>) -> bool;

/// The number of non-overlapping matches of `pattern` in `haystack`.
pub uninterp spec fn match_count(pattern: Seq<char>, haystack: Seq<u8>) -> nat;

/// Why a matcher or a worker pool could not be set up.
#[derive(Clone, Copy, Debug, PartialEq, Eq, Structural)]
pub enum SetupError {
    /// The pattern is not a valid regular expression.
    InvalidPattern,
    /// A pool needs at least one worker.
    NoWorkers,
    /// The worker threads could not be started.
    PoolUnavailable,
}

/// Relies on `regex::bytes::Regex::new`: it succeeds exactly on the patterns
/// that compile, which depends on the pattern alone.
#[verifier::external_body]
fn compile_regex(pattern: &str) -> (r: Result<regex::bytes::Regex, regex::Error>)
    ensures
        r is Ok <==> pattern_compiles(pattern@),
{
    regex::bytes::Regex::new(pattern)
}

/// A compiled pattern, kept together with its source text.
pub struct Matcher {
    pattern: String,
    regex: regex::bytes::Regex,
}

impl Matcher {
    /// The source text of the pattern.
    pub closed spec fn pattern(&self) -> Seq<char> {
        self.pattern@
    }

    /// Compiles `pattern`.
    pub fn new(pattern: &str) -> (r: Result<Matcher, SetupError>)
        ensures
            r is Ok <==> pattern_compiles(pattern@),
            r matches Ok(m) ==> m.pattern() == pattern@,
            r matches Err(e) ==> e == SetupError::InvalidPattern,
    {
        match compile_regex(pattern) {
            Ok(regex) => Ok(Matcher { pattern: pattern.to_owned(), regex }),
            Err(_) => Err(SetupError::InvalidPattern),
        }
    }

    /// The pattern's source text.
    pub fn as_str(&self) -> (r: &str)
        ensures
            r@ == self.pattern(),
    {
        self.pattern.as_str()
    }
}

/// Relies on `regex::bytes::Regex::find_iter`: the number of non-overlapping
/// matches in `haystack`. A `Matcher` holds only a regex compiled from its own
/// `pattern` field (see `Matcher::new`).
#[verifier::external_body]
fn find_count(m: &Matcher, haystack: &[u8]) -> (r: usize)
    ensures
        r == match_count(m.pattern(), haystack@),
{
    m.regex.find_iter(haystack).count()
}

/// The transform on one unit: the number of matches of `m` in `unit`.
pub fn count_matches(m: &Matcher, unit: &Vec<u8>) -> (r: usize)
    ensures
        r == match_count(m.pattern(), unit@),
{
    find_count(m, unit.as_slice())
}

/// Relies on `rayon::ThreadPoolBuilder::num_threads` and `build`: a pool of
/// exactly `workers` threads, or the error met while starting them.
#[verifier::external_body]
fn build_pool(workers: usize) -> (r: Result<rayon::ThreadPool, rayon::ThreadPoolBuildError>)
    requires
        workers >= 1,
{
    rayon::ThreadPoolBuilder::new().num_threads(workers).build()
}

/// Relies on `rayon::ThreadPool::install` with an indexed parallel `map` and
/// `collect_into_vec`: the closure runs once per unit on the pool's workers
/// and the results are collected in the order of the units.
#[verifier::external_body]
fn parallel_counts(pool: &rayon::ThreadPool, m: &Matcher, units: &Vec<Vec<u8>>) -> (r: Vec<usize>)
    ensures
        r@.len() == units@.len(),
        forall|k: int| 0 <= k < r@.len() ==> #[trigger] r@[k] == match_count(m.pattern(), units@[k]@),
{
    let mut out: Vec<usize> = Vec::new();
    pool.install(|| units.par_iter().map(|u| count_matches(m, u)).collect_into_vec(&mut out));
    out
}

/// The views of a sequence of units.
pub open spec fn unit_views(units: Seq<Vec<u8>>) -> Seq<Seq<u8>> {
    units.map_values(|u: Vec<u8>| u@)
}

/// The counts of `pattern` in each unit, in order.
pub open spec fn counts_of(pattern: Seq<char>, units: Seq<Seq<u8>>) -> Seq<nat> {
    units.map_values(|u: Seq<u8>| match_count(pattern, u))
}

/// A bounded set of workers on which the units of one item are counted.
pub struct FanOutPool {
    pool: rayon::ThreadPool,
    workers: usize,
}

impl FanOutPool {
    /// The number of workers.
    pub closed spec fn spec_workers(&self) -> nat {
        self.workers as nat
    }

    /// Starts a pool of `workers` threads. Zero workers is refused.
    pub fn new(workers: usize) -> (r: Result<FanOutPool, SetupError>)
        ensures
            r == Err::<FanOutPool, SetupError>(SetupError::NoWorkers) <==> workers == 0,
            r matches Ok(p) ==> p.spec_workers() == workers,
            r matches Err(e) ==> e == SetupError::NoWorkers || e == SetupError::PoolUnavailable,
    {
        if workers == 0 {
            return Err(SetupError::NoWorkers);
        }
        match build_pool(workers) {
            Ok(pool) => Ok(FanOutPool { pool, workers }),
            Err(_) => Err(SetupError::PoolUnavailable),
        }
    }

    /// The number of workers.
    pub fn workers(&self) -> (r: usize)
        ensures
            r == self.spec_workers(),
    {
        self.workers
    }

    /// Counts the matches of `m` in every unit, in parallel; the result is in
    /// the order of the units, whatever order the workers finish in.
    pub fn counts(&self, m: &Matcher, units: &Vec<Vec<u8>>) -> (r: Vec<usize>)
        ensures
            r@.len() == units@.len(),
            forall|k: int| 0 <= k < r@.len() ==> #[trigger] r@[k] == counts_of(m.pattern(), unit_views(units@))[k],
    {
        parallel_counts(&self.pool, m, units)
    }
}

} // verus!
