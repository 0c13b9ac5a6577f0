use vstd::prelude::*;
use vstd::slice::slice_subrange;
use crate::env::{apply_entries, lemma_apply_overrides, EnvStore};
use crate::names::{
    candidates, is_env_file_name, is_load_order, lemma_candidates_match, lemma_canonical_loads_last,
    lemma_order_from_names, name_bytes,
};

verus! {

/// dotenvy's error type, held opaque: only its message is read.
#[verifier::external_type_specification]
#[verifier::external_body]
pub struct ExDotenvError(dotenvy::Error);

/// Relies on dotenvy::from_read_iter: reads dotenv text into its
/// assignments, in the order of the file, or fails on the first line that it
/// cannot read. Values may refer to variables of the process environment.
#[verifier::external_body]
fn parse_dotenv(bytes: &[u8]) -> (r: Result<Vec<(String, String)>, dotenvy::Error>) {
    dotenvy::from_read_iter(bytes).collect()
}

/// Relies on dotenvy::Error's `Display`: a message for the failure.
#[verifier::external_body]
fn error_message(e: &dotenvy::Error) -> (r: String) {
    e.to_string()
}

/// The text of a file without its leading UTF-8 byte order mark, if it has one.
pub open spec fn without_bom(b: Seq<u8>) -> Seq<u8> {
    if b.len() >= 3 && b[0] == 0xEFu8 && b[1] == 0xBBu8 && b[2] == 0xBFu8 {
        b.subrange(3, b.len() as int)
    } else {
        b
    }
}

fn strip_bom(b: &[u8]) -> (r: &[u8])
    ensures
        r@ == without_bom(b@),
{
    if b.len() >= 3 && b[0] == 0xEF && b[1] == 0xBB && b[2] == 0xBF {
        slice_subrange(b, 3, b.len())
    } else {
        assert(b@.subrange(0, b@.len() as int) =~= b@);
        b
    }
}

/// What became of one environment file.
pub enum LoadOutcome {
    /// The file was read; these are its assignments, in order.
    Loaded(Vec<(String, String)>),
    /// The file could not be read or parsed, and changed nothing.
    Failed(String),
}

/// The outcome of loading the file `name`.
pub struct LoadReport {
    pub name: String,
    pub outcome: LoadOutcome,
}

/// An environment file as the directory gave it: its name and its contents,
/// or the message of the error met in reading it.
pub struct EnvFile {
    pub name: String,
    pub contents: Result<Vec<u8>, String>,
}

/// The environment after the file of `r` was loaded into `m`: a file that
/// failed leaves it unchanged.
pub open spec fn apply_report(m: Map<Seq<char>, Seq<char>>, r: LoadReport) -> Map<Seq<char>, Seq<char>> {
    match r.outcome {
        LoadOutcome::Loaded(p) => apply_entries(m, p@),
        LoadOutcome::Failed(_) => m,
    }
}

/// The environment after the files of `rs` were loaded into `m` in order.
pub open spec fn apply_reports(m: Map<Seq<char>, Seq<char>>, rs: Seq<LoadReport>) -> Map<Seq<char>, Seq<char>>
    decreases rs.len(),
{
    if rs.len() == 0 {
        m
    } else {
        apply_report(apply_reports(m, rs.drop_last()), rs.last())
    }
}

/// The variables that the file of `r` assigns, with the values it gives them.
pub open spec fn file_values(r: LoadReport) -> Map<Seq<char>, Seq<char>> {
    match r.outcome {
        LoadOutcome::Loaded(p) => apply_entries(Map::empty(), p@),
        LoadOutcome::Failed(_) => Map::empty(),
    }
}

/// Whether the file of `r` was loaded and assigns `k`.
pub open spec fn assigns(r: LoadReport, k: Seq<char>) -> bool {
    file_values(r).contains_key(k)
}

/// Whether `r` reports on the file `f`, and says "failed" with the same
/// message where `f` could not be read.
pub open spec fn reports_on(r: LoadReport, f: EnvFile) -> bool {
    &&& r.name == f.name
    &&& f.contents matches Err(m) ==> r.outcome == LoadOutcome::Failed(m)
}

/// Records the result of parsing the file `name` into `env`: all of its
/// assignments in order, later ones replacing earlier values; or, where it
/// could not be read or parsed, nothing, and the message.
pub fn record_load(env: &mut EnvStore, name: String, parsed: Result<Vec<(String, String)>, String>) -> (r: LoadReport)
    ensures
        r.name == name,
        match parsed {
            Ok(p) => r.outcome == LoadOutcome::Loaded(p) && final(env)@ == apply_entries(old(env)@, p@),
            Err(m) => r.outcome == LoadOutcome::Failed(m) && final(env)@ == old(env)@,
        },
{
    match parsed {
        Ok(pairs) => {
            env.apply(&pairs);
            LoadReport { name, outcome: LoadOutcome::Loaded(pairs) }
        },
        Err(m) => LoadReport { name, outcome: LoadOutcome::Failed(m) },
    }
}

/// Loads one environment file into `env`: all of its assignments, later
/// ones replacing earlier values, or none of them if it cannot be parsed.
pub fn load_env_file(env: &mut EnvStore, file: &EnvFile) -> (r: LoadReport)
    ensures
        reports_on(r, *file),
        final(env)@ == apply_report(old(env)@, r),
{
    let name = file.name.clone();
    let parsed = match &file.contents {
        Err(m) => Err(m.clone()),
        Ok(bytes) => match parse_dotenv(strip_bom(bytes.as_slice())) {
            Ok(pairs) => Ok(pairs),
            Err(e) => Err(error_message(&e)),
        },
    };
    record_load(env, name, parsed)
}

/// Loads the environment files `files` into `env` in their order, each one
/// on its own: a file that fails changes nothing and stops no other.
pub fn load_dotenv_files(env: &mut EnvStore, files: &Vec<EnvFile>) -> (r: Vec<LoadReport>)
    ensures
        r@.len() == files@.len(),
        forall|i: int| 0 <= i < r@.len() ==> reports_on(#[trigger] r@[i], files@[i]),
        final(env)@ == apply_reports(old(env)@, r@),
{
    let mut r: Vec<LoadReport> = Vec::new();
    let mut i: usize = 0;
    while i < files.len()
        invariant
            i <= files@.len(),
            r@.len() == i,
            forall|j: int| 0 <= j < i ==> reports_on(#[trigger] r@[j], files@[j]),
            env@ == apply_reports(old(env)@, r@),
        decreases files.len() - i,
    {
        let rep = load_env_file(env, &files[i]);
        proof {
            assert(r@.push(rep).drop_last() =~= r@);
        }
        r.push(rep);
        i = i + 1;
    }
    r
}

/// A variable that the canonical file assigns ends with the value that the
/// canonical file gives it, whatever the suffixed files loaded before it say:
/// the canonical file is the last one of a load order, and `reports` has one
/// report for each file of the order, in that order.
pub proof fn lemma_canonical_wins(
    m: Map<Seq<char>, Seq<char>>,
    names: Seq<String>,
    order: Seq<String>,
    c: Seq<u8>,
    reports: Seq<LoadReport>,
    k: Seq<char>,
)
    requires
        is_load_order(order, names, c),
        exists|i: int| 0 <= i < names.len() && name_bytes(#[trigger] names[i]) == c,
        reports.len() == order.len(),
        forall|i: int| 0 <= i < reports.len() ==> (#[trigger] reports[i]).name == order[i],
        reports.len() > 0 ==> assigns(reports.last(), k),
    ensures
        reports.len() > 0,
        name_bytes(reports.last().name) == c,
        apply_reports(m, reports).contains_key(k),
        apply_reports(m, reports)[k] == file_values(reports.last())[k],
{
    let i = choose|i: int| 0 <= i < names.len() && name_bytes(#[trigger] names[i]) == c;
    lemma_canonical_loads_last(order, names, c, i);
    assert(reports[reports.len() - 1].name == order[order.len() - 1]);
    if let LoadOutcome::Loaded(p) = reports.last().outcome {
        lemma_apply_overrides(apply_reports(m, reports.drop_last()), p@, k);
    }
}

/// A directory with no environment file of the family gives an empty load
/// order, and loading it changes nothing and reports nothing.
pub proof fn lemma_no_env_files(
    m: Map<Seq<char>, Seq<char>>,
    names: Seq<String>,
    order: Seq<String>,
    c: Seq<u8>,
    reports: Seq<LoadReport>,
)
    requires
        is_load_order(order, names, c),
        forall|i: int| 0 <= i < names.len() ==> !is_env_file_name(name_bytes(#[trigger] names[i]), c),
        reports.len() == order.len(),
    ensures
        order.len() == 0,
        reports.len() == 0,
        apply_reports(m, reports) == m,
{
    broadcast use vstd::seq_lib::to_multiset_contains;

    if order.len() > 0 {
        lemma_order_from_names(order, names, c, 0);
        lemma_candidates_match(names, c);
        assert(order.contains(order[0]));
        assert(candidates(names, c).to_multiset().count(order[0]) > 0);
        let j = choose|j: int| 0 <= j < candidates(names, c).len()
            && candidates(names, c)[j] == order[0];
        let k = choose|k: int| 0 <= k < names.len() && names[k] == order[0];
        assert(!is_env_file_name(name_bytes(names[k]), c));
    }
}

} // verus!
