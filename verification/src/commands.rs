//! The decisions of the `fmt` and `query` commands, apart from their files and
//! streams: which flag combinations are refused, what happens to each formatted
//! file, and what a query prints.
use vstd::prelude::*;

use crate::diff::{unified, unified_diff};
use crate::json::{json_list, json_of, Json, JsonValue};
use crate::wire::lemma_json_list;
use crate::path::{parse_path, path_steps, select_many, select_path, steps_of, PathFault};
use crate::text::str_eq;

verus! {

/// `sort --write` needs input files.
pub fn sort_write_refused(has_files: bool, write: bool) -> (r: bool)
    ensures
        r == (write && !has_files),
{
    write && !has_files
}

/// Flag combinations `fmt` refuses.
#[derive(Debug, Clone, Copy, PartialEq, Eq, Structural)]
pub enum FmtFlagError {
    /// `--diff` together with `--write`.
    DiffWithWrite,
    /// `--write`, `--check` or `--diff` without input files.
    NeedsFiles,
}

/// `--diff` cannot go with `--write`; `--write`, `--check` and `--diff` need files.
pub fn check_fmt_flags(has_files: bool, write: bool, check: bool, diff: bool) -> (r: Result<(), FmtFlagError>)
    ensures
        r == if write && diff {
            Err::<(), FmtFlagError>(FmtFlagError::DiffWithWrite)
        } else if !has_files && (write || check || diff) {
            Err(FmtFlagError::NeedsFiles)
        } else {
            Ok(())
        },
{
    if write && diff {
        Err(FmtFlagError::DiffWithWrite)
    } else if !has_files && (write || check || diff) {
        Err(FmtFlagError::NeedsFiles)
    } else {
        Ok(())
    }
}

/// What `fmt` does with one file: whether it changed, the diff to print, whether
/// to write the file back, and whether to print the formatted text.
#[derive(Debug, PartialEq, Eq)]
pub struct FmtOutcome {
    pub changed: bool,
    pub diff: Option<String>,
    pub write_back: bool,
    pub print: bool,
}

/// The outcome for one file (see [`FmtOutcome`]): a changed file gets a diff when
/// `--diff` asks for one; the text is written back with `--write`, and printed
/// unless `--check` or `--diff` is given.
pub fn fmt_file_outcome(path: &str, source: &str, formatted: &str, write: bool, check: bool, diff: bool) -> (r: FmtOutcome)
    ensures
        r.changed == (formatted@ != source@),
        match r.diff {
            Some(d) => r.changed && diff && d@ == unified(path@, source@, formatted@),
            None => !(r.changed && diff),
        },
        r.write_back == write,
        r.print == (!write && !check && !diff),
{
    let changed = !str_eq(formatted, source);
    let d = if changed && diff {
        Some(unified_diff(path, source, formatted))
    } else {
        None
    };
    FmtOutcome { changed, diff: d, write_back: write, print: !write && !check && !diff }
}

/// `fmt --check` fails when some file changed.
pub fn fmt_check_failed(check: bool, any_changed: bool) -> (r: bool)
    ensures
        r == (check && any_changed),
{
    check && any_changed
}

/// Why a query printed nothing.
#[derive(Debug, PartialEq, Eq)]
pub enum QueryError {
    /// The selector does not parse.
    Path(crate::path::PathError),
    /// The selector matched nothing.
    NoMatch,
}

/// A copy of a JSON value.
pub fn copy_json(v: &JsonValue) -> (r: JsonValue)
    ensures
        r@ == v@,
    decreases *v, 1nat,
{
    match v {
        JsonValue::Null => JsonValue::Null,
        JsonValue::Bool(b) => JsonValue::Bool(*b),
        JsonValue::Number(n) => JsonValue::Number(*n),
        JsonValue::Text(t) => JsonValue::Text(t.clone()),
        JsonValue::Array(items) => JsonValue::Array(copy_items(items)),
        JsonValue::Object(entries) => JsonValue::Object(copy_entries(entries)),
    }
}

fn copy_items(items: &Vec<JsonValue>) -> (r: Vec<JsonValue>)
    ensures
        json_list(r@) == json_list(items@),
    decreases items@, 0nat,
{
    let mut out: Vec<JsonValue> = Vec::new();
    let mut i: usize = 0;
    while i < items.len()
        invariant
            i <= items.len(),
            json_list(out@) == json_list(items@.take(i as int)),
        decreases items.len() - i,
    {
        assert(items@.take(i + 1).drop_last() =~= items@.take(i as int));
        let ghost before = out@;
        out.push(copy_json(&items[i]));
        assert(out@.drop_last() =~= before);
        i += 1;
    }
    assert(items@.take(i as int) =~= items@);
    out
}

fn copy_entries(entries: &Vec<(String, JsonValue)>) -> (r: Vec<(String, JsonValue)>)
    ensures
        crate::json::json_entries(r@) == crate::json::json_entries(entries@),
    decreases entries@, 0nat,
{
    let mut out: Vec<(String, JsonValue)> = Vec::new();
    let mut i: usize = 0;
    while i < entries.len()
        invariant
            i <= entries.len(),
            crate::json::json_entries(out@) == crate::json::json_entries(entries@.take(i as int)),
        decreases entries.len() - i,
    {
        assert(entries@.take(i + 1).drop_last() =~= entries@.take(i as int));
        let ghost before = out@;
        let k = entries[i].0.clone();
        let value = copy_json(&entries[i].1);
        out.push((k, value));
        assert(out@.drop_last() =~= before);
        i += 1;
    }
    assert(entries@.take(i as int) =~= entries@);
    out
}

/// The value a query prints: the one match, or an array of all matches.
pub open spec fn query_value(root: JsonValue, query: Seq<char>) -> Result<Json, Option<PathFault>> {
    match path_steps(query) {
        Err(e) => Err(Some(e)),
        Ok(steps) => {
            let found = select_path(seq![root], steps);
            if found.len() == 0 {
                Err(None)
            } else if found.len() == 1 {
                Ok(json_of(found[0]))
            } else {
                Ok(Json::Array(json_list(found)))
            }
        },
    }
}

/// Runs a query over a decoded value (see [`query_value`]).
pub fn run_selector(root: &JsonValue, query: &str) -> (r: Result<JsonValue, QueryError>)
    ensures
        match query_value(*root, query@) {
            Ok(v) => r matches Ok(x) && x@ == v,
            Err(None) => r matches Err(QueryError::NoMatch),
            Err(Some(e)) => r matches Err(QueryError::Path(p)) && p@ == e,
        },
{
    let path = match parse_path(query) {
        Ok(p) => p,
        Err(e) => {
            return Err(QueryError::Path(e));
        },
    };
    let selected = select_many(root, &path);
    if selected.len() == 0 {
        return Err(QueryError::NoMatch);
    }
    if selected.len() == 1 {
        return Ok(copy_json(selected[0]));
    }
    let ghost found = select_path(seq![*root], steps_of(path@));
    let mut items: Vec<JsonValue> = Vec::new();
    let mut i: usize = 0;
    while i < selected.len()
        invariant
            i <= selected.len(),
            crate::path::derefs(selected@) == found,
            json_list(items@) == json_list(found.take(i as int)),
        decreases selected.len() - i,
    {
        assert(found.take(i + 1).drop_last() =~= found.take(i as int));
        assert(found[i as int] == *selected@[i as int]);
        let ghost before = items@;
        items.push(copy_json(selected[i]));
        assert(items@.drop_last() =~= before);
        i += 1;
    }
    assert(found.take(i as int) =~= found);
    Ok(JsonValue::Array(items))
}

} // verus!
