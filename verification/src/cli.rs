//! The decisions behind the maintenance tool's commands: where the database
//! lives, and what a validation or formatting run prints and exits with.
use vstd::prelude::*;

use crate::paths::{join, join_path};
use crate::strings::{decimal, decimal_string, owned, push_str};
use crate::validate::{Finding, FindingView, FormatReport, Severity, finding_views, severity_name};

verus! {

broadcast use vstd::string::group_string_axioms;

/// The directories whose presence marks a database root: the Game Boy, Game
/// Boy Color and VCS trees.
pub open spec fn tree_probes(root: Seq<char>) -> Seq<Seq<char>> {
    seq![join(root, "gb"@), join(root, "gbc"@), join(root, "vcs"@)]
}

/// The paths to look for platform trees under a root.
pub fn platform_tree_probes(root: &str) -> (ps: Vec<String>)
    ensures
        ps@.map_values(|p: String| p@) == tree_probes(root@),
{
    let mut ps: Vec<String> = Vec::new();
    ps.push(join_path(root, "gb"));
    ps.push(join_path(root, "gbc"));
    ps.push(join_path(root, "vcs"));
    assert(ps@.map_values(|p: String| p@) =~= tree_probes(root@));
    ps
}

/// Where the platform trees live: under `data/` when the root itself holds
/// none and `data/` does, else at the root (as in test fixtures).
pub open spec fn db_root(root: Seq<char>, root_has_trees: bool, data_has_trees: bool) -> Seq<char> {
    if !root_has_trees && data_has_trees {
        join(root, "data"@)
    } else {
        root
    }
}

/// Where the platform trees live, given whether the root and its `data/`
/// directory hold any.
pub fn resolve_db_root(root: &str, root_has_trees: bool, data_has_trees: bool) -> (r: String)
    ensures
        r@ == db_root(root@, root_has_trees, data_has_trees),
{
    if !root_has_trees && data_has_trees {
        join_path(root, "data")
    } else {
        owned(root)
    }
}

/// The line a finding prints as: path, severity, message.
pub open spec fn finding_text(f: FindingView) -> Seq<char> {
    f.0 + ": "@ + severity_name(f.1) + ": "@ + f.2
}

/// The line a finding prints as.
pub fn finding_line(f: &Finding) -> (r: String)
    ensures
        r@ == finding_text(f@),
{
    let mut r = owned(f.path.as_str());
    push_str(&mut r, ": ");
    push_str(&mut r, f.severity.as_str());
    push_str(&mut r, ": ");
    push_str(&mut r, f.message.as_str());
    r
}

/// How many of the findings are errors.
pub open spec fn error_count(fs: Seq<FindingView>) -> nat
    decreases fs.len(),
{
    if fs.len() == 0 {
        0
    } else {
        error_count(fs.drop_last()) + if fs.last().1 == Severity::Error {
            1nat
        } else {
            0nat
        }
    }
}

/// The closing line of a validation run, and whether it failed: it fails
/// exactly when some finding is an error.
pub fn validation_summary(findings: &Vec<Finding>) -> (r: (String, bool))
    ensures
        r.0@ == decimal(error_count(finding_views(findings@))) + " errors, "@ + decimal(
            (findings@.len() - error_count(finding_views(findings@))) as nat,
        ) + " warnings"@,
        r.1 == (error_count(finding_views(findings@)) > 0),
{
    let ghost fv = finding_views(findings@);
    let mut errors: usize = 0;
    let mut i: usize = 0;
    assert(fv.take(0) =~= Seq::<FindingView>::empty());
    while i < findings.len()
        invariant
            i <= findings@.len(),
            fv == finding_views(findings@),
            errors == error_count(fv.take(i as int)),
            errors <= i,
        decreases findings@.len() - i,
    {
        assert(fv.take(i + 1).drop_last() == fv.take(i as int));
        assert(fv.take(i + 1).last() == findings@[i as int]@);
        if findings[i].severity == Severity::Error {
            errors = errors + 1;
        }
        i = i + 1;
    }
    assert(fv.take(fv.len() as int) == fv);
    let warnings = findings.len() - errors;
    let mut line = decimal_string(errors as u64);
    push_str(&mut line, " errors, ");
    push_str(&mut line, decimal_string(warnings as u64).as_str());
    push_str(&mut line, " warnings");
    (line, errors > 0)
}

/// The line a rewritten manifest prints as.
pub fn rewrote_line(path: &str) -> (r: String)
    ensures
        r@ == "rewrote "@ + path@,
{
    let mut r = owned("rewrote ");
    push_str(&mut r, path);
    r
}

/// The closing line of a formatting run, and whether it succeeded: it
/// succeeds exactly when no file failed to parse.
pub fn format_summary(report: &FormatReport) -> (r: (String, bool))
    ensures
        r.0@ == decimal(report.rewritten@.len()) + " rewritten, "@ + decimal(report.errors@.len()) + " errors"@,
        r.1 == (report.errors@.len() == 0),
{
    let mut line = decimal_string(report.rewritten.len() as u64);
    push_str(&mut line, " rewritten, ");
    push_str(&mut line, decimal_string(report.errors.len() as u64).as_str());
    push_str(&mut line, " errors");
    (line, report.errors.len() == 0)
}

} // verus!
