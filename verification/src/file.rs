use vstd::prelude::*;

use crate::path::strings_view;
use crate::rewriter::Warning;
use crate::text::{change_summary, summarize_changes};

verus! {

/// A syntax tree of a Rust source file, as `syn` parses it.
#[verifier::external_type_specification]
#[verifier::external_body]
pub struct ExSynFile(syn::File);

/// A path of the file system.
#[verifier::external_type_specification]
#[verifier::external_body]
pub struct ExPathBuf(std::path::PathBuf);

/// What `syn::parse_file` gives for a source text, a function of the text
/// alone: the syntax tree of the file, or the message of its error.
pub uninterp spec fn syn_parse(source: Seq<char>) -> Result<syn::File, Seq<char>>;

/// Calls `syn::parse_file` on `source`: the tree, or the message of the
/// error, that [`syn_parse`] names.
#[verifier::external_body]
fn syn_parse_file(source: &str) -> (res: Result<syn::File, String>)
    ensures
        res matches Ok(f) ==> syn_parse(source@) is Ok && syn_parse(source@)->Ok_0 == f,
        res matches Err(m) ==> syn_parse(source@) is Err && syn_parse(source@)->Err_0 == m@,
{
    match syn::parse_file(source) {
        Ok(file) => Ok(file),
        Err(e) => Err(e.to_string()),
    }
}

/// What `prettyplease::unparse` prints for `file`, a function of the tree
/// alone; `None` for a tree on which it panics instead of returning (it
/// does so on some trees that `syn` parses: a `macro_rules!` body that is
/// not a list of rules, or a node that `syn` keeps as verbatim tokens).
pub uninterp spec fn unparse_text(file: syn::File) -> Option<Seq<char>>;

/// Calls `prettyplease::unparse`, which prints a syntax tree as source
/// text: the text that [`unparse_text`] names, on the trees on which it
/// returns.
#[verifier::external_body]
fn unparse(file: &syn::File) -> (res: String)
    requires
        unparse_text(*file) is Some,
    ensures
        Some(res@) == unparse_text(*file),
{
    prettyplease::unparse(file)
}

/// What became of one file.
#[derive(Debug, PartialEq, Eq)]
pub enum FileOutcome {
    Modified { changes: Vec<String> },
    Unchanged,
    Skipped { reason: String },
    WouldModify { changes: Vec<String> },
}

/// One file, what became of it, and the warnings it gave.
pub struct FileResult {
    pub path: std::path::PathBuf,
    pub outcome: FileOutcome,
    pub warnings: Vec<Warning>,
}

/// A rewritten file before it is written: its new text and the summary of
/// the change.
#[derive(Debug, PartialEq, Eq)]
pub enum SourcePlan {
    Unchanged,
    Rewrite { new_source: String, changes: Vec<String> },
}

/// Parses a source file; a text that does not parse is refused with the
/// reason `syn parse error: ` and the parser's message.
pub fn parse_source(source: &str) -> (res: Result<syn::File, String>)
    ensures
        (res is Ok) == (syn_parse(source@) is Ok),
        res matches Ok(f) ==> syn_parse(source@) is Ok && syn_parse(source@)->Ok_0 == f,
        res matches Err(r) ==> r@ == "syn parse error: "@ + syn_parse(source@)->Err_0,
{
    match syn_parse_file(source) {
        Ok(file) => Ok(file),
        Err(message) => {
            let mut reason = String::from_str("syn parse error: ");
            reason.append(message.as_str());
            Err(reason)
        },
    }
}

/// After the rewrite of `file`: nothing to do when nothing changed, else the
/// text that `prettyplease` prints for `file` and the line summary of the
/// change from `source`. A changed tree must be one that `prettyplease`
/// prints (it panics on the others).
pub fn plan_output(source: &str, file: &syn::File, changed: bool) -> (res: SourcePlan)
    requires
        changed ==> unparse_text(*file) is Some,
    ensures
        !changed <==> res is Unchanged,
        res matches SourcePlan::Rewrite { new_source, changes } ==> Some(new_source@) == unparse_text(*file)
            && strings_view(changes@) == change_summary(source@, new_source@),
{
    if !changed {
        return SourcePlan::Unchanged;
    }
    let new_source = unparse(file);
    let changes = summarize_changes(source, new_source.as_str());
    SourcePlan::Rewrite { new_source, changes }
}

/// The outcome of a file whose text could not be read.
pub fn read_failure(message: &str) -> (res: FileOutcome)
    ensures
        res matches FileOutcome::Skipped { reason } && reason@ == "read error: "@ + message@,
{
    let mut reason = String::from_str("read error: ");
    reason.append(message);
    FileOutcome::Skipped { reason }
}

/// The outcome of a planned file: unchanged; would be modified in a dry
/// run; else modified, or skipped when writing the new text failed with
/// `write_error`.
pub fn outcome_of(plan: SourcePlan, dry_run: bool, write_error: Option<String>) -> (res: FileOutcome)
    ensures
        plan is Unchanged ==> res is Unchanged,
        plan matches SourcePlan::Rewrite { changes, .. } ==> (if dry_run {
            res == FileOutcome::WouldModify { changes }
        } else if write_error is Some {
            res matches FileOutcome::Skipped { reason } && reason@ == "write error: "@
                + write_error->0@
        } else {
            res == FileOutcome::Modified { changes }
        }),
{
    match plan {
        SourcePlan::Unchanged => FileOutcome::Unchanged,
        SourcePlan::Rewrite { new_source, changes } => {
            if dry_run {
                FileOutcome::WouldModify { changes }
            } else {
                match write_error {
                    Some(e) => {
                        let mut reason = String::from_str("write error: ");
                        reason.append(e.as_str());
                        FileOutcome::Skipped { reason }
                    },
                    None => FileOutcome::Modified { changes },
                }
            }
        },
    }
}

} // verus!
