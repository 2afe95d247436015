use vstd::prelude::*;

use crate::file::{FileOutcome, FileResult};

verus! {

/// How many files were (or would be) modified, how many warnings were
/// given, and how many files were skipped.
pub struct Summary {
    pub modified: usize,
    pub warnings: usize,
    pub skipped: usize,
}

/// The number of results that modify (or would modify) their file.
pub open spec fn count_modified(rs: Seq<FileResult>) -> nat
    decreases rs.len(),
{
    if rs.len() == 0 {
        0
    } else {
        count_modified(rs.drop_last()) + match rs.last().outcome {
            FileOutcome::Modified { .. } | FileOutcome::WouldModify { .. } => 1nat,
            _ => 0nat,
        }
    }
}

/// The number of results whose file was skipped.
pub open spec fn count_skipped(rs: Seq<FileResult>) -> nat
    decreases rs.len(),
{
    if rs.len() == 0 {
        0
    } else {
        count_skipped(rs.drop_last()) + if rs.last().outcome is Skipped {
            1nat
        } else {
            0nat
        }
    }
}

/// The number of warnings of all results.
pub open spec fn count_warnings(rs: Seq<FileResult>) -> nat
    decreases rs.len(),
{
    if rs.len() == 0 {
        0
    } else {
        count_warnings(rs.drop_last()) + rs.last().warnings@.len()
    }
}

proof fn lemma_counts_bounded(rs: Seq<FileResult>)
    ensures
        count_modified(rs) <= rs.len(),
        count_skipped(rs) <= rs.len(),
    decreases rs.len(),
{
    if rs.len() > 0 {
        lemma_counts_bounded(rs.drop_last());
    }
}

proof fn lemma_warnings_monotone(rs: Seq<FileResult>, i: int)
    requires
        0 <= i <= rs.len(),
    ensures
        count_warnings(rs.take(i)) <= count_warnings(rs),
    decreases rs.len() - i,
{
    if i < rs.len() {
        lemma_warnings_monotone(rs, i + 1);
        assert(rs.take(i + 1).drop_last() =~= rs.take(i));
    } else {
        assert(rs.take(i) =~= rs);
    }
}

/// Counts the modified and skipped files and the warnings of `results`.
pub fn summarize_results(results: &[FileResult]) -> (res: Summary)
    requires
        count_warnings(results@) <= usize::MAX,
    ensures
        res.modified == count_modified(results@),
        res.warnings == count_warnings(results@),
        res.skipped == count_skipped(results@),
{
    let mut modified: usize = 0;
    let mut warning_count: usize = 0;
    let mut skipped: usize = 0;
    let ghost rs = results@;
    proof {
        lemma_counts_bounded(rs);
        assert(rs.take(0) =~= Seq::<FileResult>::empty());
    }
    for i in 0..results.len()
        invariant
            rs == results@,
            count_warnings(rs) <= usize::MAX,
            modified == count_modified(rs.take(i as int)),
            warning_count == count_warnings(rs.take(i as int)),
            skipped == count_skipped(rs.take(i as int)),
    {
        proof {
            assert(rs.take(i + 1).drop_last() =~= rs.take(i as int));
            lemma_counts_bounded(rs.take(i + 1));
            lemma_warnings_monotone(rs, i + 1);
        }
        let result = &results[i];
        match &result.outcome {
            FileOutcome::Modified { .. } | FileOutcome::WouldModify { .. } => {
                modified += 1;
            },
            FileOutcome::Unchanged => {},
            FileOutcome::Skipped { .. } => {
                skipped += 1;
            },
        }
        warning_count += result.warnings.len();
    }
    proof {
        assert(rs.take(results.len() as int) =~= rs);
    }
    Summary { modified, warnings: warning_count, skipped }
}

} // verus!
