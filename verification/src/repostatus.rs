//! Working-tree status as plain values. The history store reports raw
//! entries (path plus change flags); the verified categorization sorts
//! them into prompt, generated-code, configuration and other buckets.

use vstd::prelude::*;
use crate::sorting::str_views;
use crate::textutil::{spec_starts_with, starts_with, str_copy, str_eq};

verus! {

/// Information about a single commit of the history store.
#[derive(Debug)]
pub struct CommitInfo {
    pub hash: String,
    pub short_hash: String,
    pub message: String,
    pub author: String,
    pub timestamp: i64,
}

/// Per-file change counts of a diff.
#[derive(Debug)]
pub struct FileDiffStat {
    pub path: String,
    pub insertions: usize,
    pub deletions: usize,
}

/// One raw working-tree entry as the history store reports it.
#[derive(Debug)]
pub struct StatusEntry {
    pub path: String,
    pub is_new: bool,
    pub is_deleted: bool,
    pub is_modified: bool,
}

/// The working tree's changes, categorized.
#[derive(Debug)]
pub struct RepoStatus {
    /// Modified prompt files.
    pub prompts_modified: Vec<String>,
    /// New (untracked) prompt files.
    pub prompts_new: Vec<String>,
    /// Deleted prompt files.
    pub prompts_deleted: Vec<String>,
    /// Modified generated files.
    pub code_modified: Vec<String>,
    /// New generated files.
    pub code_new: Vec<String>,
    /// Modified configuration and state files.
    pub config_modified: Vec<String>,
    /// Any other changed files.
    pub other_modified: Vec<String>,
    /// Commit hash at the head of history, if any commit exists.
    pub head_commit: Option<String>,
}

impl RepoStatus {
    /// Whether anything relevant changed.
    pub fn has_changes(&self) -> (r: bool)
        ensures
            r == (self.prompts_modified@.len() > 0 || self.prompts_new@.len() > 0
                || self.prompts_deleted@.len() > 0 || self.code_modified@.len() > 0
                || self.code_new@.len() > 0 || self.config_modified@.len() > 0),
    {
        self.prompts_modified.len() > 0 || self.prompts_new.len() > 0
            || self.prompts_deleted.len() > 0 || self.code_modified.len() > 0
            || self.code_new.len() > 0 || self.config_modified.len() > 0
    }

    /// Total number of relevant changed files.
    pub fn total_changes(&self) -> (r: usize)
        requires
            self.prompts_modified@.len() + self.prompts_new@.len() + self.prompts_deleted@.len()
                + self.code_modified@.len() + self.code_new@.len() + self.config_modified@.len()
                < 0x1_0000_0000,
        ensures
            r == self.prompts_modified@.len() + self.prompts_new@.len()
                + self.prompts_deleted@.len() + self.code_modified@.len() + self.code_new@.len()
                + self.config_modified@.len(),
    {
        self.prompts_modified.len() + self.prompts_new.len() + self.prompts_deleted.len()
            + self.code_modified.len() + self.code_new.len() + self.config_modified.len()
    }

    /// Categorize raw working-tree entries: prompt files by their
    /// directory, generated files by the output root, configuration by
    /// the known names, everything else into the last bucket; entries
    /// with no flags set are skipped. Each bucket is exactly the paths of
    /// the entries its rule selects, in input order.
    pub fn categorize(entries: &Vec<StatusEntry>, head_commit: Option<String>) -> (r: RepoStatus)
        ensures
            str_views(r.prompts_new@) == bucket(entries@, |e: StatusEntry| sel_prompt_new(e)),
            str_views(r.prompts_deleted@) == bucket(
                entries@,
                |e: StatusEntry| sel_prompt_deleted(e),
            ),
            str_views(r.prompts_modified@) == bucket(
                entries@,
                |e: StatusEntry| sel_prompt_modified(e),
            ),
            str_views(r.code_new@) == bucket(entries@, |e: StatusEntry| sel_code_new(e)),
            str_views(r.code_modified@) == bucket(
                entries@,
                |e: StatusEntry| sel_code_modified(e),
            ),
            str_views(r.config_modified@) == bucket(entries@, |e: StatusEntry| sel_config(e)),
            str_views(r.other_modified@) == bucket(entries@, |e: StatusEntry| sel_other(e)),
            match (r.head_commit, head_commit) {
                (Some(a), Some(b)) => a@ == b@,
                (None, None) => true,
                _ => false,
            },
    {
        let mut out = RepoStatus {
            prompts_modified: Vec::new(),
            prompts_new: Vec::new(),
            prompts_deleted: Vec::new(),
            code_modified: Vec::new(),
            code_new: Vec::new(),
            config_modified: Vec::new(),
            other_modified: Vec::new(),
            head_commit,
        };
        let n: usize = entries.len();
        let mut i: usize = 0;
        proof {
            assert(entries@.take(0) =~= Seq::<StatusEntry>::empty());
            assert(str_views(out.prompts_new@) =~= Seq::<Seq<char>>::empty());
            assert(str_views(out.prompts_deleted@) =~= Seq::<Seq<char>>::empty());
            assert(str_views(out.prompts_modified@) =~= Seq::<Seq<char>>::empty());
            assert(str_views(out.code_new@) =~= Seq::<Seq<char>>::empty());
            assert(str_views(out.code_modified@) =~= Seq::<Seq<char>>::empty());
            assert(str_views(out.config_modified@) =~= Seq::<Seq<char>>::empty());
            assert(str_views(out.other_modified@) =~= Seq::<Seq<char>>::empty());
        }
        while i < n
            invariant
                n == entries@.len(),
                i <= n,
                str_views(out.prompts_new@) == bucket(
                    entries@.take(i as int),
                    |e: StatusEntry| sel_prompt_new(e),
                ),
                str_views(out.prompts_deleted@) == bucket(
                    entries@.take(i as int),
                    |e: StatusEntry| sel_prompt_deleted(e),
                ),
                str_views(out.prompts_modified@) == bucket(
                    entries@.take(i as int),
                    |e: StatusEntry| sel_prompt_modified(e),
                ),
                str_views(out.code_new@) == bucket(
                    entries@.take(i as int),
                    |e: StatusEntry| sel_code_new(e),
                ),
                str_views(out.code_modified@) == bucket(
                    entries@.take(i as int),
                    |e: StatusEntry| sel_code_modified(e),
                ),
                str_views(out.config_modified@) == bucket(
                    entries@.take(i as int),
                    |e: StatusEntry| sel_config(e),
                ),
                str_views(out.other_modified@) == bucket(
                    entries@.take(i as int),
                    |e: StatusEntry| sel_other(e),
                ),
                match (out.head_commit, head_commit) {
                    (Some(a), Some(b)) => a@ == b@,
                    (None, None) => true,
                    _ => false,
                },
            decreases n - i,
        {
            let ghost prefix: Seq<StatusEntry> = entries@.take(i as int);
            let e = &entries[i];
            if e.is_new || e.is_deleted || e.is_modified {
                let p = str_copy(e.path.as_str());
                if starts_with(p.as_str(), "prompts/") {
                    if e.is_new {
                        out.prompts_new.push(p);
                    } else if e.is_deleted {
                        out.prompts_deleted.push(p);
                    } else {
                        out.prompts_modified.push(p);
                    }
                } else if starts_with(p.as_str(), "code.lock/") {
                    if e.is_new {
                        out.code_new.push(p);
                    } else if !e.is_deleted {
                        out.code_modified.push(p);
                    }
                } else if str_eq(p.as_str(), "lit.toml") || starts_with(p.as_str(), ".lit/")
                    || str_eq(p.as_str(), ".gitignore") {
                    if e.is_new || e.is_modified {
                        out.config_modified.push(p);
                    }
                } else {
                    out.other_modified.push(p);
                }
            }
            proof {
                lemma_bucket_step(entries@, i as int, out);
            }
            i = i + 1;
        }
        proof {
            assert(entries@.take(n as int) =~= entries@);
        }
        out
    }
}

/// One working-tree entry carries some flag at all.
pub open spec fn sel_relevant(e: StatusEntry) -> bool {
    e.is_new || e.is_deleted || e.is_modified
}

pub open spec fn in_prompts(e: StatusEntry) -> bool {
    crate::textutil::spec_starts_with(e.path@, "prompts/"@)
}

pub open spec fn in_code(e: StatusEntry) -> bool {
    crate::textutil::spec_starts_with(e.path@, "code.lock/"@)
}

pub open spec fn is_config_path(e: StatusEntry) -> bool {
    e.path@ == "lit.toml"@ || crate::textutil::spec_starts_with(e.path@, ".lit/"@) || e.path@
        == ".gitignore"@
}

pub open spec fn sel_prompt_new(e: StatusEntry) -> bool {
    sel_relevant(e) && in_prompts(e) && e.is_new
}

pub open spec fn sel_prompt_deleted(e: StatusEntry) -> bool {
    sel_relevant(e) && in_prompts(e) && !e.is_new && e.is_deleted
}

pub open spec fn sel_prompt_modified(e: StatusEntry) -> bool {
    sel_relevant(e) && in_prompts(e) && !e.is_new && !e.is_deleted
}

pub open spec fn sel_code_new(e: StatusEntry) -> bool {
    sel_relevant(e) && !in_prompts(e) && in_code(e) && e.is_new
}

pub open spec fn sel_code_modified(e: StatusEntry) -> bool {
    sel_relevant(e) && !in_prompts(e) && in_code(e) && !e.is_new && !e.is_deleted
}

pub open spec fn sel_config(e: StatusEntry) -> bool {
    sel_relevant(e) && !in_prompts(e) && !in_code(e) && is_config_path(e) && (e.is_new
        || e.is_modified)
}

pub open spec fn sel_other(e: StatusEntry) -> bool {
    sel_relevant(e) && !in_prompts(e) && !in_code(e) && !is_config_path(e)
}

/// The paths of the entries a rule selects, in input order.
pub open spec fn bucket(entries: Seq<StatusEntry>, pred: spec_fn(StatusEntry) -> bool) -> Seq<
    Seq<char>,
> {
    entries.filter(pred).map_values(|e: StatusEntry| e.path@)
}

/// Extending the prefix by one entry extends exactly the bucket whose
/// rule selects it.
proof fn lemma_bucket_extend(
    entries: Seq<StatusEntry>,
    i: int,
    pred: spec_fn(StatusEntry) -> bool,
)
    requires
        0 <= i < entries.len(),
    ensures
        pred(entries[i]) ==> bucket(entries.take(i + 1), pred) == bucket(
            entries.take(i),
            pred,
        ).push(entries[i].path@),
        !pred(entries[i]) ==> bucket(entries.take(i + 1), pred) == bucket(entries.take(i), pred),
{
    reveal_with_fuel(Seq::filter, 2);
    assert(entries.take(i + 1).drop_last() =~= entries.take(i));
    assert(entries.take(i + 1).last() == entries[i]);
    if pred(entries[i]) {
        assert(entries.take(i + 1).filter(pred) =~= entries.take(i).filter(pred).push(
            entries[i],
        ));
        assert(bucket(entries.take(i + 1), pred) =~= bucket(entries.take(i), pred).push(
            entries[i].path@,
        ));
    } else {
        assert(entries.take(i + 1).filter(pred) =~= entries.take(i).filter(pred));
    }
}

/// The step fact for every bucket at once.
proof fn lemma_bucket_step(entries: Seq<StatusEntry>, i: int, out: RepoStatus)
    requires
        0 <= i < entries.len(),
    ensures
        (sel_prompt_new(entries[i]) ==> bucket(
            entries.take(i + 1),
            |e: StatusEntry| sel_prompt_new(e),
        ) == bucket(entries.take(i), |e: StatusEntry| sel_prompt_new(e)).push(
            entries[i].path@,
        )),
        (!sel_prompt_new(entries[i]) ==> bucket(
            entries.take(i + 1),
            |e: StatusEntry| sel_prompt_new(e),
        ) == bucket(entries.take(i), |e: StatusEntry| sel_prompt_new(e))),
        (sel_prompt_deleted(entries[i]) ==> bucket(
            entries.take(i + 1),
            |e: StatusEntry| sel_prompt_deleted(e),
        ) == bucket(entries.take(i), |e: StatusEntry| sel_prompt_deleted(e)).push(
            entries[i].path@,
        )),
        (!sel_prompt_deleted(entries[i]) ==> bucket(
            entries.take(i + 1),
            |e: StatusEntry| sel_prompt_deleted(e),
        ) == bucket(entries.take(i), |e: StatusEntry| sel_prompt_deleted(e))),
        (sel_prompt_modified(entries[i]) ==> bucket(
            entries.take(i + 1),
            |e: StatusEntry| sel_prompt_modified(e),
        ) == bucket(entries.take(i), |e: StatusEntry| sel_prompt_modified(e)).push(
            entries[i].path@,
        )),
        (!sel_prompt_modified(entries[i]) ==> bucket(
            entries.take(i + 1),
            |e: StatusEntry| sel_prompt_modified(e),
        ) == bucket(entries.take(i), |e: StatusEntry| sel_prompt_modified(e))),
        (sel_code_new(entries[i]) ==> bucket(
            entries.take(i + 1),
            |e: StatusEntry| sel_code_new(e),
        ) == bucket(entries.take(i), |e: StatusEntry| sel_code_new(e)).push(
            entries[i].path@,
        )),
        (!sel_code_new(entries[i]) ==> bucket(
            entries.take(i + 1),
            |e: StatusEntry| sel_code_new(e),
        ) == bucket(entries.take(i), |e: StatusEntry| sel_code_new(e))),
        (sel_code_modified(entries[i]) ==> bucket(
            entries.take(i + 1),
            |e: StatusEntry| sel_code_modified(e),
        ) == bucket(entries.take(i), |e: StatusEntry| sel_code_modified(e)).push(
            entries[i].path@,
        )),
        (!sel_code_modified(entries[i]) ==> bucket(
            entries.take(i + 1),
            |e: StatusEntry| sel_code_modified(e),
        ) == bucket(entries.take(i), |e: StatusEntry| sel_code_modified(e))),
        (sel_config(entries[i]) ==> bucket(entries.take(i + 1), |e: StatusEntry| sel_config(e))
            == bucket(entries.take(i), |e: StatusEntry| sel_config(e)).push(
            entries[i].path@,
        )),
        (!sel_config(entries[i]) ==> bucket(entries.take(i + 1), |e: StatusEntry| sel_config(e))
            == bucket(entries.take(i), |e: StatusEntry| sel_config(e))),
        (sel_other(entries[i]) ==> bucket(entries.take(i + 1), |e: StatusEntry| sel_other(e))
            == bucket(entries.take(i), |e: StatusEntry| sel_other(e)).push(
            entries[i].path@,
        )),
        (!sel_other(entries[i]) ==> bucket(entries.take(i + 1), |e: StatusEntry| sel_other(e))
            == bucket(entries.take(i), |e: StatusEntry| sel_other(e))),
{
    lemma_bucket_extend(entries, i, |e: StatusEntry| sel_prompt_new(e));
    lemma_bucket_extend(entries, i, |e: StatusEntry| sel_prompt_deleted(e));
    lemma_bucket_extend(entries, i, |e: StatusEntry| sel_prompt_modified(e));
    lemma_bucket_extend(entries, i, |e: StatusEntry| sel_code_new(e));
    lemma_bucket_extend(entries, i, |e: StatusEntry| sel_code_modified(e));
    lemma_bucket_extend(entries, i, |e: StatusEntry| sel_config(e));
    lemma_bucket_extend(entries, i, |e: StatusEntry| sel_other(e));
}

} // verus!