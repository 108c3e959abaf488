//! The patch store: persisted manual edits to generated files, detection
//! of hand edits, and replay through the three-way merge. The store here
//! is the in-memory model; reading and writing patch files on disk is the
//! surrounding program's concern.

use vstd::prelude::*;
use vstd::relations::sorted_by;
use crate::diffmerge::{
    DiffTag, any_overlap, collect_line_changes, diff_tags_of, spec_any_overlap,
    spec_line_changes, spec_merge_text, unified_diff_of, unified_diff_text,
};
use crate::lines::split_lines;
use crate::sorting::{lex_leq, str_views};
use crate::textutil::{str_copy, str_eq};

verus! {

/// A hand edit detected on one output file.
#[derive(Debug)]
pub struct PatchInfo {
    /// Output file path the edit was found on.
    pub output_path: String,
    /// Unified diff of the manual edit, for display.
    pub diff: String,
    /// Lines the edit added.
    pub lines_added: usize,
    /// Lines the edit removed.
    pub lines_removed: usize,
}

/// A persisted patch: the generated baseline, the user's edited content,
/// and a display diff. Keeping both contents losslessly is what makes the
/// three-way replay possible.
#[derive(Debug)]
pub struct StoredPatch {
    pub original_content: String,
    pub manual_content: String,
    pub diff: String,
}

/// The outcome of replaying a patch over fresh output.
#[derive(Debug)]
pub enum PatchResult {
    /// The edits merged cleanly: the merged content.
    Applied(String),
    /// The edits collide with the regenerated lines: conflict-marked
    /// content.
    Conflict(String),
}

/// The conflict rendering: the manual content over the fresh content,
/// wrapped in standard conflict markers.
pub open spec fn spec_conflict_text(manual: Seq<char>, new_gen: Seq<char>) -> Seq<char> {
    "<<<<<<< manual-patch\n"@ + manual + "=======\n"@ + new_gen + ">>>>>>> generated\n"@
}

/// Number of tags of the given kind.
pub open spec fn count_inserts(tags: Seq<DiffTag>) -> int
    decreases tags.len(),
{
    if tags.len() == 0 {
        0
    } else {
        count_inserts(tags.drop_last()) + if tags.last() is Insert {
            1int
        } else {
            0int
        }
    }
}

pub open spec fn count_deletes(tags: Seq<DiffTag>) -> int
    decreases tags.len(),
{
    if tags.len() == 0 {
        0
    } else {
        count_deletes(tags.drop_last()) + if tags.last() is Delete {
            1int
        } else {
            0int
        }
    }
}

/// Manages manual patches to generated files, keyed by output path.
pub struct PatchStore {
    patches_dir: String,
    patches: Vec<(String, StoredPatch)>,
}

impl PatchStore {
    pub closed spec fn dir_view(&self) -> Seq<char> {
        self.patches_dir@
    }

    pub closed spec fn entries_view(&self) -> Seq<(String, StoredPatch)> {
        self.patches@
    }

    /// At most one patch per output path.
    pub closed spec fn inv(&self) -> bool {
        forall|i: int, j: int|
            0 <= i < j < self.patches@.len() ==> (self.patches@[i]).0@ != (self.patches@[j]).0@
    }

    /// A patch is stored for the output path `p`.
    pub open spec fn has_patch_for(&self, p: Seq<char>) -> bool {
        exists|i: int| 0 <= i < self.entries_view().len() && (self.entries_view()[i]).0@ == p
    }

    /// The patch stored for output path `p`.
    pub open spec fn patch_at(&self, p: Seq<char>) -> StoredPatch {
        (self.entries_view()[choose|i: int|
            0 <= i < self.entries_view().len() && (self.entries_view()[i]).0@ == p]).1
    }

    /// A fresh, empty store for the given directory.
    pub fn new(patches_dir: String) -> (r: PatchStore)
        ensures
            r.inv(),
            r.dir_view() == patches_dir@,
            forall|p: Seq<char>| !r.has_patch_for(p),
    {
        let r = PatchStore { patches_dir, patches: Vec::new() };
        proof {
            assert forall|p: Seq<char>| !r.has_patch_for(p) by {
                assert(r.entries_view().len() == 0);
            }
        }
        r
    }

    /// The file a patch for `output_path` is stored at: the store
    /// directory, the output path, and the patch suffix.
    pub fn patch_file_path(&self, output_path: &str) -> (r: String)
        ensures
            r@ == self.dir_view() + "/"@ + output_path@ + ".patch"@,
    {
        let mut out = str_copy(self.patches_dir.as_str());
        out.append("/");
        out.append(output_path);
        out.append(".patch");
        out
    }

    /// Persist a manual edit: both contents are stored exactly, with a
    /// display diff of the edit.
    pub fn save_patch(&mut self, output_path: &str, original_content: &str, manual_content: &str)
        requires
            old(self).inv(),
        ensures
            final(self).inv(),
            final(self).dir_view() == old(self).dir_view(),
            final(self).has_patch_for(output_path@),
            final(self).patch_at(output_path@).original_content@ == original_content@,
            final(self).patch_at(output_path@).manual_content@ == manual_content@,
            final(self).patch_at(output_path@).diff@ == unified_diff_of(
                original_content@,
                manual_content@,
                output_path@,
            ),
            forall|p: Seq<char>|
                p != output_path@ ==> (final(self).has_patch_for(p) <==> old(self).has_patch_for(
                    p,
                )),
            forall|p: Seq<char>|
                p != output_path@ && old(self).has_patch_for(p) ==> final(self).patch_at(p)
                    == old(self).patch_at(p),
    {
        let diff = unified_diff_text(original_content, manual_content, output_path);
        let stored = StoredPatch {
            original_content: str_copy(original_content),
            manual_content: str_copy(manual_content),
            diff,
        };
        let key = str_copy(output_path);
        let n: usize = self.patches.len();
        let mut i: usize = 0;
        let ghost entries0: Seq<(String, StoredPatch)> = self.patches@;
        while i < n
            invariant
                self.inv(),
                self.patches@ == entries0,
                entries0 == old(self).entries_view(),
                self.dir_view() == old(self).dir_view(),
                n == self.patches@.len(),
                i <= n,
                key@ == output_path@,
                stored.original_content@ == original_content@,
                stored.manual_content@ == manual_content@,
                stored.diff@ == unified_diff_of(original_content@, manual_content@, output_path@),
                forall|k: int| 0 <= k < i ==> (self.patches@[k]).0@ != output_path@,
            decreases n - i,
        {
            if str_eq(self.patches[i].0.as_str(), output_path) {
                let ghost before: Seq<(String, StoredPatch)> = self.patches@;
                self.patches[i] = (key, stored);
                proof {
                    lemma_patch_update(before, self.patches@, i as int);
                    assert((self.entries_view()[i as int]).0@ == output_path@);
                    assert(self.has_patch_for(output_path@));
                    let w = choose|w: int|
                        0 <= w < self.entries_view().len() && (self.entries_view()[w]).0@
                            == output_path@;
                    assert(w == i as int) by {
                        if w != i as int {
                            assert((self.entries_view()[w]).0@ != (self.entries_view()[
                                i as int
                            ]).0@);
                        }
                    }
                    assert forall|p: Seq<char>| p != output_path@ implies (self.has_patch_for(p)
                        <==> old(self).has_patch_for(p)) by {
                        if self.has_patch_for(p) {
                            let w1 = choose|w1: int|
                                0 <= w1 < self.entries_view().len() && (self.entries_view()[
                                    w1
                                ]).0@ == p;
                            assert(w1 != i as int);
                            assert((before[w1]).0@ == p);
                        }
                        if old(self).has_patch_for(p) {
                            let w2 = choose|w2: int|
                                0 <= w2 < before.len() && (before[w2]).0@ == p;
                            assert(w2 != i as int);
                            assert((self.entries_view()[w2]).0@ == p);
                        }
                    }
                    assert forall|p: Seq<char>| p != output_path@ && old(self).has_patch_for(p)
                        implies self.patch_at(p) == old(self).patch_at(p) by {
                        let w2 = choose|w2: int| 0 <= w2 < before.len() && (before[w2]).0@ == p;
                        assert((self.entries_view()[w2]).0@ == p);
                        let w1 = choose|w1: int|
                            0 <= w1 < self.entries_view().len() && (self.entries_view()[w1]).0@
                                == p;
                        assert(w1 != i as int);
                        assert((before[w1]).0@ == p);
                        if w1 != w2 {
                            if w1 < w2 {
                                assert((before[w1]).0@ != (before[w2]).0@);
                            } else {
                                assert((before[w2]).0@ != (before[w1]).0@);
                            }
                        }
                    }
                }
                return ;
            }
            i = i + 1;
        }
        let ghost before: Seq<(String, StoredPatch)> = self.patches@;
        self.patches.push((key, stored));
        proof {
            lemma_patch_push(before, self.patches@);
            let last = before.len() as int;
            assert((self.entries_view()[last]).0@ == output_path@);
            assert(self.has_patch_for(output_path@));
            let w = choose|w: int|
                0 <= w < self.entries_view().len() && (self.entries_view()[w]).0@
                    == output_path@;
            assert(w == last) by {
                if w != last {
                    assert((before[w]).0@ == output_path@);
                }
            }
            assert forall|p: Seq<char>| p != output_path@ implies (self.has_patch_for(p) <==> old(
                self,
            ).has_patch_for(p)) by {
                if self.has_patch_for(p) {
                    let w1 = choose|w1: int|
                        0 <= w1 < self.entries_view().len() && (self.entries_view()[w1]).0@ == p;
                    assert(w1 != last);
                    assert((before[w1]).0@ == p);
                }
                if old(self).has_patch_for(p) {
                    let w2 = choose|w2: int| 0 <= w2 < before.len() && (before[w2]).0@ == p;
                    assert((self.entries_view()[w2]).0@ == p);
                }
            }
            assert forall|p: Seq<char>| p != output_path@ && old(self).has_patch_for(p) implies
                self.patch_at(p) == old(self).patch_at(p) by {
                let w2 = choose|w2: int| 0 <= w2 < before.len() && (before[w2]).0@ == p;
                assert((self.entries_view()[w2]).0@ == p);
                let w1 = choose|w1: int|
                    0 <= w1 < self.entries_view().len() && (self.entries_view()[w1]).0@ == p;
                assert(w1 != last);
                assert((before[w1]).0@ == p);
                if w1 != w2 {
                    if w1 < w2 {
                        assert((before[w1]).0@ != (before[w2]).0@);
                    } else {
                        assert((before[w2]).0@ != (before[w1]).0@);
                    }
                }
            }
        }
    }

    /// Load the stored patch for an output path, if any.
    pub fn load_patch(&self, output_path: &str) -> (r: Option<&StoredPatch>)
        requires
            self.inv(),
        ensures
            match r {
                Some(p) => self.has_patch_for(output_path@) && *p == self.patch_at(
                    output_path@,
                ),
                None => !self.has_patch_for(output_path@),
            },
    {
        let n: usize = self.patches.len();
        let mut i: usize = 0;
        while i < n
            invariant
                self.inv(),
                n == self.entries_view().len(),
                i <= n,
                forall|k: int| 0 <= k < i ==> (self.entries_view()[k]).0@ != output_path@,
            decreases n - i,
        {
            if str_eq(self.patches[i].0.as_str(), output_path) {
                proof {
                    let w = choose|w: int|
                        0 <= w < self.entries_view().len() && (self.entries_view()[w]).0@
                            == output_path@;
                    if w < i as int {
                        assert((self.entries_view()[w]).0@ != output_path@);
                    }
                    if w > i as int {
                        assert((self.entries_view()[i as int]).0@ != (self.entries_view()[
                            w
                        ]).0@);
                    }
                }
                return Some(&self.patches[i].1);
            }
            i = i + 1;
        }
        None
    }

    /// Whether a patch exists for an output path.
    pub fn has_patch(&self, output_path: &str) -> (r: bool)
        requires
            self.inv(),
        ensures
            r == self.has_patch_for(output_path@),
    {
        self.load_patch(output_path).is_some()
    }

    /// Drop the patch stored for an output path, if any.
    pub fn drop_patch(&mut self, output_path: &str)
        requires
            old(self).inv(),
        ensures
            final(self).inv(),
            final(self).dir_view() == old(self).dir_view(),
            !final(self).has_patch_for(output_path@),
            forall|p: Seq<char>|
                p != output_path@ ==> (final(self).has_patch_for(p) <==> old(
                    self,
                ).has_patch_for(p)),
    {
        let n: usize = self.patches.len();
        let mut i: usize = 0;
        let ghost entries0: Seq<(String, StoredPatch)> = self.patches@;
        while i < n
            invariant
                self.inv(),
                self.patches@ == entries0,
                entries0 == old(self).entries_view(),
                self.dir_view() == old(self).dir_view(),
                n == self.patches@.len(),
                i <= n,
                forall|k: int| 0 <= k < i ==> (self.patches@[k]).0@ != output_path@,
            decreases n - i,
        {
            if str_eq(self.patches[i].0.as_str(), output_path) {
                let ghost before: Seq<(String, StoredPatch)> = self.patches@;
                self.patches.remove(i);
                proof {
                    lemma_patch_remove(before, self.patches@, i as int, output_path@);
                    assert(!self.has_patch_for(output_path@)) by {
                        if self.has_patch_for(output_path@) {
                            let w = choose|w: int|
                                0 <= w < self.entries_view().len() && (self.entries_view()[
                                    w
                                ]).0@ == output_path@;
                        }
                    }
                    assert forall|p: Seq<char>| p != output_path@ implies (self.has_patch_for(p)
                        <==> old(self).has_patch_for(p)) by {
                        if self.has_patch_for(p) {
                            let w1 = choose|w1: int|
                                0 <= w1 < self.entries_view().len() && (self.entries_view()[
                                    w1
                                ]).0@ == p;
                            let w0 = if w1 < i as int {
                                w1
                            } else {
                                w1 + 1
                            };
                            assert(self.entries_view()[w1] == before[w0]);
                        }
                        if old(self).has_patch_for(p) {
                            let w2 = choose|w2: int|
                                0 <= w2 < before.len() && (before[w2]).0@ == p;
                            assert(w2 != i as int);
                            let w3 = if w2 < i as int {
                                w2
                            } else {
                                w2 - 1
                            };
                            assert(self.entries_view()[w3] == before[w2]);
                        }
                    }
                }
                return ;
            }
            i = i + 1;
        }
        proof {
            assert(!self.has_patch_for(output_path@));
        }
    }

    /// All output paths with stored patches, lexicographically ordered,
    /// each exactly once.
    pub fn list_patches(&self) -> (r: Vec<String>)
        requires
            self.inv(),
        ensures
            sorted_by(str_views(r@), lex_leq()),
            str_views(r@).to_multiset() == str_views(
                self.entries_view().map_values(|e: (String, StoredPatch)| e.0),
            ).to_multiset(),
            forall|a: int, b: int|
                0 <= a < b < r@.len() ==> (#[trigger] r@[a])@ != (#[trigger] r@[b])@,
            r@.len() == self.entries_view().len(),
            forall|p: Seq<char>| self.has_patch_for(p) ==> str_views(r@).contains(p),
    {
        let mut keys: Vec<String> = Vec::new();
        let n: usize = self.patches.len();
        let mut i: usize = 0;
        while i < n
            invariant
                n == self.entries_view().len(),
                i <= n,
                keys@.len() == i,
                forall|t: int| 0 <= t < i ==> (#[trigger] keys@[t])@ == (self.entries_view()[t]).0@,
            decreases n - i,
        {
            keys.push(str_copy(self.patches[i].0.as_str()));
            i = i + 1;
        }
        proof {
            assert forall|t: int| 0 <= t < n implies str_views(keys@)[t] == str_views(
                self.entries_view().map_values(|e: (String, StoredPatch)| e.0),
            )[t] by {
                assert(str_views(keys@)[t] == keys@[t]@);
                assert(self.entries_view().map_values(|e: (String, StoredPatch)| e.0)[t]
                    == (self.entries_view()[t]).0);
            }
            assert(str_views(keys@) =~= str_views(
                self.entries_view().map_values(|e: (String, StoredPatch)| e.0),
            ));
            assert(str_views(keys@).no_duplicates()) by {
                assert forall|a: int, b: int|
                    0 <= a < b < str_views(keys@).len() implies str_views(keys@)[a] != str_views(
                    keys@,
                )[b] by {
                    assert(str_views(keys@)[a] == (self.entries_view()[a]).0@);
                    assert(str_views(keys@)[b] == (self.entries_view()[b]).0@);
                }
            }
        }
        let sorted = crate::sorting::sort_strings(keys);
        proof {
            broadcast use vstd::seq_lib::group_to_multiset_ensures;

            str_views(keys@).lemma_multiset_has_no_duplicates();
            assert forall|x: Seq<char>|
                str_views(sorted@).to_multiset().contains(x) implies str_views(
                sorted@,
            ).to_multiset().count(x) == 1 by {
                assert(str_views(keys@).to_multiset().contains(x));
            }
            str_views(sorted@).lemma_multiset_has_no_duplicates_conv();
            assert forall|a: int, b: int|
                0 <= a < b < sorted@.len() implies (#[trigger] sorted@[a])@ != (
            #[trigger] sorted@[b])@ by {
                assert(str_views(sorted@)[a] == sorted@[a]@);
                assert(str_views(sorted@)[b] == sorted@[b]@);
            }
            assert forall|p: Seq<char>| self.has_patch_for(p) implies str_views(
                sorted@,
            ).contains(p) by {
                let w = choose|w: int|
                    0 <= w < self.entries_view().len() && (self.entries_view()[w]).0@ == p;
                assert(str_views(keys@)[w] == p);
                assert(str_views(keys@).contains(p));
                assert(str_views(keys@).to_multiset().count(p) > 0);
                assert(str_views(sorted@).to_multiset().count(p) > 0);
            }
        }
        sorted
    }

    /// Replay a saved patch over freshly generated content: when the
    /// regeneration changed nothing, the manual content stands; when the
    /// user's line ranges and the model's line ranges are disjoint, both
    /// sets of edits are merged; when they overlap, conflict-marked
    /// content is produced.
    pub fn apply_patch(
        &self,
        original_generated: &str,
        new_generated: &str,
        manual_content: &str,
    ) -> (r: PatchResult)
        ensures
            original_generated@ == new_generated@ ==> (r matches PatchResult::Applied(s) && s@
                == manual_content@),
            original_generated@ != new_generated@ && spec_any_overlap(
                spec_line_changes(diff_tags_of(original_generated@, manual_content@)),
                spec_line_changes(diff_tags_of(original_generated@, new_generated@)),
            ) ==> (r matches PatchResult::Conflict(s) && s@ == spec_conflict_text(
                manual_content@,
                new_generated@,
            )),
            original_generated@ != new_generated@ && !spec_any_overlap(
                spec_line_changes(diff_tags_of(original_generated@, manual_content@)),
                spec_line_changes(diff_tags_of(original_generated@, new_generated@)),
            ) ==> (r matches PatchResult::Applied(s) && s@ == spec_merge_text(
                crate::lines::spec_lines(original_generated@),
                crate::lines::spec_lines(manual_content@),
                crate::lines::spec_lines(new_generated@),
            )),
    {
        if str_eq(original_generated, new_generated) {
            return PatchResult::Applied(str_copy(manual_content));
        }
        let user_tags = crate::diffmerge::diff_line_tags(original_generated, manual_content);
        let llm_tags = crate::diffmerge::diff_line_tags(original_generated, new_generated);
        let user_changes = collect_line_changes(&user_tags);
        let llm_changes = collect_line_changes(&llm_tags);
        if any_overlap(&user_changes, &llm_changes) {
            let mut out = String::new();
            out.append("<<<<<<< manual-patch\n");
            out.append(manual_content);
            out.append("=======\n");
            out.append(new_generated);
            out.append(">>>>>>> generated\n");
            proof {
                assert(out@ =~= spec_conflict_text(manual_content@, new_generated@));
            }
            return PatchResult::Conflict(out);
        }
        let original_lines = split_lines(original_generated);
        let manual_lines = split_lines(manual_content);
        let new_lines = split_lines(new_generated);
        let merged = crate::diffmerge::merge_non_conflicting(
            &original_lines,
            &manual_lines,
            &new_lines,
        );
        PatchResult::Applied(merged)
    }
}

/// A key of an association list of path-keyed contents.
pub open spec fn map_has_key(m: Seq<(String, String)>, p: Seq<char>) -> bool {
    exists|i: int| 0 <= i < m.len() && (m[i]).0@ == p
}

/// The content stored under a key.
pub open spec fn map_val(m: Seq<(String, String)>, p: Seq<char>) -> Seq<char> {
    (m[choose|i: int| 0 <= i < m.len() && (m[i]).0@ == p]).1@
}

/// The output paths of a patch report.
pub open spec fn patch_paths(r: Seq<PatchInfo>) -> Seq<Seq<char>> {
    r.map_values(|e: PatchInfo| e.output_path@)
}

/// Find the pair stored under a key.
fn map_lookup<'a>(m: &'a Vec<(String, String)>, p: &str) -> (r: Option<&'a String>)
    requires
        forall|a: int, b: int| 0 <= a < b < m@.len() ==> (m@[a]).0@ != (m@[b]).0@,
    ensures
        match r {
            Some(v) => map_has_key(m@, p@) && v@ == map_val(m@, p@),
            None => !map_has_key(m@, p@),
        },
{
    let n: usize = m.len();
    let mut i: usize = 0;
    while i < n
        invariant
            forall|a: int, b: int| 0 <= a < b < m@.len() ==> (m@[a]).0@ != (m@[b]).0@,
            n == m@.len(),
            i <= n,
            forall|k: int| 0 <= k < i ==> (m@[k]).0@ != p@,
        decreases n - i,
    {
        if str_eq(m[i].0.as_str(), p) {
            proof {
                let w = choose|w: int| 0 <= w < m@.len() && (m@[w]).0@ == p@;
                if w < i as int {
                    assert((m@[w]).0@ != p@);
                }
                if w > i as int {
                    assert((m@[i as int]).0@ != (m@[w]).0@);
                }
            }
            return Some(&m[i].1);
        }
        i = i + 1;
    }
    None
}

impl PatchStore {
    /// Compare the generated contents against the contents on disk and
    /// report one patch per output whose contents differ, ordered by
    /// output path.
    /// Compare the generated contents against the contents on disk and
    /// report one patch per output whose contents differ, ordered by
    /// output path: sound (every entry is a real difference, with its
    /// exact diff text and line counts) and complete (every difference
    /// is reported, each output once).
    #[verifier::rlimit(100)]
    #[verifier::spinoff_prover]
    pub fn detect_patches(
        generated: &Vec<(String, String)>,
        actual: &Vec<(String, String)>,
    ) -> (r: Vec<PatchInfo>)
        requires
            forall|a: int, b: int|
                0 <= a < b < generated@.len() ==> (generated@[a]).0@ != (generated@[b]).0@,
            forall|a: int, b: int|
                0 <= a < b < actual@.len() ==> (actual@[a]).0@ != (actual@[b]).0@,
        ensures
            sorted_by(patch_paths(r@), lex_leq()),
            forall|a: int, b: int|
                0 <= a < b < r@.len() ==> (r@[a]).output_path@ != (r@[b]).output_path@,
            forall|t: int|
                #![trigger r@[t]]
                0 <= t < r@.len() ==> {
                    let p = (r@[t]).output_path@;
                    &&& map_has_key(generated@, p)
                    &&& map_has_key(actual@, p)
                    &&& map_val(generated@, p) != map_val(actual@, p)
                    &&& (r@[t]).diff@ == unified_diff_of(
                        map_val(generated@, p),
                        map_val(actual@, p),
                        p,
                    )
                    &&& (r@[t]).lines_added as int == count_inserts(
                        diff_tags_of(map_val(generated@, p), map_val(actual@, p)),
                    )
                    &&& (r@[t]).lines_removed as int == count_deletes(
                        diff_tags_of(map_val(generated@, p), map_val(actual@, p)),
                    )
                },
            forall|p: Seq<char>|
                #![trigger map_val(generated@, p), map_val(actual@, p)]
                map_has_key(generated@, p) && map_has_key(actual@, p) && map_val(generated@, p)
                    != map_val(actual@, p) ==> exists|t: int|
                    0 <= t < r@.len() && (#[trigger] r@[t]).output_path@ == p,
    {
        let mut keys: Vec<String> = Vec::new();
        let gn: usize = generated.len();
        let mut gi: usize = 0;
        while gi < gn
            invariant
                gn == generated@.len(),
                gi <= gn,
                keys@.len() == gi,
                forall|t: int|
                    0 <= t < gi ==> (#[trigger] keys@[t])@ == (generated@[t]).0@,
            decreases gn - gi,
        {
            keys.push(str_copy(generated[gi].0.as_str()));
            gi = gi + 1;
        }
        proof {
            assert forall|t: int| 0 <= t < gn implies str_views(keys@)[t] == (generated@[
                t
            ]).0@ by {
                assert(str_views(keys@)[t] == keys@[t]@);
            }
            assert(str_views(keys@).no_duplicates()) by {
                assert forall|a: int, b: int|
                    0 <= a < b < str_views(keys@).len() implies str_views(keys@)[a] != str_views(
                    keys@,
                )[b] by {
                    assert(str_views(keys@)[a] == (generated@[a]).0@);
                    assert(str_views(keys@)[b] == (generated@[b]).0@);
                }
            }
        }
        let sorted_keys = crate::sorting::sort_strings(keys);
        proof {
            str_views(keys@).lemma_multiset_has_no_duplicates();
            assert forall|x: Seq<char>|
                str_views(sorted_keys@).to_multiset().contains(x) implies str_views(
                sorted_keys@,
            ).to_multiset().count(x) == 1 by {
                assert(str_views(keys@).to_multiset().contains(x));
            }
            str_views(sorted_keys@).lemma_multiset_has_no_duplicates_conv();
        }
        let kn: usize = sorted_keys.len();
        let mut ki: usize = 0;
        let mut out: Vec<PatchInfo> = Vec::new();
        let ghost mut locs: Map<Seq<char>, int> = Map::empty();
        while ki < kn
            invariant
                forall|a: int, b: int|
                    0 <= a < b < generated@.len() ==> (generated@[a]).0@ != (generated@[b]).0@,
                forall|a: int, b: int|
                    0 <= a < b < actual@.len() ==> (actual@[a]).0@ != (actual@[b]).0@,
                kn == sorted_keys@.len(),
                ki <= kn,
                sorted_by(str_views(sorted_keys@), lex_leq()),
                str_views(sorted_keys@).no_duplicates(),
                sorted_by(patch_paths(out@), lex_leq()),
                forall|a: int, b: int|
                    0 <= a < b < out@.len() ==> (out@[a]).output_path@ != (out@[b]).output_path@,
                out@.len() > 0 ==> ki > 0 && crate::textutil::lex_le(
                    patch_paths(out@).last(),
                    str_views(sorted_keys@)[ki - 1],
                ),
                forall|t: int|
                    #![trigger out@[t]]
                    0 <= t < out@.len() ==> {
                        let p = (out@[t]).output_path@;
                        &&& map_has_key(generated@, p)
                        &&& map_has_key(actual@, p)
                        &&& map_val(generated@, p) != map_val(actual@, p)
                        &&& (out@[t]).diff@ == unified_diff_of(
                            map_val(generated@, p),
                            map_val(actual@, p),
                            p,
                        )
                        &&& (out@[t]).lines_added as int == count_inserts(
                            diff_tags_of(map_val(generated@, p), map_val(actual@, p)),
                        )
                        &&& (out@[t]).lines_removed as int == count_deletes(
                            diff_tags_of(map_val(generated@, p), map_val(actual@, p)),
                        )
                    },
                forall|p: Seq<char>|
                    #![trigger map_val(generated@, p), map_val(actual@, p)]
                    (exists|t: int|
                        0 <= t < ki && str_views(sorted_keys@)[t] == p) && map_has_key(
                        generated@,
                        p,
                    ) && map_has_key(actual@, p) && map_val(generated@, p) != map_val(actual@, p)
                        ==> locs.dom().contains(p) && 0 <= locs[p] < out@.len() && (out@[
                        locs[p]
                    ]).output_path@ == p,
            decreases kn - ki,
        {
            let key = &sorted_keys[ki];
            proof {
                assert(str_views(sorted_keys@)[ki as int] == key@);
            }
            let gen_content = match map_lookup(generated, key.as_str()) {
                Some(c) => Some(str_copy(c.as_str())),
                None => None,
            };
            match gen_content {
                Some(gen_c) => {
                    match map_lookup(actual, key.as_str()) {
                        Some(act_v) => {
                            let act_c = str_copy(act_v.as_str());
                            if !str_eq(gen_c.as_str(), act_c.as_str()) {
                                let tags = crate::diffmerge::diff_line_tags(
                                    gen_c.as_str(),
                                    act_c.as_str(),
                                );
                                let (added, removed) = count_tags(&tags);
                                let diff = unified_diff_text(
                                    gen_c.as_str(),
                                    act_c.as_str(),
                                    key.as_str(),
                                );
                                let ghost out_before: Seq<PatchInfo> = out@;
                                out.push(
                                    PatchInfo {
                                        output_path: str_copy(key.as_str()),
                                        diff,
                                        lines_added: added,
                                        lines_removed: removed,
                                    },
                                );
                                proof {
                                    locs = locs.insert(key@, out@.len() - 1);
                                    assert(patch_paths(out@) =~= patch_paths(out_before).push(
                                        key@,
                                    ));
                                    crate::sorting::lemma_lex_leq_total_ordering();
                                    assert forall|p2: int, q2: int|
                                        0 <= p2 < q2 < patch_paths(out@).len() implies lex_leq()(
                                        patch_paths(out@)[p2],
                                        patch_paths(out@)[q2],
                                    ) by {
                                        if q2 < patch_paths(out@).len() - 1 {
                                            assert(patch_paths(out@)[p2] == patch_paths(
                                                out_before,
                                            )[p2]);
                                            assert(patch_paths(out@)[q2] == patch_paths(
                                                out_before,
                                            )[q2]);
                                        } else {
                                            assert(patch_paths(out@)[q2] == key@);
                                            if p2 < patch_paths(out_before).len() {
                                                assert(patch_paths(out@)[p2] == patch_paths(
                                                    out_before,
                                                )[p2]);
                                                if out_before.len() > 0 {
                                                    assert(lex_leq()(
                                                        patch_paths(out@)[p2],
                                                        patch_paths(out_before).last(),
                                                    ));
                                                    assert(lex_leq()(
                                                        patch_paths(out_before).last(),
                                                        str_views(sorted_keys@)[ki - 1],
                                                    ));
                                                    assert(lex_leq()(
                                                        str_views(sorted_keys@)[ki - 1],
                                                        str_views(sorted_keys@)[ki as int],
                                                    ));
                                                }
                                            }
                                        }
                                    }
                                    // A repeated path would force a repeated
                                    // key in the sorted distinct key list.
                                    assert forall|a: int, b: int|
                                        0 <= a < b < out@.len() implies (out@[a]).output_path@
                                        != (out@[b]).output_path@ by {
                                        if b < out@.len() - 1 {
                                            assert(out@[a] == out_before[a]);
                                            assert(out@[b] == out_before[b]);
                                        } else {
                                            assert(out@[a] == out_before[a]);
                                            assert((out@[b]).output_path@ == key@);
                                            if (out_before[a]).output_path@ == key@ {
                                                assert(ki > 0);
                                                assert(lex_leq()(
                                                    patch_paths(out_before)[a],
                                                    patch_paths(out_before).last(),
                                                ));
                                                assert(lex_leq()(
                                                    patch_paths(out_before).last(),
                                                    str_views(sorted_keys@)[ki - 1],
                                                ));
                                                assert(lex_leq()(
                                                    str_views(sorted_keys@)[ki - 1],
                                                    str_views(sorted_keys@)[ki as int],
                                                ));
                                                assert(patch_paths(out_before)[a] == key@);
                                                assert(lex_leq()(
                                                    str_views(sorted_keys@)[ki as int],
                                                    str_views(sorted_keys@)[ki - 1],
                                                )) by {
                                                    crate::textutil::lemma_lex_le_trans(
                                                        str_views(sorted_keys@)[ki as int],
                                                        patch_paths(out_before).last(),
                                                        str_views(sorted_keys@)[ki - 1],
                                                    );
                                                }
                                                assert(str_views(sorted_keys@)[ki - 1]
                                                    == str_views(sorted_keys@)[ki as int]);
                                                assert(false);
                                            }
                                        }
                                    }
                                    assert((out@.last()).output_path@ == key@);
                                    assert(patch_paths(out@).last() == key@);
                                    assert(crate::textutil::lex_le(key@, key@)) by {
                                        crate::textutil::lemma_lex_le_total(key@, key@);
                                    }
                                }
                            } else {
                                proof {
                                    assert(map_val(generated@, key@) == gen_c@);
                                    assert(map_val(actual@, key@) == act_c@);
                                }
                            }
                        },
                        None => {
                            proof {
                                assert(!map_has_key(actual@, key@));
                            }
                        },
                    }
                },
                None => {},
            }
            proof {
                assert forall|p: Seq<char>|
                    #![trigger map_val(generated@, p), map_val(actual@, p)]
                    (exists|t: int|
                        0 <= t < ki + 1 && str_views(sorted_keys@)[t] == p) && map_has_key(
                        generated@,
                        p,
                    ) && map_has_key(actual@, p) && map_val(generated@, p) != map_val(
                        actual@,
                        p,
                    ) implies locs.dom().contains(p) && 0 <= locs[p] < out@.len() && (out@[
                    locs[p]
                ]).output_path@ == p by {
                    let t0 = choose|t0: int|
                        0 <= t0 < ki + 1 && str_views(sorted_keys@)[t0] == p;
                    if t0 < ki as int {
                        assert(exists|t: int| 0 <= t < ki && str_views(sorted_keys@)[t] == p);
                    } else {
                        assert(p == key@);
                    }
                }
                if out@.len() > 0 {
                    crate::sorting::lemma_lex_leq_total_ordering();
                    if crate::textutil::lex_le(
                        patch_paths(out@).last(),
                        str_views(sorted_keys@)[ki - 1],
                    ) && ki > 0 {
                        assert(lex_leq()(
                            str_views(sorted_keys@)[ki - 1],
                            str_views(sorted_keys@)[ki as int],
                        ));
                        assert(crate::textutil::lex_le(
                            patch_paths(out@).last(),
                            str_views(sorted_keys@)[ki as int],
                        )) by {
                            crate::textutil::lemma_lex_le_trans(
                                patch_paths(out@).last(),
                                str_views(sorted_keys@)[ki - 1],
                                str_views(sorted_keys@)[ki as int],
                            );
                        }
                    }
                }
            }
            ki = ki + 1;
        }
        proof {
            broadcast use vstd::seq_lib::group_to_multiset_ensures;

            assert forall|p: Seq<char>|
                #![trigger map_val(generated@, p), map_val(actual@, p)]
                map_has_key(generated@, p) && map_has_key(actual@, p) && map_val(generated@, p)
                    != map_val(actual@, p) implies exists|t: int|
                0 <= t < out@.len() && (#[trigger] out@[t]).output_path@ == p by {
                let gidx = choose|i: int| 0 <= i < generated@.len() && (generated@[i]).0@ == p;
                assert(str_views(keys@)[gidx] == p);
                assert(str_views(keys@).contains(p));
                assert(str_views(keys@).to_multiset().count(p) > 0);
                assert(str_views(sorted_keys@).to_multiset().count(p) > 0);
                assert(str_views(sorted_keys@).contains(p));
                let t0 = choose|t0: int|
                    0 <= t0 < str_views(sorted_keys@).len() && str_views(sorted_keys@)[t0] == p;
                assert(exists|t: int| 0 <= t < kn && str_views(sorted_keys@)[t] == p);
                assert(locs.dom().contains(p) && 0 <= locs[p] < out@.len() && (out@[
                    locs[p]
                ]).output_path@ == p);
                assert((out@[locs[p]]).output_path@ == p);
            }
        }
        out
    }
}

/// Count the inserted and deleted lines a tag sequence describes.
fn count_tags(tags: &Vec<DiffTag>) -> (r: (usize, usize))
    ensures
        r.0 as int == count_inserts(tags@),
        r.1 as int == count_deletes(tags@),
{
    let n: usize = tags.len();
    let mut added: usize = 0;
    let mut removed: usize = 0;
    let mut i: usize = 0;
    while i < n
        invariant
            n == tags@.len(),
            i <= n,
            added <= i,
            removed <= i,
            added as int == count_inserts(tags@.take(i as int)),
            removed as int == count_deletes(tags@.take(i as int)),
        decreases n - i,
    {
        match tags[i] {
            DiffTag::Insert => {
                added = added + 1;
            },
            DiffTag::Delete => {
                removed = removed + 1;
            },
            DiffTag::Equal => {},
        }
        proof {
            assert(tags@.take(i + 1).drop_last() =~= tags@.take(i as int));
            assert(tags@.take(i + 1).last() == tags@[i as int]);
        }
        i = i + 1;
    }
    proof {
        assert(tags@.take(n as int) =~= tags@);
    }
    (added, removed)
}

proof fn lemma_patch_update(
    before: Seq<(String, StoredPatch)>,
    after: Seq<(String, StoredPatch)>,
    i: int,
)
    requires
        0 <= i < before.len(),
        after == before.update(i, after[i]),
        forall|a: int, b: int| 0 <= a < b < before.len() ==> (before[a]).0@ != (before[b]).0@,
        forall|k: int| 0 <= k < i ==> (before[k]).0@ != (after[i]).0@,
        (before[i]).0@ == (after[i]).0@,
    ensures
        forall|a: int, b: int| 0 <= a < b < after.len() ==> (after[a]).0@ != (after[b]).0@,
{
    assert forall|a: int, b: int|
        0 <= a < b < after.len() implies (after[a]).0@ != (after[b]).0@ by {
        if a != i && b != i {
            assert(after[a] == before[a] && after[b] == before[b]);
        } else if a == i {
            assert(after[b] == before[b]);
            assert((before[i]).0@ != (before[b]).0@);
        } else {
            assert(after[a] == before[a]);
            assert((before[a]).0@ != (before[i]).0@);
        }
    }
}

proof fn lemma_patch_push(before: Seq<(String, StoredPatch)>, after: Seq<(String, StoredPatch)>)
    requires
        after == before.push(after.last()),
        after.len() == before.len() + 1,
        forall|a: int, b: int| 0 <= a < b < before.len() ==> (before[a]).0@ != (before[b]).0@,
        forall|k: int| 0 <= k < before.len() ==> (before[k]).0@ != (after.last()).0@,
    ensures
        forall|a: int, b: int| 0 <= a < b < after.len() ==> (after[a]).0@ != (after[b]).0@,
{
    assert forall|a: int, b: int|
        0 <= a < b < after.len() implies (after[a]).0@ != (after[b]).0@ by {
        if b < before.len() {
            assert(after[a] == before[a] && after[b] == before[b]);
        } else {
            assert(after[a] == before[a]);
            assert(after[b] == after.last());
        }
    }
}

proof fn lemma_patch_remove(
    before: Seq<(String, StoredPatch)>,
    after: Seq<(String, StoredPatch)>,
    i: int,
    p: Seq<char>,
)
    requires
        0 <= i < before.len(),
        after == before.remove(i),
        forall|a: int, b: int| 0 <= a < b < before.len() ==> (before[a]).0@ != (before[b]).0@,
        (before[i]).0@ == p,
    ensures
        forall|a: int, b: int| 0 <= a < b < after.len() ==> (after[a]).0@ != (after[b]).0@,
        forall|k: int| 0 <= k < after.len() ==> (after[k]).0@ != p,
{
    assert forall|a: int, b: int|
        0 <= a < b < after.len() implies (after[a]).0@ != (after[b]).0@ by {
        let a0 = if a < i {
            a
        } else {
            a + 1
        };
        let b0 = if b < i {
            b
        } else {
            b + 1
        };
        assert(after[a] == before[a0] && after[b] == before[b0]);
    }
    assert forall|k: int| 0 <= k < after.len() implies (after[k]).0@ != p by {
        let k0 = if k < i {
            k
        } else {
            k + 1
        };
        assert(after[k] == before[k0]);
        if k0 < i {
            assert((before[k0]).0@ != (before[i]).0@);
        } else {
            assert((before[i]).0@ != (before[k0]).0@);
        }
    }
}

} // verus!
