//! The dependency graph over prompts: validation (resolvable imports, no
//! output collisions, no cycles), a deterministic topological order, and
//! the regeneration closure over dependents.

use vstd::prelude::*;
use crate::prompt::Prompt;
use crate::sorting::str_views;
use crate::textutil::str_eq;

verus! {

/// A node of the graph: one prompt, its edges in both directions, and its
/// declared outputs.
#[derive(Debug)]
pub struct DagNode {
    /// Path of the prompt file this node stands for.
    pub prompt_path: String,
    /// Paths of the prompts this node imports (forward edges).
    pub imports: Vec<String>,
    /// Paths of the prompts that import this node (reverse edges).
    pub dependents: Vec<String>,
    /// Output files this prompt produces.
    pub outputs: Vec<String>,
}

/// The validated dependency graph: all nodes, and the prompt paths in
/// topological order, roots first.
#[derive(Debug)]
pub struct Dag {
    nodes: Vec<DagNode>,
    order: Vec<String>,
}

// ---------- Spec helpers ----------

/// Some string of `ss` has view `p`.
pub open spec fn contains_str(ss: Seq<String>, p: Seq<char>) -> bool {
    exists|k: int| 0 <= k < ss.len() && ss[k]@ == p
}

/// Some node has path `p`.
pub open spec fn has_node(nodes: Seq<DagNode>, p: Seq<char>) -> bool {
    exists|i: int| 0 <= i < nodes.len() && nodes[i].prompt_path@ == p
}

/// The index of the node with path `p`.
pub open spec fn node_ix(nodes: Seq<DagNode>, p: Seq<char>) -> int {
    choose|i: int| 0 <= i < nodes.len() && nodes[i].prompt_path@ == p
}

/// The node with path `p`.
pub open spec fn spec_node(nodes: Seq<DagNode>, p: Seq<char>) -> DagNode {
    nodes[node_ix(nodes, p)]
}

/// Some prompt has path `p`.
pub open spec fn prompt_has_path(prompts: Seq<Prompt>, p: Seq<char>) -> bool {
    exists|i: int| 0 <= i < prompts.len() && prompts[i].path@ == p
}

/// The prompt with path `p`.
pub open spec fn spec_prompt(prompts: Seq<Prompt>, p: Seq<char>) -> Prompt {
    prompts[choose|i: int| 0 <= i < prompts.len() && prompts[i].path@ == p]
}

/// The prompt paths pairwise differ.
pub open spec fn distinct_prompt_paths(prompts: Seq<Prompt>) -> bool {
    forall|i: int, j: int|
        0 <= i < j < prompts.len() ==> prompts[i].path@ != prompts[j].path@
}

/// Why a prompt set was rejected.
#[derive(Debug)]
pub enum DagError {
    /// Pairs of (importing prompt, import that resolves to no prompt).
    MissingImports(Vec<(String, String)>),
    /// Output paths claimed more than once, each with all its claimants.
    OutputConflicts(Vec<(String, Vec<String>)>),
    /// The prompts left over when no import order exists; each of them
    /// imports another prompt of the list.
    Cycle(Vec<String>),
}

/// Some prompt declares an import that resolves to no prompt of the set.
pub open spec fn has_missing_import(prompts: Seq<Prompt>) -> bool {
    exists|i: int, k: int|
        0 <= i < prompts.len() && 0 <= k < prompts[i].frontmatter.imports@.len()
            && !prompt_has_path(prompts, #[trigger] prompts[i].frontmatter.imports@[k]@)
}

/// Two distinct output declarations name the same path.
pub open spec fn has_output_conflict(prompts: Seq<Prompt>) -> bool {
    exists|i: int, ki: int, j: int, kj: int|
        0 <= i < prompts.len() && 0 <= ki < prompts[i].frontmatter.outputs@.len() && 0 <= j
            < prompts.len() && 0 <= kj < prompts[j].frontmatter.outputs@.len() && (i != j || ki
            != kj) && #[trigger] prompts[i].frontmatter.outputs@[ki]@
            == #[trigger] prompts[j].frontmatter.outputs@[kj]@
}

/// A nonempty set of prompt paths each of which imports another member of
/// the set: the witness that the import relation has a cycle.
pub open spec fn closed_cycle_set(prompts: Seq<Prompt>, s: Set<Seq<char>>) -> bool {
    &&& s.finite()
    &&& s.len() > 0
    &&& forall|p: Seq<char>| #[trigger] s.contains(p) ==> prompt_has_path(prompts, p)
    &&& forall|p: Seq<char>| #[trigger] s.contains(p) ==> exists|k: int|
        0 <= k < spec_prompt(prompts, p).frontmatter.imports@.len() && s.contains(
            spec_prompt(prompts, p).frontmatter.imports@[k]@,
        )
}

/// The import relation over the prompts has a cycle.
pub open spec fn has_import_cycle(prompts: Seq<Prompt>) -> bool {
    exists|s: Set<Seq<char>>| closed_cycle_set(prompts, s)
}

/// Find the node whose path is `p`.
fn find_node_index(nodes: &Vec<DagNode>, p: &str) -> (r: Option<usize>)
    requires
        forall|i: int, j: int|
            0 <= i < j < nodes@.len() ==> nodes@[i].prompt_path@ != nodes@[j].prompt_path@,
    ensures
        match r {
            Some(i) => i < nodes@.len() && nodes@[i as int].prompt_path@ == p@,
            None => !has_node(nodes@, p@),
        },
{
    let n: usize = nodes.len();
    let mut i: usize = 0;
    while i < n
        invariant
            n == nodes@.len(),
            i <= n,
            forall|k: int| 0 <= k < i ==> nodes@[k].prompt_path@ != p@,
        decreases n - i,
    {
        if str_eq(nodes[i].prompt_path.as_str(), p) {
            return Some(i);
        }
        i = i + 1;
    }
    None
}

/// A pair `(ii, kk)` comes strictly before `(i, k)` in the two-level walk
/// over import declarations.
pub open spec fn import_before(ii: int, kk: int, i: int, k: int) -> bool {
    ii < i || (ii == i && kk < k)
}

/// The reverse-edge invariant while dependents are being registered: a
/// node's dependents list holds exactly the paths of the importers whose
/// import occurrences have been walked so far.
spec fn deps_partial(prompts: Seq<Prompt>, nodes: Seq<DagNode>, i: int, k: int) -> bool {
    forall|jj: int, p: Seq<char>|
        #![trigger contains_str(nodes[jj].dependents@, p)]
        0 <= jj < nodes.len() ==> (contains_str(nodes[jj].dependents@, p) <==> exists|
            ii: int,
            kk: int,
        |
            0 <= ii < prompts.len() && 0 <= kk < prompts[ii].frontmatter.imports@.len()
                && import_before(ii, kk, i, k) && prompts[ii].path@ == p
                && #[trigger] prompts[ii].frontmatter.imports@[kk]@ == nodes[jj].prompt_path@)
}

/// The per-index agreement between prompts and nodes: same path, imports
/// and outputs.
pub open spec fn nodes_match_prompts(prompts: Seq<Prompt>, nodes: Seq<DagNode>) -> bool {
    &&& nodes.len() == prompts.len()
    &&& forall|i: int|
        0 <= i < nodes.len() ==> (#[trigger] nodes[i].prompt_path@ == prompts[i].path@
            && str_views(nodes[i].imports@) == str_views(prompts[i].frontmatter.imports@)
            && str_views(nodes[i].outputs@) == str_views(prompts[i].frontmatter.outputs@))
}

/// Walking one import occurrence that resolves to node `j` extends `j`'s
/// dependents with the importer's path and preserves the invariant.
proof fn lemma_deps_step_found(
    prompts: Seq<Prompt>,
    before: Seq<DagNode>,
    after: Seq<DagNode>,
    i: int,
    k: int,
    j: int,
    x: String,
)
    requires
        distinct_prompt_paths(prompts),
        nodes_match_prompts(prompts, before),
        deps_partial(prompts, before, i, k),
        0 <= i < prompts.len(),
        0 <= k < prompts[i].frontmatter.imports@.len(),
        0 <= j < before.len(),
        before[j].prompt_path@ == prompts[i].frontmatter.imports@[k]@,
        after.len() == before.len(),
        forall|t: int| 0 <= t < after.len() && t != j ==> after[t] == before[t],
        after[j].prompt_path == before[j].prompt_path,
        after[j].imports == before[j].imports,
        after[j].outputs == before[j].outputs,
        after[j].dependents@ == before[j].dependents@.push(x),
        x@ == prompts[i].path@,
    ensures
        nodes_match_prompts(prompts, after),
        deps_partial(prompts, after, i, k + 1),
{
    assert forall|jj: int, p: Seq<char>|
        #![trigger contains_str(after[jj].dependents@, p)]
        0 <= jj < after.len() implies (contains_str(after[jj].dependents@, p) <==> exists|ii: int, kk: int|
        0 <= ii < prompts.len() && 0 <= kk < prompts[ii].frontmatter.imports@.len()
            && import_before(ii, kk, i, k + 1) && prompts[ii].path@ == p
            && #[trigger] prompts[ii].frontmatter.imports@[kk]@ == after[jj].prompt_path@) by {
        if jj == j {
            if contains_str(after[jj].dependents@, p) {
                let w = choose|w: int|
                    0 <= w < after[jj].dependents@.len() && after[jj].dependents@[w]@ == p;
                if w < before[j].dependents@.len() {
                    assert(contains_str(before[jj].dependents@, p));
                    let (ii, kk): (int, int) = choose|ii: int, kk: int|
                        0 <= ii < prompts.len() && 0 <= kk
                            < prompts[ii].frontmatter.imports@.len() && import_before(ii, kk, i, k)
                            && prompts[ii].path@ == p
                            && #[trigger] prompts[ii].frontmatter.imports@[kk]@ == before[
                            jj
                        ].prompt_path@;
                    assert(import_before(ii, kk, i, k + 1));
                } else {
                    assert(after[jj].dependents@[w] == x);
                    assert(p == prompts[i].path@);
                    assert(prompts[i].frontmatter.imports@[k]@ == after[jj].prompt_path@);
                    assert(import_before(i, k, i, k + 1));
                }
            }
            if exists|ii: int, kk: int|
                0 <= ii < prompts.len() && 0 <= kk < prompts[ii].frontmatter.imports@.len()
                    && import_before(ii, kk, i, k + 1) && prompts[ii].path@ == p
                    && #[trigger] prompts[ii].frontmatter.imports@[kk]@ == after[
                jj
            ].prompt_path@ {
                let (ii, kk): (int, int) = choose|ii: int, kk: int|
                    0 <= ii < prompts.len() && 0 <= kk < prompts[ii].frontmatter.imports@.len()
                        && import_before(ii, kk, i, k + 1) && prompts[ii].path@ == p
                        && #[trigger] prompts[ii].frontmatter.imports@[kk]@ == after[
                    jj
                ].prompt_path@;
                if import_before(ii, kk, i, k) {
                    assert(contains_str(before[jj].dependents@, p));
                    let w = choose|w: int|
                        0 <= w < before[jj].dependents@.len() && before[jj].dependents@[w]@ == p;
                    assert(after[jj].dependents@[w]@ == p);
                    assert(contains_str(after[jj].dependents@, p));
                } else {
                    assert(ii == i && kk == k);
                    assert(p == prompts[i].path@);
                    assert(after[jj].dependents@.last() == x);
                    assert(contains_str(after[jj].dependents@, p));
                }
            }
        } else {
            assert(after[jj] == before[jj]);
            if contains_str(after[jj].dependents@, p) {
                let (ii, kk): (int, int) = choose|ii: int, kk: int|
                    0 <= ii < prompts.len() && 0 <= kk < prompts[ii].frontmatter.imports@.len()
                        && import_before(ii, kk, i, k) && prompts[ii].path@ == p
                        && #[trigger] prompts[ii].frontmatter.imports@[kk]@ == before[
                    jj
                ].prompt_path@;
                assert(import_before(ii, kk, i, k + 1));
            }
            if exists|ii: int, kk: int|
                0 <= ii < prompts.len() && 0 <= kk < prompts[ii].frontmatter.imports@.len()
                    && import_before(ii, kk, i, k + 1) && prompts[ii].path@ == p
                    && #[trigger] prompts[ii].frontmatter.imports@[kk]@ == after[
                jj
            ].prompt_path@ {
                let (ii, kk): (int, int) = choose|ii: int, kk: int|
                    0 <= ii < prompts.len() && 0 <= kk < prompts[ii].frontmatter.imports@.len()
                        && import_before(ii, kk, i, k + 1) && prompts[ii].path@ == p
                        && #[trigger] prompts[ii].frontmatter.imports@[kk]@ == after[
                    jj
                ].prompt_path@;
                if !import_before(ii, kk, i, k) {
                    // The new occurrence points at node j, not at jj.
                    assert(ii == i && kk == k);
                    assert(prompts[i].frontmatter.imports@[k]@ == after[jj].prompt_path@);
                    assert(before[j].prompt_path@ == before[jj].prompt_path@);
                    assert(false);
                } else {
                    assert(contains_str(before[jj].dependents@, p));
                }
            }
        }
    }
}

/// Walking one import occurrence that resolves to no node changes nothing.
proof fn lemma_deps_step_missing(prompts: Seq<Prompt>, nodes: Seq<DagNode>, i: int, k: int)
    requires
        nodes_match_prompts(prompts, nodes),
        deps_partial(prompts, nodes, i, k),
        0 <= i < prompts.len(),
        0 <= k < prompts[i].frontmatter.imports@.len(),
        !has_node(nodes, prompts[i].frontmatter.imports@[k]@),
    ensures
        deps_partial(prompts, nodes, i, k + 1),
{
    assert forall|jj: int, p: Seq<char>|
        #![trigger contains_str(nodes[jj].dependents@, p)]
        0 <= jj < nodes.len() implies (contains_str(nodes[jj].dependents@, p) <==> exists|ii: int, kk: int|
        0 <= ii < prompts.len() && 0 <= kk < prompts[ii].frontmatter.imports@.len()
            && import_before(ii, kk, i, k + 1) && prompts[ii].path@ == p
            && #[trigger] prompts[ii].frontmatter.imports@[kk]@ == nodes[jj].prompt_path@) by {
        if contains_str(nodes[jj].dependents@, p) {
            let (ii, kk): (int, int) = choose|ii: int, kk: int|
                0 <= ii < prompts.len() && 0 <= kk < prompts[ii].frontmatter.imports@.len()
                    && import_before(ii, kk, i, k) && prompts[ii].path@ == p
                    && #[trigger] prompts[ii].frontmatter.imports@[kk]@ == nodes[
                jj
            ].prompt_path@;
            assert(import_before(ii, kk, i, k + 1));
        }
        if exists|ii: int, kk: int|
            0 <= ii < prompts.len() && 0 <= kk < prompts[ii].frontmatter.imports@.len()
                && import_before(ii, kk, i, k + 1) && prompts[ii].path@ == p
                && #[trigger] prompts[ii].frontmatter.imports@[kk]@ == nodes[
            jj
        ].prompt_path@ {
            let (ii, kk): (int, int) = choose|ii: int, kk: int|
                0 <= ii < prompts.len() && 0 <= kk < prompts[ii].frontmatter.imports@.len()
                    && import_before(ii, kk, i, k + 1) && prompts[ii].path@ == p
                    && #[trigger] prompts[ii].frontmatter.imports@[kk]@ == nodes[
                jj
            ].prompt_path@;
            if !import_before(ii, kk, i, k) {
                assert(ii == i && kk == k);
                assert(has_node(nodes, prompts[i].frontmatter.imports@[k]@));
                assert(false);
            } else {
                assert(contains_str(nodes[jj].dependents@, p));
            }
        }
    }
}

/// Build the node list: one node per prompt, and reverse edges registered
/// from every import occurrence.
fn build_nodes(prompts: &Vec<Prompt>) -> (r: Vec<DagNode>)
    requires
        distinct_prompt_paths(prompts@),
    ensures
        nodes_match_prompts(prompts@, r@),
        deps_partial(prompts@, r@, prompts@.len() as int, 0),
{
    let n: usize = prompts.len();
    let mut nodes: Vec<DagNode> = Vec::new();
    let mut i: usize = 0;
    while i < n
        invariant
            n == prompts@.len(),
            i <= n,
            nodes@.len() == i,
            forall|t: int|
                0 <= t < i ==> (#[trigger] nodes@[t].prompt_path@ == prompts@[t].path@
                    && str_views(nodes@[t].imports@) == str_views(
                    prompts@[t].frontmatter.imports@,
                ) && str_views(nodes@[t].outputs@) == str_views(prompts@[t].frontmatter.outputs@)
                    && nodes@[t].dependents@.len() == 0),
        decreases n - i,
    {
        let p = &prompts[i];
        let mut imports: Vec<String> = Vec::new();
        let mut q: usize = 0;
        let m: usize = p.frontmatter.imports.len();
        while q < m
            invariant
                m == p.frontmatter.imports@.len(),
                q <= m,
                imports@.len() == q,
                forall|t: int| 0 <= t < q ==> imports@[t]@ == p.frontmatter.imports@[t]@,
            decreases m - q,
        {
            imports.push(crate::textutil::str_copy(p.frontmatter.imports[q].as_str()));
            q = q + 1;
        }
        let mut outputs: Vec<String> = Vec::new();
        let mut w: usize = 0;
        let m2: usize = p.frontmatter.outputs.len();
        while w < m2
            invariant
                m2 == p.frontmatter.outputs@.len(),
                w <= m2,
                outputs@.len() == w,
                forall|t: int| 0 <= t < w ==> outputs@[t]@ == p.frontmatter.outputs@[t]@,
            decreases m2 - w,
        {
            outputs.push(crate::textutil::str_copy(p.frontmatter.outputs[w].as_str()));
            w = w + 1;
        }
        proof {
            assert(str_views(imports@) =~= str_views(p.frontmatter.imports@));
            assert(str_views(outputs@) =~= str_views(p.frontmatter.outputs@));
        }
        let node = DagNode {
            prompt_path: crate::textutil::str_copy(p.path.as_str()),
            imports,
            dependents: Vec::new(),
            outputs,
        };
        nodes.push(node);
        i = i + 1;
    }
    // Register reverse edges: one dependents entry per import occurrence.
    proof {
        assert forall|jj: int, p: Seq<char>|
            #![trigger contains_str(nodes@[jj].dependents@, p)]
            0 <= jj < nodes@.len() implies (contains_str(nodes@[jj].dependents@, p) <==> exists|
                ii: int,
                kk: int,
            |
                0 <= ii < prompts@.len() && 0 <= kk < prompts@[ii].frontmatter.imports@.len()
                    && import_before(ii, kk, 0, 0) && prompts@[ii].path@ == p
                    && #[trigger] prompts@[ii].frontmatter.imports@[kk]@ == nodes@[
                jj
            ].prompt_path@) by {
            assert(nodes@[jj].prompt_path@ == prompts@[jj].path@);
            assert(nodes@[jj].dependents@.len() == 0);
            if contains_str(nodes@[jj].dependents@, p) {
                let w = choose|w: int|
                    0 <= w < nodes@[jj].dependents@.len() && nodes@[jj].dependents@[w]@ == p;
                assert(false);
            }
        }
    }
    let mut i2: usize = 0;
    while i2 < n
        invariant
            n == prompts@.len(),
            i2 <= n,
            nodes_match_prompts(prompts@, nodes@),
            distinct_prompt_paths(prompts@),
            deps_partial(prompts@, nodes@, i2 as int, 0),
        decreases n - i2,
    {
        let m: usize = prompts[i2].frontmatter.imports.len();
        let mut k: usize = 0;
        while k < m
            invariant
                n == prompts@.len(),
                i2 < n,
                m == prompts@[i2 as int].frontmatter.imports@.len(),
                k <= m,
                nodes_match_prompts(prompts@, nodes@),
                distinct_prompt_paths(prompts@),
                deps_partial(prompts@, nodes@, i2 as int, k as int),
            decreases m - k,
        {
            let import = crate::textutil::str_copy(prompts[i2].frontmatter.imports[k].as_str());
            proof {
                assert(forall|a: int, b: int|
                    0 <= a < b < nodes@.len() ==> nodes@[a].prompt_path@ != nodes@[
                        b
                    ].prompt_path@);
            }
            let found = find_node_index(&nodes, import.as_str());
            let ghost nodes_before: Seq<DagNode> = nodes@;
            match found {
                Some(j) => {
                    let dep_path = crate::textutil::str_copy(prompts[i2].path.as_str());
                    let ghost x: String = dep_path;
                    nodes[j].dependents.push(dep_path);
                    proof {
                        lemma_deps_step_found(
                            prompts@,
                            nodes_before,
                            nodes@,
                            i2 as int,
                            k as int,
                            j as int,
                            x,
                        );
                    }
                },
                None => {
                    proof {
                        lemma_deps_step_missing(prompts@, nodes@, i2 as int, k as int);
                    }
                },
            }
            k = k + 1;
        }
        proof {
            assert(deps_partial(prompts@, nodes@, i2 + 1, 0)) by {
                assert(forall|ii: int, kk: int|
                    0 <= kk ==> (import_before(ii, kk, i2 as int, m as int) == import_before(
                        ii,
                        kk,
                        i2 + 1,
                        0,
                    ) || kk >= prompts@[i2 as int].frontmatter.imports@.len() || ii != i2 as int));
            }
        }
        i2 = i2 + 1;
    }
    nodes
}

/// Find the prompt whose path is `p`.
fn find_prompt_index(prompts: &Vec<Prompt>, p: &str) -> (r: Option<usize>)
    ensures
        match r {
            Some(i) => i < prompts@.len() && prompts@[i as int].path@ == p@,
            None => !prompt_has_path(prompts@, p@),
        },
{
    let n: usize = prompts.len();
    let mut i: usize = 0;
    while i < n
        invariant
            n == prompts@.len(),
            i <= n,
            forall|k: int| 0 <= k < i ==> prompts@[k].path@ != p@,
        decreases n - i,
    {
        if str_eq(prompts[i].path.as_str(), p) {
            return Some(i);
        }
        i = i + 1;
    }
    None
}

/// An import occurrence `(i, k)` whose path resolves to no prompt.
pub open spec fn missing_at(prompts: Seq<Prompt>, i: int, k: int) -> bool {
    &&& 0 <= i < prompts.len()
    &&& 0 <= k < prompts[i].frontmatter.imports@.len()
    &&& !prompt_has_path(prompts, prompts[i].frontmatter.imports@[k]@)
}

/// Entry `t` of the report stems from import occurrence `srcs[t]`: a real
/// unresolvable declaration whose importer path and import path the entry
/// carries.
pub open spec fn missing_entries_from(
    prompts: Seq<Prompt>,
    ms: Seq<(String, String)>,
    srcs: Seq<(int, int)>,
) -> bool {
    &&& srcs.len() == ms.len()
    &&& forall|t: int|
        #![trigger srcs[t]]
        0 <= t < srcs.len() ==> missing_at(prompts, srcs[t].0, srcs[t].1) && prompts[
            srcs[t].0
        ].path@ == (ms[t]).0@ && prompts[srcs[t].0].frontmatter.imports@[srcs[t].1]@ == (
        ms[t]).1@
}

/// Every reported pair is a real unresolvable import occurrence.
#[verifier::opaque]
pub open spec fn missing_sound(prompts: Seq<Prompt>, ms: Seq<(String, String)>) -> bool {
    exists|srcs: Seq<(int, int)>| missing_entries_from(prompts, ms, srcs)
}

/// `locs` sends every unresolvable import occurrence to a report entry
/// carrying its importer path and import path.
pub open spec fn missing_locations_in(
    prompts: Seq<Prompt>,
    ms: Seq<(String, String)>,
    locs: Map<(int, int), int>,
) -> bool {
    forall|ii: int, kk: int|
        #![trigger missing_at(prompts, ii, kk)]
        missing_at(prompts, ii, kk) ==> locs.dom().contains((ii, kk)) && 0 <= locs[(ii, kk)]
            < ms.len() && (ms[locs[(ii, kk)]]).0@ == prompts[ii].path@ && (ms[locs[(ii, kk)]]).1@
            == prompts[ii].frontmatter.imports@[kk]@
}

/// Every unresolvable import occurrence is reported.
#[verifier::opaque]
pub open spec fn missing_complete(prompts: Seq<Prompt>, ms: Seq<(String, String)>) -> bool {
    exists|locs: Map<(int, int), int>| missing_locations_in(prompts, ms, locs)
}

/// The missing-import report is faithful: it is empty exactly when every
/// import resolves, each reported pair is a real unresolvable import
/// occurrence, and every unresolvable occurrence is reported.
pub open spec fn missing_report_ok(prompts: Seq<Prompt>, ms: Seq<(String, String)>) -> bool {
    &&& (ms.len() == 0 <==> !has_missing_import(prompts))
    &&& missing_sound(prompts, ms)
    &&& missing_complete(prompts, ms)
}

/// Package the loop bookkeeping into the public report shape.
proof fn lemma_missing_report(
    prompts: Seq<Prompt>,
    out: Seq<(String, String)>,
    srcs: Seq<(int, int)>,
    locs: Map<(int, int), int>,
)
    requires
        missing_entries_from(prompts, out, srcs),
        missing_locations_in(prompts, out, locs),
    ensures
        missing_report_ok(prompts, out),
{
    assert(missing_sound(prompts, out)) by {
        reveal(missing_sound);
        assert(missing_entries_from(prompts, out, srcs));
    }
    assert(missing_complete(prompts, out)) by {
        reveal(missing_complete);
        assert(missing_locations_in(prompts, out, locs));
    }
    if out.len() > 0 {
        assert(missing_at(prompts, srcs[0].0, srcs[0].1));
        assert(has_missing_import(prompts));
    }
    if out.len() == 0 && has_missing_import(prompts) {
        let (ii, kk): (int, int) = choose|ii: int, kk: int|
            0 <= ii < prompts.len() && 0 <= kk < prompts[ii].frontmatter.imports@.len()
                && !prompt_has_path(
                prompts,
                #[trigger] prompts[ii].frontmatter.imports@[kk]@,
            );
        assert(missing_at(prompts, ii, kk));
        assert(false);
    }
}

/// Collect every (importer, unresolvable import) pair, in declaration
/// order.
#[verifier::rlimit(60)]
fn collect_missing(prompts: &Vec<Prompt>) -> (r: Vec<(String, String)>)
    ensures
        missing_report_ok(prompts@, r@),
{
    let n: usize = prompts.len();
    let mut out: Vec<(String, String)> = Vec::new();
    let ghost mut srcs: Seq<(int, int)> = Seq::empty();
    let ghost mut locs: Map<(int, int), int> = Map::empty();
    let mut i: usize = 0;
    while i < n
        invariant
            n == prompts@.len(),
            i <= n,
            srcs.len() == out@.len(),
            forall|t: int|
                #![trigger srcs[t]]
                0 <= t < srcs.len() ==> missing_at(prompts@, srcs[t].0, srcs[t].1) && prompts@[
                    srcs[t].0
                ].path@ == (out@[t]).0@ && prompts@[srcs[t].0].frontmatter.imports@[srcs[t].1]@
                    == (out@[t]).1@,
            forall|ii: int, kk: int|
                #![trigger missing_at(prompts@, ii, kk)]
                missing_at(prompts@, ii, kk) && import_before(ii, kk, i as int, 0)
                    ==> locs.dom().contains((ii, kk)) && 0 <= locs[(ii, kk)] < out@.len() && (
                    out@[locs[(ii, kk)]]).0@ == prompts@[ii].path@ && (out@[locs[(ii, kk)]]).1@
                    == prompts@[ii].frontmatter.imports@[kk]@,
        decreases n - i,
    {
        let m: usize = prompts[i].frontmatter.imports.len();
        let mut k: usize = 0;
        while k < m
            invariant
                n == prompts@.len(),
                i < n,
                m == prompts@[i as int].frontmatter.imports@.len(),
                k <= m,
                srcs.len() == out@.len(),
                forall|t: int|
                    #![trigger srcs[t]]
                    0 <= t < srcs.len() ==> missing_at(prompts@, srcs[t].0, srcs[t].1)
                        && prompts@[srcs[t].0].path@ == (out@[t]).0@ && prompts@[
                        srcs[t].0
                    ].frontmatter.imports@[srcs[t].1]@ == (out@[t]).1@,
                forall|ii: int, kk: int|
                    #![trigger missing_at(prompts@, ii, kk)]
                    missing_at(prompts@, ii, kk) && import_before(ii, kk, i as int, k as int)
                        ==> locs.dom().contains((ii, kk)) && 0 <= locs[(ii, kk)] < out@.len()
                        && (out@[locs[(ii, kk)]]).0@ == prompts@[ii].path@ && (out@[locs[
                        (ii, kk)
                    ]]).1@ == prompts@[ii].frontmatter.imports@[kk]@,
            decreases m - k,
        {
            let import = crate::textutil::str_copy(prompts[i].frontmatter.imports[k].as_str());
            if find_prompt_index(prompts, import.as_str()).is_none() {
                let from = crate::textutil::str_copy(prompts[i].path.as_str());
                out.push((from, import));
                proof {
                    locs = locs.insert((i as int, k as int), srcs.len() as int);
                    srcs = srcs.push((i as int, k as int));
                    assert(missing_at(prompts@, i as int, k as int));
                }
            } else {
                proof {
                    assert(prompt_has_path(
                        prompts@,
                        prompts@[i as int].frontmatter.imports@[k as int]@,
                    ));
                }
            }
            k = k + 1;
        }
        i = i + 1;
    }
    proof {
        lemma_missing_report(prompts@, out@, srcs, locs);
    }
    out
}

// ---------- Output conflicts ----------

/// Two distinct output occurrences `(i, ki)` and `(j, kj)` name the same
/// path.
pub open spec fn conflicted(prompts: Seq<Prompt>, i: int, ki: int, j: int, kj: int) -> bool {
    &&& 0 <= i < prompts.len()
    &&& 0 <= ki < prompts[i].frontmatter.outputs@.len()
    &&& 0 <= j < prompts.len()
    &&& 0 <= kj < prompts[j].frontmatter.outputs@.len()
    &&& (i != j || ki != kj)
    &&& prompts[i].frontmatter.outputs@[ki]@ == prompts[j].frontmatter.outputs@[kj]@
}

/// Entry `t`'s claimant list is exhaustive: `cmaps[t]` sends every output
/// occurrence of the entry's key to a claimant position carrying that
/// occurrence's prompt path, so every claimant of the key is listed.
pub open spec fn conflict_claimants_complete(
    prompts: Seq<Prompt>,
    cs: Seq<(String, Vec<String>)>,
    cmaps: Seq<Map<(int, int), int>>,
) -> bool {
    &&& cmaps.len() == cs.len()
    &&& forall|t: int, j: int, kj: int|
        #![trigger cs[t], prompts[j].frontmatter.outputs@[kj]]
        0 <= t < cs.len() && 0 <= j < prompts.len() && 0 <= kj
            < prompts[j].frontmatter.outputs@.len() && prompts[j].frontmatter.outputs@[kj]@ == (
        cs[t]).0@ ==> cmaps[t].dom().contains((j, kj)) && 0 <= cmaps[t][(j, kj)] < (
        cs[t]).1@.len() && ((cs[t]).1@[cmaps[t][(j, kj)]])@ == prompts[j].path@
}

/// Entry `t` of the conflict report is witnessed by two distinct output
/// occurrences of its key, and every listed claimant declares the key.
pub open spec fn conflict_entries_from(
    prompts: Seq<Prompt>,
    cs: Seq<(String, Vec<String>)>,
    occs: Seq<Seq<(int, int)>>,
    pairs: Seq<((int, int), (int, int))>,
) -> bool {
    &&& occs.len() == cs.len()
    &&& pairs.len() == cs.len()
    &&& forall|t: int|
        #![trigger cs[t]]
        0 <= t < cs.len() ==> (cs[t]).1@.len() >= 2 && (cs[t]).1@.len() == occs[t].len()
            && conflicted(
            prompts,
            (pairs[t]).0.0,
            (pairs[t]).0.1,
            (pairs[t]).1.0,
            (pairs[t]).1.1,
        ) && prompts[(pairs[t]).0.0].frontmatter.outputs@[(pairs[t]).0.1]@ == (cs[t]).0@
    &&& forall|t: int, u: int|
        #![trigger occs[t][u]]
        0 <= t < cs.len() && 0 <= u < occs[t].len() ==> 0 <= occs[t][u].0 < prompts.len() && 0
            <= occs[t][u].1 < prompts[occs[t][u].0].frontmatter.outputs@.len() && prompts[
            occs[t][u].0
        ].frontmatter.outputs@[occs[t][u].1]@ == (cs[t]).0@ && (cs[t]).1@[u]@ == prompts[
            occs[t][u].0
        ].path@
}

/// Every conflict entry is real, its claimants all claim the key, and
/// every claiming occurrence of the key is listed.
#[verifier::opaque]
pub open spec fn conflict_sound(prompts: Seq<Prompt>, cs: Seq<(String, Vec<String>)>) -> bool {
    exists|
        occs: Seq<Seq<(int, int)>>,
        pairs: Seq<((int, int), (int, int))>,
        cmaps: Seq<Map<(int, int), int>>,
    |
        conflict_entries_from(prompts, cs, occs, pairs) && conflict_claimants_complete(
            prompts,
            cs,
            cmaps,
        )
}

/// The conflict report decides conflict-freedom and each entry is sound.
pub open spec fn conflict_report_ok(prompts: Seq<Prompt>, cs: Seq<(String, Vec<String>)>) -> bool {
    &&& (cs.len() == 0 <==> !has_output_conflict(prompts))
    &&& conflict_sound(prompts, cs)
}

/// `(i, ki)` is the first occurrence of its output path in declaration
/// order.
pub open spec fn first_occ(prompts: Seq<Prompt>, i: int, ki: int) -> bool {
    forall|j: int, kj: int|
        #![trigger prompts[j].frontmatter.outputs@[kj]]
        0 <= j < prompts.len() && 0 <= kj < prompts[j].frontmatter.outputs@.len()
            && import_before(j, kj, i, ki) ==> prompts[j].frontmatter.outputs@[kj]@ != prompts[
            i
        ].frontmatter.outputs@[ki]@
}

/// Every output occurrence is preceded (not necessarily strictly) by a
/// first occurrence of the same path.
proof fn lemma_exists_first_occ(prompts: Seq<Prompt>, i: int, ki: int)
    requires
        0 <= i < prompts.len(),
        0 <= ki < prompts[i].frontmatter.outputs@.len(),
    ensures
        exists|f1: int, f2: int|
            0 <= f1 < prompts.len() && 0 <= f2 < prompts[f1].frontmatter.outputs@.len()
                && #[trigger] first_occ(prompts, f1, f2) && prompts[f1].frontmatter.outputs@[f2]@
                == prompts[i].frontmatter.outputs@[ki]@,
    decreases i, ki,
{
    if first_occ(prompts, i, ki) {
        assert(0 <= i < prompts.len() && 0 <= ki < prompts[i].frontmatter.outputs@.len()
            && first_occ(prompts, i, ki) && prompts[i].frontmatter.outputs@[ki]@ == prompts[
            i
        ].frontmatter.outputs@[ki]@);
    } else {
        let (j, kj): (int, int) = choose|j: int, kj: int|
            0 <= j < prompts.len() && 0 <= kj < prompts[j].frontmatter.outputs@.len()
                && import_before(j, kj, i, ki) && #[trigger] prompts[j].frontmatter.outputs@[kj]@
                == prompts[i].frontmatter.outputs@[ki]@;
        lemma_exists_first_occ(prompts, j, kj);
    }
}

/// Scan one output's claimants: every prompt occurrence declaring `o`, in
/// declaration order.
fn collect_claimants(prompts: &Vec<Prompt>, o: &str, oi: usize, oki: usize) -> (r: (
    Vec<String>,
    Ghost<Seq<(int, int)>>,
    Ghost<Option<(int, int)>>,
    Ghost<Map<(int, int), int>>,
))
    requires
        oi < prompts@.len(),
        oki < prompts@[oi as int].frontmatter.outputs@.len(),
        prompts@[oi as int].frontmatter.outputs@[oki as int]@ == o@,
        first_occ(prompts@, oi as int, oki as int),
    ensures
        r.0@.len() == r.1@.len(),
        forall|u: int|
            #![trigger r.1@[u]]
            0 <= u < r.1@.len() ==> 0 <= r.1@[u].0 < prompts@.len() && 0 <= r.1@[u].1 < prompts@[
                r.1@[u].0
            ].frontmatter.outputs@.len() && prompts@[r.1@[u].0].frontmatter.outputs@[r.1@[u].1]@
                == o@ && r.0@[u]@ == prompts@[r.1@[u].0].path@,
        forall|u1: int, u2: int|
            #![trigger r.1@[u1], r.1@[u2]]
            0 <= u1 < u2 < r.1@.len() ==> import_before(
                r.1@[u1].0,
                r.1@[u1].1,
                r.1@[u2].0,
                r.1@[u2].1,
            ),
        r.0@.len() >= 1,
        match r.2@ {
            Some(p) => 0 <= p.0 < prompts@.len() && 0 <= p.1 < prompts@[
                p.0
            ].frontmatter.outputs@.len() && prompts@[p.0].frontmatter.outputs@[p.1]@ == o@ && (p.0
                != oi as int || p.1 != oki as int) && r.0@.len() >= 2,
            None => forall|j: int, kj: int|
                #![trigger prompts@[j].frontmatter.outputs@[kj]]
                0 <= j < prompts@.len() && 0 <= kj < prompts@[j].frontmatter.outputs@.len() && (j
                    != oi as int || kj != oki as int) ==> prompts@[j].frontmatter.outputs@[kj]@
                    != o@,
        },
        forall|j: int, kj: int|
            #![trigger prompts@[j].frontmatter.outputs@[kj]]
            0 <= j < prompts@.len() && 0 <= kj < prompts@[j].frontmatter.outputs@.len()
                && prompts@[j].frontmatter.outputs@[kj]@ == o@ ==> r.3@.dom().contains((j, kj))
                && 0 <= r.3@[(j, kj)] < r.0@.len() && (r.0@[r.3@[(j, kj)]])@ == prompts@[
                j
            ].path@,
{
    let n: usize = prompts.len();
    let mut claimants: Vec<String> = Vec::new();
    let ghost mut occs: Seq<(int, int)> = Seq::empty();
    let ghost mut other: Option<(int, int)> = None;
    let ghost mut cmap: Map<(int, int), int> = Map::empty();
    let mut j: usize = 0;
    while j < n
        invariant
            n == prompts@.len(),
            j <= n,
            oi < prompts@.len(),
            oki < prompts@[oi as int].frontmatter.outputs@.len(),
            prompts@[oi as int].frontmatter.outputs@[oki as int]@ == o@,
            first_occ(prompts@, oi as int, oki as int),
            claimants@.len() == occs.len(),
            forall|u: int|
                #![trigger occs[u]]
                0 <= u < occs.len() ==> 0 <= occs[u].0 < prompts@.len() && 0 <= occs[u].1
                    < prompts@[occs[u].0].frontmatter.outputs@.len() && prompts@[
                    occs[u].0
                ].frontmatter.outputs@[occs[u].1]@ == o@ && claimants@[u]@ == prompts@[
                    occs[u].0
                ].path@,
            (j > oi) ==> claimants@.len() >= 1,
            forall|u: int|
                #![trigger occs[u]]
                0 <= u < occs.len() ==> import_before(occs[u].0, occs[u].1, j as int, 0),
            forall|u1: int, u2: int|
                #![trigger occs[u1], occs[u2]]
                0 <= u1 < u2 < occs.len() ==> import_before(
                    occs[u1].0,
                    occs[u1].1,
                    occs[u2].0,
                    occs[u2].1,
                ),
            forall|j2: int, kj2: int|
                #![trigger prompts@[j2].frontmatter.outputs@[kj2]]
                0 <= j2 < j && 0 <= kj2 < prompts@[j2].frontmatter.outputs@.len() && prompts@[
                    j2
                ].frontmatter.outputs@[kj2]@ == o@ ==> cmap.dom().contains((j2, kj2)) && 0
                    <= cmap[(j2, kj2)] < claimants@.len() && (claimants@[cmap[(j2, kj2)]])@
                    == prompts@[j2].path@,
            match other {
                Some(p) => 0 <= p.0 < prompts@.len() && 0 <= p.1 < prompts@[
                    p.0
                ].frontmatter.outputs@.len() && prompts@[p.0].frontmatter.outputs@[p.1]@ == o@ && (
                p.0 != oi as int || p.1 != oki as int) && claimants@.len() >= 2,
                None => forall|j2: int, kj: int|
                    #![trigger prompts@[j2].frontmatter.outputs@[kj]]
                    0 <= j2 < j && 0 <= kj < prompts@[j2].frontmatter.outputs@.len() && (j2
                        != oi as int || kj != oki as int) ==> prompts@[
                        j2
                    ].frontmatter.outputs@[kj]@ != o@,
            },
        decreases n - j,
    {
        let m: usize = prompts[j].frontmatter.outputs.len();
        let mut kj: usize = 0;
        while kj < m
            invariant
                n == prompts@.len(),
                j < n,
                m == prompts@[j as int].frontmatter.outputs@.len(),
                kj <= m,
                oi < prompts@.len(),
                oki < prompts@[oi as int].frontmatter.outputs@.len(),
                prompts@[oi as int].frontmatter.outputs@[oki as int]@ == o@,
                first_occ(prompts@, oi as int, oki as int),
                claimants@.len() == occs.len(),
                forall|u: int|
                    #![trigger occs[u]]
                    0 <= u < occs.len() ==> 0 <= occs[u].0 < prompts@.len() && 0 <= occs[u].1
                        < prompts@[occs[u].0].frontmatter.outputs@.len() && prompts@[
                        occs[u].0
                    ].frontmatter.outputs@[occs[u].1]@ == o@ && claimants@[u]@ == prompts@[
                        occs[u].0
                    ].path@,
                (j > oi || (j == oi && kj > oki)) ==> claimants@.len() >= 1,
                forall|u: int|
                    #![trigger occs[u]]
                    0 <= u < occs.len() ==> import_before(occs[u].0, occs[u].1, j as int, kj as int),
                forall|u1: int, u2: int|
                    #![trigger occs[u1], occs[u2]]
                    0 <= u1 < u2 < occs.len() ==> import_before(
                        occs[u1].0,
                        occs[u1].1,
                        occs[u2].0,
                        occs[u2].1,
                    ),
                forall|j2: int, kj2: int|
                    #![trigger prompts@[j2].frontmatter.outputs@[kj2]]
                    0 <= j2 < prompts@.len() && 0 <= kj2 < prompts@[
                        j2
                    ].frontmatter.outputs@.len() && import_before(j2, kj2, j as int, kj as int)
                        && prompts@[j2].frontmatter.outputs@[kj2]@ == o@ ==> cmap.dom().contains(
                        (j2, kj2),
                    ) && 0 <= cmap[(j2, kj2)] < claimants@.len() && (claimants@[cmap[
                        (j2, kj2)
                    ]])@ == prompts@[j2].path@,
                match other {
                    Some(p) => 0 <= p.0 < prompts@.len() && 0 <= p.1 < prompts@[
                        p.0
                    ].frontmatter.outputs@.len() && prompts@[p.0].frontmatter.outputs@[p.1]@ == o@
                        && (p.0 != oi as int || p.1 != oki as int) && claimants@.len() >= 2,
                    None => forall|j2: int, kj2: int|
                        #![trigger prompts@[j2].frontmatter.outputs@[kj2]]
                        0 <= j2 < prompts@.len() && 0 <= kj2 < prompts@[
                            j2
                        ].frontmatter.outputs@.len() && import_before(j2, kj2, j as int, kj as int)
                            && (j2 != oi as int || kj2 != oki as int) ==> prompts@[
                            j2
                        ].frontmatter.outputs@[kj2]@ != o@,
                },
            decreases m - kj,
        {
            if str_eq(prompts[j].frontmatter.outputs[kj].as_str(), o) {
                proof {
                    // A match other than (oi, oki) cannot precede it, since
                    // (oi, oki) is the first occurrence; so by now the list
                    // already holds the first occurrence's claimant.
                    if j != oi || kj != oki {
                        assert(!import_before(j as int, kj as int, oi as int, oki as int));
                        assert(claimants@.len() >= 1);
                    }
                }
                claimants.push(crate::textutil::str_copy(prompts[j].path.as_str()));
                proof {
                    occs = occs.push((j as int, kj as int));
                    cmap = cmap.insert((j as int, kj as int), claimants@.len() - 1);
                    if j != oi || kj != oki {
                        other = Some((j as int, kj as int));
                    }
                }
            }
            kj = kj + 1;
        }
        j = j + 1;
    }
    (claimants, Ghost(occs), Ghost(other), Ghost(cmap))
}

/// Group output occurrences by path and report every path claimed more
/// than once, with all its claimants.
fn collect_conflicts(prompts: &Vec<Prompt>) -> (r: Vec<(String, Vec<String>)>)
    ensures
        conflict_report_ok(prompts@, r@),
{
    let n: usize = prompts.len();
    let mut out: Vec<(String, Vec<String>)> = Vec::new();
    let ghost mut occs_all: Seq<Seq<(int, int)>> = Seq::empty();
    let ghost mut pairs_all: Seq<((int, int), (int, int))> = Seq::empty();
    let ghost mut cmaps_all: Seq<Map<(int, int), int>> = Seq::empty();
    let mut i: usize = 0;
    while i < n
        invariant
            n == prompts@.len(),
            i <= n,
            conflict_entries_from(prompts@, out@, occs_all, pairs_all),
            conflict_claimants_complete(prompts@, out@, cmaps_all),
            forall|f1: int, f2: int, j2: int, kj2: int|
                #![trigger conflicted(prompts@, f1, f2, j2, kj2)]
                conflicted(prompts@, f1, f2, j2, kj2) && first_occ(prompts@, f1, f2)
                    && import_before(f1, f2, i as int, 0) ==> out@.len() > 0,
        decreases n - i,
    {
        let m: usize = prompts[i].frontmatter.outputs.len();
        let mut ki: usize = 0;
        while ki < m
            invariant
                n == prompts@.len(),
                i < n,
                m == prompts@[i as int].frontmatter.outputs@.len(),
                ki <= m,
                conflict_entries_from(prompts@, out@, occs_all, pairs_all),
                conflict_claimants_complete(prompts@, out@, cmaps_all),
                forall|f1: int, f2: int, j2: int, kj2: int|
                    #![trigger conflicted(prompts@, f1, f2, j2, kj2)]
                    conflicted(prompts@, f1, f2, j2, kj2) && first_occ(prompts@, f1, f2)
                        && import_before(f1, f2, i as int, ki as int) ==> out@.len() > 0,
            decreases m - ki,
        {
            if is_first_occurrence(prompts, i, ki) {
                let o = crate::textutil::str_copy(prompts[i].frontmatter.outputs[ki].as_str());
                let (claimants, occs_g, other_g, cmap_g) = collect_claimants(
                    prompts,
                    o.as_str(),
                    i,
                    ki,
                );
                let ghost occs: Seq<(int, int)> = occs_g@;
                let ghost other: Option<(int, int)> = other_g@;
                let ghost cmap: Map<(int, int), int> = cmap_g@;
                if claimants.len() >= 2 {
                    let ghost out_before: Seq<(String, Vec<String>)> = out@;
                    out.push((o, claimants));
                    proof {
                        match other {
                            Some(p) => {
                                occs_all = occs_all.push(occs);
                                pairs_all = pairs_all.push(((i as int, ki as int), p));
                                cmaps_all = cmaps_all.push(cmap);
                                assert(conflict_claimants_complete(
                                    prompts@,
                                    out@,
                                    cmaps_all,
                                )) by {
                                    assert forall|t: int, j2: int, kj2: int|
                                        #![trigger out@[t], prompts@[j2].frontmatter.outputs@[kj2]]
                                        0 <= t < out@.len() && 0 <= j2 < prompts@.len() && 0
                                            <= kj2 < prompts@[j2].frontmatter.outputs@.len()
                                            && prompts@[j2].frontmatter.outputs@[kj2]@ == (out@[
                                            t
                                        ]).0@ implies cmaps_all[t].dom().contains((j2, kj2)) && 0
                                            <= cmaps_all[t][(j2, kj2)] < (out@[t]).1@.len() && ((
                                        out@[t]).1@[cmaps_all[t][(j2, kj2)]])@ == prompts@[
                                            j2
                                        ].path@ by {
                                        if t < out_before.len() {
                                            assert(out@[t] == out_before[t]);
                                        } else {
                                            assert((out@[t]).0@ == o@);
                                        }
                                    }
                                }
                                assert(conflicted(
                                    prompts@,
                                    i as int,
                                    ki as int,
                                    p.0,
                                    p.1,
                                ));
                                assert forall|t: int| #![trigger out@[t]] 0 <= t < out@.len()
                                    implies (out@[t]).1@.len() >= 2 && (out@[t]).1@.len()
                                    == occs_all[t].len() && conflicted(
                                    prompts@,
                                    (pairs_all[t]).0.0,
                                    (pairs_all[t]).0.1,
                                    (pairs_all[t]).1.0,
                                    (pairs_all[t]).1.1,
                                ) && prompts@[(pairs_all[t]).0.0].frontmatter.outputs@[(
                                pairs_all[t]).0.1]@ == (out@[t]).0@ by {
                                    if t < out_before.len() {
                                        assert(out@[t] == out_before[t]);
                                    }
                                }
                            },
                            None => {
                                // Without a second occurrence the claimant
                                // scan records strictly increasing
                                // occurrences of one declaration only, so
                                // two entries are impossible.
                                assert(occs.len() >= 2);
                                let u0 = occs[0];
                                let u1 = occs[1];
                                assert(import_before(u0.0, u0.1, u1.0, u1.1));
                                assert(prompts@[u0.0].frontmatter.outputs@[u0.1]@ == o@);
                                assert(prompts@[u1.0].frontmatter.outputs@[u1.1]@ == o@);
                                if u0.0 != i as int || u0.1 != ki as int {
                                    assert(false);
                                } else {
                                    assert(u1.0 != i as int || u1.1 != ki as int);
                                    assert(false);
                                }
                            },
                        }
                    }
                }
            }
            proof {
                assert forall|f1: int, f2: int, j2: int, kj2: int|
                    #![trigger conflicted(prompts@, f1, f2, j2, kj2)]
                    conflicted(prompts@, f1, f2, j2, kj2) && first_occ(prompts@, f1, f2)
                        && import_before(f1, f2, i as int, ki + 1) implies out@.len() > 0 by {
                    if import_before(f1, f2, i as int, ki as int) {
                    } else {
                        assert(f1 == i as int && f2 == ki as int);
                    }
                }
            }
            ki = ki + 1;
        }
        i = i + 1;
    }
    proof {
        assert(conflict_sound(prompts@, out@)) by {
            reveal(conflict_sound);
            assert(conflict_entries_from(prompts@, out@, occs_all, pairs_all));
        }
        if out@.len() > 0 {
            assert(has_output_conflict(prompts@)) by {
                reveal(conflict_sound);
                assert((out@[0]).1@.len() >= 2);
                assert(conflicted(
                    prompts@,
                    (pairs_all[0]).0.0,
                    (pairs_all[0]).0.1,
                    (pairs_all[0]).1.0,
                    (pairs_all[0]).1.1,
                ));
                assert(prompts@[(pairs_all[0]).0.0].frontmatter.outputs@[(pairs_all[0]).0.1]@
                    == prompts@[(pairs_all[0]).1.0].frontmatter.outputs@[(pairs_all[0]).1.1]@);
            }
        }
        if out@.len() == 0 && has_output_conflict(prompts@) {
            let (ci, cki, cj, ckj): (int, int, int, int) = choose|
                ci: int,
                cki: int,
                cj: int,
                ckj: int,
            |
                0 <= ci < prompts@.len() && 0 <= cki < prompts@[ci].frontmatter.outputs@.len()
                    && 0 <= cj < prompts@.len() && 0 <= ckj < prompts@[
                    cj
                ].frontmatter.outputs@.len() && (ci != cj || cki != ckj)
                    && #[trigger] prompts@[ci].frontmatter.outputs@[cki]@
                    == #[trigger] prompts@[cj].frontmatter.outputs@[ckj]@;
            lemma_exists_first_occ(prompts@, ci, cki);
            let (f1, f2): (int, int) = choose|f1: int, f2: int|
                0 <= f1 < prompts@.len() && 0 <= f2 < prompts@[f1].frontmatter.outputs@.len()
                    && #[trigger] first_occ(prompts@, f1, f2) && prompts@[
                    f1
                ].frontmatter.outputs@[f2]@ == prompts@[ci].frontmatter.outputs@[cki]@;
            if f1 != ci || f2 != cki {
                assert(conflicted(prompts@, f1, f2, ci, cki));
            } else {
                assert(conflicted(prompts@, f1, f2, cj, ckj));
            }
            assert(import_before(f1, f2, n as int, 0));
            assert(false);
        }
    }
    out
}

/// Whether `(i, ki)` is the first occurrence of its output path.
fn is_first_occurrence(prompts: &Vec<Prompt>, i: usize, ki: usize) -> (r: bool)
    requires
        i < prompts@.len(),
        ki < prompts@[i as int].frontmatter.outputs@.len(),
    ensures
        r == first_occ(prompts@, i as int, ki as int),
{
    let o = crate::textutil::str_copy(prompts[i].frontmatter.outputs[ki].as_str());
    let n: usize = prompts.len();
    let mut j: usize = 0;
    while j <= i
        invariant
            n == prompts@.len(),
            i < n,
            ki < prompts@[i as int].frontmatter.outputs@.len(),
            o@ == prompts@[i as int].frontmatter.outputs@[ki as int]@,
            j <= i + 1,
            forall|j2: int, kj2: int|
                #![trigger prompts@[j2].frontmatter.outputs@[kj2]]
                0 <= j2 < j && 0 <= kj2 < prompts@[j2].frontmatter.outputs@.len()
                    && import_before(j2, kj2, i as int, ki as int) ==> prompts@[
                    j2
                ].frontmatter.outputs@[kj2]@ != o@,
        decreases i + 1 - j,
    {
        let upper: usize = if j < i {
            prompts[j].frontmatter.outputs.len()
        } else {
            ki
        };
        let mut kj: usize = 0;
        while kj < upper
            invariant
                i < prompts@.len(),
                ki < prompts@[i as int].frontmatter.outputs@.len(),
                o@ == prompts@[i as int].frontmatter.outputs@[ki as int]@,
                j <= i,
                (j < i ==> upper == prompts@[j as int].frontmatter.outputs@.len()),
                (j == i ==> upper == ki),
                upper <= prompts@[j as int].frontmatter.outputs@.len(),
                kj <= upper,
                forall|j2: int, kj2: int|
                    #![trigger prompts@[j2].frontmatter.outputs@[kj2]]
                    0 <= j2 < prompts@.len() && 0 <= kj2 < prompts@[
                        j2
                    ].frontmatter.outputs@.len() && import_before(j2, kj2, i as int, ki as int)
                        && import_before(j2, kj2, j as int, kj as int) ==> prompts@[
                        j2
                    ].frontmatter.outputs@[kj2]@ != o@,
            decreases upper - kj,
        {
            if str_eq(prompts[j].frontmatter.outputs[kj].as_str(), o.as_str()) {
                proof {
                    assert(import_before(j as int, kj as int, i as int, ki as int));
                    assert(prompts@[j as int].frontmatter.outputs@[kj as int]@ == prompts@[
                        i as int
                    ].frontmatter.outputs@[ki as int]@);
                }
                return false;
            }
            kj = kj + 1;
        }
        j = j + 1;
    }
    proof {
        assert forall|j2: int, kj2: int|
            #![trigger prompts@[j2].frontmatter.outputs@[kj2]]
            0 <= j2 < prompts@.len() && 0 <= kj2 < prompts@[j2].frontmatter.outputs@.len()
                && import_before(j2, kj2, i as int, ki as int) implies prompts@[
            j2
        ].frontmatter.outputs@[kj2]@ != prompts@[i as int].frontmatter.outputs@[ki as int]@ by {
            assert(j2 < j);
        }
    }
    true
}

// ---------- Topological ordering ----------

/// `posm` places every import of each ordered node strictly earlier in
/// the order.
pub open spec fn topo_witnessed(
    nodes: Seq<DagNode>,
    order: Seq<Seq<char>>,
    posm: Map<Seq<char>, int>,
) -> bool {
    forall|a: int, k: int|
        #![trigger spec_node(nodes, order[a]).imports@[k]]
        0 <= a < order.len() && 0 <= k < spec_node(nodes, order[a]).imports@.len()
            ==> posm.dom().contains(spec_node(nodes, order[a]).imports@[k]@) && 0 <= posm[spec_node(
            nodes,
            order[a],
        ).imports@[k]@] < a && order[posm[spec_node(nodes, order[a]).imports@[k]@]] == spec_node(
            nodes,
            order[a],
        ).imports@[k]@
}

/// Every import of each ordered node appears earlier in the order.
#[verifier::opaque]
pub open spec fn topo_ok(nodes: Seq<DagNode>, order: Seq<Seq<char>>) -> bool {
    exists|posm: Map<Seq<char>, int>| topo_witnessed(nodes, order, posm)
}

/// `posm` locates every node's path in the order.
pub open spec fn onto_witnessed(
    nodes: Seq<DagNode>,
    order: Seq<Seq<char>>,
    posm: Map<Seq<char>, int>,
) -> bool {
    forall|i: int|
        #![trigger nodes[i].prompt_path@]
        0 <= i < nodes.len() ==> posm.dom().contains(nodes[i].prompt_path@) && 0 <= posm[nodes[
            i
        ].prompt_path@] < order.len() && order[posm[nodes[i].prompt_path@]] == nodes[
            i
        ].prompt_path@
}

/// Every node's path appears somewhere in the order.
#[verifier::opaque]
pub open spec fn order_onto(nodes: Seq<DagNode>, order: Seq<Seq<char>>) -> bool {
    exists|posm: Map<Seq<char>, int>| onto_witnessed(nodes, order, posm)
}

/// The deterministic tie-break: at every position the order holds the
/// lexicographically least prompt that is ready there (not yet placed,
/// all imports placed). Together with being a topological permutation
/// this pins the emitted order uniquely, so equal prompt sets always
/// produce the identical order and independent siblings appear
/// lexicographically.
pub open spec fn lex_min_topo(nodes: Seq<DagNode>, order: Seq<Seq<char>>) -> bool {
    forall|a: int, v: int|
        #![trigger order[a], nodes[v].prompt_path@]
        0 <= a < order.len() && 0 <= v < nodes.len() && !order.take(a).contains(
            nodes[v].prompt_path@,
        ) && (forall|k: int|
            0 <= k < nodes[v].imports@.len() ==> order.take(a).contains(
                #[trigger] nodes[v].imports@[k]@,
            )) ==> crate::textutil::lex_le(order[a], nodes[v].prompt_path@)
}

/// Witness data for a stuck sort: each leftover node's import number
/// `impk[t]` leads back into the leftover list at position `inpos[t]`.
pub open spec fn stuck_witnessed(
    nodes: Seq<DagNode>,
    stuck: Seq<Seq<char>>,
    impk: Seq<int>,
    inpos: Seq<int>,
) -> bool {
    &&& stuck.len() > 0
    &&& impk.len() == stuck.len()
    &&& inpos.len() == stuck.len()
    &&& forall|t: int|
        #![trigger has_node(nodes, stuck[t])]
        0 <= t < stuck.len() ==> has_node(nodes, stuck[t]) && 0 <= impk[t] < spec_node(
            nodes,
            stuck[t],
        ).imports@.len() && 0 <= inpos[t] < stuck.len() && stuck[inpos[t]] == spec_node(
            nodes,
            stuck[t],
        ).imports@[impk[t]]@
}

/// The leftover nodes of a stuck sort witness an import cycle.
#[verifier::opaque]
pub open spec fn stuck_cert(nodes: Seq<DagNode>, stuck: Seq<Seq<char>>) -> bool {
    exists|impk: Seq<int>, inpos: Seq<int>| stuck_witnessed(nodes, stuck, impk, inpos)
}

/// Number of set entries in a boolean sequence.
pub open spec fn count_trues(s: Seq<bool>) -> int
    decreases s.len(),
{
    if s.len() == 0 {
        0
    } else {
        count_trues(s.drop_last()) + if s.last() {
            1int
        } else {
            0int
        }
    }
}

proof fn lemma_count_trues_update(s: Seq<bool>, v: int)
    requires
        0 <= v < s.len(),
        !s[v],
    ensures
        count_trues(s.update(v, true)) == count_trues(s) + 1,
    decreases s.len(),
{
    if v == s.len() - 1 {
        assert(s.update(v, true).drop_last() =~= s.drop_last());
    } else {
        assert(s.update(v, true).drop_last() =~= s.drop_last().update(v, true));
        lemma_count_trues_update(s.drop_last(), v);
    }
}

proof fn lemma_count_trues_bound(s: Seq<bool>)
    ensures
        0 <= count_trues(s) <= s.len(),
    decreases s.len(),
{
    if s.len() > 0 {
        lemma_count_trues_bound(s.drop_last());
    }
}

proof fn lemma_count_trues_full(s: Seq<bool>)
    requires
        count_trues(s) == s.len(),
    ensures
        forall|v: int| 0 <= v < s.len() ==> s[v],
    decreases s.len(),
{
    if s.len() > 0 {
        lemma_count_trues_bound(s.drop_last());
        assert(s.last());
        lemma_count_trues_full(s.drop_last());
        assert forall|v: int| 0 <= v < s.len() implies s[v] by {
            if v < s.len() - 1 {
                assert(s.drop_last()[v]);
            }
        }
    }
}

/// With pairwise distinct node paths, a node's own path resolves back to
/// its index.
proof fn lemma_node_ix_unique(nodes: Seq<DagNode>, j: int)
    requires
        forall|a: int, b: int|
            0 <= a < b < nodes.len() ==> nodes[a].prompt_path@ != nodes[b].prompt_path@,
        0 <= j < nodes.len(),
    ensures
        node_ix(nodes, nodes[j].prompt_path@) == j,
        spec_node(nodes, nodes[j].prompt_path@) == nodes[j],
{
    assert(has_node(nodes, nodes[j].prompt_path@));
    let w = node_ix(nodes, nodes[j].prompt_path@);
    assert(0 <= w < nodes.len() && nodes[w].prompt_path@ == nodes[j].prompt_path@);
    if w < j {
        assert(nodes[w].prompt_path@ != nodes[j].prompt_path@);
    }
    if j < w {
        assert(nodes[j].prompt_path@ != nodes[w].prompt_path@);
    }
}

/// All imports of node `v` are already placed.
spec fn imports_placed(nodes: Seq<DagNode>, placed: Seq<bool>, v: int) -> bool {
    forall|k: int|
        0 <= k < nodes[v].imports@.len() ==> placed[node_ix(
            nodes,
            #[trigger] nodes[v].imports@[k]@,
        )]
}

fn all_imports_placed(nodes: &Vec<DagNode>, placed: &Vec<bool>, v: usize) -> (r: bool)
    requires
        forall|a: int, b: int|
            0 <= a < b < nodes@.len() ==> nodes@[a].prompt_path@ != nodes@[b].prompt_path@,
        forall|i: int, k: int|
            0 <= i < nodes@.len() && 0 <= k < nodes@[i].imports@.len() ==> has_node(
                nodes@,
                #[trigger] nodes@[i].imports@[k]@,
            ),
        placed@.len() == nodes@.len(),
        v < nodes@.len(),
    ensures
        r == imports_placed(nodes@, placed@, v as int),
{
    let m: usize = nodes[v].imports.len();
    let mut k: usize = 0;
    while k < m
        invariant
            forall|a: int, b: int|
                0 <= a < b < nodes@.len() ==> nodes@[a].prompt_path@ != nodes@[b].prompt_path@,
            forall|i: int, k2: int|
                0 <= i < nodes@.len() && 0 <= k2 < nodes@[i].imports@.len() ==> has_node(
                    nodes@,
                    #[trigger] nodes@[i].imports@[k2]@,
                ),
            placed@.len() == nodes@.len(),
            v < nodes@.len(),
            m == nodes@[v as int].imports@.len(),
            k <= m,
            forall|k2: int|
                0 <= k2 < k ==> placed@[node_ix(nodes@, #[trigger] nodes@[v as int].imports@[k2]@)],
        decreases m - k,
    {
        match find_node_index(nodes, nodes[v].imports[k].as_str()) {
            Some(j) => {
                proof {
                    lemma_node_ix_unique(nodes@, j as int);
                }
                if !placed[j] {
                    return false;
                }
            },
            None => {
                proof {
                    assert(has_node(nodes@, nodes@[v as int].imports@[k as int]@));
                }
                return vstd::pervasive::unreached();
            },
        }
        k = k + 1;
    }
    true
}

/// The sorted index list covers every node: the position its path holds
/// in the sorted path list maps back to it.
proof fn lemma_sidx_onto(
    nodes: Seq<DagNode>,
    paths_v: Seq<Seq<char>>,
    sorted_v: Seq<Seq<char>>,
    sidx_v: Seq<usize>,
    v: int,
) -> (t: int)
    requires
        forall|a: int, b: int|
            0 <= a < b < nodes.len() ==> nodes[a].prompt_path@ != nodes[b].prompt_path@,
        paths_v.len() == nodes.len(),
        sorted_v.len() == nodes.len(),
        sidx_v.len() == nodes.len(),
        forall|t: int| 0 <= t < nodes.len() ==> #[trigger] paths_v[t] == nodes[t].prompt_path@,
        sorted_v.to_multiset() == paths_v.to_multiset(),
        forall|t: int|
            0 <= t < nodes.len() ==> (#[trigger] sidx_v[t]) < nodes.len() && nodes[
                sidx_v[t] as int
            ].prompt_path@ == sorted_v[t],
        0 <= v < nodes.len(),
    ensures
        0 <= t < nodes.len(),
        sidx_v[t] as int == v,
{
    broadcast use vstd::seq_lib::group_to_multiset_ensures;

    assert(paths_v[v] == nodes[v].prompt_path@);
    assert(paths_v.contains(nodes[v].prompt_path@));
    assert(paths_v.to_multiset().count(nodes[v].prompt_path@) > 0);
    assert(sorted_v.to_multiset().count(nodes[v].prompt_path@) > 0);
    assert(sorted_v.contains(nodes[v].prompt_path@));
    let t = choose|t: int| 0 <= t < sorted_v.len() && sorted_v[t] == nodes[v].prompt_path@;
    assert(nodes[sidx_v[t] as int].prompt_path@ == nodes[v].prompt_path@);
    if sidx_v[t] as int != v {
        if (sidx_v[t] as int) < v {
            assert(nodes[sidx_v[t] as int].prompt_path@ != nodes[v].prompt_path@);
        } else {
            assert(nodes[v].prompt_path@ != nodes[sidx_v[t] as int].prompt_path@);
        }
    }
    t
}

/// Order the nodes so that imports come first, scanning for the earliest
/// ready node each round; when no node is ready, the leftover nodes form
/// an import cycle and are returned as the certificate.
fn toposort(nodes: &Vec<DagNode>) -> (r: Result<Vec<String>, Vec<String>>)
    requires
        forall|a: int, b: int|
            0 <= a < b < nodes@.len() ==> nodes@[a].prompt_path@ != nodes@[b].prompt_path@,
        forall|i: int, k: int|
            0 <= i < nodes@.len() && 0 <= k < nodes@[i].imports@.len() ==> has_node(
                nodes@,
                #[trigger] nodes@[i].imports@[k]@,
            ),
    ensures
        match r {
            Ok(order) => {
                &&& order@.len() == nodes@.len()
                &&& forall|a: int|
                    0 <= a < order@.len() ==> has_node(nodes@, #[trigger] str_views(order@)[a])
                &&& forall|a: int, b: int|
                    0 <= a < b < order@.len() ==> str_views(order@)[a] != str_views(order@)[b]
                &&& topo_ok(nodes@, str_views(order@))
                &&& order_onto(nodes@, str_views(order@))
                &&& lex_min_topo(nodes@, str_views(order@))
            },
            Err(stuck) => stuck_cert(nodes@, str_views(stuck@)),
        },
{
    let n: usize = nodes.len();
    let mut placed: Vec<bool> = Vec::new();
    let mut q: usize = 0;
    while q < n
        invariant
            q <= n,
            placed@.len() == q,
            forall|v: int| 0 <= v < q ==> !placed@[v],
        decreases n - q,
    {
        placed.push(false);
        q = q + 1;
    }
    proof {
        lemma_count_all_false(placed@);
    }
    // The deterministic pick order: node indices sorted by path.
    let mut paths: Vec<String> = Vec::new();
    let mut q2: usize = 0;
    while q2 < n
        invariant
            n == nodes@.len(),
            q2 <= n,
            paths@.len() == q2,
            forall|t: int| 0 <= t < q2 ==> (#[trigger] paths@[t])@ == nodes@[t].prompt_path@,
        decreases n - q2,
    {
        paths.push(crate::textutil::str_copy(nodes[q2].prompt_path.as_str()));
        q2 = q2 + 1;
    }
    proof {
        assert forall|t: int| 0 <= t < n implies str_views(paths@)[t] == nodes@[
            t
        ].prompt_path@ by {
            assert(str_views(paths@)[t] == paths@[t]@);
        }
    }
    let sorted_paths = crate::sorting::sort_strings(paths);
    let mut sidx: Vec<usize> = Vec::new();
    let mut q3: usize = 0;
    while q3 < n
        invariant
            n == nodes@.len(),
            forall|a: int, b: int|
                0 <= a < b < nodes@.len() ==> nodes@[a].prompt_path@ != nodes@[b].prompt_path@,
            sorted_paths@.len() == n,
            paths@.len() == n,
            forall|t: int|
                0 <= t < n ==> #[trigger] str_views(paths@)[t] == nodes@[t].prompt_path@,
            str_views(sorted_paths@).to_multiset() == str_views(paths@).to_multiset(),
            vstd::relations::sorted_by(str_views(sorted_paths@), crate::sorting::lex_leq()),
            q3 <= n,
            sidx@.len() == q3,
            forall|t: int|
                0 <= t < q3 ==> (#[trigger] sidx@[t]) < n && nodes@[sidx@[t] as int].prompt_path@
                    == str_views(sorted_paths@)[t],
        decreases n - q3,
    {
        match find_node_index(nodes, sorted_paths[q3].as_str()) {
            Some(ix) => {
                proof {
                    assert(str_views(sorted_paths@)[q3 as int] == sorted_paths@[q3 as int]@);
                }
                sidx.push(ix);
            },
            None => {
                proof {
                    broadcast use vstd::seq_lib::group_to_multiset_ensures;

                    assert(str_views(sorted_paths@)[q3 as int] == sorted_paths@[q3 as int]@);
                    assert(str_views(sorted_paths@).contains(sorted_paths@[q3 as int]@));
                    assert(str_views(sorted_paths@).to_multiset().count(
                        sorted_paths@[q3 as int]@,
                    ) > 0);
                    assert(str_views(paths@).to_multiset().count(sorted_paths@[q3 as int]@) > 0);
                    assert(str_views(paths@).contains(sorted_paths@[q3 as int]@));
                    let w = choose|w: int|
                        0 <= w < str_views(paths@).len() && str_views(paths@)[w]
                            == sorted_paths@[q3 as int]@;
                    assert(nodes@[w].prompt_path@ == sorted_paths@[q3 as int]@);
                    assert(has_node(nodes@, sorted_paths@[q3 as int]@));
                }
                vstd::pervasive::unreached()
            },
        }
        q3 = q3 + 1;
    }
    let mut order: Vec<String> = Vec::new();
    let ghost mut ord_ix: Seq<int> = Seq::empty();
    let ghost mut pos: Map<Seq<char>, int> = Map::empty();
    let mut done = false;
    while !done
        invariant
            n == nodes@.len(),
            placed@.len() == n,
            forall|a: int, b: int|
                0 <= a < b < nodes@.len() ==> nodes@[a].prompt_path@ != nodes@[b].prompt_path@,
            forall|i: int, k: int|
                0 <= i < nodes@.len() && 0 <= k < nodes@[i].imports@.len() ==> has_node(
                    nodes@,
                    #[trigger] nodes@[i].imports@[k]@,
                ),
            ord_ix.len() == order@.len(),
            order@.len() == count_trues(placed@),
            order@.len() <= n,
            forall|t: int|
                #![trigger ord_ix[t]]
                0 <= t < ord_ix.len() ==> 0 <= ord_ix[t] < n && str_views(order@)[t] == nodes@[
                    ord_ix[t]
                ].prompt_path@ && placed@[ord_ix[t]] && pos.dom().contains(str_views(order@)[t])
                    && pos[str_views(order@)[t]] == t,
            forall|v: int|
                #![trigger placed@[v]]
                0 <= v < n && placed@[v] ==> pos.dom().contains(nodes@[v].prompt_path@) && 0
                    <= pos[nodes@[v].prompt_path@] < order@.len() && ord_ix[pos[nodes@[
                    v
                ].prompt_path@]] == v,
            forall|t: int, k: int|
                #![trigger nodes@[ord_ix[t]].imports@[k]]
                0 <= t < ord_ix.len() && 0 <= k < nodes@[ord_ix[t]].imports@.len()
                    ==> pos.dom().contains(nodes@[ord_ix[t]].imports@[k]@) && 0 <= pos[nodes@[
                    ord_ix[t]
                ].imports@[k]@] < t && str_views(order@)[pos[nodes@[ord_ix[t]].imports@[k]@]]
                    == nodes@[ord_ix[t]].imports@[k]@,
            sidx@.len() == n,
            forall|t: int|
                0 <= t < n ==> (#[trigger] sidx@[t]) < n && nodes@[sidx@[t] as int].prompt_path@
                    == str_views(sorted_paths@)[t],
            sorted_paths@.len() == n,
            paths@.len() == n,
            forall|t: int|
                0 <= t < n ==> #[trigger] str_views(paths@)[t] == nodes@[t].prompt_path@,
            str_views(sorted_paths@).to_multiset() == str_views(paths@).to_multiset(),
            vstd::relations::sorted_by(str_views(sorted_paths@), crate::sorting::lex_leq()),
            forall|a: int, v: int|
                #![trigger str_views(order@)[a], nodes@[v].prompt_path@]
                0 <= a < order@.len() && 0 <= v < n && !str_views(order@).take(a).contains(
                    nodes@[v].prompt_path@,
                ) && (forall|k: int|
                    0 <= k < nodes@[v].imports@.len() ==> str_views(order@).take(a).contains(
                        #[trigger] nodes@[v].imports@[k]@,
                    )) ==> crate::textutil::lex_le(str_views(order@)[a], nodes@[v].prompt_path@),
            done ==> (order@.len() == n || (forall|v: int|
                0 <= v < n && !placed@[v] ==> !imports_placed(nodes@, placed@, v))),
        decreases n - order@.len() + if done {
            0int
        } else {
            1int
        },
    {
        let mut chosen: Option<usize> = None;
        let ghost mut chosen_t: int = 0;
        let mut t2: usize = 0;
        while t2 < n
            invariant
                n == nodes@.len(),
                placed@.len() == n,
                forall|a: int, b: int|
                    0 <= a < b < nodes@.len() ==> nodes@[a].prompt_path@ != nodes@[
                        b
                    ].prompt_path@,
                forall|i: int, k: int|
                    0 <= i < nodes@.len() && 0 <= k < nodes@[i].imports@.len() ==> has_node(
                        nodes@,
                        #[trigger] nodes@[i].imports@[k]@,
                    ),
                sidx@.len() == n,
                forall|t: int|
                    0 <= t < n ==> (#[trigger] sidx@[t]) < n && nodes@[
                        sidx@[t] as int
                    ].prompt_path@ == str_views(sorted_paths@)[t],
                t2 <= n,
                match chosen {
                    Some(c) => c < n && !placed@[c as int] && imports_placed(
                        nodes@,
                        placed@,
                        c as int,
                    ) && 0 <= chosen_t < n && sidx@[chosen_t] as int == c as int && (forall|
                        tp: int,
                    |
                        0 <= tp < chosen_t ==> placed@[sidx@[tp] as int] || !imports_placed(
                            nodes@,
                            placed@,
                            sidx@[tp] as int,
                        )),
                    None => forall|tp: int|
                        0 <= tp < t2 ==> placed@[sidx@[tp] as int] || !imports_placed(
                            nodes@,
                            placed@,
                            sidx@[tp] as int,
                        ),
                },
            decreases n - t2,
        {
            let v = sidx[t2];
            if chosen.is_none() && !placed[v] && all_imports_placed(nodes, &placed, v) {
                chosen = Some(v);
                proof {
                    chosen_t = t2 as int;
                }
            }
            t2 = t2 + 1;
        }
        match chosen {
            Some(c) => {
                let ghost placed_before: Seq<bool> = placed@;
                let ghost order_before: Seq<String> = order@;
                let ghost ord_before: Seq<int> = ord_ix;
                let ghost pos_before: Map<Seq<char>, int> = pos;
                let ghost t_new: int = ord_ix.len() as int;
                let ghost cpath: Seq<char> = nodes@[c as int].prompt_path@;
                placed[c] = true;
                order.push(crate::textutil::str_copy(nodes[c].prompt_path.as_str()));
                proof {
                    lemma_count_trues_update(placed_before, c as int);
                    lemma_count_trues_bound(placed@);
                    ord_ix = ord_before.push(c as int);
                    pos = pos_before.insert(cpath, t_new);
                    assert(str_views(order@) =~= str_views(order_before).push(cpath));
                    // No earlier order entry and no earlier import key is
                    // the path of c: c was unplaced, and every key of the
                    // old map is the path of a placed node.
                    assert forall|t: int| 0 <= t < t_new implies str_views(order_before)[t]
                        != cpath by {
                        assert(ord_before[t] == ord_ix[t]);
                        assert(str_views(order_before)[t] == nodes@[ord_before[t]].prompt_path@);
                        assert(placed_before[ord_before[t]]);
                        if nodes@[ord_before[t]].prompt_path@ == cpath {
                            if ord_before[t] != c as int {
                                assert(nodes@[ord_before[t]].prompt_path@ != nodes@[
                                    c as int
                                ].prompt_path@);
                            }
                            assert(false);
                        }
                    }
                    assert forall|t: int| #![trigger ord_ix[t]] 0 <= t < ord_ix.len() implies 0
                        <= ord_ix[t] < n && str_views(order@)[t] == nodes@[
                        ord_ix[t]
                    ].prompt_path@ && placed@[ord_ix[t]] && pos.dom().contains(
                        str_views(order@)[t],
                    ) && pos[str_views(order@)[t]] == t by {
                        if t < t_new {
                            assert(ord_ix[t] == ord_before[t]);
                            assert(str_views(order@)[t] == str_views(order_before)[t]);
                            assert(str_views(order_before)[t] != cpath);
                        }
                    }
                    assert forall|vv: int| #![trigger placed@[vv]] 0 <= vv < n && placed@[vv]
                        implies pos.dom().contains(nodes@[vv].prompt_path@) && 0 <= pos[nodes@[
                        vv
                    ].prompt_path@] < order@.len() && ord_ix[pos[nodes@[vv].prompt_path@]] == vv
                        by {
                        if vv == c as int {
                        } else {
                            assert(placed_before[vv]);
                            assert(nodes@[vv].prompt_path@ != cpath);
                        }
                    }
                    assert forall|t: int, k: int|
                        #![trigger nodes@[ord_ix[t]].imports@[k]]
                        0 <= t < ord_ix.len() && 0 <= k < nodes@[ord_ix[t]].imports@.len()
                            implies pos.dom().contains(nodes@[ord_ix[t]].imports@[k]@) && 0
                            <= pos[nodes@[ord_ix[t]].imports@[k]@] < t && str_views(order@)[pos[
                        nodes@[ord_ix[t]].imports@[k]@]] == nodes@[ord_ix[t]].imports@[k]@ by {
                        if t < t_new {
                            assert(ord_ix[t] == ord_before[t]);
                            let imp = nodes@[ord_before[t]].imports@[k]@;
                            assert(pos_before.dom().contains(imp) && 0 <= pos_before[imp] < t
                                && str_views(order_before)[pos_before[imp]] == imp);
                            assert(str_views(order_before)[pos_before[imp]] != cpath);
                            assert(imp != cpath);
                            assert(pos[imp] == pos_before[imp]);
                            assert(str_views(order@)[pos[imp]] == str_views(order_before)[
                                pos_before[imp]
                            ]);
                        } else {
                            assert(t == t_new && ord_ix[t] == c as int);
                            let imp = nodes@[c as int].imports@[k]@;
                            assert(imports_placed(nodes@, placed_before, c as int));
                            let u = node_ix(nodes@, imp);
                            assert(has_node(nodes@, imp));
                            assert(0 <= u < n && nodes@[u].prompt_path@ == imp);
                            assert(placed_before[u]);
                            assert(pos_before.dom().contains(nodes@[u].prompt_path@) && 0
                                <= pos_before[nodes@[u].prompt_path@] < order_before.len()
                                && ord_before[pos_before[nodes@[u].prompt_path@]] == u);
                            assert(imp != cpath) by {
                                if imp == cpath {
                                    if u != c as int {
                                        assert(nodes@[u].prompt_path@ != nodes@[
                                            c as int
                                        ].prompt_path@);
                                    }
                                    assert(placed_before[c as int]);
                                    assert(false);
                                }
                            }
                            assert(pos[imp] == pos_before[imp]);
                            let b = pos_before[imp];
                            assert(ord_before[b] == u);
                            assert(str_views(order_before)[b] == nodes@[ord_before[b]].prompt_path@);
                            assert(str_views(order@)[b] == str_views(order_before)[b]);
                        }
                    }
                    // The pick was the lexicographically least ready
                    // prompt, so the determinism invariant extends to the
                    // new position and old positions keep their prefixes.
                    assert forall|a: int, v: int|
                        #![trigger str_views(order@)[a], nodes@[v].prompt_path@]
                        0 <= a < order@.len() && 0 <= v < n && !str_views(order@).take(
                            a,
                        ).contains(nodes@[v].prompt_path@) && (forall|k: int|
                            0 <= k < nodes@[v].imports@.len() ==> str_views(order@).take(
                                a,
                            ).contains(#[trigger] nodes@[v].imports@[k]@)) implies
                        crate::textutil::lex_le(
                        str_views(order@)[a],
                        nodes@[v].prompt_path@,
                    ) by {
                        assert(str_views(order@).take(a) =~= str_views(order_before).take(a));
                        if a < t_new {
                            assert(str_views(order@)[a] == str_views(order_before)[a]);
                        } else {
                            assert(str_views(order@).take(t_new) =~= str_views(order_before));
                            assert(str_views(order@)[a] == cpath);
                            // v is unplaced: a placed node's path stands in
                            // the prefix.
                            assert(!placed_before[v]) by {
                                if placed_before[v] {
                                    let b0 = pos_before[nodes@[v].prompt_path@];
                                    assert(ord_before[b0] == v);
                                    assert(str_views(order_before)[b0] == nodes@[
                                        ord_before[b0]
                                    ].prompt_path@);
                                    assert(str_views(order_before).contains(
                                        nodes@[v].prompt_path@,
                                    ));
                                    assert(false);
                                }
                            }
                            // v is ready: each import's node is placed.
                            assert(imports_placed(nodes@, placed_before, v)) by {
                                assert forall|k: int|
                                    0 <= k < nodes@[v].imports@.len() implies placed_before[
                                    node_ix(nodes@, #[trigger] nodes@[v].imports@[k]@)
                                ] by {
                                    let imp2 = nodes@[v].imports@[k]@;
                                    assert(str_views(order_before).contains(imp2));
                                    let b1 = choose|b1: int|
                                        0 <= b1 < str_views(order_before).len() && str_views(
                                            order_before,
                                        )[b1] == imp2;
                                    assert(str_views(order_before)[b1] == nodes@[
                                        ord_before[b1]
                                    ].prompt_path@);
                                    assert(placed_before[ord_before[b1]]);
                                    lemma_node_ix_unique(nodes@, ord_before[b1]);
                                }
                            }
                            // Minimality: v sits at or after the chosen
                            // position of the sorted scan.
                            let tv = lemma_sidx_onto(
                                nodes@,
                                str_views(paths@),
                                str_views(sorted_paths@),
                                sidx@,
                                v,
                            );
                            assert(nodes@[sidx@[tv] as int].prompt_path@ == str_views(
                                sorted_paths@,
                            )[tv]);
                            if tv < chosen_t {
                                assert(placed_before[sidx@[tv] as int] || !imports_placed(
                                    nodes@,
                                    placed_before,
                                    sidx@[tv] as int,
                                ));
                                assert(false);
                            }
                            assert(nodes@[sidx@[chosen_t] as int].prompt_path@ == str_views(
                                sorted_paths@,
                            )[chosen_t]);
                            assert(sidx@[chosen_t] as int == c as int);
                            if tv == chosen_t {
                                crate::textutil::lemma_lex_le_total(cpath, cpath);
                            } else {
                                assert(crate::sorting::lex_leq()(
                                    str_views(sorted_paths@)[chosen_t],
                                    str_views(sorted_paths@)[tv],
                                ));
                            }
                        }
                    }
                }
            },
            None => {
                proof {
                    assert forall|v: int| 0 <= v < n && !placed@[v] implies !imports_placed(
                        nodes@,
                        placed@,
                        v,
                    ) by {
                        let t = lemma_sidx_onto(
                            nodes@,
                            str_views(paths@),
                            str_views(sorted_paths@),
                            sidx@,
                            v,
                        );
                        assert(placed@[sidx@[t] as int] || !imports_placed(
                            nodes@,
                            placed@,
                            sidx@[t] as int,
                        ));
                    }
                }
                done = true;
            },
        }
    }
    if order.len() == n {
        proof {
            lemma_count_trues_full(placed@);
            assert forall|a: int, k: int|
                #![trigger spec_node(nodes@, str_views(order@)[a]).imports@[k]]
                0 <= a < str_views(order@).len() && 0 <= k < spec_node(
                    nodes@,
                    str_views(order@)[a],
                ).imports@.len() implies pos.dom().contains(
                spec_node(nodes@, str_views(order@)[a]).imports@[k]@,
            ) && 0 <= pos[spec_node(nodes@, str_views(order@)[a]).imports@[k]@] < a && str_views(
                order@,
            )[pos[spec_node(nodes@, str_views(order@)[a]).imports@[k]@]] == spec_node(
                nodes@,
                str_views(order@)[a],
            ).imports@[k]@ by {
                let t = a;
                assert(str_views(order@)[t] == nodes@[ord_ix[t]].prompt_path@);
                lemma_node_ix_unique(nodes@, ord_ix[t]);
                assert(spec_node(nodes@, str_views(order@)[t]) == nodes@[ord_ix[t]]);
                assert(pos.dom().contains(nodes@[ord_ix[t]].imports@[k]@) && 0 <= pos[nodes@[
                    ord_ix[t]
                ].imports@[k]@] < t && str_views(order@)[pos[nodes@[ord_ix[t]].imports@[k]@]]
                    == nodes@[ord_ix[t]].imports@[k]@);
            }
            assert(topo_ok(nodes@, str_views(order@))) by {
                reveal(topo_ok);
                assert(topo_witnessed(nodes@, str_views(order@), pos));
            }
            assert forall|i: int| #![trigger nodes@[i].prompt_path@] 0 <= i < nodes@.len()
                implies pos.dom().contains(nodes@[i].prompt_path@) && 0 <= pos[nodes@[
                i
            ].prompt_path@] < str_views(order@).len() && str_views(order@)[pos[nodes@[
                i
            ].prompt_path@]] == nodes@[i].prompt_path@ by {
                assert(placed@[i]);
                let a = pos[nodes@[i].prompt_path@];
                assert(str_views(order@)[a] == nodes@[ord_ix[a]].prompt_path@);
                assert(ord_ix[a] == i);
            }
            assert(order_onto(nodes@, str_views(order@))) by {
                reveal(order_onto);
                assert(onto_witnessed(nodes@, str_views(order@), pos));
            }
            assert forall|a: int| 0 <= a < order@.len() implies has_node(
                nodes@,
                #[trigger] str_views(order@)[a],
            ) by {
                assert(str_views(order@)[a] == nodes@[ord_ix[a]].prompt_path@);
            }
            assert forall|a: int, b: int| 0 <= a < b < order@.len() implies str_views(order@)[a]
                != str_views(order@)[b] by {
                if str_views(order@)[a] == str_views(order@)[b] {
                    assert(str_views(order@)[a] == nodes@[ord_ix[a]].prompt_path@);
                    assert(str_views(order@)[b] == nodes@[ord_ix[b]].prompt_path@);
                    assert(placed@[ord_ix[a]] && placed@[ord_ix[b]]);
                    assert(pos[nodes@[ord_ix[a]].prompt_path@] == a);
                    assert(pos[nodes@[ord_ix[b]].prompt_path@] == b);
                    assert(false);
                }
            }
            assert(lex_min_topo(nodes@, str_views(order@)));
        }
        return Ok(order);
    }
    // Stuck: every unplaced node has an unplaced import. Collect the
    // leftover paths and certify the cycle.
    let mut stuck: Vec<String> = Vec::new();
    let ghost mut sv: Seq<int> = Seq::empty();
    let ghost mut spos: Map<int, int> = Map::empty();
    let ghost mut impk: Seq<int> = Seq::empty();
    let mut w: usize = 0;
    proof {
        lemma_count_trues_bound(placed@);
    }
    while w < n
        invariant
            n == nodes@.len(),
            placed@.len() == n,
            w <= n,
            forall|v: int| 0 <= v < n && !placed@[v] ==> !imports_placed(nodes@, placed@, v),
            forall|a: int, b: int|
                0 <= a < b < nodes@.len() ==> nodes@[a].prompt_path@ != nodes@[b].prompt_path@,
            forall|i: int, k: int|
                0 <= i < nodes@.len() && 0 <= k < nodes@[i].imports@.len() ==> has_node(
                    nodes@,
                    #[trigger] nodes@[i].imports@[k]@,
                ),
            sv.len() == stuck@.len(),
            impk.len() == stuck@.len(),
            forall|t: int|
                #![trigger sv[t]]
                0 <= t < sv.len() ==> 0 <= sv[t] < n && !placed@[sv[t]] && str_views(stuck@)[t]
                    == nodes@[sv[t]].prompt_path@,
            forall|t: int|
                #![trigger impk[t]]
                0 <= t < impk.len() ==> 0 <= impk[t] < nodes@[sv[t]].imports@.len() && !placed@[
                    node_ix(nodes@, nodes@[sv[t]].imports@[impk[t]]@)
                ],
            forall|v2: int|
                #![trigger placed@[v2]]
                0 <= v2 < w && !placed@[v2] ==> spos.dom().contains(v2) && 0 <= spos[v2]
                    < stuck@.len() && sv[spos[v2]] == v2,
        decreases n - w,
    {
        if !placed[w] {
            proof {
                spos = spos.insert(w as int, stuck@.len() as int);
                sv = sv.push(w as int);
                assert(!imports_placed(nodes@, placed@, w as int));
                let kw = choose|k: int|
                    0 <= k < nodes@[w as int].imports@.len() && !placed@[node_ix(
                        nodes@,
                        #[trigger] nodes@[w as int].imports@[k]@,
                    )];
                assert(0 <= kw < nodes@[w as int].imports@.len() && !placed@[node_ix(
                    nodes@,
                    nodes@[w as int].imports@[kw]@,
                )]) by {
                    assert(exists|k: int|
                        0 <= k < nodes@[w as int].imports@.len() && !placed@[node_ix(
                            nodes@,
                            #[trigger] nodes@[w as int].imports@[k]@,
                        )]);
                }
                impk = impk.push(kw);
            }
            stuck.push(crate::textutil::str_copy(nodes[w].prompt_path.as_str()));
            proof {
                assert(str_views(stuck@) =~= str_views(stuck@.drop_last()).push(
                    nodes@[w as int].prompt_path@,
                ));
            }
        }
        w = w + 1;
    }
    proof {
        assert(stuck@.len() > 0) by {
            if stuck@.len() == 0 {
                assert forall|v2: int| 0 <= v2 < n implies placed@[v2] by {
                    if !placed@[v2] {
                        assert(spos.dom().contains(v2));
                    }
                }
                lemma_count_all_true(placed@);
                assert(false);
            }
        }
    }
    // Second pass: locate each leftover import back inside the leftover
    // list.
    let ghost mut inpos: Seq<int> = Seq::empty();
    let stuck_len: usize = stuck.len();
    let mut t2: usize = 0;
    while t2 < stuck_len
        invariant
            n == nodes@.len(),
            placed@.len() == n,
            stuck_len == stuck@.len(),
            t2 <= stuck_len,
            sv.len() == stuck@.len(),
            impk.len() == stuck@.len(),
            forall|a: int, b: int|
                0 <= a < b < nodes@.len() ==> nodes@[a].prompt_path@ != nodes@[b].prompt_path@,
            forall|i: int, k: int|
                0 <= i < nodes@.len() && 0 <= k < nodes@[i].imports@.len() ==> has_node(
                    nodes@,
                    #[trigger] nodes@[i].imports@[k]@,
                ),
            forall|t: int|
                #![trigger sv[t]]
                0 <= t < sv.len() ==> 0 <= sv[t] < n && !placed@[sv[t]] && str_views(stuck@)[t]
                    == nodes@[sv[t]].prompt_path@,
            forall|t: int|
                #![trigger impk[t]]
                0 <= t < impk.len() ==> 0 <= impk[t] < nodes@[sv[t]].imports@.len() && !placed@[
                    node_ix(nodes@, nodes@[sv[t]].imports@[impk[t]]@)
                ],
            forall|v2: int|
                #![trigger placed@[v2]]
                0 <= v2 < n && !placed@[v2] ==> spos.dom().contains(v2) && 0 <= spos[v2]
                    < stuck@.len() && sv[spos[v2]] == v2,
            inpos.len() == t2,
            forall|t: int|
                #![trigger inpos[t]]
                0 <= t < t2 ==> 0 <= inpos[t] < stuck@.len() && str_views(stuck@)[inpos[t]]
                    == nodes@[sv[t]].imports@[impk[t]]@,
        decreases stuck_len - t2,
    {
        proof {
            let imp = nodes@[sv[t2 as int]].imports@[impk[t2 as int]]@;
            let u = node_ix(nodes@, imp);
            assert(!placed@[u]);
            assert(0 <= u < n && nodes@[u].prompt_path@ == imp) by {
                assert(0 <= sv[t2 as int] < n);
                assert(has_node(nodes@, nodes@[sv[t2 as int]].imports@[impk[t2 as int]]@));
            }
            assert(spos.dom().contains(u) && 0 <= spos[u] < stuck@.len() && sv[spos[u]] == u);
            assert(str_views(stuck@)[spos[u]] == nodes@[u].prompt_path@);
            inpos = inpos.push(spos[u]);
        }
        t2 = t2 + 1;
    }
    proof {
        lemma_stuck_package(nodes@, str_views(stuck@), sv, impk, inpos);
    }
    Err(stuck)
}

/// Package the leftover bookkeeping into the cycle certificate.
proof fn lemma_stuck_package(
    nodes: Seq<DagNode>,
    stuck: Seq<Seq<char>>,
    sv: Seq<int>,
    impk: Seq<int>,
    inpos: Seq<int>,
)
    requires
        forall|a: int, b: int|
            0 <= a < b < nodes.len() ==> nodes[a].prompt_path@ != nodes[b].prompt_path@,
        stuck.len() > 0,
        sv.len() == stuck.len(),
        impk.len() == stuck.len(),
        inpos.len() == stuck.len(),
        forall|t: int|
            #![trigger sv[t]]
            0 <= t < sv.len() ==> 0 <= sv[t] < nodes.len() && stuck[t] == nodes[
                sv[t]
            ].prompt_path@,
        forall|t: int|
            #![trigger impk[t]]
            0 <= t < impk.len() ==> 0 <= impk[t] < nodes[sv[t]].imports@.len(),
        forall|t: int|
            #![trigger inpos[t]]
            0 <= t < inpos.len() ==> 0 <= inpos[t] < stuck.len() && stuck[inpos[t]] == nodes[
                sv[t]
            ].imports@[impk[t]]@,
    ensures
        stuck_cert(nodes, stuck),
{
    assert forall|t: int| #![trigger has_node(nodes, stuck[t])] 0 <= t < stuck.len() implies
        has_node(
        nodes,
        stuck[t],
    ) && 0 <= impk[t] < spec_node(nodes, stuck[t]).imports@.len() && 0 <= inpos[t] < stuck.len()
        && stuck[inpos[t]] == spec_node(nodes, stuck[t]).imports@[impk[t]]@ by {
        assert(0 <= sv[t] < nodes.len() && stuck[t] == nodes[sv[t]].prompt_path@);
        lemma_node_ix_unique(nodes, sv[t]);
        assert(spec_node(nodes, stuck[t]) == nodes[sv[t]]);
    }
    assert(stuck_cert(nodes, stuck)) by {
        reveal(stuck_cert);
        assert(stuck_witnessed(nodes, stuck, impk, inpos));
    }
}


proof fn lemma_count_all_false(s: Seq<bool>)
    requires
        forall|v: int| 0 <= v < s.len() ==> !s[v],
    ensures
        count_trues(s) == 0,
    decreases s.len(),
{
    if s.len() > 0 {
        lemma_count_all_false(s.drop_last());
    }
}

proof fn lemma_count_all_true(s: Seq<bool>)
    requires
        forall|v: int| 0 <= v < s.len() ==> s[v],
    ensures
        count_trues(s) == s.len(),
    decreases s.len(),
{
    if s.len() > 0 {
        lemma_count_all_true(s.drop_last());
    }
}

impl Dag {
    pub closed spec fn nodes_view(&self) -> Seq<DagNode> {
        self.nodes@
    }

    /// The topological order, as character sequences.
    pub closed spec fn order_views(&self) -> Seq<Seq<char>> {
        str_views(self.order@)
    }

    /// Well-formedness: distinct paths, closed imports, an order that is a
    /// permutation of the node paths in which every import of a node
    /// precedes it, and reverse edges that mirror the forward edges.
    pub closed spec fn wf(&self) -> bool {
        let nodes = self.nodes_view();
        let order = self.order_views();
        &&& forall|i: int, j: int|
            0 <= i < j < nodes.len() ==> nodes[i].prompt_path@ != nodes[j].prompt_path@
        &&& forall|i: int, k: int|
            0 <= i < nodes.len() && 0 <= k < nodes[i].imports@.len() ==> has_node(
                nodes,
                #[trigger] nodes[i].imports@[k]@,
            )
        &&& order.len() == nodes.len()
        &&& forall|a: int| 0 <= a < order.len() ==> has_node(nodes, #[trigger] order[a])
        &&& forall|a: int, b: int| 0 <= a < b < order.len() ==> order[a] != order[b]
        &&& topo_ok(nodes, order)
        &&& order_onto(nodes, order)
        &&& lex_min_topo(nodes, order)
        &&& forall|i: int, k: int|
            0 <= i < nodes.len() && 0 <= k < nodes[i].dependents@.len() ==> has_node(
                nodes,
                #[trigger] nodes[i].dependents@[k]@,
            )
        &&& forall|i: int, j: int|
            0 <= i < nodes.len() && 0 <= j < nodes.len() ==> (contains_str(
                #[trigger] nodes[i].dependents@,
                #[trigger] nodes[j].prompt_path@,
            ) <==> contains_str(nodes[j].imports@, nodes[i].prompt_path@))
    }

    /// The topological generation order, roots first.
    pub fn order(&self) -> (r: &Vec<String>)
        ensures
            str_views(r@) == self.order_views(),
    {
        &self.order
    }

    /// All nodes, in the order the prompts were given.
    pub fn nodes(&self) -> (r: &Vec<DagNode>)
        ensures
            r@ == self.nodes_view(),
    {
        &self.nodes
    }

    /// Look a node up by its prompt path.
    pub fn get(&self, path: &str) -> (r: Option<&DagNode>)
        requires
            self.wf(),
        ensures
            match r {
                Some(n) => has_node(self.nodes_view(), path@) && *n == spec_node(self.nodes_view(), path@),
                None => !has_node(self.nodes_view(), path@),
            },
    {
        let n: usize = self.nodes.len();
        let mut i: usize = 0;
        while i < n
            invariant
                self.wf(),
                n == self.nodes_view().len(),
                i <= n,
                forall|k: int| 0 <= k < i ==> self.nodes_view()[k].prompt_path@ != path@,
            decreases n - i,
        {
            if str_eq(self.nodes[i].prompt_path.as_str(), path) {
                proof {
                    assert(self.nodes_view()[i as int].prompt_path@ == path@);
                    assert(node_ix(self.nodes_view(), path@) == i as int) by {
                        assert(self.nodes_view() == self.nodes@);
                        let w = node_ix(self.nodes_view(), path@);
                        assert(0 <= w < self.nodes_view().len() && self.nodes_view()[w].prompt_path@
                            == path@);
                        if w < i as int {
                            assert(self.nodes_view()[w].prompt_path@ != path@);
                        }
                        if w > i as int {
                            assert(self.nodes_view()[i as int].prompt_path@ != self.nodes_view()[w].prompt_path@);
                        }
                    }
                }
                return Some(&self.nodes[i]);
            }
            i = i + 1;
        }
        None
    }

    /// The number of prompts in the graph.
    pub fn len(&self) -> (r: usize)
        ensures
            r == self.nodes_view().len(),
    {
        self.nodes.len()
    }

    /// Whether the graph has no prompts at all.
    pub fn is_empty(&self) -> (r: bool)
        ensures
            r == (self.nodes_view().len() == 0),
    {
        self.nodes.len() == 0
    }

    /// The root nodes: prompts with no imports.
    pub fn roots(&self) -> (r: Vec<&DagNode>)
        ensures
            r@.map_values(|n: &DagNode| *n) == self.nodes_view().filter(
                |n: DagNode| n.imports@.len() == 0,
            ),
    {
        let mut out: Vec<&DagNode> = Vec::new();
        let n: usize = self.nodes.len();
        let mut i: usize = 0;
        while i < n
            invariant
                n == self.nodes_view().len(),
                i <= n,
                out@.map_values(|n: &DagNode| *n) == self.nodes_view().take(i as int).filter(
                    |n: DagNode| n.imports@.len() == 0,
                ),
            decreases n - i,
        {
            let ghost prefix: Seq<DagNode> = self.nodes_view().take(i as int);
            if self.nodes[i].imports.len() == 0 {
                out.push(&self.nodes[i]);
            }
            proof {
                assert(self.nodes_view().take(i + 1).drop_last() =~= prefix);
                reveal_with_fuel(Seq::filter, 2);
                if self.nodes_view()[i as int].imports@.len() == 0 {
                    assert(out@.map_values(|n: &DagNode| *n) =~= prefix.filter(
                        |n: DagNode| n.imports@.len() == 0,
                    ).push(self.nodes_view()[i as int]));
                }
            }
            i = i + 1;
        }
        proof {
            assert(self.nodes_view().take(n as int) =~= self.nodes_view());
        }
        out
    }

    /// The leaf nodes: prompts nothing depends on.
    pub fn leaves(&self) -> (r: Vec<&DagNode>)
        ensures
            r@.map_values(|n: &DagNode| *n) == self.nodes_view().filter(
                |n: DagNode| n.dependents@.len() == 0,
            ),
    {
        let mut out: Vec<&DagNode> = Vec::new();
        let n: usize = self.nodes.len();
        let mut i: usize = 0;
        while i < n
            invariant
                n == self.nodes_view().len(),
                i <= n,
                out@.map_values(|n: &DagNode| *n) == self.nodes_view().take(i as int).filter(
                    |n: DagNode| n.dependents@.len() == 0,
                ),
            decreases n - i,
        {
            let ghost prefix: Seq<DagNode> = self.nodes_view().take(i as int);
            if self.nodes[i].dependents.len() == 0 {
                out.push(&self.nodes[i]);
            }
            proof {
                assert(self.nodes_view().take(i + 1).drop_last() =~= prefix);
                reveal_with_fuel(Seq::filter, 2);
                if self.nodes_view()[i as int].dependents@.len() == 0 {
                    assert(out@.map_values(|n: &DagNode| *n) =~= prefix.filter(
                        |n: DagNode| n.dependents@.len() == 0,
                    ).push(self.nodes_view()[i as int]));
                }
            }
            i = i + 1;
        }
        proof {
            assert(self.nodes_view().take(n as int) =~= self.nodes_view());
        }
        out
    }
}


/// A node-level cycle certificate lifts to a prompt-level one.
proof fn lemma_cycle_lift(prompts: Seq<Prompt>, nodes: Seq<DagNode>, stuck: Seq<Seq<char>>)
    requires
        distinct_prompt_paths(prompts),
        nodes_match_prompts(prompts, nodes),
        stuck_cert(nodes, stuck),
    ensures
        closed_cycle_set(prompts, stuck.to_set()),
        has_import_cycle(prompts),
{
    broadcast use vstd::seq_lib::seq_to_set_is_finite;
    broadcast use vstd::set::group_set_axioms;

    reveal(stuck_cert);
    let (impk, inpos): (Seq<int>, Seq<int>) = choose|impk: Seq<int>, inpos: Seq<int>|
        stuck_witnessed(nodes, stuck, impk, inpos);
    assert(stuck.to_set().contains(stuck[0]));
    assert(stuck.to_set().len() > 0) by {
        if stuck.to_set().len() == 0 {
            assert(stuck.to_set() =~= Set::<Seq<char>>::empty());
        }
    }
    assert forall|p: Seq<char>| #[trigger] stuck.to_set().contains(p) implies prompt_has_path(
        prompts,
        p,
    ) && exists|k: int|
        0 <= k < spec_prompt(prompts, p).frontmatter.imports@.len() && stuck.to_set().contains(
            spec_prompt(prompts, p).frontmatter.imports@[k]@,
        ) by {
        let t = choose|t: int| 0 <= t < stuck.len() && stuck[t] == p;
        assert(has_node(nodes, stuck[t]));
        let ni = node_ix(nodes, p);
        assert(0 <= ni < nodes.len() && nodes[ni].prompt_path@ == p);
        assert(nodes[ni].prompt_path@ == prompts[ni].path@);
        assert(prompt_has_path(prompts, p));
        lemma_node_prompt_agree(prompts, nodes, p);
        let k = impk[t];
        assert(0 <= k < spec_node(nodes, stuck[t]).imports@.len());
        assert(stuck[inpos[t]] == spec_node(nodes, stuck[t]).imports@[k]@);
        assert(stuck.to_set().contains(stuck[inpos[t]]));
        assert(spec_prompt(prompts, p).frontmatter.imports@[k]@ == spec_node(
            nodes,
            p,
        ).imports@[k]@);
        assert(0 <= k < spec_prompt(prompts, p).frontmatter.imports@.len() && stuck.to_set().contains(
            spec_prompt(prompts, p).frontmatter.imports@[k]@,
        ));
    }
    assert(closed_cycle_set(prompts, stuck.to_set()));
}

/// With matching prompts and nodes and distinct paths, the prompt and the
/// node found under one path agree on imports.
proof fn lemma_node_prompt_agree(prompts: Seq<Prompt>, nodes: Seq<DagNode>, p: Seq<char>)
    requires
        distinct_prompt_paths(prompts),
        nodes_match_prompts(prompts, nodes),
        has_node(nodes, p),
    ensures
        prompt_has_path(prompts, p),
        spec_prompt(prompts, p).path@ == p,
        spec_node(nodes, p).imports@.len() == spec_prompt(
            prompts,
            p,
        ).frontmatter.imports@.len(),
        forall|k: int|
            0 <= k < spec_node(nodes, p).imports@.len() ==> #[trigger] spec_node(
                nodes,
                p,
            ).imports@[k]@ == spec_prompt(prompts, p).frontmatter.imports@[k]@,
{
    let ni = node_ix(nodes, p);
    assert(0 <= ni < nodes.len() && nodes[ni].prompt_path@ == p);
    assert(nodes[ni].prompt_path@ == prompts[ni].path@);
    assert(prompt_has_path(prompts, p));
    let pi = choose|i: int| 0 <= i < prompts.len() && prompts[i].path@ == p;
    assert(0 <= pi < prompts.len() && prompts[pi].path@ == p);
    if pi != ni {
        if pi < ni {
            assert(prompts[pi].path@ != prompts[ni].path@);
        } else {
            assert(prompts[ni].path@ != prompts[pi].path@);
        }
        assert(false);
    }
    assert(spec_prompt(prompts, p) == prompts[ni]);
    assert(spec_node(nodes, p) == nodes[ni]) by {
        let w = node_ix(nodes, p);
        assert(w == ni);
    }
    assert(str_views(nodes[ni].imports@).len() == nodes[ni].imports@.len());
    assert(str_views(prompts[ni].frontmatter.imports@).len() == prompts[
        ni
    ].frontmatter.imports@.len());
    assert(nodes[ni].imports@.len() == prompts[ni].frontmatter.imports@.len());
    assert forall|k: int| 0 <= k < spec_node(nodes, p).imports@.len() implies #[trigger] spec_node(
        nodes,
        p,
    ).imports@[k]@ == spec_prompt(prompts, p).frontmatter.imports@[k]@ by {
        assert(str_views(nodes[ni].imports@)[k] == nodes[ni].imports@[k]@);
        assert(str_views(prompts[ni].frontmatter.imports@)[k] == prompts[
            ni
        ].frontmatter.imports@[k]@);
        assert(str_views(nodes[ni].imports@)[k] == str_views(
            prompts[ni].frontmatter.imports@,
        )[k]);
    }
}

/// No prompt-level cycle survives a complete topological order.
proof fn lemma_ordered_no_cycle(
    prompts: Seq<Prompt>,
    nodes: Seq<DagNode>,
    order: Seq<Seq<char>>,
)
    requires
        distinct_prompt_paths(prompts),
        nodes_match_prompts(prompts, nodes),
        forall|a: int, b: int|
            0 <= a < b < nodes.len() ==> nodes[a].prompt_path@ != nodes[b].prompt_path@,
        order.len() == nodes.len(),
        forall|a: int| 0 <= a < order.len() ==> has_node(nodes, #[trigger] order[a]),
        topo_ok(nodes, order),
        order_onto(nodes, order),
    ensures
        !has_import_cycle(prompts),
{
    if has_import_cycle(prompts) {
        let s: Set<Seq<char>> = choose|s: Set<Seq<char>>| closed_cycle_set(prompts, s);
        reveal(topo_ok);
        let posm: Map<Seq<char>, int> = choose|posm: Map<Seq<char>, int>|
            topo_witnessed(nodes, order, posm);
        lemma_no_cycle_below(prompts, nodes, order, posm, s, order.len() as int);
        // Some member of the cycle set exists and lies in the order.
        let p: Seq<char> = choose|p: Seq<char>| s.contains(p);
        assert(s.contains(p)) by {
            broadcast use vstd::set::group_set_axioms;

            if forall|q: Seq<char>| !#[trigger] s.contains(q) {
                assert(s =~= Set::<Seq<char>>::empty());
            }
        }
        assert(prompt_has_path(prompts, p));
        let pi = choose|i: int| 0 <= i < prompts.len() && prompts[i].path@ == p;
        assert(nodes[pi].prompt_path@ == p);
        reveal(order_onto);
        let pom: Map<Seq<char>, int> = choose|pom: Map<Seq<char>, int>|
            onto_witnessed(nodes, order, pom);
        assert(nodes[pi].prompt_path@ == nodes[pi].prompt_path@);
        let a = pom[nodes[pi].prompt_path@];
        assert(0 <= a < order.len() && order[a] == p);
        assert(!s.contains(order[a]));
        assert(false);
    }
}

/// By induction along the order: no order position below `a` holds a
/// member of a closed cycle set.
#[verifier::rlimit(100)]
#[verifier::spinoff_prover]
proof fn lemma_no_cycle_below(
    prompts: Seq<Prompt>,
    nodes: Seq<DagNode>,
    order: Seq<Seq<char>>,
    posm: Map<Seq<char>, int>,
    s: Set<Seq<char>>,
    a: int,
)
    requires
        distinct_prompt_paths(prompts),
        nodes_match_prompts(prompts, nodes),
        forall|b: int, c: int|
            0 <= b < c < nodes.len() ==> nodes[b].prompt_path@ != nodes[c].prompt_path@,
        forall|b: int| 0 <= b < order.len() ==> has_node(nodes, #[trigger] order[b]),
        topo_witnessed(nodes, order, posm),
        closed_cycle_set(prompts, s),
        0 <= a <= order.len(),
    ensures
        forall|b: int| 0 <= b < a ==> !s.contains(#[trigger] order[b]),
    decreases a,
{
    if a > 0 {
        lemma_no_cycle_below(prompts, nodes, order, posm, s, a - 1);
        if s.contains(order[a - 1]) {
            let p = order[a - 1];
            assert(prompt_has_path(prompts, p));
            assert(has_node(nodes, p));
            lemma_node_prompt_agree(prompts, nodes, p);
            let k = choose|k: int|
                0 <= k < spec_prompt(prompts, p).frontmatter.imports@.len() && s.contains(
                    spec_prompt(prompts, p).frontmatter.imports@[k]@,
                );
            assert(0 <= k < spec_node(nodes, p).imports@.len());
            let imp = spec_node(nodes, p).imports@[k]@;
            assert(imp == spec_prompt(prompts, p).frontmatter.imports@[k]@);
            assert(posm.dom().contains(imp) && 0 <= posm[imp] < a - 1 && order[posm[imp]]
                == imp) by {
                assert(spec_node(nodes, order[a - 1]).imports@[k] == spec_node(
                    nodes,
                    order[a - 1],
                ).imports@[k]);
            }
            assert(s.contains(order[posm[imp]]));
            assert(false);
        }
    }
}

impl Dag {
    /// Build a graph from a set of parsed prompts. Validates that every
    /// import resolves, that no two output declarations collide, and that
    /// the import relation has no cycle; on success the graph carries a
    /// topological order with roots first, in which simultaneously ready
    /// prompts appear lexicographically (see `lemma_order_lexicographic`),
    /// so the order depends only on the prompt set.
    pub fn build(prompts: &Vec<Prompt>) -> (r: Result<Dag, DagError>)
        requires
            distinct_prompt_paths(prompts@),
        ensures
            (r matches Ok(d) ==> d.wf() && nodes_match_prompts(prompts@, d.nodes_view())),
            (r is Ok) <==> (!has_missing_import(prompts@) && !has_output_conflict(prompts@)
                && !has_import_cycle(prompts@)),
            (r matches Err(e) ==> match e {
                DagError::MissingImports(ms) => missing_report_ok(prompts@, ms@),
                DagError::OutputConflicts(cs) => conflict_report_ok(prompts@, cs@),
                DagError::Cycle(ns) => ns@.len() > 0 && closed_cycle_set(
                    prompts@,
                    str_views(ns@).to_set(),
                ),
            }),
            (r matches Err(DagError::MissingImports(_))) <==> has_missing_import(prompts@),
            (r matches Err(DagError::OutputConflicts(_))) <==> (!has_missing_import(prompts@)
                && has_output_conflict(prompts@)),
            (r matches Err(DagError::Cycle(_))) <==> (!has_missing_import(prompts@)
                && !has_output_conflict(prompts@) && has_import_cycle(prompts@)),
    {
        let nodes = build_nodes(prompts);
        let missing = collect_missing(prompts);
        if missing.len() > 0 {
            return Err(DagError::MissingImports(missing));
        }
        let conflicts = collect_conflicts(prompts);
        if conflicts.len() > 0 {
            return Err(DagError::OutputConflicts(conflicts));
        }
        proof {
            assert forall|a: int, b: int|
                0 <= a < b < nodes@.len() implies nodes@[a].prompt_path@ != nodes@[
                b
            ].prompt_path@ by {
                assert(nodes@[a].prompt_path@ == prompts@[a].path@);
                assert(nodes@[b].prompt_path@ == prompts@[b].path@);
            }
            assert forall|i: int, k: int|
                0 <= i < nodes@.len() && 0 <= k < nodes@[i].imports@.len() implies has_node(
                nodes@,
                #[trigger] nodes@[i].imports@[k]@,
            ) by {
                assert(nodes@[i].prompt_path@ == prompts@[i].path@);
                assert(str_views(nodes@[i].imports@) == str_views(
                    prompts@[i].frontmatter.imports@,
                ));
                assert(str_views(nodes@[i].imports@).len() == nodes@[i].imports@.len());
                assert(str_views(prompts@[i].frontmatter.imports@).len() == prompts@[
                    i
                ].frontmatter.imports@.len());
                assert(str_views(nodes@[i].imports@)[k] == nodes@[i].imports@[k]@);
                assert(str_views(prompts@[i].frontmatter.imports@)[k] == prompts@[
                    i
                ].frontmatter.imports@[k]@);
                assert(nodes@[i].imports@[k]@ == prompts@[i].frontmatter.imports@[k]@);
                assert(prompt_has_path(prompts@, prompts@[i].frontmatter.imports@[k]@));
                let pi = choose|q: int|
                    0 <= q < prompts@.len() && prompts@[q].path@ == prompts@[
                        i
                    ].frontmatter.imports@[k]@;
                assert(nodes@[pi].prompt_path@ == prompts@[pi].path@);
            }
        }
        match toposort(&nodes) {
            Ok(order) => {
                proof {
                    lemma_deps_final(prompts@, nodes@);
                    lemma_ordered_no_cycle(prompts@, nodes@, str_views(order@));
                }
                let d = Dag { nodes, order };
                Ok(d)
            },
            Err(stuck) => {
                proof {
                    lemma_cycle_lift(prompts@, nodes@, str_views(stuck@));
                    assert(str_views(stuck@).len() > 0) by {
                        reveal(stuck_cert);
                        let (impk, inpos): (Seq<int>, Seq<int>) = choose|
                            impk: Seq<int>,
                            inpos: Seq<int>,
                        | stuck_witnessed(nodes@, str_views(stuck@), impk, inpos);
                    }
                }
                Err(DagError::Cycle(stuck))
            },
        }
    }
}

impl Dag {
    /// A chain of reverse edges: consecutive entries are linked by the
    /// dependents lists.
    pub open spec fn dep_path_ok(&self, path: Seq<Seq<char>>) -> bool {
        &&& path.len() >= 1
        &&& forall|x: int| 0 <= x < path.len() ==> has_node(self.nodes_view(), #[trigger] path[x])
        &&& forall|x: int|
            0 <= x < path.len() - 1 ==> contains_str(
                spec_node(self.nodes_view(), #[trigger] path[x]).dependents@,
                path[x + 1],
            )
    }

    /// `to` is `from` itself or a transitive dependent of `from`.
    pub open spec fn reaches(&self, from: Seq<char>, to: Seq<char>) -> bool {
        exists|path: Seq<Seq<char>>|
            self.dep_path_ok(path) && path.first() == from && path.last() == to
    }

    /// `p` must be regenerated: some changed prompt reaches it through the
    /// dependent edges.
    pub open spec fn in_regen_set(&self, changed: Seq<Seq<char>>, p: Seq<char>) -> bool {
        exists|c: Seq<char>|
            changed.contains(c) && has_node(self.nodes_view(), c) && self.reaches(c, p)
    }

    /// Compute the regeneration set: the changed prompts that exist in the
    /// graph together with all their transitive dependents, in topological
    /// order. Changed paths not in the graph are ignored.
    #[verifier::rlimit(100)]
    #[verifier::spinoff_prover]
    pub fn regeneration_set(&self, changed: &Vec<String>) -> (r: Vec<String>)
        requires
            self.wf(),
        ensures
            str_views(r@) == self.order_views().filter(
                |p: Seq<char>| self.in_regen_set(str_views(changed@), p),
            ),
    {
        let n: usize = self.nodes.len();
        let ghost cv: Seq<Seq<char>> = str_views(changed@);
        let mut marked: Vec<bool> = Vec::new();
        let mut z: usize = 0;
        while z < n
            invariant
                z <= n,
                marked@.len() == z,
                forall|v: int| 0 <= v < z ==> !marked@[v],
            decreases n - z,
        {
            marked.push(false);
            z = z + 1;
        }
        proof {
            lemma_count_all_false(marked@);
        }
        // Seed with the changed prompts that exist in the graph.
        let ghost mut why: Map<int, Seq<Seq<char>>> = Map::empty();
        let mut queue: Vec<usize> = Vec::new();
        let ghost mut qpos: Map<int, int> = Map::empty();
        let cn: usize = changed.len();
        let mut ci: usize = 0;
        while ci < cn
            invariant
                self.wf(),
                n == self.nodes_view().len(),
                cv == str_views(changed@),
                cn == changed@.len(),
                ci <= cn,
                marked@.len() == n,
                queue@.len() == count_trues(marked@),
                regen_state_ok(self, cv, marked@, queue@, why, qpos),
                forall|c2: int|
                    0 <= c2 < ci && has_node(self.nodes_view(), #[trigger] cv[c2]) ==> marked@[
                        node_ix(self.nodes_view(), cv[c2])
                    ],
            decreases cn - ci,
        {
            match self.get(changed[ci].as_str()) {
                Some(_) => {
                    let ghost marked_before: Seq<bool> = marked@;
                    let vi = match find_node_index(&self.nodes, changed[ci].as_str()) {
                        Some(vi) => vi,
                        None => vstd::pervasive::unreached(),
                    };
                    proof {
                        lemma_node_ix_unique(self.nodes_view(), vi as int);
                    }
                    if !marked[vi] {
                        marked[vi] = true;
                        queue.push(vi);
                        proof {
                            lemma_count_trues_update(marked_before, vi as int);
                            why = why.insert(vi as int, seq![cv[ci as int]]);
                            qpos = qpos.insert(vi as int, queue@.len() - 1);
                            assert(self.dep_path_ok(seq![cv[ci as int]])) by {
                                assert(seq![cv[ci as int]][0] == cv[ci as int]);
                            }
                            assert(regen_state_ok(self, cv, marked@, queue@, why, qpos)) by {
                                assert forall|v: int|
                                    #![trigger marked@[v]]
                                    0 <= v < self.nodes_view().len() && marked@[v] implies
                                    regen_mark_ok(self, cv, v, why) && qpos.dom().contains(v)
                                        && 0 <= qpos[v] < queue@.len() && queue@[qpos[v]] == v
                                        as int by {
                                    if v != vi as int {
                                        assert(marked_before[v]);
                                    } else {
                                        assert(why[v] == seq![cv[ci as int]]);
                                        assert(why[v].first() == cv[ci as int]);
                                        assert(why[v].last() == self.nodes_view()[v].prompt_path@);
                                    }
                                }
                            }
                        }
                    }
                },
                None => {
                },
            }
            ci = ci + 1;
        }
        proof {
            lemma_count_trues_bound(marked@);
        }
        // Breadth-first closure over dependents.
        let mut qhead: usize = 0;
        while qhead < queue.len()
            invariant
                self.wf(),
                n == self.nodes_view().len(),
                cv == str_views(changed@),
                marked@.len() == n,
                qhead <= queue@.len(),
                queue@.len() == count_trues(marked@),
                count_trues(marked@) <= n,
                regen_state_ok(self, cv, marked@, queue@, why, qpos),
                forall|c2: int|
                    0 <= c2 < cv.len() && has_node(self.nodes_view(), #[trigger] cv[c2])
                        ==> marked@[node_ix(self.nodes_view(), cv[c2])],
                forall|t: int|
                    #![trigger queue@[t]]
                    0 <= t < qhead ==> regen_processed_ok(self, queue@[t] as int, marked@),
            decreases n - count_trues(marked@), queue@.len() - qhead,
        {
            let ghost qlen0: int = queue@.len() as int;
            let v = queue[qhead];
            let m: usize = self.nodes[v].dependents.len();
            let mut k: usize = 0;
            while k < m
                invariant
                    self.wf(),
                    n == self.nodes_view().len(),
                    cv == str_views(changed@),
                    marked@.len() == n,
                    qhead < queue@.len(),
                    v == queue@[qhead as int],
                    v < n,
                    marked@[v as int],
                    m == self.nodes_view()[v as int].dependents@.len(),
                    k <= m,
                    queue@.len() == count_trues(marked@),
                    count_trues(marked@) <= n,
                    qhead < queue@.len(),
                    queue@.len() >= qlen0,
                    regen_state_ok(self, cv, marked@, queue@, why, qpos),
                    forall|c2: int|
                        0 <= c2 < cv.len() && has_node(self.nodes_view(), #[trigger] cv[c2])
                            ==> marked@[node_ix(self.nodes_view(), cv[c2])],
                    forall|t: int|
                        #![trigger queue@[t]]
                        0 <= t < qhead ==> regen_processed_ok(self, queue@[t] as int, marked@),
                    forall|k2: int|
                        0 <= k2 < k ==> marked@[node_ix(
                            self.nodes_view(),
                            #[trigger] self.nodes_view()[v as int].dependents@[k2]@,
                        )],
                decreases m - k,
            {
                let d = match find_node_index(&self.nodes, self.nodes[v].dependents[k].as_str()) {
                    Some(d) => d,
                    None => {
                        proof {
                            assert(has_node(
                                self.nodes_view(),
                                self.nodes_view()[v as int].dependents@[k as int]@,
                            ));
                        }
                        vstd::pervasive::unreached()
                    },
                };
                proof {
                    lemma_node_ix_unique(self.nodes_view(), d as int);
                }
                if !marked[d] {
                    let ghost marked_before: Seq<bool> = marked@;
                    marked[d] = true;
                    queue.push(d);
                    proof {
                        lemma_count_trues_update(marked_before, d as int);
                        lemma_count_trues_bound(marked@);
                        let newpath = why[v as int].push(
                            self.nodes_view()[d as int].prompt_path@,
                        );
                        why = why.insert(d as int, newpath);
                        qpos = qpos.insert(d as int, queue@.len() - 1);
                        assert(regen_state_ok(self, cv, marked@, queue@, why, qpos)) by {
                            assert forall|vv: int|
                                #![trigger marked@[vv]]
                                0 <= vv < self.nodes_view().len() && marked@[vv] implies
                                regen_mark_ok(self, cv, vv, why) && qpos.dom().contains(vv) && 0
                                    <= qpos[vv] < queue@.len() && queue@[qpos[vv]] == vv as int
                                by {
                                if vv != d as int {
                                    assert(marked_before[vv]);
                                    assert(regen_mark_ok(self, cv, vv, why)) by {
                                        assert(why[vv] == why.remove(d as int)[vv] || vv == d as int);
                                    }
                                } else {
                                    assert(regen_mark_ok(self, cv, v as int, why));
                                    let old_path = why[v as int];
                                    assert(self.dep_path_ok(newpath)) by {
                                        assert forall|x: int|
                                            0 <= x < newpath.len() implies has_node(
                                            self.nodes_view(),
                                            #[trigger] newpath[x],
                                        ) by {
                                            if x < old_path.len() {
                                                assert(newpath[x] == old_path[x]);
                                            }
                                        }
                                        assert forall|x: int|
                                            0 <= x < newpath.len() - 1 implies contains_str(
                                            spec_node(
                                                self.nodes_view(),
                                                #[trigger] newpath[x],
                                            ).dependents@,
                                            newpath[x + 1],
                                        ) by {
                                            if x < old_path.len() - 1 {
                                                assert(newpath[x] == old_path[x]);
                                                assert(newpath[x + 1] == old_path[x + 1]);
                                            } else {
                                                assert(x == old_path.len() - 1);
                                                assert(newpath[x] == old_path.last());
                                                assert(old_path.last() == self.nodes_view()[
                                                    v as int
                                                ].prompt_path@);
                                                lemma_node_ix_unique(
                                                    self.nodes_view(),
                                                    v as int,
                                                );
                                                assert(spec_node(
                                                    self.nodes_view(),
                                                    newpath[x],
                                                ) == self.nodes_view()[v as int]);
                                                assert(self.nodes_view()[
                                                    v as int
                                                ].dependents@[k as int]@ == self.nodes_view()[
                                                    d as int
                                                ].prompt_path@);
                                                assert(contains_str(
                                                    self.nodes_view()[v as int].dependents@,
                                                    newpath[x + 1],
                                                ));
                                            }
                                        }
                                    }
                                    assert(newpath.first() == old_path.first());
                                    assert(newpath.last() == self.nodes_view()[
                                        d as int
                                    ].prompt_path@);
                                }
                            }
                        }
                    }
                }
                k = k + 1;
            }
            qhead = qhead + 1;
            proof {
                assert(regen_processed_ok(self, v as int, marked@));
            }
        }
        // Emit the marked prompts in topological order.
        let on: usize = self.order.len();
        let mut out: Vec<String> = Vec::new();
        let mut oi: usize = 0;
        while oi < on
            invariant
                self.wf(),
                n == self.nodes_view().len(),
                cv == str_views(changed@),
                marked@.len() == n,
                on == self.order_views().len(),
                oi <= on,
                regen_state_ok(self, cv, marked@, queue@, why, qpos),
                forall|c2: int|
                    0 <= c2 < cv.len() && has_node(self.nodes_view(), #[trigger] cv[c2])
                        ==> marked@[node_ix(self.nodes_view(), cv[c2])],
                forall|t: int|
                    #![trigger queue@[t]]
                    0 <= t < queue@.len() ==> regen_processed_ok(self, queue@[t] as int, marked@),
                str_views(out@) == self.order_views().take(oi as int).filter(
                    |p: Seq<char>| self.in_regen_set(cv, p),
                ),
            decreases on - oi,
        {
            let ghost prefix: Seq<Seq<char>> = self.order_views().take(oi as int);
            let p = &self.order[oi];
            proof {
                assert(self.order_views()[oi as int] == p@);
                assert(has_node(self.nodes_view(), p@));
            }
            let vi = match find_node_index(&self.nodes, p.as_str()) {
                Some(vi) => vi,
                None => vstd::pervasive::unreached(),
            };
            proof {
                lemma_node_ix_unique(self.nodes_view(), vi as int);
                assert(node_ix(self.nodes_view(), p@) == vi as int);
            }
            let is_in = marked[vi];
            proof {
                if is_in {
                    assert(regen_mark_ok(self, cv, vi as int, why));
                    let path = why[vi as int];
                    assert(self.in_regen_set(cv, p@)) by {
                        assert(cv.contains(path.first()));
                        assert(self.reaches(path.first(), p@)) by {
                            assert(self.dep_path_ok(path) && path.first() == path.first()
                                && path.last() == p@);
                        }
                        assert(has_node(self.nodes_view(), path.first())) by {
                            assert(path[0] == path.first());
                        }
                    }
                } else {
                    if self.in_regen_set(cv, p@) {
                        let c = choose|c: Seq<char>|
                            cv.contains(c) && has_node(self.nodes_view(), c) && self.reaches(
                                c,
                                p@,
                            );
                        let path = choose|path: Seq<Seq<char>>|
                            self.dep_path_ok(path) && path.first() == c && path.last() == p@;
                        lemma_regen_path_marked(self, cv, marked@, queue@, why, qpos, path);
                        assert(marked@[node_ix(self.nodes_view(), p@)]);
                        assert(false);
                    }
                }
            }
            if is_in {
                out.push(crate::textutil::str_copy(p.as_str()));
            }
            proof {
                reveal_with_fuel(Seq::filter, 2);
                assert(self.order_views().take(oi + 1).drop_last() =~= prefix);
                assert(self.order_views().take(oi + 1).last() == p@);
                if is_in {
                    assert(str_views(out@) =~= prefix.filter(
                        |q: Seq<char>| self.in_regen_set(cv, q),
                    ).push(p@));
                } else {
                    assert(str_views(out@) =~= prefix.filter(
                        |q: Seq<char>| self.in_regen_set(cv, q),
                    ));
                }
            }
            oi = oi + 1;
        }
        proof {
            assert(self.order_views().take(on as int) =~= self.order_views());
        }
        out
    }
}

/// A marked node carries a valid dependent chain from a changed prompt.
pub open spec fn regen_mark_ok(
    d: &Dag,
    cv: Seq<Seq<char>>,
    v: int,
    why: Map<int, Seq<Seq<char>>>,
) -> bool {
    &&& why.dom().contains(v)
    &&& d.dep_path_ok(why[v])
    &&& cv.contains(why[v].first())
    &&& why[v].last() == d.nodes_view()[v].prompt_path@
}

/// Every marked node is justified and queued exactly once.
pub open spec fn regen_state_ok(
    d: &Dag,
    cv: Seq<Seq<char>>,
    marked: Seq<bool>,
    queue: Seq<usize>,
    why: Map<int, Seq<Seq<char>>>,
    qpos: Map<int, int>,
) -> bool {
    &&& forall|t: int|
        #![trigger queue[t]]
        0 <= t < queue.len() ==> 0 <= queue[t] < marked.len() && marked[queue[t] as int]
    &&& forall|v: int|
        #![trigger marked[v]]
        0 <= v < d.nodes_view().len() && marked[v] ==> regen_mark_ok(d, cv, v, why)
            && qpos.dom().contains(v) && 0 <= qpos[v] < queue.len() && queue[qpos[v]] == v as int
}

/// A processed node's dependents are all marked.
pub open spec fn regen_processed_ok(d: &Dag, v: int, marked: Seq<bool>) -> bool {
    0 <= v < d.nodes_view().len() ==> forall|k: int|
        0 <= k < d.nodes_view()[v].dependents@.len() ==> marked[node_ix(
            d.nodes_view(),
            #[trigger] d.nodes_view()[v].dependents@[k]@,
        )]
}

/// Once the queue is drained, every node at the end of a valid dependent
/// chain from a marked start is marked.
#[verifier::rlimit(100)]
#[verifier::spinoff_prover]
proof fn lemma_regen_path_marked(
    d: &Dag,
    cv: Seq<Seq<char>>,
    marked: Seq<bool>,
    queue: Seq<usize>,
    why: Map<int, Seq<Seq<char>>>,
    qpos: Map<int, int>,
    path: Seq<Seq<char>>,
)
    requires
        d.wf(),
        marked.len() == d.nodes_view().len(),
        regen_state_ok(d, cv, marked, queue, why, qpos),
        forall|t: int|
            #![trigger queue[t]]
            0 <= t < queue.len() ==> regen_processed_ok(d, queue[t] as int, marked),
        d.dep_path_ok(path),
        cv.contains(path.first()),
        forall|c2: int|
            0 <= c2 < cv.len() && has_node(d.nodes_view(), #[trigger] cv[c2]) ==> marked[node_ix(
                d.nodes_view(),
                cv[c2],
            )],
    ensures
        marked[node_ix(d.nodes_view(), path.last())],
    decreases path.len(),
{
    if path.len() == 1 {
        assert(path.last() == path.first());
        assert(has_node(d.nodes_view(), path[0]));
        let c2 = choose|c2: int| 0 <= c2 < cv.len() && cv[c2] == path.first();
        assert(has_node(d.nodes_view(), cv[c2]));
        assert(marked[node_ix(d.nodes_view(), cv[c2])]);
    } else {
        let prefix = path.take(path.len() - 1);
        assert(d.dep_path_ok(prefix)) by {
            assert forall|x: int| 0 <= x < prefix.len() implies has_node(
                d.nodes_view(),
                #[trigger] prefix[x],
            ) by {
                assert(prefix[x] == path[x]);
            }
            assert forall|x: int| 0 <= x < prefix.len() - 1 implies contains_str(
                spec_node(d.nodes_view(), #[trigger] prefix[x]).dependents@,
                prefix[x + 1],
            ) by {
                assert(prefix[x] == path[x]);
                assert(prefix[x + 1] == path[x + 1]);
            }
        }
        assert(prefix.first() == path.first());
        lemma_regen_path_marked(d, cv, marked, queue, why, qpos, prefix);
        let pv = node_ix(d.nodes_view(), prefix.last());
        assert(marked[pv]);
        let t = qpos[pv];
        assert(queue[t] == pv as int);
        assert(regen_processed_ok(d, queue[t] as int, marked));
        assert(prefix.last() == path[path.len() - 2]);
        assert(contains_str(
            spec_node(d.nodes_view(), path[path.len() - 2]).dependents@,
            path[path.len() - 1],
        ));
        assert(has_node(d.nodes_view(), prefix.last())) by {
            assert(path[path.len() - 2] == prefix[prefix.len() - 1]);
        }
        assert(0 <= pv < d.nodes_view().len() && d.nodes_view()[pv].prompt_path@
            == prefix.last());
        assert(spec_node(d.nodes_view(), path[path.len() - 2]) == d.nodes_view()[pv]);
        let kk = choose|kk: int|
            0 <= kk < d.nodes_view()[pv].dependents@.len() && d.nodes_view()[pv].dependents@[kk]@
                == path[path.len() - 1];
        assert(marked[node_ix(d.nodes_view(), d.nodes_view()[pv].dependents@[kk]@)]);
    }
}

impl Dag {
    /// The regeneration set contains every changed prompt that exists in
    /// the graph: reaching is reflexive through the one-element chain.
    pub proof fn lemma_regen_contains_changed(&self, changed: Seq<Seq<char>>, c: Seq<char>)
        requires
            self.wf(),
            changed.contains(c),
            has_node(self.nodes_view(), c),
        ensures
            self.in_regen_set(changed, c),
    {
        let path: Seq<Seq<char>> = seq![c];
        assert(path[0] == c);
        assert(self.dep_path_ok(path));
        assert(self.reaches(c, c)) by {
            assert(self.dep_path_ok(path) && path.first() == c && path.last() == c);
        }
    }

    /// The regeneration set is closed under dependents: whatever must be
    /// regenerated drags each of its dependents along.
    pub proof fn lemma_regen_closed(
        &self,
        changed: Seq<Seq<char>>,
        p: Seq<char>,
        k: int,
    )
        requires
            self.wf(),
            self.in_regen_set(changed, p),
            has_node(self.nodes_view(), p),
            0 <= k < spec_node(self.nodes_view(), p).dependents@.len(),
        ensures
            self.in_regen_set(changed, spec_node(self.nodes_view(), p).dependents@[k]@),
    {
        let c = choose|c: Seq<char>|
            changed.contains(c) && has_node(self.nodes_view(), c) && self.reaches(c, p);
        let path = choose|path: Seq<Seq<char>>|
            self.dep_path_ok(path) && path.first() == c && path.last() == p;
        let d = spec_node(self.nodes_view(), p).dependents@[k]@;
        let ni = node_ix(self.nodes_view(), p);
        assert(spec_node(self.nodes_view(), p) == self.nodes_view()[ni]);
        assert(has_node(self.nodes_view(), d)) by {
            assert(self.nodes_view()[ni].dependents@[k]@ == d);
        }
        let longer = path.push(d);
        assert(self.dep_path_ok(longer)) by {
            assert forall|x: int| 0 <= x < longer.len() implies has_node(
                self.nodes_view(),
                #[trigger] longer[x],
            ) by {
                if x < path.len() {
                    assert(longer[x] == path[x]);
                }
            }
            assert forall|x: int| 0 <= x < longer.len() - 1 implies contains_str(
                spec_node(self.nodes_view(), #[trigger] longer[x]).dependents@,
                longer[x + 1],
            ) by {
                if x < path.len() - 1 {
                    assert(longer[x] == path[x]);
                    assert(longer[x + 1] == path[x + 1]);
                } else {
                    assert(longer[x] == path.last());
                    assert(longer[x + 1] == d);
                    assert(contains_str(spec_node(self.nodes_view(), p).dependents@, d)) by {
                        assert(self.nodes_view()[ni].dependents@[k]@ == d);
                    }
                }
            }
        }
        assert(self.reaches(c, d)) by {
            assert(self.dep_path_ok(longer) && longer.first() == c && longer.last() == d);
        }
    }
}

impl DagError {
    /// A short human-readable account of the rejection: it opens with the
    /// failure kind, and every path the variant carries appears verbatim
    /// in the text (importers with their unresolvable imports, conflicted
    /// outputs with all their claimants, the prompts of the cycle).
    pub fn message(&self) -> (r: String)
        ensures
            (self matches DagError::MissingImports(ms) ==> crate::textutil::spec_starts_with(
                r@,
                "Missing imports"@,
            ) && (forall|t: int|
                0 <= t < ms@.len() ==> crate::textutil::has_match_from(
                    r@,
                    (#[trigger] ms@[t]).0@,
                    0,
                ) && crate::textutil::has_match_from(r@, (ms@[t]).1@, 0))),
            (self matches DagError::OutputConflicts(cs) ==> crate::textutil::spec_starts_with(
                r@,
                "Output file conflicts"@,
            ) && (forall|t: int|
                0 <= t < cs@.len() ==> crate::textutil::has_match_from(
                    r@,
                    (#[trigger] cs@[t]).0@,
                    0,
                )) && (forall|t: int, u: int|
                #![trigger (cs@[t]).1@[u]]
                0 <= t < cs@.len() && 0 <= u < (cs@[t]).1@.len()
                    ==> crate::textutil::has_match_from(r@, ((cs@[t]).1@[u])@, 0))),
            (self matches DagError::Cycle(ns) ==> crate::textutil::spec_starts_with(
                r@,
                "Circular dependency"@,
            ) && (forall|t: int|
                0 <= t < ns@.len() ==> crate::textutil::has_match_from(
                    r@,
                    (#[trigger] ns@[t])@,
                    0,
                ))),
    {
        let mut out = String::new();
        match self {
            DagError::MissingImports(ms) => {
                out.append("Missing imports:\n");
                proof {
                    reveal_strlit("Missing imports:\n");
                    reveal_strlit("Missing imports");
                    assert(out@.subrange(0, "Missing imports"@.len() as int)
                        =~= "Missing imports"@);
                }
                let mut i: usize = 0;
                let nm: usize = ms.len();
                let ghost mut offs0: Seq<int> = Seq::empty();
                let ghost mut offs1: Seq<int> = Seq::empty();
                while i < nm
                    invariant
                        nm == ms@.len(),
                        crate::textutil::spec_starts_with(out@, "Missing imports"@),
                        i <= nm,
                        offs0.len() == i,
                        offs1.len() == i,
                        forall|t: int|
                            0 <= t < i ==> crate::textutil::matches_at(
                                out@,
                                (#[trigger] ms@[t]).0@,
                                offs0[t],
                            ) && crate::textutil::matches_at(out@, (ms@[t]).1@, offs1[t]),
                    decreases nm - i,
                {
                    let ghost snap: Seq<char> = out@;
                    out.append("  ");
                    let ghost o0: int = out@.len() as int;
                    out.append(ms[i].0.as_str());
                    out.append(" imports ");
                    let ghost o1: int = out@.len() as int;
                    out.append(ms[i].1.as_str());
                    out.append(" (not found)\n");
                    proof {
                        offs0 = offs0.push(o0);
                        offs1 = offs1.push(o1);
                        assert(out@.subrange(0, "Missing imports"@.len() as int) =~= snap.subrange(
                            0,
                            "Missing imports"@.len() as int,
                        ));
                        assert forall|t: int| 0 <= t < i + 1 implies crate::textutil::matches_at(
                            out@,
                            (#[trigger] ms@[t]).0@,
                            offs0[t],
                        ) && crate::textutil::matches_at(out@, (ms@[t]).1@, offs1[t]) by {
                            if t < i as int {
                                assert(out@.subrange(offs0[t], offs0[t] + (ms@[t]).0@.len() as int)
                                    =~= snap.subrange(
                                    offs0[t],
                                    offs0[t] + (ms@[t]).0@.len() as int,
                                ));
                                assert(out@.subrange(offs1[t], offs1[t] + (ms@[t]).1@.len() as int)
                                    =~= snap.subrange(
                                    offs1[t],
                                    offs1[t] + (ms@[t]).1@.len() as int,
                                ));
                            } else {
                                assert(out@.subrange(o0, o0 + (ms@[t]).0@.len() as int) =~= (ms@[
                                    t
                                ]).0@);
                                assert(out@.subrange(o1, o1 + (ms@[t]).1@.len() as int) =~= (ms@[
                                    t
                                ]).1@);
                            }
                        }
                    }
                    i = i + 1;
                }
                proof {
                    assert forall|t: int| 0 <= t < ms@.len() implies crate::textutil::has_match_from(
                        out@,
                        (#[trigger] ms@[t]).0@,
                        0,
                    ) && crate::textutil::has_match_from(out@, (ms@[t]).1@, 0) by {
                        assert(crate::textutil::matches_at(out@, (ms@[t]).0@, offs0[t]));
                        assert(crate::textutil::matches_at(out@, (ms@[t]).1@, offs1[t]));
                    }
                }
            },
            DagError::OutputConflicts(cs) => {
                out.append("Output file conflicts:\n");
                proof {
                    reveal_strlit("Output file conflicts:\n");
                    reveal_strlit("Output file conflicts");
                    assert(out@.subrange(0, "Output file conflicts"@.len() as int)
                        =~= "Output file conflicts"@);
                }
                let mut i: usize = 0;
                let nc: usize = cs.len();
                let ghost mut koffs: Seq<int> = Seq::empty();
                let ghost mut coffs: Seq<Seq<int>> = Seq::empty();
                while i < nc
                    invariant
                        nc == cs@.len(),
                        crate::textutil::spec_starts_with(out@, "Output file conflicts"@),
                        i <= nc,
                        koffs.len() == i,
                        coffs.len() == i,
                        forall|t: int|
                            0 <= t < i ==> crate::textutil::matches_at(
                                out@,
                                (#[trigger] cs@[t]).0@,
                                koffs[t],
                            ),
                        forall|t: int|
                            0 <= t < i ==> (#[trigger] coffs[t]).len() == (cs@[t]).1@.len(),
                        forall|t: int, u: int|
                            #![trigger coffs[t][u]]
                            0 <= t < i && 0 <= u < coffs[t].len()
                                ==> crate::textutil::matches_at(
                                out@,
                                ((cs@[t]).1@[u])@,
                                coffs[t][u],
                            ),
                    decreases nc - i,
                {
                    let ghost snap: Seq<char> = out@;
                    out.append("  ");
                    let ghost ko: int = out@.len() as int;
                    out.append(cs[i].0.as_str());
                    proof {
                        assert(out@.subrange(ko, ko + (cs@[i as int]).0@.len() as int) =~= (cs@[
                            i as int
                        ]).0@);
                    }
                    let ghost mid: Seq<char> = out@;
                    out.append(" claimed by: [");
                    let claimants = &cs[i].1;
                    let mut j: usize = 0;
                    let njc: usize = claimants.len();
                    let ghost mut inner: Seq<int> = Seq::empty();
                    proof {
                        assert(out@.subrange(ko, ko + (cs@[i as int]).0@.len() as int)
                            =~= mid.subrange(ko, ko + (cs@[i as int]).0@.len() as int));
                        assert(crate::textutil::matches_at(out@, (cs@[i as int]).0@, ko));
                        assert(out@.subrange(0, "Output file conflicts"@.len() as int)
                            =~= snap.subrange(0, "Output file conflicts"@.len() as int));
                        assert forall|t: int|
                            0 <= t < i implies crate::textutil::matches_at(
                            out@,
                            (#[trigger] cs@[t]).0@,
                            koffs[t],
                        ) by {
                            assert(out@.subrange(koffs[t], koffs[t] + (cs@[t]).0@.len() as int)
                                =~= snap.subrange(
                                koffs[t],
                                koffs[t] + (cs@[t]).0@.len() as int,
                            ));
                        }
                        assert forall|t: int, u: int|
                            #![trigger coffs[t][u]]
                            0 <= t < i && 0 <= u < coffs[t].len() implies
                            crate::textutil::matches_at(out@, ((cs@[t]).1@[u])@, coffs[t][u]) by {
                            assert(out@.subrange(
                                coffs[t][u],
                                coffs[t][u] + ((cs@[t]).1@[u])@.len() as int,
                            ) =~= snap.subrange(
                                coffs[t][u],
                                coffs[t][u] + ((cs@[t]).1@[u])@.len() as int,
                            ));
                        }
                    }
                    while j < njc
                        invariant
                            nc == cs@.len(),
                            i < nc,
                            njc == claimants@.len(),
                            claimants@ == (cs@[i as int]).1@,
                            crate::textutil::spec_starts_with(out@, "Output file conflicts"@),
                            j <= njc,
                            inner.len() == j,
                            crate::textutil::matches_at(out@, (cs@[i as int]).0@, ko),
                            koffs.len() == i,
                            coffs.len() == i,
                            forall|t: int|
                                0 <= t < i ==> crate::textutil::matches_at(
                                    out@,
                                    (#[trigger] cs@[t]).0@,
                                    koffs[t],
                                ),
                            forall|t: int|
                                0 <= t < i ==> (#[trigger] coffs[t]).len() == (cs@[t]).1@.len(),
                            forall|t: int, u: int|
                                #![trigger coffs[t][u]]
                                0 <= t < i && 0 <= u < coffs[t].len()
                                    ==> crate::textutil::matches_at(
                                    out@,
                                    ((cs@[t]).1@[u])@,
                                    coffs[t][u],
                                ),
                            forall|u: int|
                                0 <= u < j ==> crate::textutil::matches_at(
                                    out@,
                                    ((cs@[i as int]).1@[u])@,
                                    #[trigger] inner[u],
                                ),
                        decreases njc - j,
                    {
                        let ghost snap2: Seq<char> = out@;
                        if j > 0 {
                            out.append(", ");
                        }
                        let ghost co: int = out@.len() as int;
                        out.append(claimants[j].as_str());
                        proof {
                            inner = inner.push(co);
                            assert(out@.subrange(0, "Output file conflicts"@.len() as int)
                                =~= snap2.subrange(0, "Output file conflicts"@.len() as int));
                            assert(out@.subrange(ko, ko + (cs@[i as int]).0@.len() as int)
                                =~= snap2.subrange(ko, ko + (cs@[i as int]).0@.len() as int));
                            assert forall|t: int|
                                0 <= t < i implies crate::textutil::matches_at(
                                out@,
                                (#[trigger] cs@[t]).0@,
                                koffs[t],
                            ) by {
                                assert(out@.subrange(koffs[t], koffs[t] + (cs@[t]).0@.len() as int)
                                    =~= snap2.subrange(
                                    koffs[t],
                                    koffs[t] + (cs@[t]).0@.len() as int,
                                ));
                            }
                            assert forall|t: int, u: int|
                                #![trigger coffs[t][u]]
                                0 <= t < i && 0 <= u < coffs[t].len() implies
                                crate::textutil::matches_at(
                                out@,
                                ((cs@[t]).1@[u])@,
                                coffs[t][u],
                            ) by {
                                assert(out@.subrange(
                                    coffs[t][u],
                                    coffs[t][u] + ((cs@[t]).1@[u])@.len() as int,
                                ) =~= snap2.subrange(
                                    coffs[t][u],
                                    coffs[t][u] + ((cs@[t]).1@[u])@.len() as int,
                                ));
                            }
                            assert forall|u: int|
                                0 <= u < j + 1 implies crate::textutil::matches_at(
                                out@,
                                ((cs@[i as int]).1@[u])@,
                                #[trigger] inner[u],
                            ) by {
                                if u < j as int {
                                    assert(out@.subrange(
                                        inner[u],
                                        inner[u] + ((cs@[i as int]).1@[u])@.len() as int,
                                    ) =~= snap2.subrange(
                                        inner[u],
                                        inner[u] + ((cs@[i as int]).1@[u])@.len() as int,
                                    ));
                                } else {
                                    assert(out@.subrange(
                                        co,
                                        co + ((cs@[i as int]).1@[u])@.len() as int,
                                    ) =~= ((cs@[i as int]).1@[u])@);
                                }
                            }
                        }
                        j = j + 1;
                    }
                    let ghost snap3: Seq<char> = out@;
                    out.append("]\n");
                    proof {
                        koffs = koffs.push(ko);
                        coffs = coffs.push(inner);
                        assert(out@.subrange(0, "Output file conflicts"@.len() as int)
                            =~= snap3.subrange(0, "Output file conflicts"@.len() as int));
                        assert forall|t: int|
                            0 <= t < i + 1 implies crate::textutil::matches_at(
                            out@,
                            (#[trigger] cs@[t]).0@,
                            koffs[t],
                        ) by {
                            assert(out@.subrange(koffs[t], koffs[t] + (cs@[t]).0@.len() as int)
                                =~= snap3.subrange(
                                koffs[t],
                                koffs[t] + (cs@[t]).0@.len() as int,
                            ));
                        }
                        assert forall|t: int, u: int|
                            #![trigger coffs[t][u]]
                            0 <= t < i + 1 && 0 <= u < coffs[t].len() implies
                            crate::textutil::matches_at(out@, ((cs@[t]).1@[u])@, coffs[t][u]) by {
                            assert(out@.subrange(
                                coffs[t][u],
                                coffs[t][u] + ((cs@[t]).1@[u])@.len() as int,
                            ) =~= snap3.subrange(
                                coffs[t][u],
                                coffs[t][u] + ((cs@[t]).1@[u])@.len() as int,
                            ));
                        }
                    }
                    i = i + 1;
                }
                proof {
                    assert forall|t: int| 0 <= t < cs@.len() implies crate::textutil::has_match_from(
                        out@,
                        (#[trigger] cs@[t]).0@,
                        0,
                    ) by {
                        assert(crate::textutil::matches_at(out@, (cs@[t]).0@, koffs[t]));
                    }
                    assert forall|t: int, u: int|
                        #![trigger (cs@[t]).1@[u]]
                        0 <= t < cs@.len() && 0 <= u < (cs@[t]).1@.len() implies
                        crate::textutil::has_match_from(out@, ((cs@[t]).1@[u])@, 0) by {
                        assert(crate::textutil::matches_at(out@, ((cs@[t]).1@[u])@, coffs[t][u]));
                    }
                }
            },
            DagError::Cycle(ns) => {
                out.append("Circular dependency detected. Prompts involved: [");
                proof {
                    reveal_strlit("Circular dependency detected. Prompts involved: [");
                    reveal_strlit("Circular dependency");
                    assert(out@.subrange(0, "Circular dependency"@.len() as int)
                        =~= "Circular dependency"@);
                }
                let mut i: usize = 0;
                let nn: usize = ns.len();
                let ghost mut offs: Seq<int> = Seq::empty();
                while i < nn
                    invariant
                        nn == ns@.len(),
                        crate::textutil::spec_starts_with(out@, "Circular dependency"@),
                        i <= nn,
                        offs.len() == i,
                        forall|t: int|
                            0 <= t < i ==> crate::textutil::matches_at(
                                out@,
                                (#[trigger] ns@[t])@,
                                offs[t],
                            ),
                    decreases nn - i,
                {
                    let ghost snap: Seq<char> = out@;
                    if i > 0 {
                        out.append(", ");
                    }
                    let ghost o0: int = out@.len() as int;
                    out.append(ns[i].as_str());
                    proof {
                        offs = offs.push(o0);
                        assert(out@.subrange(0, "Circular dependency"@.len() as int)
                            =~= snap.subrange(0, "Circular dependency"@.len() as int));
                        assert forall|t: int| 0 <= t < i + 1 implies crate::textutil::matches_at(
                            out@,
                            (#[trigger] ns@[t])@,
                            offs[t],
                        ) by {
                            if t < i as int {
                                assert(out@.subrange(offs[t], offs[t] + (ns@[t])@.len() as int)
                                    =~= snap.subrange(
                                    offs[t],
                                    offs[t] + (ns@[t])@.len() as int,
                                ));
                            } else {
                                assert(out@.subrange(o0, o0 + (ns@[t])@.len() as int) =~= (ns@[
                                    t
                                ])@);
                            }
                        }
                    }
                    i = i + 1;
                }
                let ghost snap4: Seq<char> = out@;
                out.append("]");
                proof {
                    assert(out@.subrange(0, "Circular dependency"@.len() as int) =~= snap4.subrange(
                        0,
                        "Circular dependency"@.len() as int,
                    ));
                    assert forall|t: int| 0 <= t < ns@.len() implies crate::textutil::has_match_from(
                        out@,
                        (#[trigger] ns@[t])@,
                        0,
                    ) by {
                        assert(out@.subrange(offs[t], offs[t] + (ns@[t])@.len() as int)
                            =~= snap4.subrange(offs[t], offs[t] + (ns@[t])@.len() as int));
                        assert(crate::textutil::matches_at(out@, (ns@[t])@, offs[t]));
                    }
                }
            },
        }
        out
    }
}

/// The finished reverse edges mirror the forward edges exactly.
proof fn lemma_deps_final(prompts: Seq<Prompt>, nodes: Seq<DagNode>)
    requires
        distinct_prompt_paths(prompts),
        nodes_match_prompts(prompts, nodes),
        deps_partial(prompts, nodes, prompts.len() as int, 0),
    ensures
        forall|i: int, j: int|
            0 <= i < nodes.len() && 0 <= j < nodes.len() ==> (contains_str(
                #[trigger] nodes[i].dependents@,
                #[trigger] nodes[j].prompt_path@,
            ) <==> contains_str(nodes[j].imports@, nodes[i].prompt_path@)),
        forall|i: int, k: int|
            0 <= i < nodes.len() && 0 <= k < nodes[i].dependents@.len() ==> has_node(
                nodes,
                #[trigger] nodes[i].dependents@[k]@,
            ),
{
    assert forall|i: int, k: int|
        0 <= i < nodes.len() && 0 <= k < nodes[i].dependents@.len() implies has_node(
        nodes,
        #[trigger] nodes[i].dependents@[k]@,
    ) by {
        let e = nodes[i].dependents@[k]@;
        assert(contains_str(nodes[i].dependents@, e));
        let (ii, kk): (int, int) = choose|ii: int, kk: int|
            0 <= ii < prompts.len() && 0 <= kk < prompts[ii].frontmatter.imports@.len()
                && import_before(ii, kk, prompts.len() as int, 0) && prompts[ii].path@ == e
                && #[trigger] prompts[ii].frontmatter.imports@[kk]@ == nodes[i].prompt_path@;
        assert(nodes[ii].prompt_path@ == prompts[ii].path@);
    }
    assert forall|i: int, j: int|
        0 <= i < nodes.len() && 0 <= j < nodes.len() implies (contains_str(
        #[trigger] nodes[i].dependents@,
        #[trigger] nodes[j].prompt_path@,
    ) <==> contains_str(nodes[j].imports@, nodes[i].prompt_path@)) by {
        if contains_str(nodes[i].dependents@, nodes[j].prompt_path@) {
            let (ii, kk): (int, int) = choose|ii: int, kk: int|
                0 <= ii < prompts.len() && 0 <= kk < prompts[ii].frontmatter.imports@.len()
                    && import_before(ii, kk, prompts.len() as int, 0) && prompts[ii].path@
                    == nodes[j].prompt_path@ && #[trigger] prompts[ii].frontmatter.imports@[kk]@
                    == nodes[i].prompt_path@;
            assert(prompts[ii].path@ == prompts[j].path@);
            if ii != j {
                if ii < j {
                    assert(prompts[ii].path@ != prompts[j].path@);
                } else {
                    assert(prompts[j].path@ != prompts[ii].path@);
                }
                assert(false);
            }
            assert(str_views(nodes[j].imports@).len() == str_views(
                prompts[j].frontmatter.imports@,
            ).len());
            assert(str_views(nodes[j].imports@)[kk] == nodes[j].imports@[kk]@);
            assert(str_views(prompts[j].frontmatter.imports@)[kk] == prompts[
                j
            ].frontmatter.imports@[kk]@);
            assert(nodes[j].imports@[kk]@ == nodes[i].prompt_path@);
            assert(contains_str(nodes[j].imports@, nodes[i].prompt_path@));
        }
        if contains_str(nodes[j].imports@, nodes[i].prompt_path@) {
            let kk = choose|kk: int|
                0 <= kk < nodes[j].imports@.len() && nodes[j].imports@[kk]@ == nodes[
                    i
                ].prompt_path@;
            assert(str_views(nodes[j].imports@).len() == str_views(
                prompts[j].frontmatter.imports@,
            ).len());
            assert(str_views(nodes[j].imports@)[kk] == nodes[j].imports@[kk]@);
            assert(str_views(prompts[j].frontmatter.imports@)[kk] == prompts[
                j
            ].frontmatter.imports@[kk]@);
            assert(prompts[j].frontmatter.imports@[kk]@ == nodes[i].prompt_path@);
            assert(import_before(j, kk, prompts.len() as int, 0));
            assert(prompts[j].path@ == nodes[j].prompt_path@);
            assert(contains_str(nodes[i].dependents@, nodes[j].prompt_path@));
        }
    }
}


impl Dag {
    /// The carried order is a permutation of the node paths: same length,
    /// pairwise distinct, every position a node path, and every node path
    /// at some position. Together with `Dag::build`'s field agreement this
    /// makes the order a permutation of the admitted prompt paths.
    pub proof fn lemma_order_is_permutation(&self)
        requires
            self.wf(),
        ensures
            self.order_views().len() == self.nodes_view().len(),
            forall|a: int|
                0 <= a < self.order_views().len() ==> has_node(
                    self.nodes_view(),
                    #[trigger] self.order_views()[a],
                ),
            forall|a: int, b: int|
                0 <= a < b < self.order_views().len() ==> self.order_views()[a]
                    != self.order_views()[b],
    {
    }

    /// Every node's path appears in the order; together with
    /// `lemma_order_is_permutation` the order is a permutation of the
    /// node paths.
    pub proof fn lemma_order_covers(&self, i: int) -> (a: int)
        requires
            self.wf(),
            0 <= i < self.nodes_view().len(),
        ensures
            0 <= a < self.order_views().len(),
            self.order_views()[a] == self.nodes_view()[i].prompt_path@,
    {
        reveal(order_onto);
        let posm: Map<Seq<char>, int> = choose|posm: Map<Seq<char>, int>|
            onto_witnessed(self.nodes_view(), self.order_views(), posm);
        assert(onto_witnessed(self.nodes_view(), self.order_views(), posm));
        assert(self.nodes_view()[i].prompt_path@ == self.nodes_view()[i].prompt_path@);
        posm[self.nodes_view()[i].prompt_path@]
    }

    /// The reverse edges are exactly the mirror of the forward edges: a
    /// node lists another as a dependent precisely when that other node
    /// imports it, and every dependents entry names an admitted node.
    pub proof fn lemma_dependents_mirror(&self)
        requires
            self.wf(),
        ensures
            forall|i: int, j: int|
                0 <= i < self.nodes_view().len() && 0 <= j < self.nodes_view().len() ==> (
                contains_str(
                    #[trigger] self.nodes_view()[i].dependents@,
                    #[trigger] self.nodes_view()[j].prompt_path@,
                ) <==> contains_str(
                    self.nodes_view()[j].imports@,
                    self.nodes_view()[i].prompt_path@,
                )),
            forall|i: int, k: int|
                0 <= i < self.nodes_view().len() && 0 <= k
                    < self.nodes_view()[i].dependents@.len() ==> has_node(
                    self.nodes_view(),
                    #[trigger] self.nodes_view()[i].dependents@[k]@,
                ),
            forall|i: int, k: int|
                0 <= i < self.nodes_view().len() && 0 <= k < self.nodes_view()[i].imports@.len()
                    ==> has_node(self.nodes_view(), #[trigger] self.nodes_view()[i].imports@[k]@),
    {
    }

    /// A non-empty graph has a root: the head of the order can have no
    /// import, since nothing precedes it.
    pub proof fn lemma_nonempty_has_root(&self)
        requires
            self.wf(),
            self.nodes_view().len() > 0,
        ensures
            exists|i: int|
                0 <= i < self.nodes_view().len() && (#[trigger] self.nodes_view()[i].imports@).len()
                    == 0,
    {
        let p = self.order_views()[0];
        assert(has_node(self.nodes_view(), p));
        let ni = node_ix(self.nodes_view(), p);
        assert(0 <= ni < self.nodes_view().len() && self.nodes_view()[ni].prompt_path@ == p);
        assert(spec_node(self.nodes_view(), p) == self.nodes_view()[ni]);
        if self.nodes_view()[ni].imports@.len() > 0 {
            assert(self.order_views().len() == self.nodes_view().len());
            assert(spec_node(self.nodes_view(), self.order_views()[0]).imports@.len() > 0);
            self.lemma_order_respects_imports(0, 0);
            let b = choose|b: int|
                0 <= b < 0 && #[trigger] self.order_views()[b] == spec_node(
                    self.nodes_view(),
                    self.order_views()[0],
                ).imports@[0]@;
            assert(false);
        }
        assert((self.nodes_view()[ni].imports@).len() == 0);
    }

    /// The deterministic sibling order: at any position, any prompt that
    /// was ready there (not yet placed, all imports placed) is
    /// lexicographically at or after the prompt the order holds, so
    /// simultaneously ready prompts appear lexicographically and equal
    /// prompt sets always give the identical order.
    pub proof fn lemma_order_lexicographic(&self, a: int, v: int)
        requires
            self.wf(),
            0 <= a < self.order_views().len(),
            0 <= v < self.nodes_view().len(),
            !self.order_views().take(a).contains(self.nodes_view()[v].prompt_path@),
            forall|k: int|
                0 <= k < self.nodes_view()[v].imports@.len() ==> self.order_views().take(
                    a,
                ).contains(#[trigger] self.nodes_view()[v].imports@[k]@),
        ensures
            crate::textutil::lex_le(self.order_views()[a], self.nodes_view()[v].prompt_path@),
    {
        assert(self.order_views()[a] == self.order_views()[a]);
        assert(self.nodes_view()[v].prompt_path@ == self.nodes_view()[v].prompt_path@);
    }

    /// Membership in the regeneration listing: a path is in the filtered
    /// order exactly when it stands in the order and must be regenerated.
    pub proof fn lemma_regen_membership(&self, changed: Seq<Seq<char>>, p: Seq<char>)
        requires
            self.wf(),
        ensures
            self.order_views().filter(|q: Seq<char>| self.in_regen_set(changed, q)).contains(p)
                <==> (self.order_views().contains(p) && self.in_regen_set(changed, p)),
    {
        let pred = |q: Seq<char>| self.in_regen_set(changed, q);
        self.order_views().filter_lemma(pred);
        if self.order_views().filter(pred).contains(p) {
            let fi = choose|fi: int|
                0 <= fi < self.order_views().filter(pred).len() && self.order_views().filter(
                    pred,
                )[fi] == p;
            assert(pred(self.order_views().filter(pred)[fi]));
            self.order_views().lemma_filter_contains_rev(pred, p);
        }
        if self.order_views().contains(p) && self.in_regen_set(changed, p) {
            let i = choose|i: int|
                0 <= i < self.order_views().len() && self.order_views()[i] == p;
            assert(pred(self.order_views()[i]));
            assert(self.order_views().filter(pred).contains(self.order_views()[i]));
        }
    }
}

impl Dag {
    /// The order a successful build carries is topologically sound: the
    /// node at any position imports only prompts that appear strictly
    /// earlier in the order.
    pub proof fn lemma_order_respects_imports(&self, a: int, k: int)
        requires
            self.wf(),
            0 <= a < self.order_views().len(),
            0 <= k < spec_node(self.nodes_view(), self.order_views()[a]).imports@.len(),
        ensures
            exists|b: int|
                0 <= b < a && self.order_views()[b] == spec_node(
                    self.nodes_view(),
                    self.order_views()[a],
                ).imports@[k]@,
    {
        reveal(topo_ok);
        let posm: Map<Seq<char>, int> = choose|posm: Map<Seq<char>, int>|
            topo_witnessed(self.nodes_view(), self.order_views(), posm);
        let imp = spec_node(self.nodes_view(), self.order_views()[a]).imports@[k]@;
        assert(spec_node(self.nodes_view(), self.order_views()[a]).imports@[k] == spec_node(
            self.nodes_view(),
            self.order_views()[a],
        ).imports@[k]);
        let b = posm[imp];
        assert(0 <= b < a && self.order_views()[b] == imp);
    }
}

} // verus!
