//! The generation pipeline's verified core: resolving model parameters,
//! assembling the instruction and context texts, parsing the model's
//! response into output files, and the fingerprint walk that threads
//! cache keys through the graph. The surrounding program performs the
//! model call itself and the file writes.

use vstd::prelude::*;
use crate::config::LitConfig;
use crate::lines::spec_join;
use crate::prompt::Prompt;
use crate::sorting::{pair_views, str_views};
use crate::textutil::{str_copy, str_eq};

verus! {

/// One request to the model provider.
#[derive(Debug)]
pub struct GenerationRequest {
    pub system_prompt: String,
    pub context: String,
    pub user_prompt: String,
    pub model: String,
    pub temperature_milli: u32,
    pub seed: Option<u64>,
}

/// One response from the model provider.
#[derive(Debug)]
pub struct GenerationResponse {
    pub content: String,
    pub tokens_in: u64,
    pub tokens_out: u64,
    pub model: String,
}

/// The classified failures a provider call can surface.
#[derive(Debug)]
pub enum ProviderErrorKind {
    Auth,
    RateLimit,
    Overload,
    Transport,
    Server,
    EmptyResponse,
}

/// Classify a provider error type string into the failure taxonomy.
pub fn classify_provider_error(error_type: &str) -> (r: ProviderErrorKind)
    ensures
        error_type@ == "authentication_error"@ ==> r is Auth,
        error_type@ == "rate_limit_error"@ ==> r is RateLimit,
        error_type@ == "overloaded_error"@ ==> r is Overload,
        error_type@ != "authentication_error"@ && error_type@ != "rate_limit_error"@
            && error_type@ != "overloaded_error"@ ==> r is Server,
{
    proof {
        reveal_strlit("authentication_error");
        reveal_strlit("rate_limit_error");
        reveal_strlit("overloaded_error");
        assert("authentication_error"@.len() != "rate_limit_error"@.len());
        assert("authentication_error"@.len() != "overloaded_error"@.len());
        assert("rate_limit_error"@ != "overloaded_error"@) by {
            assert("rate_limit_error"@[0] != "overloaded_error"@[0]);
        }
    }
    if str_eq(error_type, "authentication_error") {
        ProviderErrorKind::Auth
    } else if str_eq(error_type, "rate_limit_error") {
        ProviderErrorKind::RateLimit
    } else if str_eq(error_type, "overloaded_error") {
        ProviderErrorKind::Overload
    } else {
        ProviderErrorKind::Server
    }
}

/// The result of generating one prompt.
#[derive(Debug)]
pub struct GenerationOutput {
    /// Prompt this output came from.
    pub prompt_path: String,
    /// Output file path and its generated content.
    pub files: Vec<(String, String)>,
    pub tokens_in: u64,
    pub tokens_out: u64,
    pub duration_ms: u64,
    /// Model that produced it.
    pub model: String,
    /// Whether the result was served from the cache.
    pub from_cache: bool,
    /// The input fingerprint it is cached under.
    pub input_hash: String,
}

/// The outcome of a full pipeline run.
#[derive(Debug)]
pub struct PipelineResult {
    pub outputs: Vec<GenerationOutput>,
    pub total_tokens_in: u64,
    pub total_tokens_out: u64,
    pub total_duration_ms: u64,
    pub skipped: Vec<String>,
    pub cache_hits: usize,
    pub cache_misses: usize,
}

/// The model parameters a prompt generates under: its own override when
/// present, else the project defaults.
pub fn resolve_model_config(prompt: &Prompt, config: &LitConfig) -> (r: (String, u32, Option<u64>))
    ensures
        match prompt.frontmatter.model {
            Some(m) => r.0@ == m.model@ && r.1 == m.temperature_milli && r.2 == m.seed,
            None => r.0@ == config.model.model@ && r.1 == config.model.temperature_milli && r.2
                == config.model.seed,
        },
{
    match &prompt.frontmatter.model {
        Some(m) => (str_copy(m.model.as_str()), m.temperature_milli, m.seed),
        None => (
            str_copy(config.model.model.as_str()),
            config.model.temperature_milli,
            config.model.seed,
        ),
    }
}

/// One context block: the file's path as a heading, then its content in a
/// fence.
pub open spec fn spec_context_block(path: Seq<char>, code: Seq<char>) -> Seq<char> {
    "### "@ + path + "\n```\n"@ + code + "\n```"@
}

/// The full context text: one block per file, sorted by path for
/// determinism, separated by blank lines.
pub open spec fn spec_context_text(pairs: Seq<(Seq<char>, Seq<char>)>) -> Seq<char>
    decreases pairs.len(),
{
    if pairs.len() == 0 {
        Seq::empty()
    } else if pairs.len() == 1 {
        spec_context_block(pairs[0].0, pairs[0].1)
    } else {
        spec_context_block(pairs[0].0, pairs[0].1) + "\n\n"@ + spec_context_text(
            pairs.drop_first(),
        )
    }
}

/// Assemble the context handed to the model: the imported files' contents
/// under their paths, in sorted path order.
pub fn build_context(context: &Vec<(String, String)>) -> (r: String)
    ensures
        r@ == spec_context_text(pair_views(context@).sort_by(crate::sorting::pair_leq())),
{
    let mut pairs: Vec<(String, String)> = Vec::new();
    let n: usize = context.len();
    let mut i: usize = 0;
    while i < n
        invariant
            n == context@.len(),
            i <= n,
            pairs@.len() == i,
            forall|t: int|
                0 <= t < i ==> (#[trigger] pairs@[t]).0@ == (context@[t]).0@ && (pairs@[t]).1@
                    == (context@[t]).1@,
        decreases n - i,
    {
        let pa = str_copy(context[i].0.as_str());
        let pb = str_copy(context[i].1.as_str());
        pairs.push((pa, pb));
        i = i + 1;
    }
    proof {
        assert forall|t: int| 0 <= t < n implies pair_views(pairs@)[t] == pair_views(context@)[
            t
        ] by {
            assert(pair_views(pairs@)[t] == ((pairs@[t]).0@, (pairs@[t]).1@));
            assert(pair_views(context@)[t] == ((context@[t]).0@, (context@[t]).1@));
        }
        assert(pair_views(pairs@) =~= pair_views(context@));
    }
    let sorted = crate::sorting::sort_pairs(pairs);
    proof {
        crate::sorting::lemma_pair_leq_total_ordering();
        pair_views(context@).lemma_sort_by_ensures(crate::sorting::pair_leq());
        vstd::seq_lib::lemma_sorted_unique(
            pair_views(sorted@),
            pair_views(context@).sort_by(crate::sorting::pair_leq()),
            crate::sorting::pair_leq(),
        );
    }
    let mut out = String::new();
    let sn: usize = sorted.len();
    let mut si: usize = 0;
    while si < sn
        invariant
            sn == sorted@.len(),
            si <= sn,
            (si == 0 && out@ == Seq::<char>::empty()) || (0 < si < sn && spec_context_text(
                pair_views(sorted@),
            ) == out@ + "\n\n"@ + spec_context_text(pair_views(sorted@).skip(si as int))) || (si
                == sn && si > 0 && out@ == spec_context_text(pair_views(sorted@))),
        decreases sn - si,
    {
        if si > 0 {
            out.append("\n\n");
        }
        out.append("### ");
        out.append(sorted[si].0.as_str());
        out.append("\n```\n");
        out.append(sorted[si].1.as_str());
        out.append("\n```");
        proof {
            assert(pair_views(sorted@)[si as int] == ((sorted@[si as int]).0@, (sorted@[
                si as int
            ]).1@));
            lemma_context_unfold(pair_views(sorted@), si as int);
            if si == 0 {
                assert(pair_views(sorted@).skip(0) =~= pair_views(sorted@));
                if sn == 1 {
                    assert(out@ =~= spec_context_text(pair_views(sorted@)));
                } else {
                    assert(spec_context_text(pair_views(sorted@)) =~= out@ + "\n\n"@
                        + spec_context_text(pair_views(sorted@).skip(1)));
                }
            } else {
                if si + 1 < sn {
                    assert(spec_context_text(pair_views(sorted@)) =~= out@ + "\n\n"@
                        + spec_context_text(pair_views(sorted@).skip(si + 1)));
                } else {
                    assert(out@ =~= spec_context_text(pair_views(sorted@)));
                }
            }
        }
        si = si + 1;
    }
    proof {
        if sn == 0 {
            assert(out@ =~= spec_context_text(pair_views(sorted@)));
        }
        assert(pair_views(sorted@) == pair_views(context@).sort_by(crate::sorting::pair_leq()));
    }
    out
}

/// The declared-outputs listing inside the system instruction: one
/// two-space-indented dash line per output path.
pub open spec fn spec_outputs_list(outs: Seq<Seq<char>>) -> Seq<char> {
    spec_join(outs.map_values(|p: Seq<char>| "  - "@ + p))
}

/// The instruction text handed to the model: the generation rules, the
/// resolved language (the prompt's override or the project default) and
/// version, the framework when configured, the declared output paths,
/// and the file delimiter format.
pub open spec fn spec_system_prompt(prompt: Prompt, config: LitConfig) -> Seq<char> {
    let language = match prompt.frontmatter.language {
        Some(l) => l@,
        None => config.language.default@,
    };
    let framework_part = match config.framework {
        Some(f) => "Framework: "@ + f.name@ + " "@ + f.version@ + "\n"@,
        None => Seq::empty(),
    };
    "You are a code generator. You generate production-quality code based on the prompt provided.\n\nLanguage: "@
        + language + " "@ + config.language.version@ + "\n"@ + framework_part
        + "Rules:\n- Output ONLY raw code, no explanations or commentary\n- Do NOT wrap code in markdown code fences\n- Use the exact output file format specified below\n- Each output file must be wrapped in a file delimiter\n- Match the coding conventions of the language and framework\n- Include proper imports, type hints, and error handling\n\nDeclared output file(s):\n"@
        + spec_outputs_list(crate::sorting::str_views(prompt.frontmatter.outputs@))
        + "\n\nOutput format:\nFor each file, use this exact delimiter format:\n\n=== FILE: path/to/file.ext ===\n<file content here>\n\nYou MUST use the EXACT file paths listed above as declared outputs.\nDo not invent your own file paths - use the paths exactly as shown.\nDo not include any text before the first === FILE: === delimiter or after the last file's content."@
}

/// Assemble the system instruction for one prompt.
pub fn build_system_prompt(prompt: &Prompt, config: &LitConfig) -> (r: String)
    ensures
        r@ == spec_system_prompt(*prompt, *config),
{
    let mut out = String::new();
    out.append(
        "You are a code generator. You generate production-quality code based on the prompt provided.\n\nLanguage: ",
    );
    match &prompt.frontmatter.language {
        Some(l) => {
            out.append(l.as_str());
        },
        None => {
            out.append(config.language.default.as_str());
        },
    }
    out.append(" ");
    out.append(config.language.version.as_str());
    out.append("\n");
    match &config.framework {
        Some(f) => {
            out.append("Framework: ");
            out.append(f.name.as_str());
            out.append(" ");
            out.append(f.version.as_str());
            out.append("\n");
        },
        None => {},
    }
    out.append(
        "Rules:\n- Output ONLY raw code, no explanations or commentary\n- Do NOT wrap code in markdown code fences\n- Use the exact output file format specified below\n- Each output file must be wrapped in a file delimiter\n- Match the coding conventions of the language and framework\n- Include proper imports, type hints, and error handling\n\nDeclared output file(s):\n",
    );
    let n: usize = prompt.frontmatter.outputs.len();
    let mut i: usize = 0;
    let ghost outs: Seq<Seq<char>> = crate::sorting::str_views(prompt.frontmatter.outputs@);
    let ghost lines_so_far: Seq<Seq<char>> = outs.map_values(|p: Seq<char>| "  - "@ + p);
    let mut listing = String::new();
    while i < n
        invariant
            n == prompt.frontmatter.outputs@.len(),
            i <= n,
            outs == crate::sorting::str_views(prompt.frontmatter.outputs@),
            lines_so_far == outs.map_values(|p: Seq<char>| "  - "@ + p),
            listing@ == spec_join(lines_so_far.take(i as int)),
        decreases n - i,
    {
        let ghost prefix: Seq<Seq<char>> = lines_so_far.take(i as int);
        proof {
            reveal_strlit("\n");
            assert("\n"@ =~= seq!['\n']);
        }
        if i > 0 {
            listing.append("\n");
        }
        listing.append("  - ");
        listing.append(prompt.frontmatter.outputs[i].as_str());
        proof {
            assert(lines_so_far[i as int] == "  - "@ + prompt.frontmatter.outputs@[i as int]@);
            crate::lines::lemma_join_push(prefix, lines_so_far[i as int]);
            assert(prefix.push(lines_so_far[i as int]) =~= lines_so_far.take(i + 1));
            if i == 0 {
                assert(listing@ =~= lines_so_far[0]);
            } else {
                assert(listing@ =~= spec_join(prefix) + seq!['\n'] + lines_so_far[i as int]);
            }
        }
        i = i + 1;
    }
    proof {
        assert(lines_so_far.take(n as int) =~= lines_so_far);
    }
    out.append(listing.as_str());
    out.append(
        "\n\nOutput format:\nFor each file, use this exact delimiter format:\n\n=== FILE: path/to/file.ext ===\n<file content here>\n\nYou MUST use the EXACT file paths listed above as declared outputs.\nDo not invent your own file paths - use the paths exactly as shown.\nDo not include any text before the first === FILE: === delimiter or after the last file's content.",
    );
    out
}

// ---------- Per-node pipeline steps ----------

/// The first value stored under a key, if any.
pub open spec fn assoc_find(m: Seq<(String, String)>, k: Seq<char>) -> Option<Seq<char>> {
    if exists|i: int| 0 <= i < m.len() && (m[i]).0@ == k {
        let i = choose|i: int|
            0 <= i < m.len() && (m[i]).0@ == k && forall|j: int| 0 <= j < i ==> (m[j]).0@ != k;
        if 0 <= i < m.len() {
            Some((m[i]).1@)
        } else {
            None
        }
    } else {
        None
    }
}

/// Look a key up in an association list, first match wins.
fn assoc_lookup<'a>(m: &'a Vec<(String, String)>, k: &str) -> (r: Option<&'a String>)
    ensures
        match r {
            Some(v) => assoc_find(m@, k@) == Some(v@),
            None => assoc_find(m@, k@) is None,
        },
{
    let n: usize = m.len();
    let mut i: usize = 0;
    while i < n
        invariant
            n == m@.len(),
            i <= n,
            forall|j: int| 0 <= j < i ==> (m@[j]).0@ != k@,
        decreases n - i,
    {
        if str_eq(m[i].0.as_str(), k) {
            proof {
                lemma_assoc_first(m@, k@, i as int);
            }
            return Some(&m[i].1);
        }
        i = i + 1;
    }
    proof {
        if exists|j: int| 0 <= j < m@.len() && (m@[j]).0@ == k@ {
            let j = choose|j: int| 0 <= j < m@.len() && (m@[j]).0@ == k@;
            assert(false);
        }
    }
    None
}

proof fn lemma_assoc_first(m: Seq<(String, String)>, k: Seq<char>, i: int)
    requires
        0 <= i < m.len(),
        (m[i]).0@ == k,
        forall|j: int| 0 <= j < i ==> (m[j]).0@ != k,
    ensures
        assoc_find(m, k) == Some((m[i]).1@),
{
    assert(exists|j: int| 0 <= j < m.len() && (m[j]).0@ == k);
    let w = choose|w: int|
        0 <= w < m.len() && (m[w]).0@ == k && forall|j: int| 0 <= j < w ==> (m[j]).0@ != k;
    assert(0 <= w < m.len() && (m[w]).0@ == k && (forall|j: int| 0 <= j < w ==> (m[j]).0@ != k))
        by {
        assert(exists|v: int|
            0 <= v < m.len() && (m[v]).0@ == k && forall|j: int| 0 <= j < v ==> (m[j]).0@ != k);
    }
    if w < i {
        assert((m[w]).0@ != k);
    }
    if i < w {
        assert((m[i]).0@ != k);
    }
}

/// The (import path, fingerprint) pairs a prompt's fingerprint uses: each
/// declared import whose fingerprint is already computed, in declaration
/// order. In a topological walk every import is present.
pub open spec fn spec_import_hashes(
    imports: Seq<Seq<char>>,
    computed: Seq<(String, String)>,
) -> Seq<(Seq<char>, Seq<char>)>
    decreases imports.len(),
{
    if imports.len() == 0 {
        Seq::empty()
    } else {
        let rest = spec_import_hashes(imports.drop_first(), computed);
        match assoc_find(computed, imports.first()) {
            Some(h) => seq![(imports.first(), h)] + rest,
            None => rest,
        }
    }
}

/// Collect the already-computed fingerprints of a prompt's imports.
pub fn import_hashes_for(prompt: &Prompt, computed: &Vec<(String, String)>) -> (r: Vec<
    (String, String),
>)
    ensures
        pair_views(r@) == spec_import_hashes(
            str_views(prompt.frontmatter.imports@),
            computed@,
        ),
{
    let mut out: Vec<(String, String)> = Vec::new();
    let n: usize = prompt.frontmatter.imports.len();
    let mut i: usize = 0;
    proof {
        lemma_import_hashes_take(str_views(prompt.frontmatter.imports@), computed@, 0);
        assert(pair_views(out@) =~= Seq::<(Seq<char>, Seq<char>)>::empty());
    }
    while i < n
        invariant
            n == prompt.frontmatter.imports@.len(),
            i <= n,
            pair_views(out@) == spec_import_hashes(
                str_views(prompt.frontmatter.imports@).take(i as int),
                computed@,
            ),
        decreases n - i,
    {
        let ghost prefix: Seq<Seq<char>> = str_views(prompt.frontmatter.imports@).take(i as int);
        let imp = &prompt.frontmatter.imports[i];
        proof {
            assert(str_views(prompt.frontmatter.imports@)[i as int] == imp@);
        }
        match assoc_lookup(computed, imp.as_str()) {
            Some(h) => {
                let ghost out0: Seq<(String, String)> = out@;
                out.push((str_copy(imp.as_str()), str_copy(h.as_str())));
                proof {
                    assert(pair_views(out@) =~= pair_views(out0).push((imp@, h@)));
                    lemma_import_hashes_snoc(
                        str_views(prompt.frontmatter.imports@),
                        computed@,
                        i as int,
                    );
                }
            },
            None => {
                proof {
                    lemma_import_hashes_snoc(
                        str_views(prompt.frontmatter.imports@),
                        computed@,
                        i as int,
                    );
                }
            },
        }
        i = i + 1;
    }
    proof {
        assert(str_views(prompt.frontmatter.imports@).take(n as int) =~= str_views(
            prompt.frontmatter.imports@,
        ));
    }
    out
}

proof fn lemma_import_hashes_take(imports: Seq<Seq<char>>, computed: Seq<(String, String)>, z: int)
    ensures
        spec_import_hashes(imports.take(0), computed) == Seq::<(Seq<char>, Seq<char>)>::empty(),
{
    assert(imports.take(0) =~= Seq::<Seq<char>>::empty());
}

/// Extending the walked prefix by one import appends its pair when the
/// fingerprint is known.
proof fn lemma_import_hashes_snoc(
    imports: Seq<Seq<char>>,
    computed: Seq<(String, String)>,
    i: int,
)
    requires
        0 <= i < imports.len(),
    ensures
        spec_import_hashes(imports.take(i + 1), computed) == (match assoc_find(
            computed,
            imports[i],
        ) {
            Some(h) => spec_import_hashes(imports.take(i), computed) + seq![(imports[i], h)],
            None => spec_import_hashes(imports.take(i), computed),
        }),
    decreases i,
{
    if i == 0 {
        assert(imports.take(1).first() == imports[0]);
        assert(imports.take(1).drop_first() =~= imports.take(0));
        assert(imports.take(0) =~= Seq::<Seq<char>>::empty());
        match assoc_find(computed, imports[0]) {
            Some(h) => {
                assert(spec_import_hashes(imports.take(0), computed) =~= Seq::<
                    (Seq<char>, Seq<char>),
                >::empty());
                assert(spec_import_hashes(imports.take(1), computed) == seq![
                    (imports.take(1).first(), h),
                ] + spec_import_hashes(imports.take(1).drop_first(), computed));
                assert(spec_import_hashes(imports.take(1), computed) =~= Seq::<
                    (Seq<char>, Seq<char>),
                >::empty() + seq![(imports[0], h)]);
            },
            None => {
                assert(spec_import_hashes(imports.take(0), computed) =~= Seq::<
                    (Seq<char>, Seq<char>),
                >::empty());
                assert(spec_import_hashes(imports.take(1), computed) == spec_import_hashes(
                    imports.take(1).drop_first(),
                    computed,
                ));
            },
        }
    } else {
        lemma_import_hashes_snoc(imports.drop_first(), computed, i - 1);
        assert(imports.take(i + 1).first() == imports[0]);
        assert(imports.take(i + 1).drop_first() =~= imports.drop_first().take(i));
        assert(imports.take(i).first() == imports[0]);
        assert(imports.take(i).drop_first() =~= imports.drop_first().take(i - 1));
        assert(imports.drop_first()[i - 1] == imports[i]);
        match assoc_find(computed, imports[0]) {
            Some(h0) => {
                match assoc_find(computed, imports[i]) {
                    Some(h) => {
                        assert(spec_import_hashes(imports.take(i + 1), computed) =~= seq![
                            (imports[0], h0),
                        ] + (spec_import_hashes(imports.drop_first().take(i - 1), computed)
                            + seq![(imports[i], h)]));
                        assert(spec_import_hashes(imports.take(i + 1), computed)
                            =~= spec_import_hashes(imports.take(i), computed) + seq![
                            (imports[i], h),
                        ]);
                    },
                    None => {},
                }
            },
            None => {
                match assoc_find(computed, imports[i]) {
                    Some(h) => {
                        assert(spec_import_hashes(imports.take(i + 1), computed)
                            =~= spec_import_hashes(imports.drop_first().take(i - 1), computed)
                            + seq![(imports[i], h)]);
                        assert(spec_import_hashes(imports.take(i + 1), computed)
                            =~= spec_import_hashes(imports.take(i), computed) + seq![
                            (imports[i], h),
                        ]);
                    },
                    None => {},
                }
            },
        }
    }
}

/// The context pairs for a prompt: for each import in declaration order,
/// each of that import's declared outputs whose content is known, with
/// its most recent content.
pub open spec fn spec_context_pairs(
    import_outputs: Seq<Seq<char>>,
    generated: Seq<(String, String)>,
) -> Seq<(Seq<char>, Seq<char>)>
    decreases import_outputs.len(),
{
    if import_outputs.len() == 0 {
        Seq::empty()
    } else {
        let rest = spec_context_pairs(import_outputs.drop_first(), generated);
        match assoc_find(generated, import_outputs.first()) {
            Some(c) => seq![(import_outputs.first(), c)] + rest,
            None => rest,
        }
    }
}

/// The declared outputs of the given prompts' imports, flattened in
/// declaration order.
pub open spec fn spec_import_outputs(prompts: Seq<Prompt>, imports: Seq<Seq<char>>) -> Seq<
    Seq<char>,
>
    decreases imports.len(),
{
    if imports.len() == 0 {
        Seq::empty()
    } else {
        let rest = spec_import_outputs(prompts, imports.drop_first());
        if crate::dag::prompt_has_path(prompts, imports.first()) {
            str_views(crate::dag::spec_prompt(prompts, imports.first()).frontmatter.outputs@)
                + rest
        } else {
            rest
        }
    }
}

/// Gather the generation context for one prompt: the freshest known
/// content of every output of every import.
pub fn gather_context(
    prompt: &Prompt,
    prompts: &Vec<Prompt>,
    generated: &Vec<(String, String)>,
) -> (r: Vec<(String, String)>)
    requires
        crate::dag::distinct_prompt_paths(prompts@),
    ensures
        pair_views(r@) == spec_context_pairs(
            spec_import_outputs(prompts@, str_views(prompt.frontmatter.imports@)),
            generated@,
        ),
{
    let n: usize = prompt.frontmatter.imports.len();
    // First flatten the imports' declared outputs, back to front so the
    // head-recursive shape lines up.
    let mut rev: Vec<String> = Vec::new();
    let mut k: usize = n;
    while k > 0
        invariant
            n == prompt.frontmatter.imports@.len(),
            k <= n,
            crate::dag::distinct_prompt_paths(prompts@),
            str_views(rev@) == spec_import_outputs(
                prompts@,
                str_views(prompt.frontmatter.imports@).skip(k as int),
            ),
        decreases k,
    {
        k = k - 1;
        let imp = &prompt.frontmatter.imports[k];
        proof {
            assert(str_views(prompt.frontmatter.imports@)[k as int] == imp@);
            assert(str_views(prompt.frontmatter.imports@).skip(k as int).first() == imp@);
            assert(str_views(prompt.frontmatter.imports@).skip(k as int).drop_first()
                =~= str_views(prompt.frontmatter.imports@).skip(k + 1));
        }
        match find_prompt(prompts, imp.as_str()) {
            Some(ip) => {
                let mut fresh: Vec<String> = Vec::new();
                let m: usize = ip.frontmatter.outputs.len();
                let mut q: usize = 0;
                while q < m
                    invariant
                        m == ip.frontmatter.outputs@.len(),
                        q <= m,
                        fresh@.len() == q,
                        forall|t: int|
                            0 <= t < q ==> (#[trigger] fresh@[t])@ == ip.frontmatter.outputs@[
                                t
                            ]@,
                    decreases m - q,
                {
                    fresh.push(str_copy(ip.frontmatter.outputs[q].as_str()));
                    q = q + 1;
                }
                let ghost rev0: Seq<String> = rev@;
                let mut combined = fresh;
                let mut old_rev = rev;
                combined.append(&mut old_rev);
                rev = combined;
                proof {
                    assert forall|t: int| 0 <= t < str_views(rev@).len() implies str_views(
                        rev@,
                    )[t] == (str_views(
                        crate::dag::spec_prompt(prompts@, imp@).frontmatter.outputs@,
                    ) + str_views(rev0))[t] by {
                        assert(str_views(rev@)[t] == rev@[t]@);
                        if t < m as int {
                            assert(rev@[t]@ == ip.frontmatter.outputs@[t]@);
                            assert(str_views(
                                crate::dag::spec_prompt(prompts@, imp@).frontmatter.outputs@,
                            )[t] == crate::dag::spec_prompt(
                                prompts@,
                                imp@,
                            ).frontmatter.outputs@[t]@);
                        } else {
                            assert(rev@[t] == rev0[t - m]);
                        }
                    }
                    assert(str_views(rev@) =~= str_views(
                        crate::dag::spec_prompt(prompts@, imp@).frontmatter.outputs@,
                    ) + str_views(rev0));
                }
            },
            None => {},
        }
    }
    proof {
        assert(str_views(prompt.frontmatter.imports@).skip(0) =~= str_views(
            prompt.frontmatter.imports@,
        ));
    }
    // Then pick up the freshest content of each output.
    let ghost all_outs: Seq<Seq<char>> = str_views(rev@);
    let on: usize = rev.len();
    let mut oi: usize = 0;
    let mut out: Vec<(String, String)> = Vec::new();
    proof {
        assert(pair_views(out@) =~= Seq::<(Seq<char>, Seq<char>)>::empty());
        assert(all_outs.skip(0) =~= all_outs);
    }
    while oi < on
        invariant
            on == rev@.len(),
            oi <= on,
            all_outs == str_views(rev@),
            pair_views(out@) + spec_context_pairs(all_outs.skip(oi as int), generated@)
                == spec_context_pairs(all_outs, generated@),
        decreases on - oi,
    {
        let o = &rev[oi];
        proof {
            assert(all_outs[oi as int] == o@);
            assert(all_outs.skip(oi as int).first() == o@);
            assert(all_outs.skip(oi as int).drop_first() =~= all_outs.skip(oi + 1));
        }
        match assoc_lookup(generated, o.as_str()) {
            Some(c) => {
                let ghost out0: Seq<(Seq<char>, Seq<char>)> = pair_views(out@);
                out.push((str_copy(o.as_str()), str_copy(c.as_str())));
                proof {
                    assert(pair_views(out@) =~= out0.push((o@, c@)));
                    assert(spec_context_pairs(all_outs.skip(oi as int), generated@) =~= seq![
                        (o@, c@),
                    ] + spec_context_pairs(all_outs.skip(oi + 1), generated@));
                    assert(pair_views(out@) + spec_context_pairs(
                        all_outs.skip(oi + 1),
                        generated@,
                    ) =~= spec_context_pairs(all_outs, generated@));
                }
            },
            None => {},
        }
        oi = oi + 1;
    }
    proof {
        assert(all_outs.skip(on as int) =~= Seq::<Seq<char>>::empty());
        assert(spec_context_pairs(all_outs.skip(on as int), generated@) =~= Seq::<
            (Seq<char>, Seq<char>),
        >::empty());
        assert(pair_views(out@) =~= spec_context_pairs(all_outs, generated@));
    }
    out
}

/// Find a prompt by path.
fn find_prompt<'a>(prompts: &'a Vec<Prompt>, p: &str) -> (r: Option<&'a Prompt>)
    requires
        crate::dag::distinct_prompt_paths(prompts@),
    ensures
        match r {
            Some(pr) => crate::dag::prompt_has_path(prompts@, p@) && *pr == crate::dag::spec_prompt(
                prompts@,
                p@,
            ),
            None => !crate::dag::prompt_has_path(prompts@, p@),
        },
{
    let n: usize = prompts.len();
    let mut i: usize = 0;
    while i < n
        invariant
            crate::dag::distinct_prompt_paths(prompts@),
            n == prompts@.len(),
            i <= n,
            forall|k: int| 0 <= k < i ==> prompts@[k].path@ != p@,
        decreases n - i,
    {
        if str_eq(prompts[i].path.as_str(), p) {
            proof {
                let w = choose|w: int| 0 <= w < prompts@.len() && prompts@[w].path@ == p@;
                if w < i as int {
                    assert(prompts@[w].path@ != p@);
                }
                if w > i as int {
                    assert(prompts@[i as int].path@ != prompts@[w].path@);
                }
            }
            return Some(&prompts[i]);
        }
        i = i + 1;
    }
    None
}

/// The model parameters a prompt resolves to, at spec level.
pub open spec fn spec_resolved(prompt: Prompt, config: LitConfig) -> (Seq<char>, u32, Option<u64>) {
    match prompt.frontmatter.model {
        Some(m) => (m.model@, m.temperature_milli, m.seed),
        None => (config.model.model@, config.model.temperature_milli, config.model.seed),
    }
}

/// The framework view the fingerprint uses.
pub open spec fn spec_fw_view(config: LitConfig) -> Option<Seq<char>> {
    match config.framework {
        Some(f) => Some(f.name@),
        None => None,
    }
}

/// Thread fingerprints through the whole order: for each prompt, in
/// topological order, its fingerprint over its raw text, the
/// already-threaded fingerprints of its imports, and the resolved model
/// parameters. Fingerprints depend on nothing but these inputs, so the
/// same walk serves the generation sweep and the patch-baseline
/// reconstruction.
pub fn fingerprint_walk(
    order: &Vec<String>,
    prompts: &Vec<Prompt>,
    config: &LitConfig,
) -> (r: Vec<(String, String)>)
    requires
        crate::dag::distinct_prompt_paths(prompts@),
        forall|a: int|
            0 <= a < order@.len() ==> crate::dag::prompt_has_path(
                prompts@,
                #[trigger] str_views(order@)[a],
            ),
    ensures
        r@.len() == order@.len(),
        forall|t: int|
            #![trigger r@[t]]
            0 <= t < r@.len() ==> (r@[t]).0@ == str_views(order@)[t] && (r@[t]).1@
                == crate::cache::spec_fingerprint(
                crate::dag::spec_prompt(prompts@, str_views(order@)[t]).raw@,
                spec_import_hashes(
                    str_views(
                        crate::dag::spec_prompt(
                            prompts@,
                            str_views(order@)[t],
                        ).frontmatter.imports@,
                    ),
                    r@.take(t),
                ),
                spec_resolved(crate::dag::spec_prompt(prompts@, str_views(order@)[t]), *config).0,
                spec_resolved(crate::dag::spec_prompt(prompts@, str_views(order@)[t]), *config).1,
                spec_resolved(crate::dag::spec_prompt(prompts@, str_views(order@)[t]), *config).2,
                config.language.default@,
                spec_fw_view(*config),
            ),
{
    let n: usize = order.len();
    let mut acc: Vec<(String, String)> = Vec::new();
    let mut t: usize = 0;
    while t < n
        invariant
            crate::dag::distinct_prompt_paths(prompts@),
            forall|a: int|
                0 <= a < order@.len() ==> crate::dag::prompt_has_path(
                    prompts@,
                    #[trigger] str_views(order@)[a],
                ),
            n == order@.len(),
            t <= n,
            acc@.len() == t,
            forall|t2: int|
                #![trigger acc@[t2]]
                0 <= t2 < t ==> (acc@[t2]).0@ == str_views(order@)[t2] && (acc@[t2]).1@
                    == crate::cache::spec_fingerprint(
                    crate::dag::spec_prompt(prompts@, str_views(order@)[t2]).raw@,
                    spec_import_hashes(
                        str_views(
                            crate::dag::spec_prompt(
                                prompts@,
                                str_views(order@)[t2],
                            ).frontmatter.imports@,
                        ),
                        acc@.take(t2),
                    ),
                    spec_resolved(
                        crate::dag::spec_prompt(prompts@, str_views(order@)[t2]),
                        *config,
                    ).0,
                    spec_resolved(
                        crate::dag::spec_prompt(prompts@, str_views(order@)[t2]),
                        *config,
                    ).1,
                    spec_resolved(
                        crate::dag::spec_prompt(prompts@, str_views(order@)[t2]),
                        *config,
                    ).2,
                    config.language.default@,
                    spec_fw_view(*config),
                ),
        decreases n - t,
    {
        proof {
            assert(str_views(order@)[t as int] == order@[t as int]@);
        }
        let prompt = match find_prompt(prompts, order[t].as_str()) {
            Some(pr) => pr,
            None => {
                proof {
                    assert(crate::dag::prompt_has_path(prompts@, order@[t as int]@));
                }
                vstd::pervasive::unreached()
            },
        };
        let (model, temperature_milli, seed) = resolve_model_config(prompt, config);
        let import_hashes = import_hashes_for(prompt, &acc);
        let h = crate::cache::Cache::compute_input_hash(
            prompt.raw.as_str(),
            &import_hashes,
            model.as_str(),
            temperature_milli,
            seed,
            config.language.default.as_str(),
            match &config.framework {
                Some(f) => Some(&f.name),
                None => None,
            },
        );
        let ghost acc_before: Seq<(String, String)> = acc@;
        acc.push((str_copy(order[t].as_str()), h));
        proof {
            assert(acc@.take(t as int) =~= acc_before);
            assert forall|t2: int| #![trigger acc@[t2]] 0 <= t2 < t + 1 implies (acc@[t2]).0@
                == str_views(order@)[t2] && (acc@[t2]).1@ == crate::cache::spec_fingerprint(
                crate::dag::spec_prompt(prompts@, str_views(order@)[t2]).raw@,
                spec_import_hashes(
                    str_views(
                        crate::dag::spec_prompt(
                            prompts@,
                            str_views(order@)[t2],
                        ).frontmatter.imports@,
                    ),
                    acc@.take(t2),
                ),
                spec_resolved(
                    crate::dag::spec_prompt(prompts@, str_views(order@)[t2]),
                    *config,
                ).0,
                spec_resolved(
                    crate::dag::spec_prompt(prompts@, str_views(order@)[t2]),
                    *config,
                ).1,
                spec_resolved(
                    crate::dag::spec_prompt(prompts@, str_views(order@)[t2]),
                    *config,
                ).2,
                config.language.default@,
                spec_fw_view(*config),
            ) by {
                if t2 < t as int {
                    assert(acc@[t2] == acc_before[t2]);
                    assert(acc@.take(t2) =~= acc_before.take(t2));
                } else {
                    assert(acc@[t2] == acc@.last());
                }
            }
        }
        t = t + 1;
    }
    acc
}

/// The user content handed to the provider: the prompt body, and when
/// context exists, the context appended under the fixed header.
pub fn build_user_content(user_prompt: &str, context: &str) -> (r: String)
    ensures
        context@.len() == 0 ==> r@ == user_prompt@,
        context@.len() > 0 ==> r@ == user_prompt@
            + "\n\n---\n\n## Context (generated code from imported prompts)\n\n"@ + context@
            + "\n"@,
{
    let clen: usize = context.unicode_len();
    if clen == 0 {
        return str_copy(user_prompt);
    }
    let mut out = str_copy(user_prompt);
    out.append("\n\n---\n\n## Context (generated code from imported prompts)\n\n");
    out.append(context);
    out.append("\n");
    out
}

// ---------- Markdown fence stripping ----------

/// A text with exactly one trailing newline appended when missing.
pub open spec fn ensure_nl(s: Seq<char>) -> Seq<char> {
    if s.len() > 0 && s.last() == '\n' {
        s
    } else {
        s + seq!['\n']
    }
}

/// The backtick fence opener.
pub open spec fn fence() -> Seq<char> {
    seq!['`', '`', '`']
}

/// The fence-stripping rule: after trimming surrounding whitespace, a
/// leading fence line and a trailing bare-fence line are removed (either
/// alone, or both); the kept lines are rejoined with one trailing
/// newline. Without any fence the text is returned unchanged.
pub open spec fn spec_strip_fences(content: Seq<char>) -> Seq<char> {
    let t = crate::textutil::spec_trim(content);
    let ls = crate::lines::spec_lines(t);
    if ls.len() == 0 {
        content
    } else {
        let first = crate::textutil::spec_trim(ls[0]);
        let last = crate::textutil::spec_trim(ls.last());
        let sw = crate::textutil::spec_starts_with(first, fence());
        let ew = last == fence() && ls.len() > 1;
        if sw && ew {
            ensure_nl(spec_join(ls.subrange(1, ls.len() - 1)))
        } else if sw {
            ensure_nl(spec_join(ls.subrange(1, ls.len() as int)))
        } else if ew {
            ensure_nl(spec_join(ls.subrange(0, ls.len() - 1)))
        } else {
            content
        }
    }
}

/// Append one trailing newline when the text lacks one.
fn ensure_trailing_nl(s: String) -> (r: String)
    ensures
        r@ == ensure_nl(s@),
{
    let len: usize = s.as_str().unicode_len();
    if len > 0 && s.as_str().get_char(len - 1) == '\n' {
        s
    } else {
        let mut out = s;
        proof {
            reveal_strlit("\n");
            assert("\n"@ =~= seq!['\n']);
        }
        out.append("\n");
        out
    }
}

/// Join the lines in `[a, b)` with newlines.
fn join_range(ls: &Vec<String>, a: usize, b: usize) -> (r: String)
    requires
        a <= b <= ls@.len(),
    ensures
        r@ == spec_join(str_views(ls@).subrange(a as int, b as int)),
{
    let mut part: Vec<String> = Vec::new();
    let mut i: usize = a;
    while i < b
        invariant
            a <= i <= b <= ls@.len(),
            part@.len() == i - a,
            forall|t: int| 0 <= t < i - a ==> (#[trigger] part@[t])@ == (ls@[a + t])@,
        decreases b - i,
    {
        part.push(str_copy(ls[i].as_str()));
        i = i + 1;
    }
    proof {
        assert forall|t: int| 0 <= t < b - a implies str_views(part@)[t] == str_views(
            ls@,
        ).subrange(a as int, b as int)[t] by {
            assert(str_views(part@)[t] == part@[t]@);
            assert(str_views(ls@).subrange(a as int, b as int)[t] == str_views(ls@)[a + t]);
            assert(str_views(ls@)[a + t] == ls@[a + t]@);
        }
        assert(str_views(part@) =~= str_views(ls@).subrange(a as int, b as int));
    }
    crate::lines::join_lines(&part)
}

/// Strip surrounding markdown code fences from model output.
pub fn strip_markdown_fences(content: &str) -> (r: String)
    ensures
        r@ == spec_strip_fences(content@),
{
    let trimmed = crate::textutil::trim_ws(content);
    let ls = crate::lines::split_lines(trimmed.as_str());
    let n: usize = ls.len();
    proof {
        assert(str_views(ls@) == crate::lines::spec_lines(crate::textutil::spec_trim(content@)));
    }
    if n == 0 {
        return str_copy(content);
    }
    let first = crate::textutil::trim_ws(ls[0].as_str());
    let last = crate::textutil::trim_ws(ls[n - 1].as_str());
    proof {
        reveal_strlit("```");
        assert("```"@ =~= fence());
        assert(str_views(ls@)[0] == ls@[0]@);
        assert(str_views(ls@)[n - 1] == ls@[n - 1]@);
    }
    let sw = crate::textutil::starts_with(first.as_str(), "```");
    let ew = crate::textutil::str_eq(last.as_str(), "```") && n > 1;
    if sw && ew {
        let joined = join_range(&ls, 1, n - 1);
        ensure_trailing_nl(joined)
    } else if sw {
        let joined = join_range(&ls, 1, n);
        ensure_trailing_nl(joined)
    } else if ew {
        let joined = join_range(&ls, 0, n - 1);
        ensure_trailing_nl(joined)
    } else {
        str_copy(content)
    }
}

// ---------- Model-response parsing ----------

/// The file delimiter prefix the model is instructed to emit.
pub open spec fn delim() -> Seq<char> {
    seq!['=', '=', '=', ' ', 'F', 'I', 'L', 'E', ':']
}

/// The model response held no file delimiter although several outputs
/// were declared.
#[derive(Debug)]
pub struct ParseError {
    /// The declared outputs the response failed to provide.
    pub expected: Vec<String>,
}

/// The first `'\n'` at or after `p`, or the end of the text.
pub open spec fn spec_line_end(s: Seq<char>, p: int) -> int {
    if exists|j: int| p <= j < s.len() && s[j] == '\n' {
        let j = choose|j: int|
            p <= j < s.len() && s[j] == '\n' && forall|k: int| p <= k < j ==> s[k] != '\n';
        if p <= j <= s.len() {
            j
        } else {
            s.len() as int
        }
    } else {
        s.len() as int
    }
}

/// The first delimiter occurrence at or after `p`, or the end of the
/// text.
pub open spec fn spec_next_delim(s: Seq<char>, p: int) -> int {
    if exists|j: int| p <= j && crate::textutil::matches_at(s, delim(), j) {
        let j = choose|j: int|
            p <= j && crate::textutil::matches_at(s, delim(), j) && forall|k: int|
                p <= k < j ==> !crate::textutil::matches_at(s, delim(), k);
        if p <= j <= s.len() {
            j
        } else {
            s.len() as int
        }
    } else {
        s.len() as int
    }
}

/// A header with every trailing `===` run removed.
pub open spec fn spec_strip_eqs(s: Seq<char>) -> Seq<char>
    decreases s.len(),
{
    if crate::textutil::spec_ends_with(s, seq!['=', '=', '=']) && s.len() >= 3 {
        spec_strip_eqs(s.take(s.len() - 3))
    } else {
        s
    }
}

/// The sections of a model response from position `pos` on: each
/// delimiter line names an output path (trailing `===` and whitespace
/// dropped; empty names are skipped), and its content runs to the next
/// delimiter, newline-trimmed, de-fenced and newline-terminated.
#[verifier::opaque]
pub open spec fn spec_sections(s: Seq<char>, pos: int) -> Seq<(Seq<char>, Seq<char>)>
    decreases s.len() - pos when 0 <= pos <= s.len()
{
    if pos + 9 > s.len() {
        Seq::empty()
    } else if !crate::textutil::matches_at(s, delim(), pos) {
        spec_sections(s, pos + 1)
    } else {
        let after = pos + 9;
        let line_end = spec_line_end(s, after);
        let header = crate::textutil::spec_trim(s.subrange(after, line_end));
        let path = crate::textutil::spec_trim(spec_strip_eqs(header));
        if path.len() == 0 {
            spec_sections(s, line_end)
        } else {
            let content_start = if line_end < s.len() {
                line_end + 1
            } else {
                line_end
            };
            let content_end = spec_next_delim(s, content_start);
            let raw = s.subrange(content_start, content_end);
            let processed = ensure_nl(
                spec_strip_fences(crate::textutil::spec_trim_nl(raw)),
            );
            seq![(path, processed)] + spec_sections(s, content_end)
        }
    }
}

/// Insert or overwrite one key: the entry keeps its position when the key
/// is already present, and is appended otherwise.
pub open spec fn spec_upsert(
    m: Seq<(Seq<char>, Seq<char>)>,
    k: Seq<char>,
    v: Seq<char>,
) -> Seq<(Seq<char>, Seq<char>)>
    decreases m.len(),
{
    if m.len() == 0 {
        seq![(k, v)]
    } else if m[0].0 == k {
        seq![(k, v)] + m.drop_first()
    } else {
        seq![m[0]] + spec_upsert(m.drop_first(), k, v)
    }
}

/// Fold the sections into a path-keyed map, later sections overwriting
/// earlier ones.
pub open spec fn spec_collect(
    entries: Seq<(Seq<char>, Seq<char>)>,
    acc: Seq<(Seq<char>, Seq<char>)>,
) -> Seq<(Seq<char>, Seq<char>)>
    decreases entries.len(),
{
    if entries.len() == 0 {
        acc
    } else {
        spec_collect(entries.drop_first(), spec_upsert(acc, entries[0].0, entries[0].1))
    }
}

/// Every section path is among the declared outputs.
pub open spec fn spec_all_match(
    secs: Seq<(Seq<char>, Seq<char>)>,
    expected: Seq<Seq<char>>,
) -> bool {
    forall|t: int| 0 <= t < secs.len() ==> expected.contains((#[trigger] secs[t]).0)
}

/// The remap rule: when the section count equals the declared output
/// count but some section path is undeclared, the declared paths replace
/// the sectioned ones by position.
pub open spec fn spec_remap(
    secs: Seq<(Seq<char>, Seq<char>)>,
    expected: Seq<Seq<char>>,
) -> Seq<(Seq<char>, Seq<char>)> {
    if secs.len() == expected.len() && !spec_all_match(secs, expected) {
        Seq::new(secs.len(), |t: int| (expected[t], secs[t].1))
    } else {
        secs
    }
}

/// The parse succeeds when the response has sections, or when exactly
/// one output was declared (the whole text then serves as that file).
pub open spec fn spec_parse_ok(content: Seq<char>, expected: Seq<Seq<char>>) -> bool {
    spec_sections(content, 0).len() > 0 || expected.len() == 1
}

/// The files a successful parse yields.
pub open spec fn spec_parse_result(
    content: Seq<char>,
    expected: Seq<Seq<char>>,
) -> Seq<(Seq<char>, Seq<char>)> {
    let secs = spec_sections(content, 0);
    if secs.len() == 0 {
        seq![
            (expected[0], ensure_nl(spec_strip_fences(crate::textutil::spec_trim(content)))),
        ]
    } else {
        spec_collect(spec_remap(secs, expected), Seq::empty())
    }
}

/// Delimiter-free stretches contribute no sections.
proof fn lemma_sections_skip(s: Seq<char>, pos: int, to: int)
    requires
        0 <= pos <= to <= s.len(),
        forall|j: int| pos <= j < to ==> !crate::textutil::matches_at(s, delim(), j),
    ensures
        spec_sections(s, pos) == spec_sections(s, to),
    decreases to - pos,
{
    reveal(spec_sections);
    if pos < to {
        if pos + 9 > s.len() {
            assert(to + 9 > s.len());
            assert(spec_sections(s, pos) =~= Seq::<(Seq<char>, Seq<char>)>::empty());
            assert(spec_sections(s, to) =~= Seq::<(Seq<char>, Seq<char>)>::empty());
        } else {
            lemma_sections_skip(s, pos + 1, to);
        }
    }
}

/// Past the last possible delimiter start there are no sections.
proof fn lemma_sections_end(s: Seq<char>, p: int)
    requires
        0 <= p <= s.len(),
        p + 9 > s.len(),
    ensures
        spec_sections(s, p) == Seq::<(Seq<char>, Seq<char>)>::empty(),
{
    reveal(spec_sections);
}

/// Realize the first-newline choice from a found position.
proof fn lemma_line_end_found(s: Seq<char>, p: int, j: int)
    requires
        0 <= p <= j < s.len(),
        s[j] == '\n',
        forall|k: int| p <= k < j ==> s[k] != '\n',
    ensures
        spec_line_end(s, p) == j,
{
    assert(exists|j2: int| p <= j2 < s.len() && s[j2] == '\n');
    let w = choose|w: int|
        p <= w < s.len() && s[w] == '\n' && forall|k: int| p <= k < w ==> s[k] != '\n';
    assert(p <= w < s.len() && s[w] == '\n' && (forall|k: int| p <= k < w ==> s[k] != '\n'))
        by {
        assert(exists|v: int|
            p <= v < s.len() && s[v] == '\n' && forall|k: int| p <= k < v ==> s[k] != '\n');
    }
    if w < j {
        assert(s[w] != '\n');
    }
    if j < w {
        assert(s[j] != '\n');
    }
}

/// Without a newline the line runs to the end of the text.
proof fn lemma_line_end_none(s: Seq<char>, p: int)
    requires
        0 <= p <= s.len(),
        forall|j: int| p <= j < s.len() ==> s[j] != '\n',
    ensures
        spec_line_end(s, p) == s.len(),
{
    if exists|j: int| p <= j < s.len() && s[j] == '\n' {
        let j = choose|j: int| p <= j < s.len() && s[j] == '\n';
        assert(false);
    }
}

/// Realize the first-delimiter choice from a found position.
proof fn lemma_next_delim_found(s: Seq<char>, p: int, j: int)
    requires
        0 <= p <= j,
        crate::textutil::matches_at(s, delim(), j),
        forall|k: int| p <= k < j ==> !crate::textutil::matches_at(s, delim(), k),
    ensures
        spec_next_delim(s, p) == j,
{
    assert(exists|j2: int| p <= j2 && crate::textutil::matches_at(s, delim(), j2));
    let w = choose|w: int|
        p <= w && crate::textutil::matches_at(s, delim(), w) && forall|k: int|
            p <= k < w ==> !crate::textutil::matches_at(s, delim(), k);
    assert(p <= w && crate::textutil::matches_at(s, delim(), w) && (forall|k: int|
        p <= k < w ==> !crate::textutil::matches_at(s, delim(), k))) by {
        assert(exists|v: int|
            p <= v && crate::textutil::matches_at(s, delim(), v) && forall|k: int|
                p <= k < v ==> !crate::textutil::matches_at(s, delim(), k));
    }
    if w < j {
        assert(!crate::textutil::matches_at(s, delim(), w));
    }
    if j < w {
        assert(!crate::textutil::matches_at(s, delim(), j));
    }
}

/// Without a further delimiter the content runs to the end of the text.
proof fn lemma_next_delim_none(s: Seq<char>, p: int)
    requires
        0 <= p <= s.len(),
        forall|j: int| p <= j ==> !crate::textutil::matches_at(s, delim(), j),
    ensures
        spec_next_delim(s, p) == s.len(),
{
    if exists|j: int| p <= j && crate::textutil::matches_at(s, delim(), j) {
        let j = choose|j: int| p <= j && crate::textutil::matches_at(s, delim(), j);
        assert(false);
    }
}

/// Strip every trailing `===` run from a header.
fn strip_trailing_eqs(s: String) -> (r: String)
    ensures
        r@ == spec_strip_eqs(s@),
{
    let mut cur = s;
    proof {
        reveal_strlit("===");
        assert("==="@ =~= seq!['=', '=', '=']);
    }
    while crate::textutil::ends_with(cur.as_str(), "===")
        invariant
            "==="@ == seq!['=', '=', '='],
            spec_strip_eqs(cur@) == spec_strip_eqs(s@),
        decreases cur@.len(),
    {
        let len: usize = cur.as_str().unicode_len();
        proof {
            assert(crate::textutil::spec_ends_with(cur@, seq!['=', '=', '=']));
            assert(len >= 3);
        }
        let next = crate::textutil::substr_copy(cur.as_str(), 0, len - 3);
        proof {
            assert(next@ =~= cur@.take(cur@.len() - 3));
        }
        cur = next;
    }
    cur
}

/// Read one section at a delimiter occurrence: its named path and
/// processed content when the header names one, and the position the scan
/// resumes from.
#[verifier::rlimit(60)]
#[verifier::spinoff_prover]
fn read_section(content: &str, start: usize) -> (r: (Option<(String, String)>, usize))
    requires
        crate::textutil::matches_at(content@, delim(), start as int),
    ensures
        start < r.1 <= content@.len(),
        match r.0 {
            Some(sec) => spec_sections(content@, start as int) == seq![(sec.0@, sec.1@)]
                + spec_sections(content@, r.1 as int),
            None => spec_sections(content@, start as int) == spec_sections(
                content@,
                r.1 as int,
            ),
        },
{
    let s_len: usize = content.unicode_len();
    let after: usize = start + 9;
    let line_end: usize = match crate::textutil::find_char_from(content, '\n', after) {
        Some(le) => {
            proof {
                lemma_line_end_found(content@, after as int, le as int);
            }
            le
        },
        None => {
            proof {
                lemma_line_end_none(content@, after as int);
            }
            s_len
        },
    };
    let header_raw = crate::textutil::substr_copy(content, after, line_end);
    let header = crate::textutil::trim_ws(header_raw.as_str());
    let stripped = strip_trailing_eqs(header);
    let path = crate::textutil::trim_ws(stripped.as_str());
    let path_len: usize = path.as_str().unicode_len();
    if path_len == 0 {
        proof {
            reveal(spec_sections);
            assert(spec_sections(content@, start as int) == spec_sections(
                content@,
                line_end as int,
            ));
        }
        return (None, line_end);
    }
    let content_start: usize = if line_end < s_len {
        line_end + 1
    } else {
        line_end
    };
    proof {
        reveal_strlit("=== FILE:");
        assert("=== FILE:"@ =~= delim());
    }
    let content_end: usize = match crate::textutil::find_sub_from(
        content,
        "=== FILE:",
        content_start,
    ) {
        Some(ce) => {
            proof {
                lemma_next_delim_found(content@, content_start as int, ce as int);
            }
            ce
        },
        None => {
            proof {
                lemma_next_delim_none(content@, content_start as int);
            }
            s_len
        },
    };
    let raw = crate::textutil::substr_copy(content, content_start, content_end);
    let nl_trimmed = crate::textutil::trim_nl(raw.as_str());
    let defenced = strip_markdown_fences(nl_trimmed.as_str());
    let processed = ensure_trailing_nl(defenced);
    proof {
        reveal(spec_sections);
        assert(spec_sections(content@, start as int) =~= seq![(path@, processed@)]
            + spec_sections(content@, content_end as int));
    }
    (Some((path, processed)), content_end)
}

/// Parse a model response into output files. When the response carries no
/// file delimiters, the whole text serves as the single declared output;
/// with several declared outputs and no delimiters the parse fails. When
/// the section count matches the declared count but the paths differ,
/// the declared paths replace the sectioned ones by position.
#[verifier::rlimit(100)]
#[verifier::spinoff_prover]
pub fn parse_response(content: &str, expected_outputs: &Vec<String>) -> (r: Result<
    Vec<(String, String)>,
    ParseError,
>)
    ensures
        (r is Ok) == spec_parse_ok(content@, str_views(expected_outputs@)),
        (r matches Ok(files) ==> pair_views(files@) == spec_parse_result(
            content@,
            str_views(expected_outputs@),
        )),
{
    let s_len: usize = content.unicode_len();
    let mut secs: Vec<(String, String)> = Vec::new();
    let mut pos: usize = 0;
    let mut done = false;
    proof {
        reveal_strlit("=== FILE:");
        assert("=== FILE:"@ =~= delim());
    }
    while !done
        invariant
            s_len == content@.len(),
            pos <= s_len,
            "=== FILE:"@ == delim(),
            pair_views(secs@) + spec_sections(content@, pos as int) == spec_sections(
                content@,
                0,
            ),
            done ==> spec_sections(content@, pos as int) == Seq::<(Seq<char>, Seq<char>)>::empty(),
        decreases s_len - pos + if done {
            0int
        } else {
            1int
        },
    {
        let ghost pos0: int = pos as int;
        match crate::textutil::find_sub_from(content, "=== FILE:", pos) {
            None => {
                proof {
                    lemma_sections_skip(content@, pos0, s_len as int);
                    lemma_sections_end(content@, s_len as int);
                }
                pos = s_len;
                done = true;
            },
            Some(start) => {
                proof {
                    lemma_sections_skip(content@, pos0, start as int);
                }
                let (sec, next_pos) = read_section(content, start);
                match sec {
                    Some(entry) => {
                        let ghost secs0: Seq<(Seq<char>, Seq<char>)> = pair_views(secs@);
                        let ghost ev: (Seq<char>, Seq<char>) = (entry.0@, entry.1@);
                        secs.push(entry);
                        proof {
                            assert(pair_views(secs@) =~= secs0.push(ev));
                            assert(pair_views(secs@) + spec_sections(
                                content@,
                                next_pos as int,
                            ) =~= spec_sections(content@, 0));
                        }
                    },
                    None => {},
                }
                pos = next_pos;
            },
        }
    }
    let sn: usize = secs.len();
    if sn == 0 {
        if expected_outputs.len() == 1 {
            let trimmed = crate::textutil::trim_ws(content);
            let defenced = strip_markdown_fences(trimmed.as_str());
            let processed = ensure_trailing_nl(defenced);
            let mut files: Vec<(String, String)> = Vec::new();
            files.push((str_copy(expected_outputs[0].as_str()), processed));
            proof {
                assert(pair_views(files@) =~= spec_parse_result(
                    content@,
                    str_views(expected_outputs@),
                ));
            }
            return Ok(files);
        }
        let mut expected: Vec<String> = Vec::new();
        let en: usize = expected_outputs.len();
        let mut ei: usize = 0;
        while ei < en
            invariant
                en == expected_outputs@.len(),
                ei <= en,
            decreases en - ei,
        {
            expected.push(str_copy(expected_outputs[ei].as_str()));
            ei = ei + 1;
        }
        return Err(ParseError { expected });
    }
    // Remap by position when the counts agree but some path is foreign.
    let en: usize = expected_outputs.len();
    let mut remapped = secs;
    if sn == en {
        let mut all_match = true;
        let mut t: usize = 0;
        while t < sn
            invariant
                sn == remapped@.len(),
                en == expected_outputs@.len(),
                t <= sn,
                all_match == (forall|t2: int|
                    0 <= t2 < t ==> str_views(expected_outputs@).contains(
                        (#[trigger] pair_views(remapped@)[t2]).0,
                    )),
            decreases sn - t,
        {
            let mut found = false;
            let mut e: usize = 0;
            while e < en
                invariant
                    sn == remapped@.len(),
                    en == expected_outputs@.len(),
                    t < sn,
                    e <= en,
                    found == (exists|e2: int|
                        0 <= e2 < e && str_views(expected_outputs@)[e2] == (pair_views(
                            remapped@,
                        )[t as int]).0),
                decreases en - e,
            {
                if str_eq(expected_outputs[e].as_str(), remapped[t].0.as_str()) {
                    proof {
                        assert(str_views(expected_outputs@)[e as int] == expected_outputs@[
                            e as int
                        ]@);
                        assert((pair_views(remapped@)[t as int]).0 == (remapped@[t as int]).0@);
                    }
                    found = true;
                }
                proof {
                    assert(str_views(expected_outputs@)[e as int] == expected_outputs@[
                        e as int
                    ]@);
                    assert((pair_views(remapped@)[t as int]).0 == (remapped@[t as int]).0@);
                }
                e = e + 1;
            }
            if !found {
                all_match = false;
                proof {
                    assert(!str_views(expected_outputs@).contains(
                        (pair_views(remapped@)[t as int]).0,
                    ));
                }
            }
            proof {
                if found {
                    assert(str_views(expected_outputs@).contains(
                        (pair_views(remapped@)[t as int]).0,
                    ));
                }
            }
            t = t + 1;
        }
        proof {
            assert(all_match == spec_all_match(
                pair_views(remapped@),
                str_views(expected_outputs@),
            ));
        }
        if !all_match {
            let mut renamed: Vec<(String, String)> = Vec::new();
            let mut t2: usize = 0;
            let ghost orig_secs: Seq<(Seq<char>, Seq<char>)> = pair_views(remapped@);
            while t2 < sn
                invariant
                    sn == remapped@.len(),
                    en == expected_outputs@.len(),
                    sn == en,
                    t2 <= sn,
                    orig_secs == pair_views(remapped@),
                    renamed@.len() == t2,
                    forall|q: int|
                        0 <= q < t2 ==> (#[trigger] pair_views(renamed@)[q]).0 == str_views(
                            expected_outputs@,
                        )[q] && (pair_views(renamed@)[q]).1 == (orig_secs[q]).1,
                decreases sn - t2,
            {
                let np = str_copy(expected_outputs[t2].as_str());
                let cv = str_copy(remapped[t2].1.as_str());
                let ghost renamed_before: Seq<(String, String)> = renamed@;
                renamed.push((np, cv));
                proof {
                    assert forall|q: int| 0 <= q < t2 + 1 implies (#[trigger] pair_views(
                        renamed@,
                    )[q]).0 == str_views(expected_outputs@)[q] && (pair_views(renamed@)[q]).1
                        == (orig_secs[q]).1 by {
                        if q < t2 as int {
                            assert(renamed@[q] == renamed_before[q]);
                            assert(pair_views(renamed@)[q] == pair_views(renamed_before)[q]);
                        } else {
                            assert((pair_views(renamed@)[q]).0 == expected_outputs@[q]@);
                            assert((pair_views(renamed@)[q]).1 == (remapped@[q]).1@);
                            assert(str_views(expected_outputs@)[q] == expected_outputs@[q]@);
                            assert((orig_secs[q]).1 == (remapped@[q]).1@);
                        }
                    }
                }
                t2 = t2 + 1;
            }
            proof {
                assert(pair_views(renamed@) =~= spec_remap(
                    orig_secs,
                    str_views(expected_outputs@),
                ));
            }
            remapped = renamed;
        } else {
            proof {
                assert(pair_views(remapped@) =~= spec_remap(
                    pair_views(remapped@),
                    str_views(expected_outputs@),
                ));
            }
        }
    } else {
        proof {
            assert(pair_views(remapped@) =~= spec_remap(
                pair_views(remapped@),
                str_views(expected_outputs@),
            ));
        }
    }
    // Collect into a path-keyed map; later sections overwrite earlier.
    let mut files: Vec<(String, String)> = Vec::new();
    let rn: usize = remapped.len();
    let mut ri: usize = 0;
    let ghost entries: Seq<(Seq<char>, Seq<char>)> = pair_views(remapped@);
    proof {
        assert(pair_views(files@) =~= Seq::<(Seq<char>, Seq<char>)>::empty());
        assert(entries.skip(0) =~= entries);
    }
    while ri < rn
        invariant
            rn == remapped@.len(),
            ri <= rn,
            entries == pair_views(remapped@),
            spec_collect(entries.skip(ri as int), pair_views(files@)) == spec_collect(
                entries,
                Seq::empty(),
            ),
        decreases rn - ri,
    {
        let k = str_copy(remapped[ri].0.as_str());
        let v = str_copy(remapped[ri].1.as_str());
        let ghost before: Seq<(Seq<char>, Seq<char>)> = pair_views(files@);
        upsert_file(&mut files, k, v);
        proof {
            assert(entries.skip(ri as int)[0] == entries[ri as int]);
            assert(entries.skip(ri as int).drop_first() =~= entries.skip(ri + 1));
            assert(entries[ri as int] == ((remapped@[ri as int]).0@, (remapped@[
                ri as int
            ]).1@));
        }
        ri = ri + 1;
    }
    proof {
        assert(entries.skip(rn as int) =~= Seq::<(Seq<char>, Seq<char>)>::empty());
        assert(pair_views(files@) == spec_collect(entries, Seq::empty()));
        assert(pair_views(files@) == spec_parse_result(content@, str_views(expected_outputs@)));
    }
    Ok(files)
}

/// Insert or overwrite one output file in the collected map.
fn upsert_file(files: &mut Vec<(String, String)>, k: String, v: String)
    ensures
        pair_views(final(files)@) == spec_upsert(pair_views(old(files)@), k@, v@),
{
    let n: usize = files.len();
    let mut i: usize = 0;
    let ghost orig: Seq<(Seq<char>, Seq<char>)> = pair_views(files@);
    while i < n
        invariant
            files@ == old(files)@,
            orig == pair_views(files@),
            n == files@.len(),
            i <= n,
            k@ == k@,
            forall|t: int| 0 <= t < i ==> (#[trigger] pair_views(files@)[t]).0 != k@,
        decreases n - i,
    {
        proof {
            assert((pair_views(files@)[i as int]).0 == (files@[i as int]).0@);
        }
        if str_eq(files[i].0.as_str(), k.as_str()) {
            let ghost before: Seq<(String, String)> = files@;
            files[i] = (k, v);
            proof {
                lemma_upsert_at(orig, pair_views(files@), i as int);
            }
            return ;
        }
        i = i + 1;
    }
    files.push((k, v));
    proof {
        assert(pair_views(files@) =~= orig.push((k@, v@)));
        lemma_upsert_append(orig, k@, v@);
    }
}

/// Replacing the first matching key realizes the upsert.
proof fn lemma_upsert_at(
    before: Seq<(Seq<char>, Seq<char>)>,
    after: Seq<(Seq<char>, Seq<char>)>,
    i: int,
)
    requires
        0 <= i < before.len(),
        after.len() == before.len(),
        forall|t: int| 0 <= t < before.len() && t != i ==> after[t] == before[t],
        forall|t: int| 0 <= t < i ==> (#[trigger] before[t]).0 != (after[i]).0,
        (before[i]).0 == (after[i]).0,
    ensures
        after == spec_upsert(before, (after[i]).0, (after[i]).1),
    decreases i,
{
    if i == 0 {
        assert(spec_upsert(before, (after[0]).0, (after[0]).1) =~= seq![after[0]]
            + before.drop_first());
        assert(after =~= seq![after[0]] + before.drop_first());
    } else {
        assert((before[0]).0 != (after[i]).0);
        lemma_upsert_at(before.drop_first(), after.drop_first(), i - 1);
        assert(after.drop_first()[i - 1] == after[i]);
        assert(spec_upsert(before, (after[i]).0, (after[i]).1) =~= seq![before[0]]
            + spec_upsert(before.drop_first(), (after[i]).0, (after[i]).1));
        assert(after =~= seq![before[0]] + after.drop_first());
    }
}

/// Appending a fresh key realizes the upsert.
proof fn lemma_upsert_append(m: Seq<(Seq<char>, Seq<char>)>, k: Seq<char>, v: Seq<char>)
    requires
        forall|t: int| 0 <= t < m.len() ==> (#[trigger] m[t]).0 != k,
    ensures
        m.push((k, v)) == spec_upsert(m, k, v),
    decreases m.len(),
{
    if m.len() == 0 {
        assert(m.push((k, v)) =~= seq![(k, v)]);
    } else {
        lemma_upsert_append(m.drop_first(), k, v);
        assert(m.drop_first().push((k, v)) =~= m.push((k, v)).drop_first());
        assert(spec_upsert(m, k, v) =~= seq![m[0]] + spec_upsert(m.drop_first(), k, v));
        assert(m.push((k, v)) =~= seq![m[0]] + m.drop_first().push((k, v)));
    }
}

/// Folding distinct-keyed sections changes nothing: the collected map is
/// the sections themselves.
proof fn lemma_collect_distinct(
    entries: Seq<(Seq<char>, Seq<char>)>,
    acc: Seq<(Seq<char>, Seq<char>)>,
)
    requires
        forall|a: int, b: int| 0 <= a < b < entries.len() ==> (entries[a]).0 != (entries[b]).0,
        forall|a: int, b: int|
            0 <= a < acc.len() && 0 <= b < entries.len() ==> (acc[a]).0 != (entries[b]).0,
    ensures
        spec_collect(entries, acc) == acc + entries,
    decreases entries.len(),
{
    if entries.len() == 0 {
        assert(spec_collect(entries, acc) =~= acc + entries);
    } else {
        let e0 = entries[0];
        assert forall|a: int| 0 <= a < acc.len() implies (#[trigger] acc[a]).0 != e0.0 by {}
        lemma_upsert_append_pair(acc, e0.0, e0.1);
        assert(spec_upsert(acc, e0.0, e0.1) == acc.push(e0));
        assert forall|a: int, b: int|
            0 <= a < acc.push(e0).len() && 0 <= b < entries.drop_first().len() implies (
        #[trigger] acc.push(e0)[a]).0 != (#[trigger] entries.drop_first()[b]).0 by {
            assert(entries.drop_first()[b] == entries[b + 1]);
            if a < acc.len() {
            } else {
                assert(acc.push(e0)[a] == e0);
                assert((entries[0]).0 != (entries[b + 1]).0);
            }
        }
        lemma_collect_distinct(entries.drop_first(), acc.push(e0));
        assert(spec_collect(entries, acc) == spec_collect(entries.drop_first(), acc.push(e0)));
        assert(acc.push(e0) + entries.drop_first() =~= acc + entries);
    }
}

/// `spec_upsert` with a fresh key is an append (pair form).
proof fn lemma_upsert_append_pair(m: Seq<(Seq<char>, Seq<char>)>, k: Seq<char>, v: Seq<char>)
    requires
        forall|t: int| 0 <= t < m.len() ==> (#[trigger] m[t]).0 != k,
    ensures
        spec_upsert(m, k, v) == m.push((k, v)),
    decreases m.len(),
{
    if m.len() == 0 {
        assert(spec_upsert(m, k, v) =~= m.push((k, v)));
    } else {
        lemma_upsert_append_pair(m.drop_first(), k, v);
        assert(m.drop_first().push((k, v)) =~= m.push((k, v)).drop_first());
        assert(spec_upsert(m, k, v) =~= seq![m[0]] + m.drop_first().push((k, v)));
        assert(m.push((k, v)) =~= seq![m[0]] + m.drop_first().push((k, v)));
    }
}

/// The preserved-sections half of the parser round trip: when a response
/// carries sections whose paths are pairwise distinct and all declared,
/// the parse returns exactly those sections, in order — rejoining them
/// with delimiters therefore loses nothing that the section scan kept.
pub proof fn lemma_parse_keeps_sections(content: Seq<char>, expected: Seq<Seq<char>>)
    requires
        spec_sections(content, 0).len() > 0,
        forall|a: int, b: int|
            0 <= a < b < spec_sections(content, 0).len() ==> (#[trigger] spec_sections(
                content,
                0,
            )[a]).0 != (#[trigger] spec_sections(content, 0)[b]).0,
        forall|t: int|
            0 <= t < spec_sections(content, 0).len() ==> expected.contains(
                (#[trigger] spec_sections(content, 0)[t]).0,
            ),
    ensures
        spec_parse_ok(content, expected),
        spec_parse_result(content, expected) == spec_sections(content, 0),
{
    let secs = spec_sections(content, 0);
    assert(spec_all_match(secs, expected));
    assert(spec_remap(secs, expected) == secs);
    lemma_collect_distinct(secs, Seq::empty());
    assert(Seq::<(Seq<char>, Seq<char>)>::empty() + secs =~= secs);
}

/// Unfolding fact for the context text at position `i`.
proof fn lemma_context_unfold(pairs: Seq<(Seq<char>, Seq<char>)>, i: int)
    requires
        0 <= i < pairs.len(),
    ensures
        i < pairs.len() - 1 ==> spec_context_text(pairs.skip(i)) == spec_context_block(
            pairs[i].0,
            pairs[i].1,
        ) + "\n\n"@ + spec_context_text(pairs.skip(i + 1)),
        i == pairs.len() - 1 ==> spec_context_text(pairs.skip(i)) == spec_context_block(
            pairs[i].0,
            pairs[i].1,
        ),
{
    assert(pairs.skip(i)[0] == pairs[i]);
    assert(pairs.skip(i).drop_first() =~= pairs.skip(i + 1));
}

} // verus!
