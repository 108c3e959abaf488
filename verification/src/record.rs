//! Per-run audit records and cost accounting. Money is held in
//! micro-dollars (one millionth of a dollar), so pricing and cost
//! estimation stay in exact integer arithmetic.

use vstd::prelude::*;
use crate::numfmt::{dec_digits, group_digits, padded_digits, spec_grouped, u64_to_padded, u64_to_string};
use crate::textutil::{has_match_from, find_sub_from, spec_starts_with, starts_with};

verus! {

/// Per-million-token prices in micro-dollars.
#[derive(Debug)]
pub struct ModelPricing {
    pub input_per_million_micro: u64,
    pub output_per_million_micro: u64,
}

impl ModelPricing {
    pub fn new(input_per_million_micro: u64, output_per_million_micro: u64) -> (r: ModelPricing)
        ensures
            r.input_per_million_micro == input_per_million_micro,
            r.output_per_million_micro == output_per_million_micro,
    {
        ModelPricing { input_per_million_micro, output_per_million_micro }
    }
}

/// Metadata for one prompt's generation within a run.
#[derive(Debug)]
pub struct PromptRecord {
    pub prompt_path: String,
    pub output_files: Vec<String>,
    pub input_hash: String,
    pub from_cache: bool,
    pub tokens_in: u64,
    pub tokens_out: u64,
    pub duration_ms: u64,
    pub model: String,
    pub cost_micro_usd: u64,
}

/// Aggregate statistics for a generation run.
#[derive(Debug)]
pub struct GenerationSummary {
    pub total_prompts: usize,
    pub cache_hits: usize,
    pub cache_misses: usize,
    pub skipped: usize,
    pub total_tokens_in: u64,
    pub total_tokens_out: u64,
    pub total_cost_micro_usd: u64,
    pub total_duration_ms: u64,
    pub total_files_written: usize,
    pub patches_applied: usize,
    pub patches_conflicted: usize,
}

/// The audit record of one full run: when it ran (epoch seconds), what
/// configuration it resolved, what each prompt did, and the aggregate.
#[derive(Debug)]
pub struct GenerationRecord {
    pub timestamp_epoch_secs: i64,
    pub project: String,
    pub model: String,
    pub temperature_milli: u32,
    pub seed: Option<u64>,
    pub language: String,
    pub framework: Option<String>,
    pub prompts: Vec<PromptRecord>,
    pub summary: GenerationSummary,
}

/// The built-in pricing table, keyed by substring of the model name; the
/// last entry is the fallback for unknown models.
pub open spec fn spec_model_pricing(m: Seq<char>) -> (int, int) {
    if has_match_from(m, "opus-4-5"@, 0) || has_match_from(m, "opus-4-6"@, 0) {
        (5_000_000, 25_000_000)
    } else if has_match_from(m, "3-opus"@, 0) || has_match_from(m, "opus-4"@, 0) {
        (15_000_000, 75_000_000)
    } else if has_match_from(m, "3-5-sonnet"@, 0) || has_match_from(
        m,
        "sonnet-4"@,
        0,
    ) {
        (3_000_000, 15_000_000)
    } else if has_match_from(m, "haiku-4-5"@, 0) {
        (1_000_000, 5_000_000)
    } else if has_match_from(m, "3-5-haiku"@, 0) || has_match_from(
        m,
        "haiku-4"@,
        0,
    ) {
        (800_000, 4_000_000)
    } else if has_match_from(m, "3-haiku"@, 0) {
        (250_000, 1_250_000)
    } else if has_match_from(m, "gpt-4o"@, 0) && !has_match_from(m, "mini"@, 0) {
        (2_500_000, 10_000_000)
    } else if has_match_from(m, "gpt-4o-mini"@, 0) {
        (150_000, 600_000)
    } else if spec_starts_with(m, "gpt-4"@) && !has_match_from(m, "gpt-4o"@, 0) {
        (30_000_000, 60_000_000)
    } else {
        (3_000_000, 15_000_000)
    }
}

fn contains_sub(s: &str, pat: &str) -> (r: bool)
    ensures
        r == has_match_from(s@, pat@, 0),
{
    match find_sub_from(s, pat, 0) {
        Some(_) => true,
        None => {
            proof {
                if has_match_from(s@, pat@, 0) {
                    let i = choose|i: int|
                        0 <= i && crate::textutil::matches_at(s@, pat@, i);
                }
            }
            false
        },
    }
}

/// Pricing for a known model, with a conservative default for unknown
/// ones.
pub fn get_model_pricing(model: &str) -> (r: ModelPricing)
    ensures
        r.input_per_million_micro as int == spec_model_pricing(model@).0,
        r.output_per_million_micro as int == spec_model_pricing(model@).1,
{
    if contains_sub(model, "opus-4-5") || contains_sub(model, "opus-4-6") {
        ModelPricing::new(5_000_000, 25_000_000)
    } else if contains_sub(model, "3-opus") || contains_sub(model, "opus-4") {
        ModelPricing::new(15_000_000, 75_000_000)
    } else if contains_sub(model, "3-5-sonnet") || contains_sub(model, "sonnet-4") {
        ModelPricing::new(3_000_000, 15_000_000)
    } else if contains_sub(model, "haiku-4-5") {
        ModelPricing::new(1_000_000, 5_000_000)
    } else if contains_sub(model, "3-5-haiku") || contains_sub(model, "haiku-4") {
        ModelPricing::new(800_000, 4_000_000)
    } else if contains_sub(model, "3-haiku") {
        ModelPricing::new(250_000, 1_250_000)
    } else if contains_sub(model, "gpt-4o") && !contains_sub(model, "mini") {
        ModelPricing::new(2_500_000, 10_000_000)
    } else if contains_sub(model, "gpt-4o-mini") {
        ModelPricing::new(150_000, 600_000)
    } else if starts_with(model, "gpt-4") && !contains_sub(model, "gpt-4o") {
        ModelPricing::new(30_000_000, 60_000_000)
    } else {
        ModelPricing::new(3_000_000, 15_000_000)
    }
}

/// The exact cost in micro-dollars: tokens times the per-million price,
/// divided by one million, summed over input and output.
pub open spec fn spec_cost_micro(tokens_in: int, tokens_out: int, p_in: int, p_out: int) -> int {
    tokens_in * p_in / 1_000_000 + tokens_out * p_out / 1_000_000
}

/// Estimate the cost of a generation; the pricing override, when present,
/// replaces the built-in table.
pub fn estimate_cost(
    model: &str,
    tokens_in: u64,
    tokens_out: u64,
    pricing_override: Option<&ModelPricing>,
) -> (r: u64)
    requires
        tokens_in < 0x10_0000_0000,
        tokens_out < 0x10_0000_0000,
        match pricing_override {
            Some(p) => p.input_per_million_micro < 0x10_0000_0000 && p.output_per_million_micro
                < 0x10_0000_0000,
            None => true,
        },
    ensures
        r as int == (match pricing_override {
            Some(p) => spec_cost_micro(
                tokens_in as int,
                tokens_out as int,
                p.input_per_million_micro as int,
                p.output_per_million_micro as int,
            ),
            None => spec_cost_micro(
                tokens_in as int,
                tokens_out as int,
                spec_model_pricing(model@).0,
                spec_model_pricing(model@).1,
            ),
        }),
{
    let (p_in, p_out): (u64, u64) = match pricing_override {
        Some(p) => (p.input_per_million_micro, p.output_per_million_micro),
        None => {
            let p = get_model_pricing(model);
            (p.input_per_million_micro, p.output_per_million_micro)
        },
    };
    proof {
        assert(p_in < 0x10_0000_0000 && p_out < 0x10_0000_0000) by {
            assert(spec_model_pricing(model@).0 <= 30_000_000 && spec_model_pricing(model@).1
                <= 75_000_000);
        }
        assert((tokens_in as int) * (p_in as int) < 0x1000_0000_0000_0000_0000) by (nonlinear_arith)
            requires
                tokens_in < 0x10_0000_0000,
                p_in < 0x10_0000_0000,
        ;
        assert((tokens_out as int) * (p_out as int) < 0x1000_0000_0000_0000_0000) by (nonlinear_arith)
            requires
                tokens_out < 0x10_0000_0000,
                p_out < 0x10_0000_0000,
        ;
    }
    let in_cost: u128 = (tokens_in as u128) * (p_in as u128) / 1_000_000;
    let out_cost: u128 = (tokens_out as u128) * (p_out as u128) / 1_000_000;
    proof {
        assert(in_cost <= tokens_in as int * p_in as int);
        assert(out_cost <= tokens_out as int * p_out as int);
    }
    (in_cost + out_cost) as u64
}

/// The display form of a cost: four decimals under a tenth of a cent,
/// three under a cent, else two, with a dollar sign.
pub open spec fn spec_format_cost(micro: int) -> Seq<char> {
    if micro < 1000 {
        seq!['$'] + spec_fixed(micro, 4)
    } else if micro < 10_000 {
        seq!['$'] + spec_fixed(micro, 3)
    } else {
        seq!['$'] + spec_fixed(micro, 2)
    }
}

/// Fixed-point rendering of a micro-dollar amount with `k` decimals,
/// rounding half away from zero.
pub open spec fn spec_fixed(micro: int, k: int) -> Seq<char> {
    let scale = if k == 4 {
        100int
    } else if k == 3 {
        1000int
    } else {
        10_000int
    };
    let unit = if k == 4 {
        10_000int
    } else if k == 3 {
        1000int
    } else {
        100int
    };
    let scaled = (micro + scale / 2) / scale;
    dec_digits((scaled / unit) as nat) + seq!['.'] + padded_digits((scaled % unit) as nat, k as nat)
}

/// Format a cost amount for display.
pub fn format_cost(micro_usd: u64) -> (r: String)
    requires
        micro_usd < 0x1000_0000_0000_0000,
    ensures
        r@ == spec_format_cost(micro_usd as int),
{
    let k: usize = if micro_usd < 1000 {
        4
    } else if micro_usd < 10_000 {
        3
    } else {
        2
    };
    let scale: u64 = if k == 4 {
        100
    } else if k == 3 {
        1000
    } else {
        10_000
    };
    let unit: u64 = if k == 4 {
        10_000
    } else if k == 3 {
        1000
    } else {
        100
    };
    let scaled: u64 = (micro_usd + scale / 2) / scale;
    let mut out = String::new();
    proof {
        reveal_strlit("$");
        reveal_strlit(".");
        assert("$"@ =~= seq!['$']);
        assert("."@ =~= seq!['.']);
    }
    out.append("$");
    let whole = u64_to_string(scaled / unit);
    out.append(whole.as_str());
    out.append(".");
    let frac = u64_to_padded(scaled % unit, k);
    out.append(frac.as_str());
    proof {
        assert(out@ =~= spec_format_cost(micro_usd as int));
    }
    out
}

/// The display form of a token count: plain under a thousand, grouped
/// with commas under a million, else millions to one decimal (rounding
/// half up) with an `M` suffix.
pub open spec fn spec_format_tokens(tokens: int) -> Seq<char> {
    if tokens >= 1_000_000 {
        let tenths = (tokens + 50_000) / 100_000;
        dec_digits((tenths / 10) as nat) + seq!['.'] + dec_digits((tenths % 10) as nat) + seq![
            'M',
        ]
    } else if tokens >= 1000 {
        spec_grouped(dec_digits(tokens as nat))
    } else {
        dec_digits(tokens as nat)
    }
}

/// Format a token count for display.
pub fn format_tokens(tokens: u64) -> (r: String)
    requires
        tokens < 0x1000_0000_0000_0000,
    ensures
        r@ == spec_format_tokens(tokens as int),
{
    if tokens >= 1_000_000 {
        let tenths: u64 = (tokens + 50_000) / 100_000;
        let mut out = u64_to_string(tenths / 10);
        proof {
            reveal_strlit(".");
            reveal_strlit("M");
            assert("."@ =~= seq!['.']);
            assert("M"@ =~= seq!['M']);
        }
        out.append(".");
        let tenth = u64_to_string(tenths % 10);
        out.append(tenth.as_str());
        out.append("M");
        proof {
            assert(out@ =~= spec_format_tokens(tokens as int));
        }
        out
    } else if tokens >= 1000 {
        let digits = u64_to_string(tokens);
        group_digits(digits.as_str())
    } else {
        u64_to_string(tokens)
    }
}


/// Saturating addition on token and cost counters: totals cap instead of
/// wrapping.
pub open spec fn sat_add(a: int, b: int) -> int {
    if a + b > 0xffff_ffff_ffff_ffff {
        0xffff_ffff_ffff_ffff
    } else {
        a + b
    }
}

/// The running totals over a record prefix: input tokens, output tokens,
/// and cost in micro-dollars, each saturating.
pub open spec fn spec_totals(rs: Seq<PromptRecord>, i: int) -> (int, int, int)
    decreases i,
{
    if i <= 0 {
        (0, 0, 0)
    } else {
        let (a, b, c) = spec_totals(rs, i - 1);
        (
            sat_add(a, rs[i - 1].tokens_in as int),
            sat_add(b, rs[i - 1].tokens_out as int),
            sat_add(c, rs[i - 1].cost_micro_usd as int),
        )
    }
}

/// Aggregate the per-prompt records of a run into totals, as the cost
/// report displays them.
pub fn aggregate_records(rs: &Vec<PromptRecord>) -> (r: (u64, u64, u64))
    ensures
        (r.0 as int, r.1 as int, r.2 as int) == spec_totals(rs@, rs@.len() as int),
{
    let n: usize = rs.len();
    let mut tin: u64 = 0;
    let mut tout: u64 = 0;
    let mut cost: u64 = 0;
    let mut i: usize = 0;
    while i < n
        invariant
            n == rs@.len(),
            i <= n,
            (tin as int, tout as int, cost as int) == spec_totals(rs@, i as int),
        decreases n - i,
    {
        tin = if tin <= u64::MAX - rs[i].tokens_in {
            tin + rs[i].tokens_in
        } else {
            u64::MAX
        };
        tout = if tout <= u64::MAX - rs[i].tokens_out {
            tout + rs[i].tokens_out
        } else {
            u64::MAX
        };
        cost = if cost <= u64::MAX - rs[i].cost_micro_usd {
            cost + rs[i].cost_micro_usd
        } else {
            u64::MAX
        };
        i = i + 1;
    }
    (tin, tout, cost)
}

} // verus!
