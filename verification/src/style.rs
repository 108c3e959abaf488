//! Uniform display strings for the command surface. The library renders
//! plain text; the surrounding program may colorize these lines for a
//! terminal.

use vstd::prelude::*;
use crate::numfmt::dec_digits;
use crate::numfmt::u64_to_string;
use crate::numfmt::usize_to_string;

verus! {

/// A header line around a title.
pub fn header(title: &str) -> (r: String)
    ensures
        r@ == "=== "@ + title@ + " ==="@,
{
    let mut out = String::new();
    out.append("=== ");
    out.append(title);
    out.append(" ===");
    out
}

/// The project banner: name and version.
pub fn project_header(name: &str, version: &str) -> (r: String)
    ensures
        r@ == "lit: "@ + name@ + " v"@ + version@,
{
    let mut out = String::new();
    out.append("lit: ");
    out.append(name);
    out.append(" v");
    out.append(version);
    out
}

/// A success line, marked with a check mark.
pub fn success(msg: &str) -> (r: String)
    ensures
        r@ == "✓ "@ + msg@,
{
    let mut out = String::new();
    out.append("✓ ");
    out.append(msg);
    out
}

/// A warning line, marked with a warning sign.
pub fn warning(msg: &str) -> (r: String)
    ensures
        r@ == "⚠ "@ + msg@,
{
    let mut out = String::new();
    out.append("⚠ ");
    out.append(msg);
    out
}

/// An error line, marked with a cross.
pub fn error(msg: &str) -> (r: String)
    ensures
        r@ == "✗ "@ + msg@,
{
    let mut out = String::new();
    out.append("✗ ");
    out.append(msg);
    out
}

/// A hint line.
pub fn hint(msg: &str) -> (r: String)
    ensures
        r@ == msg@,
{
    crate::textutil::str_copy(msg)
}

/// A new file, in a change listing.
pub fn file_new(path: &str) -> (r: String)
    ensures
        r@ == "  + "@ + path@,
{
    let mut out = String::new();
    out.append("  + ");
    out.append(path);
    out
}

/// A modified file, in a change listing.
pub fn file_modified(path: &str) -> (r: String)
    ensures
        r@ == "  ~ "@ + path@,
{
    let mut out = String::new();
    out.append("  ~ ");
    out.append(path);
    out
}

/// A deleted file, in a change listing.
pub fn file_deleted(path: &str) -> (r: String)
    ensures
        r@ == "  - "@ + path@,
{
    let mut out = String::new();
    out.append("  - ");
    out.append(path);
    out
}

/// A progress counter.
pub fn progress(current: usize, total: usize) -> (r: String)
    ensures
        r@ == "("@ + dec_digits(current as nat) + "/"@ + dec_digits(total as nat) + ")"@,
{
    let mut out = String::new();
    out.append("(");
    let c = usize_to_string(current);
    out.append(c.as_str());
    out.append("/");
    let t = usize_to_string(total);
    out.append(t.as_str());
    out.append(")");
    out
}

/// The line announcing one prompt's generation.
pub fn generating(prompt_path: &str, current: usize, total: usize) -> (r: String)
    ensures
        r@ == "  Generating "@ + prompt_path@ + " "@ + "("@ + dec_digits(current as nat) + "/"@
            + dec_digits(total as nat) + ")"@,
{
    let mut out = String::new();
    out.append("  Generating ");
    out.append(prompt_path);
    out.append(" ");
    let p = progress(current, total);
    out.append(p.as_str());
    out
}

/// The line marking a cache hit.
pub fn cached(prompt_path: &str) -> (r: String)
    ensures
        r@ == "  ✓ "@ + prompt_path@ + " (cached)"@,
{
    let mut out = String::new();
    out.append("  ✓ ");
    out.append(prompt_path);
    out.append(" (cached)");
    out
}

/// The line marking a skipped prompt.
pub fn skipped(prompt_path: &str) -> (r: String)
    ensures
        r@ == "  — "@ + prompt_path@ + " (skipped)"@,
{
    let mut out = String::new();
    out.append("  — ");
    out.append(prompt_path);
    out.append(" (skipped)");
    out
}

/// The duration in seconds to one decimal, rounding half up.
pub open spec fn spec_duration_secs(duration_ms: int) -> Seq<char> {
    let tenths = (duration_ms + 50) / 100;
    dec_digits((tenths / 10) as nat) + "."@ + dec_digits((tenths % 10) as nat) + "s"@
}

/// The per-prompt result line: files, token counts and duration.
pub fn gen_result(files: usize, tokens_in: u64, tokens_out: u64, duration_ms: u64) -> (r: String)
    requires
        duration_ms < 0x1000_0000_0000_0000,
    ensures
        r@ == "    ✓ "@ + dec_digits(files as nat) + " file(s), "@ + dec_digits(tokens_in as nat)
            + " in / "@ + dec_digits(tokens_out as nat) + " out tokens, "@ + spec_duration_secs(
            duration_ms as int,
        ),
{
    let mut out = String::new();
    out.append("    ✓ ");
    let f = usize_to_string(files);
    out.append(f.as_str());
    out.append(" file(s), ");
    let ti = u64_to_string(tokens_in);
    out.append(ti.as_str());
    out.append(" in / ");
    let to = u64_to_string(tokens_out);
    out.append(to.as_str());
    out.append(" out tokens, ");
    let tenths: u64 = (duration_ms + 50) / 100;
    let whole = u64_to_string(tenths / 10);
    out.append(whole.as_str());
    out.append(".");
    let frac = u64_to_string(tenths % 10);
    out.append(frac.as_str());
    out.append("s");
    out
}

/// An aligned key-value summary line.
pub fn summary_line(key: &str, value: &str) -> (r: String)
    ensures
        r@ == "  "@ + key@ + ": "@ + value@,
{
    let mut out = String::new();
    out.append("  ");
    out.append(key);
    out.append(": ");
    out.append(value);
    out
}

/// A cost amount, for the summary.
pub fn cost(amount: &str) -> (r: String)
    ensures
        r@ == amount@,
{
    crate::textutil::str_copy(amount)
}

/// A commit hash, for log lines.
pub fn commit_hash(hash: &str) -> (r: String)
    ensures
        r@ == hash@,
{
    crate::textutil::str_copy(hash)
}

/// A commit message, for log lines.
pub fn commit_message(msg: &str) -> (r: String)
    ensures
        r@ == msg@,
{
    crate::textutil::str_copy(msg)
}

/// A timestamp, for log lines.
pub fn datetime(dt: &str) -> (r: String)
    ensures
        r@ == dt@,
{
    crate::textutil::str_copy(dt)
}

/// A bold section label.
pub fn section(label: &str) -> (r: String)
    ensures
        r@ == label@,
{
    crate::textutil::str_copy(label)
}

/// The regeneration banner: how many prompts of the total will run.
pub fn regen_header(regen_count: usize, total_count: usize) -> (r: String)
    ensures
        r@ == "lit regenerate: "@ + dec_digits(regen_count as nat) + " prompt(s) to generate (of "@
            + dec_digits(total_count as nat) + " total)"@,
{
    let mut out = String::new();
    out.append("lit regenerate: ");
    let c = usize_to_string(regen_count);
    out.append(c.as_str());
    out.append(" prompt(s) to generate (of ");
    let t = usize_to_string(total_count);
    out.append(t.as_str());
    out.append(" total)");
    out
}

/// The line marking an applied manual patch.
pub fn patch_applied(file_path: &str) -> (r: String)
    ensures
        r@ == "    ✓ Applied manual patch to "@ + file_path@,
{
    let mut out = String::new();
    out.append("    ✓ Applied manual patch to ");
    out.append(file_path);
    out
}

/// The line marking a conflicted manual patch.
pub fn patch_conflict(file_path: &str) -> (r: String)
    ensures
        r@ == "    ⚠ Conflict in "@ + file_path@ + " (manual patch vs new generation)"@,
{
    let mut out = String::new();
    out.append("    ⚠ Conflict in ");
    out.append(file_path);
    out.append(" (manual patch vs new generation)");
    out
}

} // verus!
