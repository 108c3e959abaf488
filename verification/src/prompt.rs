//! Prompt files: a fenced header declaring outputs and imports, then a
//! free-form body. This module holds the parsed representation, the header
//! splitter, and discovery helpers.

use vstd::prelude::*;
use vstd::relations::sorted_by;
use crate::config::{LitConfig, ModelConfig};
use crate::sorting::{lex_leq, sort_strings, str_views};
use crate::textutil::{
    find_char_from, find_sub_from, matches_at, spec_ends_with, spec_trim, str_eq, trim_ws,
    ends_with,
};

verus! {

/// The parsed header of a prompt file.
#[derive(Debug)]
pub struct PromptFrontmatter {
    /// Output file paths this prompt produces, relative to the code root.
    pub outputs: Vec<String>,
    /// Paths of the prompt files this prompt imports.
    pub imports: Vec<String>,
    /// Per-prompt model override.
    pub model: Option<ModelConfig>,
    /// Per-prompt language override.
    pub language: Option<String>,
}

/// A parsed prompt file.
#[derive(Debug)]
pub struct Prompt {
    /// Path of the prompt file, relative to the repository root.
    pub path: String,
    /// Parsed header.
    pub frontmatter: PromptFrontmatter,
    /// Body text: everything after the closing header fence.
    pub body: String,
    /// The full raw file content, exactly as read.
    pub raw: String,
}

/// A file is a prompt file when its name ends with the prompt suffix.
pub fn is_prompt_file(path: &str) -> (r: bool)
    ensures
        r == spec_ends_with(path@, ".prompt.md"@),
{
    ends_with(path, ".prompt.md")
}

/// Keep only prompt files and order them lexicographically. The caller
/// supplies the file listing; walking directories is not this library's
/// concern.
pub fn discover_prompts(paths: Vec<String>) -> (r: Vec<String>)
    ensures
        sorted_by(str_views(r@), lex_leq()),
        str_views(r@).to_multiset() == str_views(paths@).filter(
            |p: Seq<char>| spec_ends_with(p, ".prompt.md"@),
        ).to_multiset(),
{
    let mut kept: Vec<String> = Vec::new();
    let n: usize = paths.len();
    let mut i: usize = 0;
    while i < n
        invariant
            n == paths@.len(),
            i <= n,
            str_views(kept@) == str_views(paths@).take(i as int).filter(
                |p: Seq<char>| spec_ends_with(p, ".prompt.md"@),
            ),
        decreases n - i,
    {
        let ghost prefix: Seq<Seq<char>> = str_views(paths@).take(i as int);
        let p = &paths[i];
        if is_prompt_file(p.as_str()) {
            kept.push(crate::textutil::str_copy(p.as_str()));
        }
        proof {
            assert(str_views(paths@).take(i + 1).drop_last() =~= prefix);
            assert(str_views(paths@).take(i + 1).last() == paths@[i as int]@);
            reveal_with_fuel(Seq::filter, 2);
            if spec_ends_with(paths@[i as int]@, ".prompt.md"@) {
                assert(str_views(kept@) =~= prefix.filter(
                    |p: Seq<char>| spec_ends_with(p, ".prompt.md"@),
                ).push(paths@[i as int]@));
            }
        }
        i = i + 1;
    }
    proof {
        assert(str_views(paths@).take(n as int) =~= str_views(paths@));
    }
    sort_strings(kept)
}

// ---------- Body import references ----------

/// The opener of a body import reference, as an explicit character
/// sequence.
pub open spec fn import_open() -> Seq<char> {
    seq!['@', 'i', 'm', 'p', 'o', 'r', 't', '(']
}

/// Inline body references of the shape `@import(<path>)`, scanned left to
/// right; after each opener the reference runs to the next closing
/// parenthesis, trimmed, and empty references are dropped. The scan
/// resumes right after the opener, exactly as the informational warning
/// pass does.
pub open spec fn spec_body_imports_from(s: Seq<char>, pos: int) -> Seq<Seq<char>>
    decreases s.len() - pos when 0 <= pos <= s.len()
{
    if pos + 8 > s.len() {
        Seq::empty()
    } else if matches_at(s, import_open(), pos) {
        let after = pos + 8;
        let rest = spec_body_imports_from(s, after);
        if spec_has_close(s, after) {
            let close = spec_next_close(s, after);
            let piece = spec_trim(s.subrange(after, close));
            if piece.len() > 0 {
                seq![piece] + rest
            } else {
                rest
            }
        } else {
            rest
        }
    } else {
        spec_body_imports_from(s, pos + 1)
    }
}

/// There is a `')'` at or after `pos`.
pub open spec fn spec_has_close(s: Seq<char>, pos: int) -> bool {
    exists|j: int| pos <= j < s.len() && s[j] == ')'
}

/// The first `')'` at or after `pos`.
pub open spec fn spec_next_close(s: Seq<char>, pos: int) -> int {
    choose|j: int| pos <= j < s.len() && s[j] == ')' && forall|k: int|
        pos <= k < j ==> s[k] != ')'
}

pub open spec fn spec_body_imports(s: Seq<char>) -> Seq<Seq<char>> {
    spec_body_imports_from(s, 0)
}

proof fn lemma_body_imports_skip(s: Seq<char>, pos: int, to: int)
    requires
        0 <= pos <= to <= s.len(),
        forall|j: int| pos <= j < to ==> !matches_at(s, import_open(), j),
    ensures
        spec_body_imports_from(s, pos) == spec_body_imports_from(s, to),
    decreases to - pos,
{
    if pos < to {
        if pos + 8 > s.len() {
            assert(to + 8 > s.len());
            assert(spec_body_imports_from(s, pos) =~= Seq::<Seq<char>>::empty());
            assert(spec_body_imports_from(s, to) =~= Seq::<Seq<char>>::empty());
        } else {
            lemma_body_imports_skip(s, pos + 1, to);
        }
    }
}

proof fn lemma_next_close(s: Seq<char>, pos: int, j: int)
    requires
        0 <= pos <= j < s.len(),
        s[j] == ')',
        forall|k: int| pos <= k < j ==> s[k] != ')',
    ensures
        spec_has_close(s, pos),
        spec_next_close(s, pos) == j,
{
    assert(spec_has_close(s, pos));
    let w = spec_next_close(s, pos);
    assert(pos <= w < s.len() && s[w] == ')' && (forall|k: int| pos <= k < w ==> s[k] != ')'))
        by {
        assert(exists|v: int|
            pos <= v < s.len() && s[v] == ')' && forall|k: int| pos <= k < v ==> s[k] != ')');
    }
    if w < j {
        assert(s[w] != ')');
    }
    if j < w {
        assert(s[j] != ')');
    }
}

/// Extract the `@import(...)` references from body text.
pub fn extract_body_imports(body: &str) -> (r: Vec<String>)
    ensures
        str_views(r@) == spec_body_imports(body@),
{
    let mut found: Vec<String> = Vec::new();
    let mut pos: usize = 0;
    let body_len: usize = body.unicode_len();
    proof {
        reveal_strlit("@import(");
        assert("@import("@ =~= import_open());
    }
    while pos < body_len
        invariant
            body_len == body@.len(),
            pos <= body_len,
            "@import("@ == import_open(),
            str_views(found@) + spec_body_imports_from(body@, pos as int) == spec_body_imports(
                body@,
            ),
        decreases body_len - pos,
    {
        let ghost pos0: int = pos as int;
        match find_sub_from(body, "@import(", pos) {
            Some(start) => {
                proof {
                    lemma_body_imports_skip(body@, pos0, start as int);
                }
                let after: usize = start + 8;
                match find_char_from(body, ')', after) {
                    Some(close) => {
                        proof {
                            lemma_next_close(body@, after as int, close as int);
                        }
                        let piece_raw: &str = body.substring_char(after, close);
                        let piece = trim_ws(piece_raw);
                        let piece_len: usize = piece.as_str().unicode_len();
                        let ghost found0: Seq<String> = found@;
                        if piece_len > 0 {
                            found.push(piece);
                            proof {
                                assert(str_views(found@) =~= str_views(found0) + seq![
                                    spec_trim(body@.subrange(after as int, close as int)),
                                ]);
                            }
                        }
                        proof {
                            assert(str_views(found@) + spec_body_imports_from(
                                body@,
                                after as int,
                            ) =~= spec_body_imports(body@));
                        }
                        pos = after;
                    },
                    None => {
                        proof {
                            assert(!spec_has_close(body@, after as int));
                        }
                        pos = after;
                    },
                }
            },
            None => {
                proof {
                    lemma_body_imports_skip(body@, pos0, body_len as int);
                    assert(spec_body_imports_from(body@, body_len as int) =~= Seq::<
                        Seq<char>,
                    >::empty());
                }
                pos = body_len;
            },
        }
    }
    proof {
        if pos0_is_end(body@, pos as int) {
        }
        assert(spec_body_imports_from(body@, pos as int) =~= Seq::<Seq<char>>::empty());
        assert(str_views(found@) =~= spec_body_imports(body@));
    }
    found
}

spec fn pos0_is_end(s: Seq<char>, pos: int) -> bool {
    pos >= s.len()
}

// ---------- Header splitting ----------

/// Why a prompt file was rejected.
#[derive(Debug)]
pub enum PromptError {
    /// The file does not begin with the header fence.
    HeaderMissing,
    /// The closing header fence is absent.
    HeaderUnterminated,
    /// The header payload fails the structured parse.
    HeaderMalformed,
    /// An import path does not end with the prompt-file suffix; carries
    /// the offending path.
    InvalidImportExtension(String),
    /// Manifest mode requires at least one declared output.
    NoOutputsInManifestMode,
}

impl PromptError {
    /// A short account of the rejection; every kind names the header
    /// ("frontmatter") or the offending declaration, and the invalid
    /// import carries its path verbatim.
    pub fn message(&self) -> (r: String)
        ensures
            self is HeaderMissing ==> r@ == "Prompt file must start with frontmatter (---)"@,
            self is HeaderUnterminated ==> r@ == "Unterminated frontmatter: missing closing ---"@,
            self is HeaderMalformed ==> r@ == "Failed to parse frontmatter header"@,
            (self matches PromptError::InvalidImportExtension(p) ==> r@ == "Invalid import '"@
                + p@ + "': import paths must end with .prompt.md"@),
            self is NoOutputsInManifestMode ==> r@
                == "Prompt has no outputs declared; in 'manifest' mode the 'outputs' field is required in frontmatter"@,
    {
        let mut out = String::new();
        match self {
            PromptError::HeaderMissing => {
                out.append("Prompt file must start with frontmatter (---)");
            },
            PromptError::HeaderUnterminated => {
                out.append("Unterminated frontmatter: missing closing ---");
            },
            PromptError::HeaderMalformed => {
                out.append("Failed to parse frontmatter header");
            },
            PromptError::InvalidImportExtension(p) => {
                out.append("Invalid import '");
                out.append(p.as_str());
                out.append("': import paths must end with .prompt.md");
            },
            PromptError::NoOutputsInManifestMode => {
                out.append(
                    "Prompt has no outputs declared; in 'manifest' mode the 'outputs' field is required in frontmatter",
                );
            },
        }
        out
    }
}

/// The position right after the first line break of `s`, or the whole
/// text when it has none.
pub open spec fn spec_after_first_nl(s: Seq<char>, from: int) -> int {
    if exists|j: int| from <= j < s.len() && s[j] == '\n' {
        let j = choose|j: int|
            from <= j < s.len() && s[j] == '\n' && forall|k: int| from <= k < j ==> s[k] != '\n';
        if from <= j < s.len() {
            j + 1
        } else {
            s.len() as int
        }
    } else {
        s.len() as int
    }
}

/// The header-splitting rule: after leading whitespace the text must open
/// with the fence `---`; the payload runs from the following line to the
/// closing fence (a line break followed by `---`, or a fence immediately
/// after the opening line); the body is what follows the closing fence
/// line and one further line break.
pub open spec fn spec_split_ok(content: Seq<char>) -> bool {
    let t = crate::textutil::spec_trim_start(content);
    &&& crate::textutil::spec_starts_with(t, seq!['-', '-', '-'])
    &&& {
        let payload_start = spec_after_first_nl(t, 3);
        crate::textutil::spec_starts_with(t.skip(payload_start), seq!['-', '-', '-'])
            || crate::textutil::has_match_from(t, seq!['\n', '-', '-', '-'], payload_start)
    }
}

/// The first closing-fence position at or after `from` in the trimmed
/// text: the index of a `\n---` match, or `from` itself when the payload
/// opens directly with `---`.
pub open spec fn spec_close_pos(t: Seq<char>, from: int) -> int {
    if crate::textutil::spec_starts_with(t.skip(from), seq!['-', '-', '-']) {
        from
    } else {
        let j = choose|j: int|
            from <= j && matches_at(t, seq!['\n', '-', '-', '-'], j) && forall|k: int|
                from <= k < j ==> !matches_at(t, seq!['\n', '-', '-', '-'], k);
        if from <= j <= t.len() {
            j
        } else {
            t.len() as int
        }
    }
}

/// The payload of a well-formed header.
pub open spec fn spec_payload(content: Seq<char>) -> Seq<char> {
    let t = crate::textutil::spec_trim_start(content);
    let payload_start = spec_after_first_nl(t, 3);
    let close = spec_close_pos(t, payload_start);
    t.subrange(payload_start, close)
}

/// The body of a well-formed header: after the closing fence line and one
/// further line break.
pub open spec fn spec_body(content: Seq<char>) -> Seq<char> {
    let t = crate::textutil::spec_trim_start(content);
    let payload_start = spec_after_first_nl(t, 3);
    let close = spec_close_pos(t, payload_start);
    let after_close_line = spec_after_first_nl(t, close);
    let after_blank = spec_after_first_nl(t, after_close_line);
    t.skip(after_blank)
}

/// Split a prompt file into its header payload and its body.
pub fn split_frontmatter(content: &str) -> (r: Result<(String, String), PromptError>)
    ensures
        (r is Ok) == spec_split_ok(content@),
        (r matches Ok(p) ==> p.0@ == spec_payload(content@) && p.1@ == spec_body(content@)),
        !crate::textutil::spec_starts_with(
            crate::textutil::spec_trim_start(content@),
            seq!['-', '-', '-'],
        ) ==> r matches Err(PromptError::HeaderMissing),
        crate::textutil::spec_starts_with(
            crate::textutil::spec_trim_start(content@),
            seq!['-', '-', '-'],
        ) && !spec_split_ok(content@) ==> r matches Err(PromptError::HeaderUnterminated),
{
    let trimmed = crate::textutil::trim_ws_start(content);
    let t = trimmed.as_str();
    let t_len: usize = t.unicode_len();
    proof {
        reveal_strlit("---");
        reveal_strlit("\n---");
        assert("---"@ =~= seq!['-', '-', '-']);
        assert("\n---"@ =~= seq!['\n', '-', '-', '-']);
    }
    if !crate::textutil::starts_with(t, "---") {
        return Err(PromptError::HeaderMissing);
    }
    let payload_start: usize = match find_char_from(t, '\n', 3) {
        Some(j) => {
            proof {
                lemma_after_first_nl(t@, 3, j as int);
            }
            j + 1
        },
        None => {
            proof {
                lemma_after_first_nl_none(t@, 3);
            }
            t_len
        },
    };
    let tail: &str = t.substring_char(payload_start, t_len);
    let opens_with_fence = crate::textutil::starts_with(tail, "---");
    proof {
        assert(tail@ =~= t@.skip(payload_start as int));
    }
    let close: usize = if opens_with_fence {
        payload_start
    } else {
        match crate::textutil::find_sub_from(t, "\n---", payload_start) {
            Some(j) => {
                proof {
                    lemma_close_pos(t@, payload_start as int, j as int);
                }
                j
            },
            None => {
                return Err(PromptError::HeaderUnterminated);
            },
        }
    };
    let payload = crate::textutil::substr_copy(t, payload_start, close);
    let after_close_line: usize = match find_char_from(t, '\n', close) {
        Some(j) => {
            proof {
                lemma_after_first_nl(t@, close as int, j as int);
            }
            j + 1
        },
        None => {
            proof {
                lemma_after_first_nl_none(t@, close as int);
            }
            t_len
        },
    };
    let after_blank: usize = match find_char_from(t, '\n', after_close_line) {
        Some(j) => {
            proof {
                lemma_after_first_nl(t@, after_close_line as int, j as int);
            }
            j + 1
        },
        None => {
            proof {
                lemma_after_first_nl_none(t@, after_close_line as int);
            }
            t_len
        },
    };
    let body = crate::textutil::substr_copy(t, after_blank, t_len);
    proof {
        assert(body@ =~= t@.skip(after_blank as int));
        if opens_with_fence {
            assert(spec_close_pos(t@, payload_start as int) == payload_start as int);
        }
        assert(spec_split_ok(content@));
    }
    Ok((payload, body))
}

proof fn lemma_after_first_nl(s: Seq<char>, from: int, j: int)
    requires
        0 <= from <= j < s.len(),
        s[j] == '\n',
        forall|k: int| from <= k < j ==> s[k] != '\n',
    ensures
        spec_after_first_nl(s, from) == j + 1,
{
    assert(exists|j2: int| from <= j2 < s.len() && s[j2] == '\n');
    let w = choose|w: int|
        from <= w < s.len() && s[w] == '\n' && forall|k: int| from <= k < w ==> s[k] != '\n';
    assert(from <= w < s.len() && s[w] == '\n' && (forall|k: int| from <= k < w ==> s[k] != '\n'))
        by {
        assert(exists|v: int|
            from <= v < s.len() && s[v] == '\n' && forall|k: int| from <= k < v ==> s[k] != '\n');
    }
    if w < j {
        assert(s[w] != '\n');
    }
    if j < w {
        assert(s[j] != '\n');
    }
}

proof fn lemma_after_first_nl_none(s: Seq<char>, from: int)
    requires
        0 <= from <= s.len(),
        forall|j: int| from <= j < s.len() ==> s[j] != '\n',
    ensures
        spec_after_first_nl(s, from) == s.len(),
{
    if exists|j: int| from <= j < s.len() && s[j] == '\n' {
        let j = choose|j: int| from <= j < s.len() && s[j] == '\n';
        assert(false);
    }
}

proof fn lemma_close_pos(t: Seq<char>, from: int, j: int)
    requires
        0 <= from <= j,
        !crate::textutil::spec_starts_with(t.skip(from), seq!['-', '-', '-']),
        matches_at(t, seq!['\n', '-', '-', '-'], j),
        forall|k: int| from <= k < j ==> !matches_at(t, seq!['\n', '-', '-', '-'], k),
    ensures
        spec_close_pos(t, from) == j,
{
    assert(exists|j2: int| from <= j2 && matches_at(t, seq!['\n', '-', '-', '-'], j2));
    let w = choose|w: int|
        from <= w && matches_at(t, seq!['\n', '-', '-', '-'], w) && forall|k: int|
            from <= k < w ==> !matches_at(t, seq!['\n', '-', '-', '-'], k);
    assert(from <= w && matches_at(t, seq!['\n', '-', '-', '-'], w) && (forall|k: int|
        from <= k < w ==> !matches_at(t, seq!['\n', '-', '-', '-'], k))) by {
        assert(exists|v: int|
            from <= v && matches_at(t, seq!['\n', '-', '-', '-'], v) && forall|k: int|
                from <= k < v ==> !matches_at(t, seq!['\n', '-', '-', '-'], k));
    }
    if w < j {
        assert(!matches_at(t, seq!['\n', '-', '-', '-'], w));
    }
    if j < w {
        assert(!matches_at(t, seq!['\n', '-', '-', '-'], j));
    }
}

// ---------- Header payload parsing ----------

/// The parser state while walking the payload lines: the fields gathered
/// so far and which block a list item would belong to (0 none, 1 the
/// outputs list, 2 the imports list, 3 the model block).
pub struct HeaderState {
    pub outputs: Seq<Seq<char>>,
    pub imports: Seq<Seq<char>>,
    pub language: Option<Seq<char>>,
    pub provider: Option<Seq<char>>,
    pub model_name: Option<Seq<char>>,
    pub temp: Option<u32>,
    pub seed: Option<u64>,
    pub saw_model: bool,
    pub mode: int,
}

/// A decimal temperature, read into thousandths: an integer part and up
/// to three fraction digits. Longer or non-numeric text is rejected.
pub open spec fn spec_parse_temp(s: Seq<char>) -> Option<u32> {
    let dot = spec_dot_pos(s);
    let int_part = s.take(dot);
    let frac_part = if dot < s.len() {
        s.skip(dot + 1)
    } else {
        Seq::empty()
    };
    if int_part.len() == 0 || int_part.len() > 6 || !all_digits(int_part) || frac_part.len() > 3
        || !all_digits(frac_part) {
        None
    } else {
        Some(((digits_value(int_part) * 1000 + digits_value(frac_part) * frac_scale(
            frac_part.len() as int,
        )) as u32))
    }
}

/// The first `'.'` of the text, or its length.
pub open spec fn spec_dot_pos(s: Seq<char>) -> int {
    if exists|j: int| 0 <= j < s.len() && s[j] == '.' {
        let j = choose|j: int|
            0 <= j < s.len() && s[j] == '.' && forall|k: int| 0 <= k < j ==> s[k] != '.';
        if 0 <= j <= s.len() {
            j
        } else {
            s.len() as int
        }
    } else {
        s.len() as int
    }
}

pub open spec fn is_digit(c: char) -> bool {
    c == '0' || c == '1' || c == '2' || c == '3' || c == '4' || c == '5' || c == '6' || c == '7'
        || c == '8' || c == '9'
}

pub open spec fn all_digits(s: Seq<char>) -> bool {
    forall|k: int| 0 <= k < s.len() ==> is_digit(#[trigger] s[k])
}

pub open spec fn digit_value(c: char) -> int {
    if c == '0' {
        0
    } else if c == '1' {
        1
    } else if c == '2' {
        2
    } else if c == '3' {
        3
    } else if c == '4' {
        4
    } else if c == '5' {
        5
    } else if c == '6' {
        6
    } else if c == '7' {
        7
    } else if c == '8' {
        8
    } else {
        9
    }
}

/// The number a digit string denotes.
pub open spec fn digits_value(s: Seq<char>) -> int
    decreases s.len(),
{
    if s.len() == 0 {
        0
    } else {
        digits_value(s.drop_last()) * 10 + digit_value(s.last())
    }
}

/// What one fraction digit is worth in thousandths, by fraction length.
pub open spec fn frac_scale(len: int) -> int {
    if len == 0 {
        0
    } else if len == 1 {
        100
    } else if len == 2 {
        10
    } else {
        1
    }
}

/// A whole number, read as a seed. Longer or non-numeric text is
/// rejected.
pub open spec fn spec_parse_seed(s: Seq<char>) -> Option<u64> {
    if s.len() == 0 || s.len() > 18 || !all_digits(s) {
        None
    } else {
        Some(digits_value(s) as u64)
    }
}

/// The key of a `key: value` line: the text before the first colon.
pub open spec fn spec_colon_pos(s: Seq<char>) -> int {
    if exists|j: int| 0 <= j < s.len() && s[j] == ':' {
        let j = choose|j: int|
            0 <= j < s.len() && s[j] == ':' && forall|k: int| 0 <= k < j ==> s[k] != ':';
        if 0 <= j <= s.len() {
            j
        } else {
            s.len() as int
        }
    } else {
        s.len() as int
    }
}

/// One parser step over a payload line. Blank lines are skipped; a `- `
/// item extends whichever list is open; `key: value` lines set fields,
/// with the model block's keys recognized while that block is open;
/// unknown keys are skipped and close any open block.
pub open spec fn spec_header_step(st: HeaderState, line: Seq<char>) -> Option<HeaderState> {
    let t = crate::textutil::spec_trim(line);
    if t.len() == 0 {
        Some(st)
    } else if crate::textutil::spec_starts_with(t, seq!['-', ' ']) {
        let item = crate::textutil::spec_trim(t.skip(2));
        if st.mode == 1 {
            Some(HeaderState { outputs: st.outputs.push(item), ..st })
        } else if st.mode == 2 {
            Some(HeaderState { imports: st.imports.push(item), ..st })
        } else {
            None
        }
    } else {
        let c = spec_colon_pos(t);
        if c >= t.len() {
            None
        } else {
            let key = crate::textutil::spec_trim(t.take(c));
            let value = crate::textutil::spec_trim(t.skip(c + 1));
            if key == seq!['o', 'u', 't', 'p', 'u', 't', 's'] {
                if value.len() == 0 {
                    Some(HeaderState { mode: 1, ..st })
                } else if value == seq!['[', ']'] {
                    Some(HeaderState { mode: 0, ..st })
                } else {
                    None
                }
            } else if key == seq!['i', 'm', 'p', 'o', 'r', 't', 's'] {
                if value.len() == 0 {
                    Some(HeaderState { mode: 2, ..st })
                } else if value == seq!['[', ']'] {
                    Some(HeaderState { mode: 0, ..st })
                } else {
                    None
                }
            } else if key == seq!['m', 'o', 'd', 'e', 'l'] && st.mode != 3 && value.len() == 0 {
                Some(HeaderState { mode: 3, saw_model: true, ..st })
            } else if key == seq!['l', 'a', 'n', 'g', 'u', 'a', 'g', 'e'] {
                Some(HeaderState { language: Some(value), mode: 0, ..st })
            } else if st.mode == 3 && key == seq!['p', 'r', 'o', 'v', 'i', 'd', 'e', 'r'] {
                Some(HeaderState { provider: Some(value), ..st })
            } else if st.mode == 3 && key == seq!['m', 'o', 'd', 'e', 'l'] {
                Some(HeaderState { model_name: Some(value), ..st })
            } else if st.mode == 3 && key == seq![
                't', 'e', 'm', 'p', 'e', 'r', 'a', 't', 'u', 'r', 'e',
            ] {
                match spec_parse_temp(value) {
                    Some(v) => Some(HeaderState { temp: Some(v), ..st }),
                    None => None,
                }
            } else if st.mode == 3 && key == seq!['s', 'e', 'e', 'd'] {
                match spec_parse_seed(value) {
                    Some(v) => Some(HeaderState { seed: Some(v), ..st }),
                    None => None,
                }
            } else {
                Some(HeaderState { mode: 0, ..st })
            }
        }
    }
}

/// The parser state after the first `i` payload lines, or rejection.
pub open spec fn spec_header_state(lines: Seq<Seq<char>>, i: int) -> Option<HeaderState>
    decreases i,
{
    if i <= 0 {
        Some(
            HeaderState {
                outputs: Seq::empty(),
                imports: Seq::empty(),
                language: None,
                provider: None,
                model_name: None,
                temp: None,
                seed: None,
                saw_model: false,
                mode: 0,
            },
        )
    } else {
        match spec_header_state(lines, i - 1) {
            Some(st) => spec_header_step(st, lines[i - 1]),
            None => None,
        }
    }
}

/// A well-formed payload: every line parses, and an opened model block
/// carries at least a provider, a model name and a temperature.
pub open spec fn spec_header_ok(payload: Seq<char>) -> bool {
    let ls = crate::lines::spec_lines(payload);
    match spec_header_state(ls, ls.len() as int) {
        Some(st) => !st.saw_model || (st.provider is Some && st.model_name is Some
            && st.temp is Some),
        None => false,
    }
}

/// The frontmatter a well-formed payload denotes.
pub open spec fn spec_header_fm(payload: Seq<char>) -> HeaderState {
    let ls = crate::lines::spec_lines(payload);
    spec_header_state(ls, ls.len() as int).unwrap()
}

/// The frontmatter a parsed prompt carries, against the payload's state.
pub open spec fn fm_matches(fm: PromptFrontmatter, st: HeaderState) -> bool {
    &&& crate::sorting::str_views(fm.outputs@) == st.outputs
    &&& crate::sorting::str_views(fm.imports@) == st.imports
    &&& (match (fm.language, st.language) {
        (Some(a), Some(b)) => a@ == b,
        (None, None) => true,
        _ => false,
    })
    &&& (match fm.model {
        Some(m) => st.saw_model && st.provider == Some(m.provider@) && st.model_name == Some(
            m.model@,
        ) && st.temp == Some(m.temperature_milli) && m.seed == st.seed && m.api is None
            && m.pricing is None,
        None => !st.saw_model,
    })
}

/// The executable parser state.
struct ExHeader {
    outputs: Vec<String>,
    imports: Vec<String>,
    language: Option<String>,
    provider: Option<String>,
    model_name: Option<String>,
    temp: Option<u32>,
    seed: Option<u64>,
    saw_model: bool,
    mode: u8,
}

/// The executable state realizes the spec state.
spec fn exh_matches(ex: ExHeader, st: HeaderState) -> bool {
    &&& crate::sorting::str_views(ex.outputs@) == st.outputs
    &&& crate::sorting::str_views(ex.imports@) == st.imports
    &&& (match (ex.language, st.language) {
        (Some(a), Some(b)) => a@ == b,
        (None, None) => true,
        _ => false,
    })
    &&& (match (ex.provider, st.provider) {
        (Some(a), Some(b)) => a@ == b,
        (None, None) => true,
        _ => false,
    })
    &&& (match (ex.model_name, st.model_name) {
        (Some(a), Some(b)) => a@ == b,
        (None, None) => true,
        _ => false,
    })
    &&& ex.temp == st.temp
    &&& ex.seed == st.seed
    &&& ex.saw_model == st.saw_model
    &&& ex.mode as int == st.mode
}

/// Position of the first occurrence of `c`, or the length.
fn char_pos_or_len(s: &str, c: char) -> (r: usize)
    ensures
        c == ':' ==> r as int == spec_colon_pos(s@),
        c == '.' ==> r as int == spec_dot_pos(s@),
        r <= s@.len(),
{
    match find_char_from(s, c, 0) {
        Some(j) => {
            proof {
                if c == ':' {
                    lemma_first_char(s@, ':', j as int);
                }
                if c == '.' {
                    lemma_first_char_dot(s@, j as int);
                }
            }
            j
        },
        None => {
            proof {
                if c == ':' {
                    if exists|j: int| 0 <= j < s@.len() && s@[j] == ':' {
                        let j = choose|j: int| 0 <= j < s@.len() && s@[j] == ':';
                        assert(false);
                    }
                }
                if c == '.' {
                    if exists|j: int| 0 <= j < s@.len() && s@[j] == '.' {
                        let j = choose|j: int| 0 <= j < s@.len() && s@[j] == '.';
                        assert(false);
                    }
                }
            }
            s.unicode_len()
        },
    }
}

proof fn lemma_first_char(s: Seq<char>, c: char, j: int)
    requires
        c == ':',
        0 <= j < s.len(),
        s[j] == c,
        forall|k: int| 0 <= k < j ==> s[k] != c,
    ensures
        spec_colon_pos(s) == j,
{
    assert(exists|j2: int| 0 <= j2 < s.len() && s[j2] == ':');
    let w = choose|w: int|
        0 <= w < s.len() && s[w] == ':' && forall|k: int| 0 <= k < w ==> s[k] != ':';
    assert(0 <= w < s.len() && s[w] == ':' && (forall|k: int| 0 <= k < w ==> s[k] != ':')) by {
        assert(exists|v: int|
            0 <= v < s.len() && s[v] == ':' && forall|k: int| 0 <= k < v ==> s[k] != ':');
    }
    if w < j {
        assert(s[w] != ':');
    }
    if j < w {
        assert(s[j] != ':');
    }
}

proof fn lemma_first_char_dot(s: Seq<char>, j: int)
    requires
        0 <= j < s.len(),
        s[j] == '.',
        forall|k: int| 0 <= k < j ==> s[k] != '.',
    ensures
        spec_dot_pos(s) == j,
{
    assert(exists|j2: int| 0 <= j2 < s.len() && s[j2] == '.');
    let w = choose|w: int|
        0 <= w < s.len() && s[w] == '.' && forall|k: int| 0 <= k < w ==> s[k] != '.';
    assert(0 <= w < s.len() && s[w] == '.' && (forall|k: int| 0 <= k < w ==> s[k] != '.')) by {
        assert(exists|v: int|
            0 <= v < s.len() && s[v] == '.' && forall|k: int| 0 <= k < v ==> s[k] != '.');
    }
    if w < j {
        assert(s[w] != '.');
    }
    if j < w {
        assert(s[j] != '.');
    }
}

/// Read a digit string's value, bounded by the digit count.
fn digits_to_u64(s: &str) -> (r: Option<u64>)
    requires
        s@.len() <= 18,
    ensures
        match r {
            Some(v) => all_digits(s@) && v as int == digits_value(s@),
            None => !all_digits(s@),
        },
{
    let n: usize = s.unicode_len();
    let mut acc: u64 = 0;
    let mut i: usize = 0;
    while i < n
        invariant
            n == s@.len(),
            n <= 18,
            i <= n,
            forall|k: int| 0 <= k < i ==> is_digit(#[trigger] s@[k]),
            acc as int == digits_value(s@.take(i as int)),
            acc as int <= pow10(i as int) - 1,
        decreases n - i,
    {
        let c = s.get_char(i);
        let d: u64 = match c {
            '0' => 0,
            '1' => 1,
            '2' => 2,
            '3' => 3,
            '4' => 4,
            '5' => 5,
            '6' => 6,
            '7' => 7,
            '8' => 8,
            '9' => 9,
            _ => {
                return None;
            },
        };
        proof {
            assert(is_digit(s@[i as int]));
            assert(d as int == digit_value(s@[i as int]));
            assert(s@.take(i + 1).drop_last() =~= s@.take(i as int));
            assert(s@.take(i + 1).last() == s@[i as int]);
            lemma_pow10_step(i as int);
            assert(acc as int * 10 + d as int <= (pow10(i as int) - 1) * 10 + 9) by (
            nonlinear_arith)
                requires
                    acc as int <= pow10(i as int) - 1,
                    d as int <= 9,
                    pow10(i as int) >= 1,
            ;
            assert((pow10(i as int) - 1) * 10 + 9 == pow10(i + 1) - 1);
            lemma_pow10_mono(i + 1, 18);
            lemma_pow10_bound();
            assert(acc as int * 10 + d as int <= 1_000_000_000_000_000_000 - 1);
        }
        acc = acc * 10 + d;
        i = i + 1;
    }
    proof {
        assert(s@.take(n as int) =~= s@);
    }
    Some(acc)
}

/// Ten to the `k`-th, for the digit-count bounds.
pub open spec fn pow10(k: int) -> int
    decreases k,
{
    if k <= 0 {
        1
    } else {
        10 * pow10(k - 1)
    }
}

proof fn lemma_pow10_mono(a: int, b: int)
    requires
        0 <= a <= b,
    ensures
        pow10(a) <= pow10(b),
    decreases b,
{
    if a < b {
        lemma_pow10_mono(a, b - 1);
        lemma_pow10_step(b - 1);
    }
}

/// A digit string's value is below ten to its length.
proof fn lemma_digits_bound(s: Seq<char>)
    requires
        all_digits(s),
    ensures
        0 <= digits_value(s) <= pow10(s.len() as int) - 1,
    decreases s.len(),
{
    if s.len() == 0 {
    } else {
        assert(all_digits(s.drop_last())) by {
            assert(forall|k: int| 0 <= k < s.len() - 1 ==> s.drop_last()[k] == s[k]);
        }
        lemma_digits_bound(s.drop_last());
        lemma_pow10_step(s.len() - 1);
        assert(digits_value(s.drop_last()) * 10 + digit_value(s.last()) <= (pow10(
            s.len() - 1,
        ) - 1) * 10 + 9) by (nonlinear_arith)
            requires
                digits_value(s.drop_last()) <= pow10(s.len() - 1) - 1,
                digit_value(s.last()) <= 9,
                pow10(s.len() - 1) >= 1,
                digits_value(s.drop_last()) >= 0,
                digit_value(s.last()) >= 0,
        ;
    }
}

proof fn lemma_pow10_step(k: int)
    requires
        0 <= k,
    ensures
        pow10(k + 1) == 10 * pow10(k),
        pow10(k) >= 1,
    decreases k,
{
    if k > 0 {
        lemma_pow10_step(k - 1);
    }
}

proof fn lemma_pow10_bound()
    ensures
        pow10(18) == 1_000_000_000_000_000_000,
{
    reveal_with_fuel(pow10, 20);
    assert(pow10(18) == 1_000_000_000_000_000_000);
}

/// Read a decimal temperature into thousandths.
fn parse_temp(s: &str) -> (r: Option<u32>)
    ensures
        r == spec_parse_temp(s@),
{
    let n: usize = s.unicode_len();
    let dot: usize = char_pos_or_len(s, '.');
    let int_part: &str = s.substring_char(0, dot);
    let frac_part_s: String = if dot < n {
        crate::textutil::substr_copy(s, dot + 1, n)
    } else {
        String::new()
    };
    let frac_part: &str = frac_part_s.as_str();
    proof {
        assert(int_part@ =~= s@.take(dot as int));
        if dot < n {
            assert(frac_part@ =~= s@.skip(dot + 1));
        } else {
            assert(frac_part@ =~= Seq::<char>::empty());
        }
    }
    let il: usize = int_part.unicode_len();
    let fl: usize = frac_part.unicode_len();
    if il == 0 || il > 6 || fl > 3 {
        return None;
    }
    let iv = match digits_to_u64(int_part) {
        Some(v) => v,
        None => {
            return None;
        },
    };
    let fv = match digits_to_u64(frac_part) {
        Some(v) => v,
        None => {
            return None;
        },
    };
    let scale: u64 = if fl == 0 {
        0
    } else if fl == 1 {
        100
    } else if fl == 2 {
        10
    } else {
        1
    };
    proof {
        lemma_pow10_small();
        lemma_digits_bound(int_part@);
        lemma_digits_bound(frac_part@);
        lemma_pow10_mono(int_part@.len() as int, 6);
        lemma_pow10_mono(frac_part@.len() as int, 3);
        assert(iv as int <= pow10(6) - 1);
        assert(fv as int <= pow10(3) - 1);
        assert(iv as int * 1000 <= 999_999_000) by (nonlinear_arith)
            requires
                iv as int <= 999_999,
                iv as int >= 0,
        ;
        assert(fv as int * scale as int <= 999_000) by (nonlinear_arith)
            requires
                fv as int <= 999,
                fv as int >= 0,
                scale as int <= 1000,
                scale as int >= 0,
        ;
    }
    Some((iv * 1000 + fv * scale) as u32)
}

proof fn lemma_pow10_small()
    ensures
        pow10(6) == 1_000_000,
        pow10(3) == 1000,
{
    reveal_with_fuel(pow10, 8);
    assert(pow10(6) == 1_000_000 && pow10(3) == 1000);
}

/// One executable parser step over a payload line.
#[verifier::rlimit(100)]
#[verifier::spinoff_prover]
fn header_step(ex: ExHeader, line: &str, st: Ghost<HeaderState>) -> (r: Option<ExHeader>)
    requires
        exh_matches(ex, st@),
    ensures
        match (r, spec_header_step(st@, line@)) {
            (Some(ex2), Some(st2)) => exh_matches(ex2, st2),
            (None, None) => true,
            _ => false,
        },
{
    proof {
        reveal_strlit("- ");
        reveal_strlit("[]");
        reveal_strlit("outputs");
        reveal_strlit("imports");
        reveal_strlit("model");
        reveal_strlit("language");
        reveal_strlit("provider");
        reveal_strlit("temperature");
        reveal_strlit("seed");
        assert("- "@ =~= seq!['-', ' ']);
        assert("[]"@ =~= seq!['[', ']']);
        assert("outputs"@ =~= seq!['o', 'u', 't', 'p', 'u', 't', 's']);
        assert("imports"@ =~= seq!['i', 'm', 'p', 'o', 'r', 't', 's']);
        assert("model"@ =~= seq!['m', 'o', 'd', 'e', 'l']);
        assert("language"@ =~= seq!['l', 'a', 'n', 'g', 'u', 'a', 'g', 'e']);
        assert("provider"@ =~= seq!['p', 'r', 'o', 'v', 'i', 'd', 'e', 'r']);
        assert("temperature"@ =~= seq![
            't', 'e', 'm', 'p', 'e', 'r', 'a', 't', 'u', 'r', 'e',
        ]);
        assert("seed"@ =~= seq!['s', 'e', 'e', 'd']);
    }
    let trimmed = trim_ws(line);
    let t = trimmed.as_str();
    let t_len: usize = t.unicode_len();
    if t_len == 0 {
        return Some(ex);
    }
    if crate::textutil::starts_with(t, "- ") {
        let item_raw = crate::textutil::substr_copy(t, 2, t_len);
        let item = trim_ws(item_raw.as_str());
        proof {
            assert(item_raw@ =~= t@.skip(2));
        }
        if ex.mode == 1 {
            let mut ex2 = ex;
            let ghost outs0: Seq<String> = ex2.outputs@;
            ex2.outputs.push(item);
            proof {
                assert(crate::sorting::str_views(ex2.outputs@) =~= crate::sorting::str_views(
                    outs0,
                ).push(crate::textutil::spec_trim(t@.skip(2))));
            }
            return Some(ex2);
        }
        if ex.mode == 2 {
            let mut ex2 = ex;
            let ghost imps0: Seq<String> = ex2.imports@;
            ex2.imports.push(item);
            proof {
                assert(crate::sorting::str_views(ex2.imports@) =~= crate::sorting::str_views(
                    imps0,
                ).push(crate::textutil::spec_trim(t@.skip(2))));
            }
            return Some(ex2);
        }
        return None;
    }
    let c: usize = char_pos_or_len(t, ':');
    if c >= t_len {
        return None;
    }
    let key_raw = crate::textutil::substr_copy(t, 0, c);
    let key_s = trim_ws(key_raw.as_str());
    let key = key_s.as_str();
    let value_raw = crate::textutil::substr_copy(t, c + 1, t_len);
    let value = trim_ws(value_raw.as_str());
    let value_len: usize = value.as_str().unicode_len();
    proof {
        assert(key_raw@ =~= t@.take(c as int));
        assert(value_raw@ =~= t@.skip(c + 1));
    }
    if str_eq(key, "outputs") {
        if value_len == 0 {
            return Some(ExHeader { mode: 1, ..ex });
        }
        if str_eq(value.as_str(), "[]") {
            return Some(ExHeader { mode: 0, ..ex });
        }
        return None;
    }
    if str_eq(key, "imports") {
        if value_len == 0 {
            return Some(ExHeader { mode: 2, ..ex });
        }
        if str_eq(value.as_str(), "[]") {
            return Some(ExHeader { mode: 0, ..ex });
        }
        return None;
    }
    if str_eq(key, "model") && ex.mode != 3 && value_len == 0 {
        return Some(ExHeader { mode: 3, saw_model: true, ..ex });
    }
    if str_eq(key, "language") {
        return Some(ExHeader { language: Some(value), mode: 0, ..ex });
    }
    if ex.mode == 3 && str_eq(key, "provider") {
        return Some(ExHeader { provider: Some(value), ..ex });
    }
    if ex.mode == 3 && str_eq(key, "model") {
        return Some(ExHeader { model_name: Some(value), ..ex });
    }
    if ex.mode == 3 && str_eq(key, "temperature") {
        match parse_temp(value.as_str()) {
            Some(v) => {
                return Some(ExHeader { temp: Some(v), ..ex });
            },
            None => {
                return None;
            },
        }
    }
    if ex.mode == 3 && str_eq(key, "seed") {
        let vl: usize = value.as_str().unicode_len();
        if vl == 0 || vl > 18 {
            return None;
        }
        match digits_to_u64(value.as_str()) {
            Some(v) => {
                return Some(ExHeader { seed: Some(v), ..ex });
            },
            None => {
                return None;
            },
        }
    }
    Some(ExHeader { mode: 0, ..ex })
}

/// The initial parser state.
pub open spec fn header_init() -> HeaderState {
    HeaderState {
        outputs: Seq::empty(),
        imports: Seq::empty(),
        language: None,
        provider: None,
        model_name: None,
        temp: None,
        seed: None,
        saw_model: false,
        mode: 0,
    }
}

/// Every declared import carries the prompt-file suffix.
pub open spec fn spec_imports_suffixed(imports: Seq<Seq<char>>) -> bool {
    forall|k: int| 0 <= k < imports.len() ==> spec_ends_with(#[trigger] imports[k], ".prompt.md"@)
}

impl Prompt {
    /// Parse a prompt from its raw text. Header splitting and payload
    /// parsing follow the header grammar exactly; in manifest mode at
    /// least one output must be declared, and every import must carry
    /// the prompt-file suffix. Errors are reported in that order.
    #[verifier::rlimit(100)]
    #[verifier::spinoff_prover]
    pub fn parse(raw: &str, path: String, config: &LitConfig) -> (r: Result<Prompt, PromptError>)
        ensures
            (r matches Ok(p) ==> {
                &&& p.path@ == path@
                &&& p.raw@ == raw@
                &&& p.body@ == spec_body(raw@)
                &&& spec_split_ok(raw@)
                &&& spec_header_ok(spec_payload(raw@))
                &&& fm_matches(p.frontmatter, spec_header_fm(spec_payload(raw@)))
                &&& (config.project.mapping@ == "manifest"@ ==> p.frontmatter.outputs@.len() > 0)
                &&& spec_imports_suffixed(crate::sorting::str_views(p.frontmatter.imports@))
            }),
            (r is Ok) == (spec_split_ok(raw@) && spec_header_ok(spec_payload(raw@)) && (
            config.project.mapping@ == "manifest"@ ==> spec_header_fm(
                spec_payload(raw@),
            ).outputs.len() > 0) && spec_imports_suffixed(
                spec_header_fm(spec_payload(raw@)).imports,
            )),
            !crate::textutil::spec_starts_with(
                crate::textutil::spec_trim_start(raw@),
                seq!['-', '-', '-'],
            ) ==> r matches Err(PromptError::HeaderMissing),
            crate::textutil::spec_starts_with(
                crate::textutil::spec_trim_start(raw@),
                seq!['-', '-', '-'],
            ) && !spec_split_ok(raw@) ==> r matches Err(PromptError::HeaderUnterminated),
            spec_split_ok(raw@) && !spec_header_ok(spec_payload(raw@)) ==> r matches Err(
                PromptError::HeaderMalformed,
            ),
            spec_split_ok(raw@) && spec_header_ok(spec_payload(raw@)) && config.project.mapping@
                == "manifest"@ && spec_header_fm(spec_payload(raw@)).outputs.len() == 0
                ==> r matches Err(PromptError::NoOutputsInManifestMode),
    {
        let (payload, body) = match split_frontmatter(raw) {
            Ok(pb) => pb,
            Err(e) => {
                return Err(e);
            },
        };
        let ls = crate::lines::split_lines(payload.as_str());
        let n: usize = ls.len();
        proof {
            assert(str_views(ls@) == crate::lines::spec_lines(payload@));
        }
        let mut ex = ExHeader {
            outputs: Vec::new(),
            imports: Vec::new(),
            language: None,
            provider: None,
            model_name: None,
            temp: None,
            seed: None,
            saw_model: false,
            mode: 0,
        };
        proof {
            assert(crate::sorting::str_views(ex.outputs@) =~= Seq::<Seq<char>>::empty());
            assert(crate::sorting::str_views(ex.imports@) =~= Seq::<Seq<char>>::empty());
            assert(exh_matches(ex, header_init()));
            assert(spec_header_state(str_views(ls@), 0) == Some(header_init()));
        }
        let mut i: usize = 0;
        while i < n
            invariant
                n == ls@.len(),
                i <= n,
                spec_split_ok(raw@),
                payload@ == spec_payload(raw@),
                str_views(ls@) == crate::lines::spec_lines(payload@),
                spec_header_state(str_views(ls@), i as int) is Some,
                exh_matches(ex, spec_header_state(str_views(ls@), i as int).unwrap()),
            decreases n - i,
        {
            let ghost st: HeaderState = spec_header_state(str_views(ls@), i as int).unwrap();
            let stepped = header_step(ex, ls[i].as_str(), Ghost(st));
            proof {
                assert(str_views(ls@)[i as int] == ls@[i as int]@);
            }
            match stepped {
                Some(ex2) => {
                    ex = ex2;
                },
                None => {
                    proof {
                        assert(spec_header_state(str_views(ls@), i + 1) is None);
                        lemma_header_state_none(str_views(ls@), i + 1, n as int);
                    }
                    return Err(PromptError::HeaderMalformed);
                },
            }
            i = i + 1;
        }
        // The model block, once opened, must carry its required keys.
        let model_cfg: Option<ModelConfig> = if ex.saw_model {
            match (ex.provider, ex.model_name, ex.temp) {
                (Some(provider), Some(model_name), Some(temp)) => Some(
                    ModelConfig {
                        provider,
                        model: model_name,
                        temperature_milli: temp,
                        seed: ex.seed,
                        api: None,
                        pricing: None,
                    },
                ),
                _ => {
                    return Err(PromptError::HeaderMalformed);
                },
            }
        } else {
            None
        };
        // Manifest mode requires declared outputs.
        if config.is_manifest_mode() && ex.outputs.len() == 0 {
            return Err(PromptError::NoOutputsInManifestMode);
        }
        // Every import must name a prompt file.
        let im: usize = ex.imports.len();
        let mut k: usize = 0;
        while k < im
            invariant
                im == ex.imports@.len(),
                k <= im,
                spec_split_ok(raw@),
                spec_header_ok(spec_payload(raw@)),
                crate::sorting::str_views(ex.imports@) == spec_header_fm(
                    spec_payload(raw@),
                ).imports,
                config.project.mapping@ == "manifest"@ ==> spec_header_fm(
                    spec_payload(raw@),
                ).outputs.len() > 0,
                forall|t: int|
                    0 <= t < k ==> spec_ends_with(
                        crate::sorting::str_views(ex.imports@)[t],
                        ".prompt.md"@,
                    ),
            decreases im - k,
        {
            if !is_prompt_file(ex.imports[k].as_str()) {
                proof {
                    assert(crate::sorting::str_views(ex.imports@)[k as int] == ex.imports@[
                        k as int
                    ]@);
                }
                return Err(
                    PromptError::InvalidImportExtension(
                        crate::textutil::str_copy(ex.imports[k].as_str()),
                    ),
                );
            }
            proof {
                assert(crate::sorting::str_views(ex.imports@)[k as int] == ex.imports@[
                    k as int
                ]@);
            }
            k = k + 1;
        }
        let frontmatter = PromptFrontmatter {
            outputs: ex.outputs,
            imports: ex.imports,
            model: model_cfg,
            language: ex.language,
        };
        let prompt = Prompt { path, frontmatter, body, raw: crate::textutil::str_copy(raw) };
        proof {
            assert(str_views(ls@).len() == n as int);
            assert(spec_header_fm(spec_payload(raw@)) == spec_header_state(
                str_views(ls@),
                n as int,
            ).unwrap());
        }
        Ok(prompt)
    }
}

/// Once a line rejects, the whole payload rejects.
proof fn lemma_header_state_none(lines: Seq<Seq<char>>, from: int, to: int)
    requires
        0 <= from <= to <= lines.len(),
        spec_header_state(lines, from) is None,
    ensures
        spec_header_state(lines, to) is None,
    decreases to - from,
{
    if from < to {
        assert(spec_header_state(lines, from + 1) is None);
        lemma_header_state_none(lines, from + 1, to);
    }
}

impl Prompt {
    /// The inline `@import(...)` references found in this prompt's body.
    pub fn body_imports(&self) -> (r: Vec<String>)
        ensures
            str_views(r@) == spec_body_imports(self.body@),
    {
        extract_body_imports(self.body.as_str())
    }
}

} // verus!
