//! Line-level diffing and the three-way merge walk. The line diff itself
//! comes from an outside differ behind trusted wrappers; the change-range
//! computation, the overlap test and the merge walk are verified here.

use vstd::prelude::*;
use crate::lines::{spec_join, join_lines};

verus! {

/// One step of a line diff: the line was kept, removed from the old text,
/// or inserted by the new text.
#[derive(Debug)]
pub enum DiffTag {
    Equal,
    Delete,
    Insert,
}

/// The tag sequence that the line differ produces for the two texts. It
/// depends on the texts alone.
pub uninterp spec fn diff_tags_of(old: Seq<char>, new: Seq<char>) -> Seq<DiffTag>;

/// Relies on similar::TextDiff::from_lines and iter_all_changes: one tag
/// per diff step over the two texts' lines.
#[verifier::external_body]
pub(crate) fn diff_line_tags(old_text: &str, new_text: &str) -> (r: Vec<DiffTag>)
    ensures
        r@ == diff_tags_of(old_text@, new_text@),
{
    let diff = similar::TextDiff::from_lines(old_text, new_text);
    let mut tags: Vec<DiffTag> = Vec::new();
    for change in diff.iter_all_changes() {
        tags.push(
            match change.tag() {
                similar::ChangeTag::Equal => DiffTag::Equal,
                similar::ChangeTag::Delete => DiffTag::Delete,
                similar::ChangeTag::Insert => DiffTag::Insert,
            },
        );
    }
    tags
}

/// The display diff that the differ renders for the two texts under the
/// given header name. It depends on its arguments alone.
pub uninterp spec fn unified_diff_of(old: Seq<char>, new: Seq<char>, name: Seq<char>) -> Seq<char>;

/// Relies on similar's unified diff formatter, with three context lines
/// and `a/<name>`, `b/<name>` headers.
#[verifier::external_body]
pub(crate) fn unified_diff_text(old_text: &str, new_text: &str, name: &str) -> (r: String)
    ensures
        r@ == unified_diff_of(old_text@, new_text@, name@),
{
    let diff = similar::TextDiff::from_lines(old_text, new_text);
    diff.unified_diff().context_radius(3).header(
        &format!("a/{}", name),
        &format!("b/{}", name),
    ).to_string()
}

/// A contiguous range of changed lines, keyed by position in the original
/// text: `start` inclusive, `end` exclusive.
#[derive(Debug)]
pub struct LineChange {
    pub start: usize,
    pub end: usize,
}

/// The range-accumulation state after consuming a prefix of the tags: the
/// finished ranges, the open range if any, and the original-line counter.
pub open spec fn spec_change_state(tags: Seq<DiffTag>, i: int) -> (
    Seq<(int, int)>,
    Option<(int, int)>,
    int,
)
    decreases i,
{
    if i <= 0 {
        (Seq::empty(), None, 0)
    } else {
        let (changes, current, orig_line) = spec_change_state(tags, i - 1);
        match tags[i - 1] {
            DiffTag::Equal => (
                match current {
                    Some(range) => changes.push(range),
                    None => changes,
                },
                None,
                orig_line + 1,
            ),
            DiffTag::Delete => (
                changes,
                match current {
                    Some(range) => Some((range.0, orig_line + 1)),
                    None => Some((orig_line, orig_line + 1)),
                },
                orig_line + 1,
            ),
            DiffTag::Insert => (
                changes,
                match current {
                    Some(range) => Some((range.0, if orig_line > range.1 {
                        orig_line
                    } else {
                        range.1
                    })),
                    None => Some((orig_line, orig_line)),
                },
                orig_line,
            ),
        }
    }
}

/// The changed line ranges that a tag sequence describes: consecutive
/// deletions and insertions fuse into one range keyed by original-line
/// position.
pub open spec fn spec_line_changes(tags: Seq<DiffTag>) -> Seq<(int, int)> {
    let (changes, current, _) = spec_change_state(tags, tags.len() as int);
    match current {
        Some(range) => changes.push(range),
        None => changes,
    }
}

/// Ranges of `r` as view pairs.
pub open spec fn change_views(cs: Seq<LineChange>) -> Seq<(int, int)> {
    cs.map_values(|c: LineChange| (c.start as int, c.end as int))
}

/// Collect the contiguous changed-line ranges from a diff tag sequence.
pub fn collect_line_changes(tags: &Vec<DiffTag>) -> (r: Vec<LineChange>)
    ensures
        change_views(r@) == spec_line_changes(tags@),
{
    let n: usize = tags.len();
    let mut changes: Vec<LineChange> = Vec::new();
    let mut current: Option<LineChange> = None;
    let mut orig_line: usize = 0;
    let mut i: usize = 0;
    while i < n
        invariant
            n == tags@.len(),
            i <= n,
            orig_line <= i,
            (match current {
                Some(c) => c.start <= c.end <= orig_line + 1 && Some((
                    c.start as int,
                    c.end as int,
                )) == spec_change_state(tags@, i as int).1,
                None => spec_change_state(tags@, i as int).1 is None,
            }),
            change_views(changes@) == spec_change_state(tags@, i as int).0,
            orig_line as int == spec_change_state(tags@, i as int).2,
        decreases n - i,
    {
        let ghost pre: Seq<(int, int)> = change_views(changes@);
        match tags[i] {
            DiffTag::Equal => {
                match current {
                    Some(range) => {
                        changes.push(range);
                        proof {
                            assert(change_views(changes@) =~= pre.push(
                                spec_change_state(tags@, i as int).1.unwrap(),
                            ));
                        }
                    },
                    None => {},
                }
                current = None;
                orig_line = orig_line + 1;
            },
            DiffTag::Delete => {
                current = match current {
                    Some(range) => Some(LineChange { start: range.start, end: orig_line + 1 }),
                    None => Some(LineChange { start: orig_line, end: orig_line + 1 }),
                };
                orig_line = orig_line + 1;
            },
            DiffTag::Insert => {
                current = match current {
                    Some(range) => Some(
                        LineChange {
                            start: range.start,
                            end: if orig_line > range.end {
                                orig_line
                            } else {
                                range.end
                            },
                        },
                    ),
                    None => Some(LineChange { start: orig_line, end: orig_line }),
                };
            },
        }
        i = i + 1;
    }
    match current {
        Some(range) => {
            let ghost pre: Seq<(int, int)> = change_views(changes@);
            changes.push(range);
            proof {
                assert(change_views(changes@) =~= pre.push(
                    spec_change_state(tags@, n as int).1.unwrap(),
                ));
            }
        },
        None => {},
    }
    changes
}

/// Two ranges overlap when each starts before the other ends.
pub open spec fn spec_ranges_overlap(a: (int, int), b: (int, int)) -> bool {
    a.0 < b.1 && b.0 < a.1
}

pub fn ranges_overlap(a: &LineChange, b: &LineChange) -> (r: bool)
    ensures
        r == spec_ranges_overlap((a.start as int, a.end as int), (b.start as int, b.end as int)),
{
    a.start < b.end && b.start < a.end
}

/// Some user range overlaps some model range.
pub open spec fn spec_any_overlap(us: Seq<(int, int)>, ms: Seq<(int, int)>) -> bool {
    exists|a: int, b: int|
        0 <= a < us.len() && 0 <= b < ms.len() && spec_ranges_overlap(us[a], ms[b])
}

pub fn any_overlap(us: &Vec<LineChange>, ms: &Vec<LineChange>) -> (r: bool)
    ensures
        r == spec_any_overlap(change_views(us@), change_views(ms@)),
{
    let un: usize = us.len();
    let mn: usize = ms.len();
    let mut a: usize = 0;
    while a < un
        invariant
            un == us@.len(),
            mn == ms@.len(),
            a <= un,
            forall|x: int, y: int|
                0 <= x < a && 0 <= y < mn ==> !spec_ranges_overlap(
                    #[trigger] change_views(us@)[x],
                    #[trigger] change_views(ms@)[y],
                ),
        decreases un - a,
    {
        let mut b: usize = 0;
        while b < mn
            invariant
                un == us@.len(),
                mn == ms@.len(),
                a < un,
                b <= mn,
                forall|x: int, y: int|
                    0 <= x < a && 0 <= y < mn ==> !spec_ranges_overlap(
                        #[trigger] change_views(us@)[x],
                        #[trigger] change_views(ms@)[y],
                    ),
                forall|y: int|
                    0 <= y < b ==> !spec_ranges_overlap(
                        change_views(us@)[a as int],
                        #[trigger] change_views(ms@)[y],
                    ),
            decreases mn - b,
        {
            if ranges_overlap(&us[a], &ms[b]) {
                proof {
                    assert(change_views(us@)[a as int] == (us@[a as int].start as int, us@[
                        a as int
                    ].end as int));
                    assert(change_views(ms@)[b as int] == (ms@[b as int].start as int, ms@[
                        b as int
                    ].end as int));
                }
                return true;
            }
            proof {
                assert(change_views(us@)[a as int] == (us@[a as int].start as int, us@[
                    a as int
                ].end as int));
                assert(change_views(ms@)[b as int] == (ms@[b as int].start as int, ms@[
                    b as int
                ].end as int));
            }
            b = b + 1;
        }
        a = a + 1;
    }
    false
}

/// The merged line sequence of the three-way walk, from position
/// `(oi, mi, ni)` on: at each aligned position the changed side wins;
/// trailing additions are appended; a manual deletion of lines the model
/// kept drops them.
pub open spec fn spec_merge_lines(
    o: Seq<Seq<char>>,
    m: Seq<Seq<char>>,
    n: Seq<Seq<char>>,
    oi: int,
    mi: int,
    ni: int,
) -> Seq<Seq<char>>
    decreases o.len() + m.len() + n.len() - oi - mi - ni when 0 <= oi <= o.len() && 0 <= mi <= m.len() && 0 <= ni <= n.len()
{
    if oi < o.len() && mi < m.len() && ni < n.len() {
        let pick = if o[oi] == n[ni] && o[oi] != m[mi] {
            m[mi]
        } else {
            n[ni]
        };
        seq![pick] + spec_merge_lines(o, m, n, oi + 1, mi + 1, ni + 1)
    } else if oi >= o.len() && mi < m.len() && ni >= n.len() {
        seq![m[mi]] + spec_merge_lines(o, m, n, oi, mi + 1, ni)
    } else if oi >= o.len() && mi >= m.len() && ni < n.len() {
        seq![n[ni]] + spec_merge_lines(o, m, n, oi, mi, ni + 1)
    } else if oi < o.len() && mi < m.len() && ni >= n.len() {
        seq![m[mi]] + spec_merge_lines(o, m, n, oi + 1, mi + 1, ni)
    } else if oi < o.len() && mi >= m.len() && ni < n.len() {
        spec_merge_lines(o, m, n, oi + 1, mi, ni + 1)
    } else if oi >= o.len() && mi < m.len() && ni < n.len() {
        seq![m[mi]] + spec_merge_lines(o, m, n, oi, mi + 1, ni + 1)
    } else {
        Seq::empty()
    }
}

/// The full merged text: the walked lines joined with newlines, ending
/// with exactly one final newline.
pub open spec fn spec_merge_text(
    o: Seq<Seq<char>>,
    m: Seq<Seq<char>>,
    n: Seq<Seq<char>>,
) -> Seq<char> {
    let joined = spec_join(spec_merge_lines(o, m, n, 0, 0, 0));
    if joined.len() > 0 && joined.last() == '\n' {
        joined
    } else {
        joined + seq!['\n']
    }
}

/// Walk the three line lists and merge the non-conflicting edits.
pub fn merge_non_conflicting(
    original: &Vec<String>,
    manual: &Vec<String>,
    new_gen: &Vec<String>,
) -> (r: String)
    ensures
        r@ == spec_merge_text(
            crate::sorting::str_views(original@),
            crate::sorting::str_views(manual@),
            crate::sorting::str_views(new_gen@),
        ),
{
    let ghost o: Seq<Seq<char>> = crate::sorting::str_views(original@);
    let ghost m: Seq<Seq<char>> = crate::sorting::str_views(manual@);
    let ghost n: Seq<Seq<char>> = crate::sorting::str_views(new_gen@);
    let mut result_lines: Vec<String> = Vec::new();
    let mut oi: usize = 0;
    let mut mi: usize = 0;
    let mut ni: usize = 0;
    let olen: usize = original.len();
    let mlen: usize = manual.len();
    let nlen: usize = new_gen.len();
    let mut stopped = false;
    while !stopped && (oi < olen || mi < mlen || ni < nlen)
        invariant
            stopped ==> (oi < olen && mi >= mlen && ni >= nlen),
            o == crate::sorting::str_views(original@),
            m == crate::sorting::str_views(manual@),
            n == crate::sorting::str_views(new_gen@),
            olen == o.len(),
            mlen == m.len(),
            nlen == n.len(),
            oi <= olen,
            mi <= mlen,
            ni <= nlen,
            crate::sorting::str_views(result_lines@) + spec_merge_lines(
                o,
                m,
                n,
                oi as int,
                mi as int,
                ni as int,
            ) == spec_merge_lines(o, m, n, 0, 0, 0),
        decreases olen + mlen + nlen - oi - mi - ni + if stopped {
            0int
        } else {
            1int
        },
    {
        let ghost done: Seq<Seq<char>> = crate::sorting::str_views(result_lines@);
        if oi < olen && mi < mlen && ni < nlen {
            let o_line = &original[oi];
            let m_line = &manual[mi];
            let n_line = &new_gen[ni];
            let o_eq_n = crate::textutil::str_eq(o_line.as_str(), n_line.as_str());
            let o_eq_m = crate::textutil::str_eq(o_line.as_str(), m_line.as_str());
            if o_eq_n && !o_eq_m {
                result_lines.push(crate::textutil::str_copy(m_line.as_str()));
            } else {
                result_lines.push(crate::textutil::str_copy(n_line.as_str()));
            }
            proof {
                assert(crate::sorting::str_views(result_lines@) =~= done.push(
                    crate::sorting::str_views(result_lines@).last(),
                ));
                assert(seq![crate::sorting::str_views(result_lines@).last()]
                    + spec_merge_lines(o, m, n, oi + 1, mi + 1, ni + 1) =~= spec_merge_lines(
                    o,
                    m,
                    n,
                    oi as int,
                    mi as int,
                    ni as int,
                ));
                assert(crate::sorting::str_views(result_lines@) + spec_merge_lines(
                    o,
                    m,
                    n,
                    oi + 1,
                    mi + 1,
                    ni + 1,
                ) =~= spec_merge_lines(o, m, n, 0, 0, 0));
            }
            oi = oi + 1;
            mi = mi + 1;
            ni = ni + 1;
        } else if oi >= olen && mi < mlen && ni >= nlen {
            result_lines.push(crate::textutil::str_copy(manual[mi].as_str()));
            proof {
                assert(crate::sorting::str_views(result_lines@) =~= done.push(m[mi as int]));
                assert(crate::sorting::str_views(result_lines@) + spec_merge_lines(
                    o,
                    m,
                    n,
                    oi as int,
                    mi + 1,
                    ni as int,
                ) =~= spec_merge_lines(o, m, n, 0, 0, 0));
            }
            mi = mi + 1;
        } else if oi >= olen && mi >= mlen && ni < nlen {
            result_lines.push(crate::textutil::str_copy(new_gen[ni].as_str()));
            proof {
                assert(crate::sorting::str_views(result_lines@) =~= done.push(n[ni as int]));
                assert(crate::sorting::str_views(result_lines@) + spec_merge_lines(
                    o,
                    m,
                    n,
                    oi as int,
                    mi as int,
                    ni + 1,
                ) =~= spec_merge_lines(o, m, n, 0, 0, 0));
            }
            ni = ni + 1;
        } else if oi < olen && mi < mlen && ni >= nlen {
            result_lines.push(crate::textutil::str_copy(manual[mi].as_str()));
            proof {
                assert(crate::sorting::str_views(result_lines@) =~= done.push(m[mi as int]));
                assert(crate::sorting::str_views(result_lines@) + spec_merge_lines(
                    o,
                    m,
                    n,
                    oi + 1,
                    mi + 1,
                    ni as int,
                ) =~= spec_merge_lines(o, m, n, 0, 0, 0));
            }
            oi = oi + 1;
            mi = mi + 1;
        } else if oi < olen && mi >= mlen && ni < nlen {
            proof {
                assert(done + spec_merge_lines(o, m, n, oi + 1, mi as int, ni + 1)
                    =~= spec_merge_lines(o, m, n, 0, 0, 0));
            }
            oi = oi + 1;
            ni = ni + 1;
        } else if oi >= olen && mi < mlen && ni < nlen {
            result_lines.push(crate::textutil::str_copy(manual[mi].as_str()));
            proof {
                assert(crate::sorting::str_views(result_lines@) =~= done.push(m[mi as int]));
                assert(crate::sorting::str_views(result_lines@) + spec_merge_lines(
                    o,
                    m,
                    n,
                    oi as int,
                    mi + 1,
                    ni + 1,
                ) =~= spec_merge_lines(o, m, n, 0, 0, 0));
            }
            mi = mi + 1;
            ni = ni + 1;
        } else {
            // Lines remain in the original while both edited texts are
            // exhausted: the walk stops here, as the emitters do.
            stopped = true;
        }
    }
    proof {
        assert(spec_merge_lines(o, m, n, oi as int, mi as int, ni as int)
            =~= Seq::<Seq<char>>::empty());
        assert(crate::sorting::str_views(result_lines@) =~= spec_merge_lines(o, m, n, 0, 0, 0));
    }
    let mut out = join_lines(&result_lines);
    let out_len: usize = out.as_str().unicode_len();
    let needs_nl = if out_len == 0 {
        true
    } else {
        out.as_str().get_char(out_len - 1) != '\n'
    };
    if needs_nl {
        proof {
            reveal_strlit("\n");
            assert("\n"@ =~= seq!['\n']);
        }
        out.append("\n");
    }
    out
}

/// The law of the aligned three-way walk: when the three texts have
/// equally many lines and no line was changed by both sides, the merge
/// keeps every manual edit and every model edit, and leaves untouched
/// lines alone.
pub proof fn lemma_merge_keeps_edits(
    o: Seq<Seq<char>>,
    m: Seq<Seq<char>>,
    n: Seq<Seq<char>>,
    oi: int,
)
    requires
        o.len() == m.len() && o.len() == n.len(),
        0 <= oi <= o.len(),
        forall|i: int| 0 <= i < o.len() ==> !(m[i] != o[i] && #[trigger] n[i] != o[i]),
    ensures
        spec_merge_lines(o, m, n, oi, oi, oi).len() == o.len() - oi,
        forall|i: int|
            oi <= i < o.len() ==> #[trigger] spec_merge_lines(o, m, n, oi, oi, oi)[i - oi] == (
            if m[i] != o[i] {
                m[i]
            } else if n[i] != o[i] {
                n[i]
            } else {
                o[i]
            }),
    decreases o.len() - oi,
{
    if oi < o.len() {
        lemma_merge_keeps_edits(o, m, n, oi + 1);
        assert forall|i: int|
            oi <= i < o.len() implies #[trigger] spec_merge_lines(o, m, n, oi, oi, oi)[i - oi]
            == (if m[i] != o[i] {
            m[i]
        } else if n[i] != o[i] {
            n[i]
        } else {
            o[i]
        }) by {
            let pickv = if o[oi] == n[oi] && o[oi] != m[oi] {
                m[oi]
            } else {
                n[oi]
            };
            let rest = spec_merge_lines(o, m, n, oi + 1, oi + 1, oi + 1);
            assert(spec_merge_lines(o, m, n, oi, oi, oi) == seq![pickv] + rest);
            assert(rest.len() == o.len() - oi - 1);
            if i == oi {
                assert(spec_merge_lines(o, m, n, oi, oi, oi)[0] == (if o[oi] == n[oi] && o[oi]
                    != m[oi] {
                    m[oi]
                } else {
                    n[oi]
                }));
                if m[oi] != o[oi] {
                    assert(!(m[oi] != o[oi] && n[oi] != o[oi]));
                    assert(n[oi] == o[oi]);
                } else if n[oi] != o[oi] {
                    assert(!(o[oi] == n[oi] && o[oi] != m[oi]));
                }
            } else {
                assert(spec_merge_lines(o, m, n, oi, oi, oi)[i - oi] == rest[i - oi - 1]);
                assert(rest[i - oi - 1] == rest[i - (oi + 1)]);
                assert(spec_merge_lines(o, m, n, oi + 1, oi + 1, oi + 1)[i - (oi + 1)] == (
                if m[i] != o[i] {
                    m[i]
                } else if n[i] != o[i] {
                    n[i]
                } else {
                    o[i]
                }));
            }
        }
    }
}

} // verus!
