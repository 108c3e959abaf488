//! Verified splitting of text into lines and joining lines back into text.
//! A line is a maximal run of characters not containing `'\n'`; the final
//! line of a newline-terminated text is not followed by an empty piece,
//! mirroring how line iteration in Rust behaves.

use vstd::prelude::*;

verus! {

/// All pieces of `s` delimited by `'\n'`, including a trailing empty piece
/// when `s` ends with a newline (or is empty).
pub open spec fn split_all(s: Seq<char>) -> Seq<Seq<char>>
    decreases s.len(),
{
    if s.len() == 0 {
        seq![Seq::<char>::empty()]
    } else {
        let rest = split_all(s.drop_first());
        if s[0] == '\n' {
            seq![Seq::<char>::empty()] + rest
        } else {
            seq![seq![s[0]] + rest[0]] + rest.drop_first()
        }
    }
}

pub proof fn lemma_split_all_nonempty(s: Seq<char>)
    ensures
        split_all(s).len() >= 1,
    decreases s.len(),
{
    if s.len() > 0 {
        lemma_split_all_nonempty(s.drop_first());
    }
}

/// The lines of `s`: the split pieces, with the trailing empty piece of a
/// newline-terminated text dropped, and no line at all for empty text.
pub open spec fn spec_lines(s: Seq<char>) -> Seq<Seq<char>> {
    if s.len() == 0 {
        Seq::empty()
    } else if s.last() == '\n' {
        split_all(s).drop_last()
    } else {
        split_all(s)
    }
}

/// If the first `i` characters of `s` hold no newline and `s[i] == '\n'`,
/// splitting takes `s[..i]` as the first piece and recurses after it.
proof fn lemma_split_all_step(s: Seq<char>, i: int)
    requires
        0 <= i < s.len(),
        s[i] == '\n',
        forall|k: int| 0 <= k < i ==> s[k] != '\n',
    ensures
        split_all(s) == seq![s.subrange(0, i)] + split_all(s.subrange(i + 1, s.len() as int)),
    decreases i,
{
    lemma_split_all_nonempty(s.drop_first());
    if i == 0 {
        assert(s.subrange(0, 0) =~= Seq::<char>::empty());
        assert(s.subrange(1, s.len() as int) =~= s.drop_first());
        assert(split_all(s) =~= seq![s.subrange(0, 0)] + split_all(
            s.subrange(1, s.len() as int),
        ));
    } else {
        let t = s.drop_first();
        assert(t[i - 1] == '\n');
        assert(forall|k: int| 0 <= k < i - 1 ==> t[k] == s[k + 1] && t[k] != '\n');
        lemma_split_all_step(t, i - 1);
        let rest = split_all(t);
        assert(rest == seq![t.subrange(0, i - 1)] + split_all(t.subrange(i, t.len() as int)));
        assert(t.subrange(i, t.len() as int) =~= s.subrange(i + 1, s.len() as int));
        assert(rest[0] == t.subrange(0, i - 1));
        assert(seq![s[0]] + rest[0] =~= s.subrange(0, i));
        assert(rest.drop_first() =~= split_all(s.subrange(i + 1, s.len() as int)));
        assert(split_all(s) =~~= seq![s.subrange(0, i)] + split_all(s.subrange(i + 1, s.len() as int)));
    }
}

/// Splitting a text with no newline yields that text as the one piece.
proof fn lemma_split_all_whole(s: Seq<char>)
    requires
        forall|k: int| 0 <= k < s.len() ==> s[k] != '\n',
    ensures
        split_all(s) == seq![s],
    decreases s.len(),
{
    if s.len() == 0 {
        assert(split_all(s) =~~= seq![s]);
    } else {
        lemma_split_all_whole(s.drop_first());
        assert(seq![s[0]] + s.drop_first() =~= s);
        assert(split_all(s) =~~= seq![s]);
    }
}

/// The lines of `s`, as fresh strings.
pub fn split_lines(s: &str) -> (r: Vec<String>)
    ensures
        r@.map_values(|x: String| x@) == spec_lines(s@),
{
    let s_len: usize = s.unicode_len();
    let mut pieces: Vec<String> = Vec::new();
    let mut pos: usize = 0;
    if s_len == 0 {
        assert(pieces@.map_values(|x: String| x@) =~= spec_lines(s@));
        return pieces;
    }
    proof {
        assert(s@.subrange(0, s_len as int) =~= s@);
    }
    while pos < s_len
        invariant
            s_len == s@.len(),
            0 < s_len,
            pos <= s_len,
            pos > 0 ==> s@[pos - 1] == '\n',
            pieces@.map_values(|x: String| x@) + split_all(s@.subrange(pos as int, s_len as int))
                =~= split_all(s@),
        decreases s_len - pos,
    {
        let tail_ghost: Ghost<Seq<char>> = Ghost(s@.subrange(pos as int, s_len as int));
        match crate::textutil::find_char_from(s, '\n', pos) {
            Some(nl) => {
                let piece = crate::textutil::substr_copy(s, pos, nl);
                proof {
                    assert(forall|k: int|
                        0 <= k < nl - pos ==> tail_ghost@[k] == s@[pos + k] && tail_ghost@[k]
                            != '\n');
                    assert(tail_ghost@[nl - pos] == '\n');
                    lemma_split_all_step(tail_ghost@, nl - pos);
                    assert(tail_ghost@.subrange(0, nl - pos) =~= s@.subrange(
                        pos as int,
                        nl as int,
                    ));
                    assert(tail_ghost@.subrange(nl - pos + 1, tail_ghost@.len() as int) =~= s@
                        .subrange(nl + 1, s_len as int));
                }
                pieces.push(piece);
                proof {
                    assert(pieces@.map_values(|x: String| x@) =~= pieces@.map_values(
                        |x: String| x@,
                    ).drop_last() + seq![s@.subrange(pos as int, nl as int)]);
                    assert(pieces@.map_values(|x: String| x@) + split_all(
                        s@.subrange(nl + 1, s_len as int),
                    ) =~= split_all(s@));
                }
                pos = nl + 1;
            },
            None => {
                // No newline remains: the rest of the text is the last line,
                // and the text does not end with a newline.
                let piece = crate::textutil::substr_copy(s, pos, s_len);
                proof {
                    assert(forall|k: int|
                        0 <= k < tail_ghost@.len() ==> tail_ghost@[k] == s@[pos + k]
                            && tail_ghost@[k] != '\n');
                    lemma_split_all_whole(tail_ghost@);
                }
                pieces.push(piece);
                proof {
                    assert(pieces@.map_values(|x: String| x@) =~= pieces@.map_values(
                        |x: String| x@,
                    ).drop_last() + seq![tail_ghost@]);
                    assert(pieces@.map_values(|x: String| x@) =~= split_all(s@));
                    assert(s@.last() == tail_ghost@[tail_ghost@.len() - 1]);
                    assert(s@.last() != '\n');
                }
                return pieces;
            },
        }
    }
    proof {
        assert(s@[pos - 1] == '\n');
        assert(s@.last() == '\n');
        assert(s@.subrange(s_len as int, s_len as int) =~= Seq::<char>::empty());
        assert(split_all(s@.subrange(s_len as int, s_len as int)) =~= seq![
            Seq::<char>::empty(),
        ]);
        assert(pieces@.map_values(|x: String| x@) + seq![Seq::<char>::empty()] =~= split_all(s@));
        assert(pieces@.map_values(|x: String| x@) =~= split_all(s@).drop_last());
    }
    pieces
}


/// The pieces joined with `'\n'` between consecutive pieces.
pub open spec fn spec_join(ls: Seq<Seq<char>>) -> Seq<char>
    decreases ls.len(),
{
    if ls.len() == 0 {
        Seq::empty()
    } else if ls.len() == 1 {
        ls[0]
    } else {
        ls[0] + seq!['\n'] + spec_join(ls.drop_first())
    }
}

/// Appending one more line extends the join by a separator and that line.
pub proof fn lemma_join_push(ls: Seq<Seq<char>>, x: Seq<char>)
    ensures
        ls.len() == 0 ==> spec_join(ls.push(x)) == x,
        ls.len() > 0 ==> spec_join(ls.push(x)) == spec_join(ls) + seq!['\n'] + x,
    decreases ls.len(),
{
    if ls.len() == 0 {
        assert(spec_join(ls.push(x)) == ls.push(x)[0]);
        assert(ls.push(x)[0] == x);
    } else if ls.len() == 1 {
        assert(ls.push(x).drop_first() =~= ls.drop_first().push(x));
        lemma_join_push(ls.drop_first(), x);
    } else {
        assert(ls.push(x).drop_first() =~= ls.drop_first().push(x));
        lemma_join_push(ls.drop_first(), x);
        assert(spec_join(ls.push(x)) == ls[0] + seq!['\n'] + spec_join(ls.drop_first().push(x)));
        assert(spec_join(ls.push(x)) =~= spec_join(ls) + seq!['\n'] + x);
    }
}

/// Join lines with `'\n'`, as the line-walk emitters do.
pub fn join_lines(ls: &Vec<String>) -> (r: String)
    ensures
        r@ == spec_join(ls@.map_values(|x: String| x@)),
{
    let mut out = String::new();
    let n: usize = ls.len();
    let mut i: usize = 0;
    while i < n
        invariant
            n == ls@.len(),
            i <= n,
            out@ == spec_join(ls@.map_values(|x: String| x@).take(i as int)),
        decreases n - i,
    {
        let prefix_ghost: Ghost<Seq<Seq<char>>> = Ghost(
            ls@.map_values(|x: String| x@).take(i as int),
        );
        proof {
            reveal_strlit("\n");
        }
        if i > 0 {
            out.append("\n");
        }
        out.append(ls[i].as_str());
        proof {
            assert("\n"@ =~= seq!['\n']);
            lemma_join_push(prefix_ghost@, ls@[i as int]@);
            assert(prefix_ghost@.push(ls@[i as int]@) =~= ls@.map_values(|x: String| x@).take(
                i + 1,
            ));
            if i == 0 {
                assert(prefix_ghost@.len() == 0);
                assert(out@ =~= ls@[0]@);
            }
        }
        i = i + 1;
    }
    proof {
        assert(ls@.map_values(|x: String| x@).take(n as int) =~= ls@.map_values(|x: String| x@));
    }
    out
}

} // verus!
