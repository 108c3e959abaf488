//! Verified insertion sorts for path strings and for (path, fingerprint)
//! pairs, ordered lexicographically. Sorted order is the determinism
//! primitive of the whole engine: queue seeding, import canonicalization
//! and listing all go through these. The order lives on the character
//! sequences behind the strings, where it is a total order.

use vstd::prelude::*;
use vstd::multiset::Multiset;
use vstd::relations::{sorted_by, total_ordering};
use crate::textutil::{lex_le, lemma_lex_le_total, lemma_lex_le_trans, str_eq, str_le};

verus! {

/// The views of a string sequence.
pub open spec fn str_views(ss: Seq<String>) -> Seq<Seq<char>> {
    ss.map_values(|s: String| s@)
}

/// Lexicographic order as a relation value.
pub open spec fn lex_leq() -> spec_fn(Seq<char>, Seq<char>) -> bool {
    |a: Seq<char>, b: Seq<char>| lex_le(a, b)
}

/// Lexicographic order on character sequences is a total order.
pub proof fn lemma_lex_leq_total_ordering()
    ensures
        total_ordering(lex_leq()),
{
    assert forall|a: Seq<char>, b: Seq<char>| #[trigger] lex_leq()(a, b) || lex_leq()(b, a) by {
        lemma_lex_le_total(a, b);
    }
    assert forall|a: Seq<char>, b: Seq<char>|
        #[trigger] lex_leq()(a, b) && lex_leq()(b, a) implies a == b by {
        lemma_lex_le_total(a, b);
    }
    assert forall|a: Seq<char>, b: Seq<char>, c: Seq<char>|
        #[trigger] lex_leq()(a, b) && #[trigger] lex_leq()(b, c) implies lex_leq()(a, c) by {
        lemma_lex_le_trans(a, b, c);
    }
    assert forall|a: Seq<char>| #[trigger] lex_leq()(a, a) by {
        lemma_lex_le_total(a, a);
    }
}

proof fn lemma_insert_multiset<A>(s: Seq<A>, x: A, i: int)
    requires
        0 <= i <= s.len(),
    ensures
        s.insert(i, x).to_multiset() == s.to_multiset().insert(x),
{
    broadcast use vstd::seq_lib::group_to_multiset_ensures;

    assert(s.insert(i, x) =~= (s.subrange(0, i) + seq![x]) + s.subrange(i, s.len() as int));
    vstd::seq_lib::lemma_multiset_commutative(
        s.subrange(0, i) + seq![x],
        s.subrange(i, s.len() as int),
    );
    vstd::seq_lib::lemma_multiset_commutative(s.subrange(0, i), seq![x]);
    assert(s =~= s.subrange(0, i) + s.subrange(i, s.len() as int));
    vstd::seq_lib::lemma_multiset_commutative(s.subrange(0, i), s.subrange(i, s.len() as int));
    assert(seq![x].to_multiset() =~= Multiset::<A>::empty().insert(x)) by {
        assert(seq![x].drop_first() =~= Seq::<A>::empty());
    }
    assert(s.insert(i, x).to_multiset() =~= s.to_multiset().insert(x));
}

/// Sort strings lexicographically by their character sequences; the result
/// is a sorted permutation of the input.
pub fn sort_strings(v: Vec<String>) -> (r: Vec<String>)
    ensures
        sorted_by(str_views(r@), lex_leq()),
        str_views(r@).to_multiset() == str_views(v@).to_multiset(),
        r@.len() == v@.len(),
{
    let mut input = v;
    let ghost orig: Seq<Seq<char>> = str_views(input@);
    let mut out: Vec<String> = Vec::new();
    proof {
        broadcast use vstd::seq_lib::group_to_multiset_ensures;

        assert(str_views(out@).to_multiset().add(str_views(input@).to_multiset()) =~= orig
            .to_multiset());
    }
    while input.len() > 0
        invariant
            sorted_by(str_views(out@), lex_leq()),
            str_views(out@).to_multiset().add(str_views(input@).to_multiset()) == orig
                .to_multiset(),
            out@.len() + input@.len() == orig.len(),
        decreases input.len(),
    {
        let ghost input_before: Seq<String> = input@;
        let x = input.remove(0);
        proof {
            broadcast use vstd::seq_lib::group_to_multiset_ensures;

            assert(str_views(input_before) =~= seq![x@] + str_views(input@));
            vstd::seq_lib::lemma_multiset_commutative(seq![x@], str_views(input@));
            assert(seq![x@].to_multiset() =~= Multiset::<Seq<char>>::empty().insert(x@)) by {
                assert(Seq::<Seq<char>>::empty().push(x@) =~= seq![x@]);
            }
            assert(str_views(input_before).to_multiset() =~= str_views(
                input@,
            ).to_multiset().insert(x@));
        }
        let ghost out_snapshot: Seq<String> = out@;
        let mut i: usize = 0;
        while i < out.len() && str_le(out[i].as_str(), x.as_str())
            invariant
                out@ == out_snapshot,
                i <= out@.len(),
                forall|k: int| 0 <= k < i ==> lex_leq()(str_views(out@)[k], x@),
            decreases out@.len() - i,
        {
            proof {
                assert(str_views(out@)[i as int] == out@[i as int]@);
            }
            i = i + 1;
        }
        proof {
            if (i as int) < out_snapshot.len() {
                lemma_lex_le_total(out_snapshot[i as int]@, x@);
            }
        }
        out.insert(i, x);
        proof {
            broadcast use vstd::seq_lib::group_to_multiset_ensures;

            assert(str_views(out@) =~= str_views(out_snapshot).insert(i as int, x@));
            assert forall|p: int, q: int|
                0 <= p < q < str_views(out@).len() implies lex_leq()(
                str_views(out@)[p],
                str_views(out@)[q],
            ) by {
                let sv = str_views(out_snapshot);
                let nv = str_views(out@);
                lemma_lex_leq_total_ordering();
                if q < i {
                    assert(nv[p] == sv[p] && nv[q] == sv[q]);
                } else if p < i && q == i {
                    assert(nv[p] == sv[p] && nv[q] == x@);
                } else if p < i && q > i {
                    assert(nv[p] == sv[p] && nv[q] == sv[q - 1]);
                    if q - 1 == p {
                        assert(lex_leq()(sv[p], sv[p]));
                    }
                } else if p == i {
                    assert(nv[p] == x@ && nv[q] == sv[q - 1]);
                    assert(lex_leq()(x@, sv[i as int]));
                    if q - 1 > i {
                        assert(lex_leq()(sv[i as int], sv[q - 1]));
                    }
                } else {
                    assert(nv[p] == sv[p - 1] && nv[q] == sv[q - 1]);
                }
            }
            lemma_insert_multiset(str_views(out_snapshot), x@, i as int);
        }
    }
    proof {
        broadcast use vstd::seq_lib::group_to_multiset_ensures;

        assert(str_views(input@) =~= Seq::<Seq<char>>::empty());
        assert(str_views(input@).to_multiset().len() == 0);
        assert(str_views(out@).to_multiset() =~= orig.to_multiset());
    }
    out
}

/// The views of a (path, fingerprint) pair sequence.
pub open spec fn pair_views(ps: Seq<(String, String)>) -> Seq<(Seq<char>, Seq<char>)> {
    ps.map_values(|p: (String, String)| (p.0@, p.1@))
}

/// Lexicographic order on pairs: by first component, ties by second.
pub open spec fn pair_leq() -> spec_fn((Seq<char>, Seq<char>), (Seq<char>, Seq<char>)) -> bool {
    |a: (Seq<char>, Seq<char>), b: (Seq<char>, Seq<char>)|
        if a.0 == b.0 {
            lex_le(a.1, b.1)
        } else {
            lex_le(a.0, b.0)
        }
}

/// The pair order is a total order.
pub proof fn lemma_pair_leq_total_ordering()
    ensures
        total_ordering(pair_leq()),
{
    assert forall|a: (Seq<char>, Seq<char>), b: (Seq<char>, Seq<char>)|
        #[trigger] pair_leq()(a, b) || pair_leq()(b, a) by {
        lemma_lex_le_total(a.0, b.0);
        lemma_lex_le_total(a.1, b.1);
    }
    assert forall|a: (Seq<char>, Seq<char>), b: (Seq<char>, Seq<char>)|
        #[trigger] pair_leq()(a, b) && pair_leq()(b, a) implies a == b by {
        lemma_lex_le_total(a.0, b.0);
        lemma_lex_le_total(a.1, b.1);
        if a.0 == b.0 {
            assert(a.1 == b.1);
        }
    }
    assert forall|a: (Seq<char>, Seq<char>), b: (Seq<char>, Seq<char>), c: (Seq<char>, Seq<char>)|
        #[trigger] pair_leq()(a, b) && #[trigger] pair_leq()(b, c) implies pair_leq()(a, c) by {
        lemma_lex_le_total(a.0, b.0);
        lemma_lex_le_total(b.0, c.0);
        lemma_lex_le_total(a.0, c.0);
        if a.0 == b.0 && b.0 == c.0 {
            lemma_lex_le_trans(a.1, b.1, c.1);
        } else if a.0 == b.0 {
        } else if b.0 == c.0 {
        } else {
            lemma_lex_le_trans(a.0, b.0, c.0);
            if a.0 == c.0 {
                lemma_lex_le_total(a.0, b.0);
            }
        }
    }
    assert forall|a: (Seq<char>, Seq<char>)| #[trigger] pair_leq()(a, a) by {
        lemma_lex_le_total(a.1, a.1);
    }
}

/// Executable comparison matching `pair_leq` on the views.
fn pair_le_exec(a: &(String, String), b: &(String, String)) -> (r: bool)
    ensures
        r == pair_leq()((a.0@, a.1@), (b.0@, b.1@)),
{
    if str_eq(a.0.as_str(), b.0.as_str()) {
        str_le(a.1.as_str(), b.1.as_str())
    } else {
        str_le(a.0.as_str(), b.0.as_str())
    }
}

/// Sort (path, fingerprint) pairs by path, ties by fingerprint; the result
/// is a sorted permutation of the input.
pub fn sort_pairs(v: Vec<(String, String)>) -> (r: Vec<(String, String)>)
    ensures
        sorted_by(pair_views(r@), pair_leq()),
        pair_views(r@).to_multiset() == pair_views(v@).to_multiset(),
        r@.len() == v@.len(),
{
    let mut input = v;
    let ghost orig: Seq<(Seq<char>, Seq<char>)> = pair_views(input@);
    let mut out: Vec<(String, String)> = Vec::new();
    proof {
        broadcast use vstd::seq_lib::group_to_multiset_ensures;

        assert(pair_views(out@).to_multiset().add(pair_views(input@).to_multiset()) =~= orig
            .to_multiset());
    }
    while input.len() > 0
        invariant
            sorted_by(pair_views(out@), pair_leq()),
            pair_views(out@).to_multiset().add(pair_views(input@).to_multiset()) == orig
                .to_multiset(),
            out@.len() + input@.len() == orig.len(),
        decreases input.len(),
    {
        let ghost input_before: Seq<(String, String)> = input@;
        let x = input.remove(0);
        proof {
            broadcast use vstd::seq_lib::group_to_multiset_ensures;

            assert(pair_views(input_before) =~= seq![(x.0@, x.1@)] + pair_views(input@));
            vstd::seq_lib::lemma_multiset_commutative(
                seq![(x.0@, x.1@)],
                pair_views(input@),
            );
            assert(seq![(x.0@, x.1@)].to_multiset() =~= Multiset::<(Seq<char>, Seq<char>)>::empty().insert((x.0@, x.1@))) by {
                assert(Seq::<(Seq<char>, Seq<char>)>::empty().push((x.0@, x.1@)) =~= seq![
                    (x.0@, x.1@),
                ]);
            }
            assert(pair_views(input_before).to_multiset() =~= pair_views(
                input@,
            ).to_multiset().insert((x.0@, x.1@)));
        }
        let ghost out_snapshot: Seq<(String, String)> = out@;
        let mut i: usize = 0;
        while i < out.len() && pair_le_exec(&out[i], &x)
            invariant
                out@ == out_snapshot,
                i <= out@.len(),
                forall|k: int| 0 <= k < i ==> pair_leq()(pair_views(out@)[k], (x.0@, x.1@)),
            decreases out@.len() - i,
        {
            proof {
                assert(pair_views(out@)[i as int] == (out@[i as int].0@, out@[i as int].1@));
            }
            i = i + 1;
        }
        proof {
            lemma_pair_leq_total_ordering();
            if (i as int) < out_snapshot.len() {
                assert(pair_views(out@)[i as int] == (out@[i as int].0@, out@[i as int].1@));
            }
        }
        out.insert(i, x);
        proof {
            broadcast use vstd::seq_lib::group_to_multiset_ensures;

            assert(pair_views(out@) =~= pair_views(out_snapshot).insert(
                i as int,
                (x.0@, x.1@),
            ));
            assert forall|p: int, q: int|
                0 <= p < q < pair_views(out@).len() implies pair_leq()(
                pair_views(out@)[p],
                pair_views(out@)[q],
            ) by {
                let sv = pair_views(out_snapshot);
                let nv = pair_views(out@);
                lemma_pair_leq_total_ordering();
                if q < i {
                    assert(nv[p] == sv[p] && nv[q] == sv[q]);
                } else if p < i && q == i {
                    assert(nv[p] == sv[p] && nv[q] == (x.0@, x.1@));
                } else if p < i && q > i {
                    assert(nv[p] == sv[p] && nv[q] == sv[q - 1]);
                    if q - 1 == p {
                        assert(pair_leq()(sv[p], sv[p]));
                    }
                } else if p == i {
                    assert(nv[p] == (x.0@, x.1@) && nv[q] == sv[q - 1]);
                    assert(pair_leq()((x.0@, x.1@), sv[i as int]));
                    if q - 1 > i {
                        assert(pair_leq()(sv[i as int], sv[q - 1]));
                    }
                } else {
                    assert(nv[p] == sv[p - 1] && nv[q] == sv[q - 1]);
                }
            }
            lemma_insert_multiset(pair_views(out_snapshot), (x.0@, x.1@), i as int);
        }
    }
    proof {
        broadcast use vstd::seq_lib::group_to_multiset_ensures;

        assert(pair_views(input@) =~= Seq::<(Seq<char>, Seq<char>)>::empty());
        assert(pair_views(input@).to_multiset().len() == 0);
        assert(pair_views(out@).to_multiset() =~= orig.to_multiset());
    }
    out
}

} // verus!
