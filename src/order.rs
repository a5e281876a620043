use vstd::prelude::*;
use vstd::seq_lib::lemma_multiset_commutative;

verus! {

/// The number of leading words of `s` at least `n` letters long.
pub open spec fn insert_pos(s: Seq<Seq<char>>, n: nat) -> int
    decreases s.len(),
{
    if s.len() == 0 {
        0
    } else if s[0].len() >= n {
        1 + insert_pos(s.drop_first(), n)
    } else {
        0
    }
}

/// `s` with `w` put after every word at least as long as `w`.
pub open spec fn insert_desc(s: Seq<Seq<char>>, w: Seq<char>) -> Seq<Seq<char>> {
    let p = insert_pos(s, w.len());
    s.take(p).push(w) + s.skip(p)
}

/// The words of `ws` by descending length; words of one length keep their order.
pub open spec fn sort_desc(ws: Seq<Seq<char>>) -> Seq<Seq<char>>
    decreases ws.len(),
{
    if ws.len() == 0 {
        Seq::empty()
    } else {
        insert_desc(sort_desc(ws.drop_last()), ws.last())
    }
}

pub open spec fn descending(s: Seq<Seq<char>>) -> bool {
    forall|i: int, j: int| 0 <= i < j < s.len() ==> s[i].len() >= s[j].len()
}

proof fn lemma_insert_pos_at(s: Seq<Seq<char>>, n: nat, p: int)
    requires
        0 <= p <= s.len(),
        forall|i: int| 0 <= i < p ==> s[i].len() >= n,
        p == s.len() || s[p].len() < n,
    ensures
        insert_pos(s, n) == p,
    decreases s.len(),
{
    if p > 0 {
        assert forall|i: int| 0 <= i < p - 1 implies s.drop_first()[i].len() >= n by {
            assert(s.drop_first()[i] == s[i + 1]);
        }
        lemma_insert_pos_at(s.drop_first(), n, p - 1);
    }
}

pub proof fn lemma_insert_pos_bounds(s: Seq<Seq<char>>, n: nat)
    requires
        descending(s),
    ensures
        0 <= insert_pos(s, n) <= s.len(),
        forall|i: int| 0 <= i < insert_pos(s, n) ==> s[i].len() >= n,
        forall|i: int| insert_pos(s, n) <= i < s.len() ==> s[i].len() < n,
    decreases s.len(),
{
    if s.len() > 0 {
        let t = s.drop_first();
        assert(descending(t)) by {
            assert forall|i: int, j: int| 0 <= i < j < t.len() implies t[i].len() >= t[j].len() by {
                assert(t[i] == s[i + 1] && t[j] == s[j + 1]);
            }
        }
        lemma_insert_pos_bounds(t, n);
        if s[0].len() >= n {
            assert forall|i: int| 0 <= i < insert_pos(s, n) implies s[i].len() >= n by {
                if i > 0 {
                    assert(s[i] == t[i - 1]);
                }
            }
            assert forall|i: int| insert_pos(s, n) <= i < s.len() implies s[i].len() < n by {
                assert(s[i] == t[i - 1]);
            }
        } else {
            assert forall|i: int| 0 <= i < s.len() implies s[i].len() < n by {
                assert(s[0].len() >= s[i].len() || i == 0);
            }
        }
    }
}

/// Sorting keeps the words in descending length and loses or adds none.
pub proof fn lemma_sort_desc(ws: Seq<Seq<char>>)
    ensures
        descending(sort_desc(ws)),
        sort_desc(ws).to_multiset() == ws.to_multiset(),
        sort_desc(ws).len() == ws.len(),
    decreases ws.len(),
{
    broadcast use vstd::seq_lib::group_to_multiset_ensures;

    if ws.len() > 0 {
        let s = sort_desc(ws.drop_last());
        let w = ws.last();
        lemma_sort_desc(ws.drop_last());
        lemma_insert_pos_bounds(s, w.len());
        let p = insert_pos(s, w.len());
        let r = insert_desc(s, w);
        assert(r.len() == s.len() + 1);
        assert forall|i: int, j: int| 0 <= i < j < r.len() implies r[i].len() >= r[j].len() by {
            if i < p {
                assert(r[i] == s[i]);
            } else if i == p {
                assert(r[i] == w);
                assert(r[j] == s[j - 1]);
            } else {
                assert(r[i] == s[i - 1]);
                assert(r[j] == s[j - 1]);
            }
            if j < p {
                assert(r[j] == s[j]);
            } else if j == p {
                assert(r[j] == w);
            }
        }
        lemma_multiset_commutative(s.take(p).push(w), s.skip(p));
        lemma_multiset_commutative(s.take(p), s.skip(p));
        assert(s.take(p) + s.skip(p) == s);
        assert(ws.drop_last().push(w) == ws);
        assert(r.to_multiset() =~= ws.to_multiset());
    }
}

pub open spec fn words_view(ws: Seq<Vec<char>>) -> Seq<Seq<char>> {
    ws.map_values(|w: Vec<char>| w@)
}

/// Puts the addends (every word but the last) in descending length, keeping
/// words of one length in their order; the result stays last.
pub fn order_addends(words: Vec<Vec<char>>) -> (r: Vec<Vec<char>>)
    requires
        words.len() >= 1,
    ensures
        words_view(r@) == sort_desc(words_view(words@).drop_last()).push(words_view(words@).last()),
{
    let ghost all = words_view(words@);
    let mut rest = words;
    let result = rest.pop().unwrap();
    let ghost orig = words_view(rest@);
    proof {
        assert(orig == all.drop_last());
    }
    let mut sorted: Vec<Vec<char>> = Vec::new();
    let ghost mut k: int = 0;
    proof {
        assert(orig.take(0) == Seq::<Seq<char>>::empty());
        assert(words_view(sorted@) == Seq::<Seq<char>>::empty());
        assert(orig.skip(0) == orig);
    }
    while rest.len() > 0
        invariant
            0 <= k <= orig.len(),
            words_view(sorted@) == sort_desc(orig.take(k)),
            words_view(rest@) == orig.skip(k),
            rest.len() == orig.len() - k,
        decreases rest.len(),
    {
        let ghost r0 = rest@;
        let w = rest.remove(0);
        proof {
            assert(w == r0[0]);
            assert(words_view(r0)[0] == orig.skip(k)[0]);
            assert(w@ == orig[k]);
            assert(rest@ == r0.remove(0));
            assert forall|i: int| 0 <= i < rest.len() implies words_view(rest@)[i] == orig.skip(
                k + 1,
            )[i] by {
                assert(rest@[i] == r0[i + 1]);
                assert(words_view(r0)[i + 1] == orig.skip(k)[i + 1]);
            }
            assert(words_view(rest@) =~= orig.skip(k + 1));
            lemma_sort_desc(orig.take(k));
        }
        let ghost sv = words_view(sorted@);
        let mut p: usize = 0;
        while p < sorted.len() && sorted[p].len() >= w.len()
            invariant
                p <= sorted.len(),
                sv == words_view(sorted@),
                forall|i: int| 0 <= i < p ==> sv[i].len() >= w@.len(),
            decreases sorted.len() - p,
        {
            p += 1;
        }
        proof {
            lemma_insert_pos_at(sv, w@.len(), p as int);
        }
        sorted.insert(p, w);
        proof {
            assert(orig.take(k + 1).drop_last() == orig.take(k));
            assert(orig.take(k + 1).last() == w@);
            assert(words_view(sorted@) =~= insert_desc(sv, w@));
            k = k + 1;
        }
    }
    proof {
        assert(k == orig.len());
        assert(orig.take(k) == orig);
    }
    let ghost s0 = sorted@;
    sorted.push(result);
    proof {
        assert(words_view(sorted@) =~= words_view(s0).push(result@));
    }
    sorted
}

} // verus!
