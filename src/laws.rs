use crate::order::{insert_pos, lemma_insert_pos_bounds, lemma_sort_desc, sort_desc};
use crate::parse::{spells, text_has_solution};
use crate::solver_bt::text_outcome;
use crate::puzzle::{maps_letters, sum_from, word_fits, word_from, Puzzle};
use vstd::prelude::*;
use vstd::set_lib::{lemma_int_range, lemma_len_subset, set_int_range};

verus! {

/// Pigeonhole: a puzzle with more than ten distinct letters has no solution,
/// since its letters would need more than ten distinct digits.
pub proof fn lemma_too_many_letters(p: &Puzzle)
    requires
        p.wf(),
        p.letters.len() > 10,
    ensures
        !p.has_solution(),
{
    assert forall|d: Seq<u8>| !p.is_solution(d) by {
        if p.is_solution(d) {
            let s = d.map_values(|x: u8| x as int);
            assert(s.no_duplicates()) by {
                assert forall|i: int, j: int| 0 <= i < s.len() && 0 <= j < s.len() && i != j implies s[i]
                    != s[j] by {
                    assert(d[i] != d[j]);
                }
            }
            s.unique_seq_to_set();
            assert(s.to_set().subset_of(set_int_range(0, 10))) by {
                assert forall|x: int| s.to_set().contains(x) implies set_int_range(0, 10).contains(x) by {
                    let i = choose|i: int| 0 <= i < s.len() && s[i] == x;
                    assert(d[i] < 10);
                }
            }
            lemma_int_range(0, 10);
            lemma_len_subset(s.to_set(), set_int_range(0, 10));
        }
    }
}

impl Puzzle {
    /// The puzzle has at most one solution.
    pub open spec fn solution_is_unique(&self) -> bool {
        forall|d1: Seq<u8>, d2: Seq<u8>| self.is_solution(d1) && self.is_solution(d2) ==> d1 == d2
    }

    /// What a solver promises for this puzzle: a solution when it returns
    /// digits, and `None` exactly when no solution exists.
    pub open spec fn solver_outcome(&self, r: Option<Seq<u8>>) -> bool {
        &&& r is Some ==> self.is_solution(r->0)
        &&& r is None <==> !self.has_solution()
    }
}

/// Any two outcomes that keep the solvers' promise on one puzzle, be they
/// from the column-wise search and the exhaustive search, or from two runs of
/// one of them, agree on whether a solution exists; and where the puzzle's
/// solution is unique, they return the same digits.
pub proof fn lemma_outcomes_agree(p: &Puzzle, r1: Option<Seq<u8>>, r2: Option<Seq<u8>>)
    requires
        p.wf(),
        p.solver_outcome(r1),
        p.solver_outcome(r2),
    ensures
        r1 is None <==> r2 is None,
        p.solution_is_unique() && r1 is Some ==> r1 == r2,
{
}

/// The value of a word written most significant letter first, under `m`.
pub open spec fn text_value(text: Seq<char>, m: Map<char, u8>) -> int
    decreases text.len(),
{
    if text.len() == 0 {
        0
    } else {
        10 * text_value(text.drop_last(), m) + m[text.last()] as int
    }
}

/// The sum of the values of `words` under `m`.
pub open spec fn text_sum(words: Seq<Seq<char>>, m: Map<char, u8>) -> int
    decreases words.len(),
{
    if words.len() == 0 {
        0
    } else {
        text_sum(words.drop_last(), m) + text_value(words.last(), m)
    }
}

proof fn lemma_word_text(letters: Seq<char>, w: Seq<usize>, text: Seq<char>, d: Seq<u8>, m: Map<char, u8>, i: int)
    requires
        spells(letters, w, text),
        maps_letters(m, letters, d),
        forall|t: int| 0 <= t < w.len() ==> (#[trigger] w[t] as int) < letters.len(),
        0 <= i <= w.len(),
    ensures
        word_from(w, d, i) == text_value(text.take(text.len() - i), m),
    decreases w.len() - i,
{
    let n = text.len();
    if i == w.len() {
        assert(text.take(n - i) =~= Seq::<char>::empty());
    } else {
        lemma_word_text(letters, w, text, d, m, i + 1);
        assert(text.take(n - i).drop_last() =~= text.take(n - i - 1));
        assert(text.take(n - i).last() == text[n - 1 - i]);
        assert(letters[w[i] as int] == text[n - 1 - i]);
        assert(m[letters[w[i] as int]] == d[w[i] as int]);
    }
}

proof fn lemma_addends_text(p: &Puzzle, words: Seq<Seq<char>>, d: Seq<u8>, m: Map<char, u8>, n: int)
    requires
        p.wf(),
        p.written_as(words),
        maps_letters(m, p.letters@, d),
        0 <= n <= p.addends.len(),
    ensures
        sum_from(p.addend_words().take(n), d, 0) == text_sum(words.take(n), m),
    decreases n,
{
    p.lemma_addend_words();
    if n == 0 {
        assert(p.addend_words().take(0) =~= Seq::<Seq<usize>>::empty());
        assert(words.take(0) =~= Seq::<Seq<char>>::empty());
    } else {
        lemma_addends_text(p, words, d, m, n - 1);
        assert(p.addend_words().take(n).drop_last() =~= p.addend_words().take(n - 1));
        assert(words.take(n).drop_last() =~= words.take(n - 1));
        let w = p.addends[n - 1]@;
        assert(spells(p.letters@, w, words[n - 1]));
        assert(word_fits(w, p.letters@.len()));
        lemma_word_text(p.letters@, w, words[n - 1], d, m, 0);
        assert(words[n - 1].take(words[n - 1].len() as int) =~= words[n - 1]);
    }
}

/// A solution read back into the puzzle's model words adds up.
proof fn lemma_model_adds_up(p: &Puzzle, words: Seq<Seq<char>>, d: Seq<u8>, m: Map<char, u8>)
    requires
        p.wf(),
        p.written_as(words),
        p.is_solution(d),
        maps_letters(m, p.letters@, d),
    ensures
        text_sum(words.drop_last(), m) == text_value(words.last(), m),
        forall|k: int| 0 <= k < words.len() ==> m[#[trigger] words[k][0]] != 0,
        forall|c1: char, c2: char|
            m.dom().contains(c1) && m.dom().contains(c2) && c1 != c2 ==> m[c1] != m[c2],
{
    let na = p.addends.len() as int;
    p.lemma_addend_words();
    lemma_addends_text(p, words, d, m, na);
    assert(p.addend_words().take(na) =~= p.addend_words());
    assert(words.take(na) =~= words.drop_last());
    assert(word_fits(p.result@, p.letters@.len()));
    lemma_word_text(p.letters@, p.result@, words.last(), d, m, 0);
    assert(words.last().take(words.last().len() as int) =~= words.last());
    assert forall|k: int| 0 <= k < words.len() implies m[#[trigger] words[k][0]] != 0 by {
        if k < na {
            let w = p.addends[k]@;
            assert(spells(p.letters@, w, words[k]));
            assert(word_fits(w, p.letters@.len()));
            let t = w.len() - 1;
            assert(p.letters@[w[t] as int] == words[k][0]);
            assert(d[w.last() as int] != 0);
        } else {
            let w = p.result@;
            assert(words[k] == words.last());
            let t = w.len() - 1;
            assert(p.letters@[w[t] as int] == words[k][0]);
        }
    }
    assert forall|c1: char, c2: char|
        m.dom().contains(c1) && m.dom().contains(c2) && c1 != c2 implies m[c1] != m[c2] by {
        assert(p.letters@.to_set().contains(c1));
        assert(p.letters@.to_set().contains(c2));
        let i = choose|i: int| 0 <= i < p.letters@.len() && p.letters@[i] == c1;
        let j = choose|j: int| 0 <= j < p.letters@.len() && p.letters@[j] == c2;
        assert(m[p.letters@[i]] == d[i]);
        assert(m[p.letters@[j]] == d[j]);
    }
}

/// Solving one text twice gives the same answer: any two results that keep
/// the promise of the column-wise `solve` for the text `s` are the same,
/// both "no solution" or both the same map from letters to digits.
pub proof fn lemma_solve_twice(s: Seq<char>, r1: Option<Map<char, u8>>, r2: Option<Map<char, u8>>)
    requires
        r1 is None <==> text_outcome(s) is None,
        r1 is Some ==> maps_letters(r1->0, (text_outcome(s)->0).0, (text_outcome(s)->0).1),
        r2 is None <==> text_outcome(s) is None,
        r2 is Some ==> maps_letters(r2->0, (text_outcome(s)->0).0, (text_outcome(s)->0).1),
    ensures
        r1 == r2,
{
    if r1 is Some {
        let letters = (text_outcome(s)->0).0;
        let m1 = r1->0;
        let m2 = r2->0;
        assert forall|c: char| m1.dom().contains(c) implies m1[c] == m2[c] by {
            assert(letters.to_set().contains(c));
            let t = choose|t: int| 0 <= t < letters.len() && letters[t] == c;
            assert(m1[letters[t]] == m2[letters[t]]);
        }
        assert(m1 =~= m2);
    }
}

proof fn lemma_text_sum_append(a: Seq<Seq<char>>, b: Seq<Seq<char>>, m: Map<char, u8>)
    ensures
        text_sum(a + b, m) == text_sum(a, m) + text_sum(b, m),
    decreases b.len(),
{
    if b.len() == 0 {
        assert(a + b == a);
    } else {
        lemma_text_sum_append(a, b.drop_last(), m);
        assert((a + b).drop_last() == a + b.drop_last());
        assert((a + b).last() == b.last());
    }
}

/// Ordering the addends by length does not change their sum.
proof fn lemma_text_sum_sorted(ws: Seq<Seq<char>>, m: Map<char, u8>)
    ensures
        text_sum(sort_desc(ws), m) == text_sum(ws, m),
    decreases ws.len(),
{
    if ws.len() > 0 {
        lemma_text_sum_sorted(ws.drop_last(), m);
        let s = sort_desc(ws.drop_last());
        let w = ws.last();
        let p = insert_pos(s, w.len());
        lemma_sort_desc(ws.drop_last());
        lemma_insert_pos_bounds(s, w.len());
        lemma_text_sum_append(s.take(p).push(w), s.skip(p), m);
        lemma_text_sum_append(s.take(p), s.skip(p), m);
        assert(s.take(p).push(w).drop_last() == s.take(p));
        assert(s.take(p) + s.skip(p) == s);
    }
}

/// A solution read back into the text of the puzzle adds up: the values of
/// the addends, in the order written, with each letter replaced by its digit,
/// sum to the value of the result; no word starts with a zero; and different
/// letters have different digits.
pub proof fn lemma_solution_adds_up(p: &Puzzle, words: Seq<Seq<char>>, d: Seq<u8>, m: Map<char, u8>)
    requires
        p.wf(),
        words.len() >= 1,
        p.written_as(sort_desc(words.drop_last()).push(words.last())),
        p.is_solution(d),
        maps_letters(m, p.letters@, d),
    ensures
        text_sum(words.drop_last(), m) == text_value(words.last(), m),
        forall|k: int| 0 <= k < words.len() ==> m[#[trigger] words[k][0]] != 0,
        forall|c1: char, c2: char|
            m.dom().contains(c1) && m.dom().contains(c2) && c1 != c2 ==> m[c1] != m[c2],
{
    broadcast use vstd::seq_lib::group_to_multiset_ensures;

    let model = sort_desc(words.drop_last()).push(words.last());
    lemma_model_adds_up(p, model, d, m);
    assert(model.drop_last() == sort_desc(words.drop_last()));
    lemma_text_sum_sorted(words.drop_last(), m);
    lemma_sort_desc(words.drop_last());
    assert forall|k: int| 0 <= k < words.len() implies m[#[trigger] words[k][0]] != 0 by {
        if k < words.len() - 1 {
            let e = words[k];
            assert(words.drop_last()[k] == e);
            assert(words.drop_last().contains(e));
            assert(sort_desc(words.drop_last()).to_multiset().count(e) > 0);
            assert(sort_desc(words.drop_last()).contains(e));
            let x = choose|x: int| 0 <= x < sort_desc(words.drop_last()).len() && sort_desc(words.drop_last())[x] == e;
            assert(model[x] == e);
            assert(m[model[x][0]] != 0);
        } else {
            assert(model[model.len() - 1] == words[k]);
            assert(m[model[model.len() - 1][0]] != 0);
        }
    }
}

/// Cross-check on a text: the column-wise and the exhaustive `solve` return
/// "no solution" on the same texts, those that write no puzzle with a solution.
pub proof fn lemma_solvers_agree_on_text(
    s: Seq<char>,
    r_columns: Option<Map<char, u8>>,
    r_exhaustive: Option<Map<char, u8>>,
)
    requires
        r_columns is None <==> !text_has_solution(s),
        r_exhaustive is None <==> !text_has_solution(s),
    ensures
        r_columns is None <==> r_exhaustive is None,
{
}

} // verus!
