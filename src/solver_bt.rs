use crate::assignment::{
    assign_digits, assign_upto, extends, extends_with, fill, lemma_assign_extends, partial_ok,
    unused_below, unused_digits, used,
};
use crate::parse::{lemma_same_reading, model_words, number_words, text_has_solution};
use crate::permutations::{arrangements, arrangements_of, is_arrangement, next_arrangement, permutations_left};
use crate::puzzle::{column_sum, digit_at, lemma_column_sum_agree, maps_letters, word_fits, Puzzle};
use vstd::prelude::*;

verus! {

/// `need` with `l` added at its end, when `a` has not assigned `l` and `need` lacks it.
pub open spec fn note(need: Seq<usize>, a: Seq<Option<u8>>, l: usize) -> Seq<usize> {
    if a[l as int] is None && !need.contains(l) {
        need.push(l)
    } else {
        need
    }
}

/// The unassigned letters of the words `ws` in column `i`, each once, in the
/// order of the words.
pub open spec fn open_letters(ws: Seq<Seq<usize>>, a: Seq<Option<u8>>, i: int) -> Seq<usize>
    decreases ws.len(),
{
    if ws.len() == 0 {
        Seq::empty()
    } else {
        let n = open_letters(ws.drop_last(), a, i);
        if 0 <= i < ws.last().len() {
            note(n, a, ws.last()[i])
        } else {
            n
        }
    }
}

impl Puzzle {
    /// The unassigned letters of column `i`: those of the addends in order,
    /// then the result's.
    pub open spec fn column_need(&self, a: Seq<Option<u8>>, i: int) -> Seq<usize> {
        need_of(self.addend_words(), self.result@, a, i)
    }
}

/// The length of the longest of the words `ws`, and at least `m`.
pub open spec fn longest(ws: Seq<Seq<usize>>, m: int) -> int
    decreases ws.len(),
{
    if ws.len() == 0 {
        m
    } else {
        let n = longest(ws.drop_last(), m);
        if ws.last().len() > n {
            ws.last().len() as int
        } else {
            n
        }
    }
}

impl Puzzle {
    /// The number of columns: the length of the longest word.
    pub open spec fn columns(&self) -> int {
        longest(self.addend_words(), self.result.len() as int)
    }

    /// What the column search returns on the whole puzzle.
    pub open spec fn solution_found(&self) -> Option<Seq<u8>> {
        search(
            self.addend_words(),
            self.result@,
            self.columns(),
            0,
            0,
            Seq::new(self.letters@.len(), |j: int| None::<u8>),
        )
    }

    pub proof fn lemma_leads_ok(&self, a: Seq<Option<u8>>)
        ensures
            self.addend_leads_ok(a) <==> leads_ok(self.addend_words(), a),
    {
        self.lemma_addend_words();
        if leads_ok(self.addend_words(), a) {
            assert forall|k: int| 0 <= k < self.addends.len() implies a[
                #[trigger] self.addends[k]@.last() as int] != Some(0u8) by {
                assert(self.addend_words()[k] == self.addends[k]@);
            }
        }
        if self.addend_leads_ok(a) {
            assert forall|k: int| 0 <= k < self.addend_words().len() implies a[
                #[trigger] self.addend_words()[k].last() as int] != Some(0u8) by {
                assert(self.addend_words()[k] == self.addends[k]@);
            }
        }
    }
}

/// No addend among `ws` has its leading letter assigned zero in `a`.
pub open spec fn leads_ok(ws: Seq<Seq<usize>>, a: Seq<Option<u8>>) -> bool {
    forall|k: int| 0 <= k < ws.len() ==> a[#[trigger] ws[k].last() as int] != Some(0u8)
}

/// The unassigned letters of column `i` of the addends `ws` and result `res`:
/// those of the addends in order, then the result's.
pub open spec fn need_of(ws: Seq<Seq<usize>>, res: Seq<usize>, a: Seq<Option<u8>>, i: int) -> Seq<
    usize,
> {
    let n = open_letters(ws, a, i);
    if 0 <= i < res.len() {
        note(n, a, res[i])
    } else {
        n
    }
}

/// What the column search over the addends `ws` and the result `res` returns
/// from column `i`, with `carry` coming in and the partial assignment `a`:
/// past the last column, the assignment when no carry is left and the result
/// does not start with zero; otherwise the first that succeeds among the
/// arrangements of the unused digits over the column's open letters.
pub open spec fn search(
    ws: Seq<Seq<usize>>,
    res: Seq<usize>,
    cols: int,
    i: int,
    carry: int,
    a: Seq<Option<u8>>,
) -> Option<Seq<u8>>
    decreases cols - i + 1, 0int,
{
    if i >= cols {
        if carry == 0 && fill(a)[res.last() as int] != 0 {
            Some(fill(a))
        } else {
            None
        }
    } else {
        let need = need_of(ws, res, a, i);
        try_each(ws, res, cols, i, carry, a, need, arrangements_of(unused_below(a, 10), need.len()))
    }
}

/// The first success of the search when the open letters `need` of column
/// `i` take the digits of each arrangement of `qs` in turn.
pub open spec fn try_each(
    ws: Seq<Seq<usize>>,
    res: Seq<usize>,
    cols: int,
    i: int,
    carry: int,
    a: Seq<Option<u8>>,
    need: Seq<usize>,
    qs: Seq<Seq<u8>>,
) -> Option<Seq<u8>>
    decreases cols - i, qs.len(),
{
    if qs.len() == 0 || i >= cols {
        None
    } else {
        let b = assign_upto(a, need, qs[0], need.len() as int);
        let s = carry + column_sum(ws, fill(b), i);
        let first = if leads_ok(ws, b) && s % 10 == digit_at(res, fill(b), i) {
            search(ws, res, cols, i + 1, s / 10, b)
        } else {
            None
        };
        if first is Some {
            first
        } else {
            try_each(ws, res, cols, i, carry, a, need, qs.drop_first())
        }
    }
}

/// Adds `letter` to `need` when `a` has not assigned it and `need` lacks it.
fn note_letter(a: &Vec<Option<u8>>, need: &mut Vec<usize>, letter: usize)
    requires
        (letter as int) < a.len(),
        old(need)@.no_duplicates(),
        forall|t: int| 0 <= t < old(need).len() ==> (old(need)[t] as int) < a.len(),
        forall|t: int| 0 <= t < old(need).len() ==> a[#[trigger] old(need)[t] as int] is None,
    ensures
        final(need)@.no_duplicates(),
        forall|t: int| 0 <= t < final(need).len() ==> (final(need)[t] as int) < a.len(),
        forall|t: int| 0 <= t < final(need).len() ==> a[#[trigger] final(need)[t] as int] is None,
        forall|y: usize| old(need)@.contains(y) ==> final(need)@.contains(y),
        a[letter as int] is Some || final(need)@.contains(letter),
        final(need)@ == note(old(need)@, a@, letter),
{
    if a[letter].is_none() {
        let mut seen = false;
        let mut t: usize = 0;
        while t < need.len()
            invariant
                t <= need.len(),
                seen <==> exists|x: int| 0 <= x < t && need@[x] == letter,
            decreases need.len() - t,
        {
            if need[t] == letter {
                seen = true;
            }
            t += 1;
        }
        proof {
            if seen {
                let x = choose|x: int| 0 <= x < t && need@[x] == letter;
                assert(need@.contains(letter));
            }
        }
        if !seen {
            let ghost n0 = need@;
            need.push(letter);
            proof {
                assert forall|y: usize| n0.contains(y) implies need@.contains(y) by {
                    let x = choose|x: int| 0 <= x < n0.len() && n0[x] == y;
                    assert(need@[x] == y);
                }
                assert(need@[n0.len() as int] == letter);
            }
        }
    }
}

/// The letters of column `i` that `a` has not assigned yet, each once.
fn column_letters(p: &Puzzle, a: &Vec<Option<u8>>, i: usize) -> (need: Vec<usize>)
    requires
        p.wf(),
        a.len() == p.letters.len(),
    ensures
        need@.no_duplicates(),
        forall|t: int| 0 <= t < need.len() ==> (need[t] as int) < a.len(),
        forall|t: int| 0 <= t < need.len() ==> a[#[trigger] need[t] as int] is None,
        forall|k: int|
            0 <= k < p.addends.len() && i < p.addends[k].len() ==> a[#[trigger] p.addends[k][i as int] as int] is Some
                || need@.contains(p.addends[k][i as int]),
        i < p.result.len() ==> a[p.result[i as int] as int] is Some || need@.contains(p.result[i as int]),
        need@ == p.column_need(a@, i as int),
{
    let mut need: Vec<usize> = Vec::new();
    let mut k: usize = 0;
    proof {
        p.lemma_addend_words();
    }
    while k < p.addends.len()
        invariant
            p.wf(),
            a.len() == p.letters.len(),
            k <= p.addends.len(),
            p.addend_words().len() == p.addends.len(),
            forall|x: int| 0 <= x < p.addends.len() ==> #[trigger] p.addend_words()[x] == p.addends[x]@,
            need@ == open_letters(p.addend_words().take(k as int), a@, i as int),
            need@.no_duplicates(),
            forall|t: int| 0 <= t < need.len() ==> (need[t] as int) < a.len(),
            forall|t: int| 0 <= t < need.len() ==> a[#[trigger] need[t] as int] is None,
            forall|x: int|
                0 <= x < k && i < p.addends[x].len() ==> a[#[trigger] p.addends[x][i as int] as int] is Some
                    || need@.contains(p.addends[x][i as int]),
        decreases p.addends.len() - k,
    {
        let word = &p.addends[k];
        proof {
            assert(word_fits(p.addends[k as int]@, p.letters@.len()));
        }
        proof {
            assert(p.addend_words().take(k + 1).drop_last() == p.addend_words().take(k as int));
            assert(p.addend_words().take(k + 1).last() == word@);
        }
        if i < word.len() {
            note_letter(a, &mut need, word[i]);
        }
        k += 1;
    }
    proof {
        assert(word_fits(p.result@, p.letters@.len()));
        assert(p.addend_words().take(k as int) == p.addend_words());
    }
    if i < p.result.len() {
        note_letter(a, &mut need, p.result[i]);
    }
    need
}

/// Whether no addend's leading letter holds zero in `b`.
pub(crate) fn addend_leads_nonzero(p: &Puzzle, b: &Vec<Option<u8>>) -> (r: bool)
    requires
        p.wf(),
        b.len() == p.letters.len(),
    ensures
        r == p.addend_leads_ok(b@),
{
    let mut k: usize = 0;
    while k < p.addends.len()
        invariant
            p.wf(),
            b.len() == p.letters.len(),
            k <= p.addends.len(),
            forall|x: int| 0 <= x < k ==> b[#[trigger] p.addends[x]@.last() as int] != Some(0u8),
        decreases p.addends.len() - k,
    {
        let word = &p.addends[k];
        proof {
            assert(word_fits(p.addends[k as int]@, p.letters@.len()));
        }
        let lead = word[word.len() - 1];
        if b[lead] == Some(0u8) {
            assert(b[p.addends[k as int]@.last() as int] == Some(0u8));
            return false;
        }
        k += 1;
    }
    true
}

/// The carry plus the sum of the addends' digits in column `i`.
pub(crate) fn column_total(p: &Puzzle, b: &Vec<Option<u8>>, i: usize, carry: u128) -> (s: u128)
    requires
        p.wf(),
        b.len() == p.letters.len(),
        partial_ok(b@),
        p.column_assigned(b@, i as int),
        carry <= p.addends.len(),
    ensures
        s == carry + column_sum(p.addend_words(), fill(b@), i as int),
        s <= 10 * p.addends.len(),
{
    let ghost ws = p.addend_words();
    let ghost d = fill(b@);
    let mut s: u128 = carry;
    let mut k: usize = 0;
    proof {
        p.lemma_addend_words();
    }
    while k < p.addends.len()
        invariant
            p.wf(),
            b.len() == p.letters.len(),
            partial_ok(b@),
            p.column_assigned(b@, i as int),
            carry <= p.addends.len(),
            ws == p.addend_words(),
            d == fill(b@),
            ws.len() == p.addends.len(),
            forall|x: int| 0 <= x < p.addends.len() ==> #[trigger] ws[x] == p.addends[x]@,
            k <= p.addends.len(),
            s == carry + column_sum(ws.take(k as int), d, i as int),
            s <= carry + 9 * k,
        decreases p.addends.len() - k,
    {
        let word = &p.addends[k];
        proof {
            assert(ws.take(k + 1).drop_last() == ws.take(k as int));
            assert(ws.take(k + 1).last() == word@);
            assert(word_fits(p.addends[k as int]@, p.letters@.len()));
        }
        if i < word.len() {
            let letter = word[i];
            proof {
                assert(p.addends[k as int][i as int] == letter);
                assert(b[letter as int] is Some);
            }
            let v = match b[letter] {
                Some(v) => v,
                None => 0u8,
            };
            assert(v < 10);
            s = s + v as u128;
        }
        k += 1;
    }
    proof {
        assert(ws.take(k as int) == ws);
    }
    s
}

/// Digit `s` would give the result in column `i`, read from `b`.
pub(crate) fn result_digit_at(p: &Puzzle, b: &Vec<Option<u8>>, i: usize) -> (r: u128)
    requires
        p.wf(),
        b.len() == p.letters.len(),
    ensures
        r == p.result_digit(fill(b@), i as int),
{
    if i < p.result.len() {
        proof {
            assert(word_fits(p.result@, p.letters@.len()));
        }
        match b[p.result[i]] {
            Some(v) => v as u128,
            None => 0,
        }
    } else {
        0
    }
}

} // verus!

verus! {

/// The digits of a complete assignment.
fn assigned_digits(a: &Vec<Option<u8>>) -> (d: Vec<u8>)
    ensures
        d@ == fill(a@),
{
    let mut d: Vec<u8> = Vec::new();
    let mut j: usize = 0;
    while j < a.len()
        invariant
            j <= a.len(),
            d@ == fill(a@).take(j as int),
        decreases a.len() - j,
    {
        let v = match a[j] {
            Some(v) => v,
            None => 0u8,
        };
        proof {
            assert(fill(a@).take(j + 1) == fill(a@).take(j as int).push(v));
        }
        d.push(v);
        j += 1;
    }
    proof {
        assert(fill(a@).take(j as int) == fill(a@));
    }
    d
}

/// Searches column `i` onwards, with `carry` coming into column `i`, for a
/// solution that extends the partial assignment `a`.
///
/// The letters of column `i` that `a` leaves open get each arrangement of the
/// unused digits in turn; an arrangement that gives an addend a leading zero or
/// breaks the column's sum is dropped, and otherwise the search goes on with
/// the next column.
pub fn find_column_mapping(
    p: &Puzzle,
    columns: usize,
    i: usize,
    carry: u128,
    a: &Vec<Option<u8>>,
) -> (r: Option<Vec<u8>>)
    requires
        p.wf(),
        p.fits_columns(columns as int),
        i <= columns,
        a.len() == p.letters.len(),
        partial_ok(a@),
        p.assigned_below(a@, i as int),
        p.addend_leads_ok(a@),
        carry <= p.addends.len(),
    ensures
        r is Some ==> p.valid_digits(r->0@) && extends(r->0@, a@) && p.check_from(
            r->0@,
            i as int,
            carry as int,
            columns as int,
        ),
        r is None ==> forall|d: Seq<u8>|
            p.valid_digits(d) && extends(d, a@) ==> !p.check_from(
                d,
                i as int,
                carry as int,
                columns as int,
            ),
        r is None <==> search(p.addend_words(), p.result@, columns as int, i as int, carry as int, a@) is None,
        r is Some ==> r->0@ == search(p.addend_words(), p.result@, columns as int, i as int, carry as int, a@)->0,
    decreases columns - i,
{
    if i == columns {
        if carry != 0 {
            return None;
        }
        proof {
            assert forall|j: int| 0 <= j < a.len() implies (#[trigger] a@[j]) is Some by {
                assert(p.occurs(j));
                if exists|k: int, c: int|
                    0 <= k < p.addends.len() && 0 <= c < p.addends[k].len() && p.addends[k][c]
                        == j {
                    let (k, c) = choose|k: int, c: int|
                        0 <= k < p.addends.len() && 0 <= c < p.addends[k].len()
                            && p.addends[k][c] == j;
                    assert(p.addends[k].len() <= columns);
                    assert(a@[p.addends[k][c] as int] is Some);
                } else {
                    let c = choose|c: int| 0 <= c < p.result.len() && p.result[c] == j;
                    assert(a@[p.result[c] as int] is Some);
                }
            }
        }
        let d = assigned_digits(a);
        proof {
            assert(word_fits(p.result@, p.letters@.len()));
        }
        if d[p.result[p.result.len() - 1]] == 0 {
            proof {
                assert forall|e: Seq<u8>| p.valid_digits(e) && extends(e, a@) implies !p.check_from(
                    e,
                    i as int,
                    carry as int,
                    columns as int,
                ) by {
                    let lead = p.result@.last() as int;
                    assert(a@[lead] is Some);
                }
            }
            return None;
        }
        proof {
            assert(extends(d@, a@));
            assert forall|k: int| 0 <= k < p.addends.len() implies d@[
                #[trigger] p.addends[k]@.last() as int] != 0 by {
                assert(word_fits(p.addends[k]@, p.letters@.len()));
                let lead = p.addends[k]@.last() as int;
                assert(a@[lead] is Some);
                assert(a@[lead] != Some(0u8));
            }
            assert forall|x: int, y: int|
                0 <= x < d.len() && 0 <= y < d.len() && x != y implies d@[x] != d@[y] by {
                assert(a@[x] is Some && a@[y] is Some);
            }
            assert forall|x: int| 0 <= x < d.len() implies d@[x] < 10 by {
                assert(a@[x] is Some);
            }
        }
        return Some(d);
    }
    let need = column_letters(p, a, i);
    let pool = unused_digits(a);
    let ghost pool_seq = pool@;
    let mut perms = arrangements(pool, need.len());
    let ghost all = permutations_left(perms);
    let ghost mut consumed: int = 0;
    assert(search(p.addend_words(), p.result@, columns as int, i as int, carry as int, a@) == try_each(
        p.addend_words(),
        p.result@,
        columns as int,
        i as int,
        carry as int,
        a@,
        need@,
        all,
    ));
    assert(all.skip(0) == all);
    loop
        invariant
            search(p.addend_words(), p.result@, columns as int, i as int, carry as int, a@) == try_each(
                p.addend_words(),
                p.result@,
                columns as int,
                i as int,
                carry as int,
                a@,
                need@,
                all.skip(consumed),
            ),
            p.wf(),
            p.fits_columns(columns as int),
            i < columns,
            a.len() == p.letters.len(),
            partial_ok(a@),
            p.assigned_below(a@, i as int),
            p.addend_leads_ok(a@),
            carry <= p.addends.len(),
            need@.no_duplicates(),
            forall|t: int| 0 <= t < need.len() ==> (need[t] as int) < a.len(),
            forall|t: int| 0 <= t < need.len() ==> a[#[trigger] need[t] as int] is None,
            forall|k: int|
                0 <= k < p.addends.len() && i < p.addends[k].len() ==> a[#[trigger] p.addends[k][i as int] as int] is Some
                    || need@.contains(p.addends[k][i as int]),
            i < p.result.len() ==> a[p.result[i as int] as int] is Some || need@.contains(p.result[i as int]),
            pool@.no_duplicates(),
            forall|v: u8| pool@.contains(v) <==> v < 10 && !used(a@, v),
            forall|s: Seq<u8>| #[trigger] all.contains(s) <==> is_arrangement(s, pool@, need.len() as nat),
            0 <= consumed <= all.len(),
            permutations_left(perms) == all.skip(consumed),
            forall|m: int, d: Seq<u8>|
                0 <= m < consumed && p.valid_digits(d) && #[trigger] extends_with(d, a@, need@, all[m])
                    ==> !p.check_from(d, i as int, carry as int, columns as int),
        ensures
            consumed == all.len(),
        decreases permutations_left(perms).len(),
    {
        let next = next_arrangement(&mut perms);
        let q = match next {
            None => {
                break;
            },
            Some(q) => q,
        };
        proof {
            assert(all.skip(consumed)[0] == all[consumed]);
            assert(all.skip(consumed).drop_first() == all.skip(consumed + 1));
        }
        let ghost qm = all[consumed];
        assert(q@ == qm);
        proof {
            assert(all[consumed] == qm);
            assert(all.contains(qm));
            assert(is_arrangement(qm, pool@, need.len() as nat));
        }
        let b = assign_digits(a, &need, &q);
        proof {
            assert forall|d: Seq<u8>| extends(d, b@) <==> extends_with(d, a@, need@, q@) by {
                lemma_assign_extends(a@, need@, q@, b@, d);
            }
        }
        proof {
            assert forall|x: int| 0 <= x < b.len() && (#[trigger] b@[x]) is Some implies b@[x]->0 < 10 by {
                if need@.contains(x as usize) {
                    let t = choose|t: int| 0 <= t < need.len() && need[t] == x as usize;
                    assert(b@[need[t] as int] == Some(q@[t]));
                    assert(pool@.contains(q@[t]));
                }
            }
            assert forall|x: int, y: int|
                0 <= x < b.len() && 0 <= y < b.len() && x != y && (#[trigger] b@[x]) is Some
                    && (#[trigger] b@[y]) is Some implies b@[x] != b@[y] by {
                if need@.contains(x as usize) {
                    let t = choose|t: int| 0 <= t < need.len() && need[t] == x as usize;
                    assert(b@[need[t] as int] == Some(q@[t]));
                    assert(pool@.contains(q@[t]));
                    if need@.contains(y as usize) {
                        let u = choose|u: int| 0 <= u < need.len() && need[u] == y as usize;
                        assert(b@[need[u] as int] == Some(q@[u]));
                        assert(q@.no_duplicates());
                    } else {
                        assert(b@[y] == a@[y]);
                        assert(!used(a@, q@[t]));
                    }
                } else if need@.contains(y as usize) {
                    let u = choose|u: int| 0 <= u < need.len() && need[u] == y as usize;
                    assert(b@[need[u] as int] == Some(q@[u]));
                    assert(pool@.contains(q@[u]));
                    assert(b@[x] == a@[x]);
                    assert(!used(a@, q@[u]));
                } else {
                    assert(b@[x] == a@[x]);
                    assert(b@[y] == a@[y]);
                }
            }
            assert(partial_ok(b@));
            assert forall|k: int|
                0 <= k < p.addends.len() && i < p.addends[k].len() implies (#[trigger] b@[
                p.addends[k][i as int] as int]) is Some by {
                let l = p.addends[k][i as int];
                if need@.contains(l) {
                    let t = choose|t: int| 0 <= t < need.len() && need[t] == l;
                    assert(b@[need[t] as int] == Some(q@[t]));
                } else {
                    assert(word_fits(p.addends[k]@, p.letters@.len()));
                    assert(b@[l as int] == a@[l as int]);
                }
            }
            if i < p.result.len() {
                let l = p.result[i as int];
                assert(word_fits(p.result@, p.letters@.len()));
                if need@.contains(l) {
                    let t = choose|t: int| 0 <= t < need.len() && need[t] == l;
                    assert(b@[need[t] as int] == Some(q@[t]));
                } else {
                    assert(b@[l as int] == a@[l as int]);
                }
            }
            assert(p.column_assigned(b@, i as int));
            assert forall|k: int, c: int|
                0 <= k < p.addends.len() && 0 <= c < i + 1 && c < p.addends[k].len() implies (
                #[trigger] b@[p.addends[k][c] as int]) is Some by {
                if c < i {
                    let l = p.addends[k][c];
                    assert(a@[l as int] is Some);
                    assert(word_fits(p.addends[k]@, p.letters@.len()));
                    if need@.contains(l) {
                        let t = choose|t: int| 0 <= t < need.len() && need[t] == l;
                        assert(a@[need[t] as int] is None);
                    }
                    assert(b@[l as int] == a@[l as int]);
                }
            }
            assert forall|c: int| 0 <= c < i + 1 && c < p.result.len() implies (#[trigger] b@[
                p.result[c] as int]) is Some by {
                if c < i {
                    let l = p.result[c];
                    assert(a@[l as int] is Some);
                    assert(word_fits(p.result@, p.letters@.len()));
                    if need@.contains(l) {
                        let t = choose|t: int| 0 <= t < need.len() && need[t] == l;
                        assert(a@[need[t] as int] is None);
                    }
                    assert(b@[l as int] == a@[l as int]);
                }
            }
            assert(p.assigned_below(b@, i + 1));
        }
        proof {
            p.lemma_leads_ok(b@);
        }
        if addend_leads_nonzero(p, &b) {
            let s = column_total(p, &b, i, carry);
            let rd = result_digit_at(p, &b, i);
            let ghost ws = p.addend_words();
            proof {
                p.lemma_addend_words();
                assert forall|d: Seq<u8>| extends(d, b@) implies column_sum(ws, d, i as int)
                    == column_sum(ws, fill(b@), i as int) && p.result_digit(d, i as int) == rd by {
                    assert forall|k: int|
                        0 <= k < ws.len() && 0 <= i < ws[k].len() implies d[#[trigger] ws[k][i as int] as int]
                        == fill(b@)[ws[k][i as int] as int] by {
                        assert(ws[k] == p.addends[k]@);
                        assert(word_fits(p.addends[k]@, p.letters@.len()));
                        assert(b@[p.addends[k][i as int] as int] is Some);
                    }
                    lemma_column_sum_agree(ws, d, fill(b@), i as int);
                    if i < p.result.len() {
                        assert(word_fits(p.result@, p.letters@.len()));
                        assert(b@[p.result[i as int] as int] is Some);
                    }
                }
            }
            if s % 10 == rd {
                let r = find_column_mapping(p, columns, i + 1, s / 10, &b);
                if r.is_some() {
                    proof {
                        let d = r->0@;
                        assert(extends_with(d, a@, need@, q@));
                    }
                    return r;
                }
            }
        }
        proof {
            consumed = consumed + 1;
        }
    }
    proof {
        assert(consumed == all.len());
        assert forall|d: Seq<u8>| p.valid_digits(d) && extends(d, a@) implies !p.check_from(
            d,
            i as int,
            carry as int,
            columns as int,
        ) by {
            let qd = need@.map_values(|l: usize| d[l as int]);
            assert forall|x: int, y: int| 0 <= x < qd.len() && 0 <= y < qd.len() && x != y implies qd[x]
                != qd[y] by {
                assert(need@[x] != need@[y]);
            }
            assert forall|t: int| 0 <= t < qd.len() implies pool@.contains(#[trigger] qd[t]) by {
                let l = need@[t] as int;
                assert(qd[t] == d[l]);
                if used(a@, qd[t]) {
                    let j = choose|j: int| 0 <= j < a.len() && a@[j] == Some(qd[t]);
                    assert(d[j] == qd[t]);
                    assert(a@[l] is None);
                }
            }
            assert(is_arrangement(qd, pool@, need.len() as nat));
            assert(all.contains(qd));
            let m = choose|m: int| 0 <= m < all.len() && all[m] == qd;
            assert(extends_with(d, a@, need@, all[m]));
        }
    }
    None
}

} // verus!

verus! {

/// The number of columns: the length of the longest word.
pub(crate) fn column_count(p: &Puzzle) -> (n: usize)
    requires
        p.wf(),
    ensures
        p.fits_columns(n as int),
        n == p.columns(),
{
    let mut n: usize = p.result.len();
    let mut k: usize = 0;
    proof {
        p.lemma_addend_words();
    }
    while k < p.addends.len()
        invariant
            k <= p.addends.len(),
            p.addend_words().len() == p.addends.len(),
            forall|x: int| 0 <= x < p.addends.len() ==> #[trigger] p.addend_words()[x] == p.addends[x]@,
            n == longest(p.addend_words().take(k as int), p.result.len() as int),
            p.result.len() <= n,
            forall|x: int| 0 <= x < k ==> #[trigger] p.addends[x].len() <= n,
        decreases p.addends.len() - k,
    {
        proof {
            assert(p.addend_words().take(k + 1).drop_last() == p.addend_words().take(k as int));
            assert(p.addend_words().take(k + 1).last() == p.addends[k as int]@);
        }
        if p.addends[k].len() > n {
            n = p.addends[k].len();
        }
        k += 1;
    }
    proof {
        assert(p.addend_words().take(k as int) == p.addend_words());
    }
    n
}

/// Finds the digits of a solution of `p`, column by column, or `None` when
/// the puzzle has no solution.
pub fn solve_puzzle(p: &Puzzle) -> (r: Option<Vec<u8>>)
    requires
        p.wf(),
    ensures
        r is Some ==> p.is_solution(r->0@),
        r is None <==> !p.has_solution(),
        r is None <==> p.solution_found() is None,
        r is Some ==> r->0@ == p.solution_found()->0,
{
    let columns = column_count(p);
    let mut a: Vec<Option<u8>> = Vec::new();
    let mut j: usize = 0;
    while j < p.letters.len()
        invariant
            j <= p.letters.len(),
            a.len() == j,
            forall|x: int| 0 <= x < j ==> a@[x] is None,
        decreases p.letters.len() - j,
    {
        a.push(None);
        j += 1;
    }
    assert(a@ == Seq::new(p.letters@.len(), |j: int| None::<u8>));
    let r = find_column_mapping(p, columns, 0, 0, &a);
    proof {
        if r is Some {
            p.lemma_solution_iff_columns(r->0@, columns as int);
        } else {
            assert forall|d: Seq<u8>| !p.is_solution(d) by {
                if p.valid_digits(d) {
                    assert(extends(d, a@));
                    p.lemma_solution_iff_columns(d, columns as int);
                }
            }
        }
    }
    r
}

/// What the column search finds for the puzzle written in `s`: its letters
/// and their digits, or `None` when the text is not a puzzle or the search
/// finds no solution.
pub open spec fn text_outcome(s: Seq<char>) -> Option<(Seq<char>, Seq<u8>)> {
    match model_words(s) {
        None => None,
        Some(words) => {
            let (letters, numbered) = number_words(words, words.len() as int);
            let ws = numbered.drop_last();
            let res = numbered.last();
            match search(
                ws,
                res,
                longest(ws, res.len() as int),
                0,
                0,
                Seq::new(letters.len(), |j: int| None::<u8>),
            ) {
                None => None,
                Some(d) => Some((letters, d)),
            }
        },
    }
}

/// Solves the puzzle written in `input` (`W1 + ... + Wn == R`): the digit of
/// each letter, or `None` when the text is not a puzzle or the puzzle has no
/// solution.
pub fn solve(input: &str) -> (r: Option<std::collections::HashMap<char, u8>>)
    ensures
        model_words(input@) is None ==> r is None,
        r is None <==> !text_has_solution(input@),
        r is Some ==> exists|p: Puzzle, d: Seq<u8>|
            p.wf() && p.read_from(input@) && p.written_as(model_words(input@)->0) && p.is_solution(
                d,
            ) && maps_letters(r->0@, p.letters@, d),
        r is None <==> text_outcome(input@) is None,
        r is Some ==> maps_letters(
            r->0@,
            (text_outcome(input@)->0).0,
            (text_outcome(input@)->0).1,
        ),
{
    let p = match Puzzle::from_str(input) {
        Some(p) => p,
        None => {
            return None;
        },
    };
    proof {
        let words = model_words(input@)->0;
        let numbered = number_words(words, words.len() as int).1;
        assert(numbered.drop_last() == p.addend_words());
        assert(numbered.last() == p.result@);
    }
    let r = solve_puzzle(&p);
    proof {
        if r is None {
            assert forall|q: Puzzle| q.wf() && q.read_from(input@) implies !q.has_solution() by {
                lemma_same_reading(&p, &q, input@, Seq::empty());
            }
        }
    }
    match r {
        Some(d) => {
            let m = p.digit_map(&d);
            Some(m)
        },
        None => None,
    }
}

} // verus!
