use crate::assignment::{complete, fill, partial_ok};
use crate::permutations::{arrangements, arrangements_of, is_arrangement, next_arrangement, permutations_left};
use crate::puzzle::{maps_letters, word_fits, Puzzle};
use crate::solver_bt::{addend_leads_nonzero, column_count, column_total, result_digit_at};
use crate::parse::{lemma_same_reading, model_words, text_has_solution};
use vstd::prelude::*;

verus! {

/// Whether the complete assignment `b` passes every column of `p`.
fn columns_hold(p: &Puzzle, b: &Vec<Option<u8>>, columns: usize) -> (r: bool)
    requires
        p.wf(),
        p.fits_columns(columns as int),
        b.len() == p.letters.len(),
        partial_ok(b@),
        complete(b@),
    ensures
        r == p.check_from(fill(b@), 0, 0, columns as int),
{
    let mut carry: u128 = 0;
    let mut i: usize = 0;
    while i < columns
        invariant
            p.wf(),
            b.len() == p.letters.len(),
            partial_ok(b@),
            complete(b@),
            i <= columns,
            carry <= p.addends.len(),
            p.check_from(fill(b@), 0, 0, columns as int) == p.check_from(
                fill(b@),
                i as int,
                carry as int,
                columns as int,
            ),
        decreases columns - i,
    {
        let s = column_total(p, b, i, carry);
        let rd = result_digit_at(p, b, i);
        if s % 10 != rd {
            return false;
        }
        carry = s / 10;
        i += 1;
    }
    carry == 0
}

/// The first of the arrangements `qs` that solves `p`.
pub open spec fn first_solution(p: &Puzzle, qs: Seq<Seq<u8>>) -> Option<Seq<u8>>
    decreases qs.len(),
{
    if qs.len() == 0 {
        None
    } else if p.is_solution(qs[0]) {
        Some(qs[0])
    } else {
        first_solution(p, qs.drop_first())
    }
}

/// The ten decimal digits in ascending order.
pub open spec fn decimal_digits() -> Seq<u8> {
    Seq::new(10, |x: int| x as u8)
}

/// Tries every arrangement of distinct digits over the letters of `p`, and
/// returns the first that solves it, or `None` when none does.
pub fn solve_puzzle(p: &Puzzle) -> (r: Option<Vec<u8>>)
    requires
        p.wf(),
    ensures
        r is Some ==> p.is_solution(r->0@),
        r is None <==> !p.has_solution(),
        r is None <==> first_solution(p, arrangements_of(decimal_digits(), p.letters@.len())) is None,
        r is Some ==> r->0@ == first_solution(
            p,
            arrangements_of(decimal_digits(), p.letters@.len()),
        )->0,
{
    let columns = column_count(p);
    let mut pool: Vec<u8> = Vec::new();
    let mut v: u8 = 0;
    while v < 10
        invariant
            v <= 10,
            pool@ == Seq::new(v as nat, |x: int| x as u8),
        decreases 10 - v,
    {
        pool.push(v);
        v += 1;
    }
    let ghost digits = pool@;
    proof {
        assert forall|x: int, y: int| 0 <= x < digits.len() && 0 <= y < digits.len() && x != y implies digits[x]
            != digits[y] by {}
    }
    let mut perms = arrangements(pool, p.letters.len());
    let ghost all = permutations_left(perms);
    let ghost mut consumed: int = 0;
    assert(digits == decimal_digits());
    assert(all.skip(0) == all);
    loop
        invariant
            first_solution(p, all) == first_solution(p, all.skip(consumed)),
            all == arrangements_of(decimal_digits(), p.letters@.len()),
            p.wf(),
            p.fits_columns(columns as int),
            digits == Seq::new(10, |x: int| x as u8),
            forall|s: Seq<u8>| #[trigger] all.contains(s) <==> is_arrangement(s, digits, p.letters.len() as nat),
            0 <= consumed <= all.len(),
            permutations_left(perms) == all.skip(consumed),
            forall|m: int| 0 <= m < consumed ==> !p.is_solution(#[trigger] all[m]),
        ensures
            consumed == all.len(),
        decreases permutations_left(perms).len(),
    {
        let next = next_arrangement(&mut perms);
        let q = match next {
            None => {
                break;
            },
            Some(q) => q,
        };
        proof {
            assert(all.skip(consumed)[0] == all[consumed]);
            assert(all.skip(consumed).drop_first() == all.skip(consumed + 1));
            assert(all.contains(all[consumed]));
        }
        let mut b: Vec<Option<u8>> = Vec::new();
        let mut j: usize = 0;
        while j < q.len()
            invariant
                j <= q.len(),
                b.len() == j,
                forall|x: int| 0 <= x < j ==> b@[x] == Some(q@[x]),
            decreases q.len() - j,
        {
            b.push(Some(q[j]));
            j += 1;
        }
        proof {
            assert(fill(b@) =~= q@);
            assert forall|x: int| 0 <= x < q.len() implies q@[x] < 10 by {
                assert(digits.contains(q@[x]));
            }
        }
        if addend_leads_nonzero(p, &b) {
            proof {
                assert(word_fits(p.result@, p.letters@.len()));
            }
            if b[p.result[p.result.len() - 1]] != Some(0u8) && columns_hold(p, &b, columns) {
                proof {
                    assert forall|k: int| 0 <= k < p.addends.len() implies q@[
                        #[trigger] p.addends[k]@.last() as int] != 0 by {
                        assert(word_fits(p.addends[k]@, p.letters@.len()));
                        assert(b@[p.addends[k]@.last() as int] != Some(0u8));
                    }
                    p.lemma_solution_iff_columns(q@, columns as int);
                }
                return Some(q);
            }
        }
        proof {
            if p.valid_digits(q@) {
                p.lemma_solution_iff_columns(q@, columns as int);
                assert forall|k: int| 0 <= k < p.addends.len() implies b@[
                    #[trigger] p.addends[k]@.last() as int] != Some(0u8) by {
                    assert(word_fits(p.addends[k]@, p.letters@.len()));
                }
            }
            consumed = consumed + 1;
        }
    }
    proof {
        assert forall|d: Seq<u8>| !p.is_solution(d) by {
            if p.is_solution(d) {
                assert forall|t: int| 0 <= t < d.len() implies digits.contains(#[trigger] d[t]) by {
                    assert(digits[d[t] as int] == d[t]);
                }
                assert(is_arrangement(d, digits, p.letters.len() as nat));
                assert(all.contains(d));
            }
        }
    }
    None
}

/// Solves the puzzle written in `input` by trying every arrangement of digits:
/// the digit of each letter, or `None` when the text is not a puzzle or the
/// puzzle has no solution.
pub fn solve(input: &str) -> (r: Option<std::collections::HashMap<char, u8>>)
    ensures
        model_words(input@) is None ==> r is None,
        r is None <==> !text_has_solution(input@),
        r is Some ==> exists|p: Puzzle, d: Seq<u8>|
            p.wf() && p.read_from(input@) && p.written_as(model_words(input@)->0) && p.is_solution(
                d,
            ) && maps_letters(r->0@, p.letters@, d),
{
    let p = match Puzzle::from_str(input) {
        Some(p) => p,
        None => {
            return None;
        },
    };
    let r = solve_puzzle(&p);
    proof {
        if r is None {
            assert forall|q: Puzzle| q.wf() && q.read_from(input@) implies !q.has_solution() by {
                lemma_same_reading(&p, &q, input@, Seq::empty());
            }
        }
    }
    match r {
        Some(d) => {
            let m = p.digit_map(&d);
            Some(m)
        },
        None => None,
    }
}

} // verus!
