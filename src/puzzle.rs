use vstd::prelude::*;

verus! {

/// An alphametic puzzle `W1 + ... + Wn == R`.
///
/// Letters are numbered by their position in `letters`; every word is a
/// sequence of letter numbers, least significant letter first. A puzzle read
/// from text holds its addends by descending length.
pub struct Puzzle {
    pub letters: Vec<char>,
    pub addends: Vec<Vec<usize>>,
    pub result: Vec<usize>,
}

/// Value of the digits of `w` from position `i` upwards, under the digits `d`.
pub open spec fn word_from(w: Seq<usize>, d: Seq<u8>, i: int) -> int
    decreases w.len() - i,
{
    if i < 0 || i >= w.len() {
        0
    } else {
        d[w[i] as int] as int + 10 * word_from(w, d, i + 1)
    }
}

/// Numeric value of a word.
pub open spec fn word_value(w: Seq<usize>, d: Seq<u8>) -> int {
    word_from(w, d, 0)
}

/// Sum over the words of `ws` of their values from position `i` upwards.
pub open spec fn sum_from(ws: Seq<Seq<usize>>, d: Seq<u8>, i: int) -> int
    decreases ws.len(),
{
    if ws.len() == 0 {
        0
    } else {
        sum_from(ws.drop_last(), d, i) + word_from(ws.last(), d, i)
    }
}

/// Digit of `w` at position `i`, zero past its end.
pub open spec fn digit_at(w: Seq<usize>, d: Seq<u8>, i: int) -> int {
    if 0 <= i < w.len() {
        d[w[i] as int] as int
    } else {
        0
    }
}

/// Sum of the addends' digits in column `i`.
pub open spec fn column_sum(ws: Seq<Seq<usize>>, d: Seq<u8>, i: int) -> int
    decreases ws.len(),
{
    if ws.len() == 0 {
        0
    } else {
        column_sum(ws.drop_last(), d, i) + digit_at(ws.last(), d, i)
    }
}

pub open spec fn word_fits(w: Seq<usize>, n: nat) -> bool {
    &&& w.len() >= 1
    &&& forall|i: int| 0 <= i < w.len() ==> (w[i] as int) < n
}

pub open spec fn all_digits(d: Seq<u8>) -> bool {
    forall|j: int| 0 <= j < d.len() ==> d[j] < 10
}

pub open spec fn distinct_digits(d: Seq<u8>) -> bool {
    forall|i: int, j: int| 0 <= i < d.len() && 0 <= j < d.len() && i != j ==> d[i] != d[j]
}

impl Puzzle {
    pub open spec fn addend_words(&self) -> Seq<Seq<usize>> {
        self.addends@.map_values(|w: Vec<usize>| w@)
    }

    /// Letter number `j` is written somewhere in the puzzle.
    pub open spec fn occurs(&self, j: int) -> bool {
        ||| exists|k: int, i: int|
            0 <= k < self.addends.len() && 0 <= i < self.addends[k].len() && self.addends[k][i]
                == j
        ||| exists|i: int| 0 <= i < self.result.len() && self.result[i] == j
    }

    pub open spec fn wf(&self) -> bool {
        &&& self.letters@.no_duplicates()
        &&& self.addends.len() >= 1
        &&& forall|k: int|
            0 <= k < self.addends.len() ==> word_fits(#[trigger] self.addends[k]@, self.letters@.len())
        &&& word_fits(self.result@, self.letters@.len())
        &&& forall|j: int| 0 <= j < self.letters.len() ==> #[trigger] self.occurs(j)
    }

    /// `n` columns hold every word.
    pub open spec fn fits_columns(&self, n: int) -> bool {
        &&& self.result.len() <= n
        &&& forall|k: int| 0 <= k < self.addends.len() ==> #[trigger] self.addends[k].len() <= n
    }

    /// No word starts with the digit zero.
    pub open spec fn no_leading_zero(&self, d: Seq<u8>) -> bool {
        &&& forall|k: int|
            0 <= k < self.addends.len() ==> d[#[trigger] self.addends[k]@.last() as int] != 0
        &&& d[self.result@.last() as int] != 0
    }

    /// `d` gives each letter a digit, different letters different digits,
    /// and no word a leading zero.
    pub open spec fn valid_digits(&self, d: Seq<u8>) -> bool {
        &&& d.len() == self.letters.len()
        &&& all_digits(d)
        &&& distinct_digits(d)
        &&& self.no_leading_zero(d)
    }

    /// `d` solves the puzzle: the sum of the addends equals the result.
    pub open spec fn is_solution(&self, d: Seq<u8>) -> bool {
        &&& self.valid_digits(d)
        &&& sum_from(self.addend_words(), d, 0) == word_value(self.result@, d)
    }

    pub open spec fn has_solution(&self) -> bool {
        exists|d: Seq<u8>| self.is_solution(d)
    }

    /// Digit of the result in column `i`.
    pub open spec fn result_digit(&self, d: Seq<u8>, i: int) -> int {
        digit_at(self.result@, d, i)
    }

    /// Column-by-column check from column `i` on, with carry `c` coming in,
    /// over `n` columns: each column's sum matches the result digit modulo ten,
    /// and no carry is left over after the last column.
    pub open spec fn check_from(&self, d: Seq<u8>, i: int, c: int, n: int) -> bool
        decreases n - i,
    {
        if i >= n {
            c == 0
        } else {
            let s = c + column_sum(self.addend_words(), d, i);
            s % 10 == self.result_digit(d, i) && self.check_from(d, i + 1, s / 10, n)
        }
    }
}

pub proof fn lemma_sum_past_end(ws: Seq<Seq<usize>>, d: Seq<u8>, i: int)
    requires
        forall|k: int| 0 <= k < ws.len() ==> #[trigger] ws[k].len() <= i,
    ensures
        sum_from(ws, d, i) == 0,
    decreases ws.len(),
{
    if ws.len() > 0 {
        lemma_sum_past_end(ws.drop_last(), d, i);
        assert(ws[ws.len() - 1].len() <= i);
    }
}

/// The addends' values from column `i` split into column `i` and the rest.
pub proof fn lemma_sum_split(ws: Seq<Seq<usize>>, d: Seq<u8>, i: int)
    requires
        i >= 0,
    ensures
        sum_from(ws, d, i) == column_sum(ws, d, i) + 10 * sum_from(ws, d, i + 1),
    decreases ws.len(),
{
    if ws.len() > 0 {
        lemma_sum_split(ws.drop_last(), d, i);
    }
}

pub proof fn lemma_column_sum_bounds(ws: Seq<Seq<usize>>, d: Seq<u8>, i: int)
    requires
        forall|k: int, j: int|
            0 <= k < ws.len() && 0 <= j < ws[k].len() ==> (#[trigger] ws[k][j] as int) < d.len(),
        all_digits(d),
    ensures
        0 <= column_sum(ws, d, i) <= 9 * ws.len(),
    decreases ws.len(),
{
    if ws.len() > 0 {
        let w = ws.last();
        assert forall|k: int, j: int|
            0 <= k < ws.drop_last().len() && 0 <= j < ws.drop_last()[k].len() implies (
            #[trigger] ws.drop_last()[k][j] as int) < d.len() by {
            assert(ws.drop_last()[k] == ws[k]);
        }
        lemma_column_sum_bounds(ws.drop_last(), d, i);
        if 0 <= i < w.len() {
            assert(ws[ws.len() - 1][i] == w[i]);
        }
    }
}

/// Two digit assignments that agree on the letters of column `i` give it the same sum.
pub proof fn lemma_column_sum_agree(ws: Seq<Seq<usize>>, d: Seq<u8>, e: Seq<u8>, i: int)
    requires
        forall|k: int|
            0 <= k < ws.len() && 0 <= i < ws[k].len() ==> d[#[trigger] ws[k][i] as int] == e[ws[k][i] as int],
    ensures
        column_sum(ws, d, i) == column_sum(ws, e, i),
    decreases ws.len(),
{
    if ws.len() > 0 {
        assert forall|k: int|
            0 <= k < ws.drop_last().len() && 0 <= i < ws.drop_last()[k].len() implies d[
            #[trigger] ws.drop_last()[k][i] as int] == e[ws.drop_last()[k][i] as int] by {
            assert(ws.drop_last()[k] == ws[k]);
        }
        lemma_column_sum_agree(ws.drop_last(), d, e, i);
        if 0 <= i < ws.last().len() {
            assert(ws[ws.len() - 1][i] == ws.last()[i]);
        }
    }
}

impl Puzzle {
    pub proof fn lemma_addend_words(&self)
        ensures
            self.addend_words().len() == self.addends.len(),
            forall|k: int|
                0 <= k < self.addends.len() ==> #[trigger] self.addend_words()[k] == self.addends[k]@,
    {
    }

    /// The column check from column `i` with carry `c` holds exactly when
    /// the carry plus the addends' remaining value equals the result's remaining value.
    pub proof fn lemma_check_from(&self, d: Seq<u8>, i: int, c: int, n: int)
        requires
            self.wf(),
            self.fits_columns(n),
            d.len() == self.letters.len(),
            all_digits(d),
            0 <= i <= n,
            c >= 0,
        ensures
            self.check_from(d, i, c, n) <==> c + sum_from(self.addend_words(), d, i) == word_from(
                self.result@,
                d,
                i,
            ),
        decreases n - i,
    {
        let ws = self.addend_words();
        self.lemma_addend_words();
        if i >= n {
            assert forall|k: int| 0 <= k < ws.len() implies #[trigger] ws[k].len() <= i by {
                assert(self.addends[k].len() <= n);
            }
            lemma_sum_past_end(ws, d, i);
        } else {
            lemma_sum_split(ws, d, i);
            assert forall|k: int, j: int|
                0 <= k < ws.len() && 0 <= j < ws[k].len() implies (#[trigger] ws[k][j] as int)
                < d.len() by {
                assert(word_fits(self.addends[k]@, self.letters@.len()));
            }
            lemma_column_sum_bounds(ws, d, i);
            let s = c + column_sum(ws, d, i);
            let rd = self.result_digit(d, i);
            if i < self.result.len() {
                assert(word_fits(self.result@, self.letters@.len()));
                assert(self.result@[i] < d.len());
            }
            assert(0 <= rd < 10);
            assert(word_from(self.result@, d, i) == rd + 10 * word_from(self.result@, d, i + 1));
            self.lemma_check_from(d, i + 1, s / 10, n);
            let x = sum_from(ws, d, i + 1);
            let y = word_from(self.result@, d, i + 1);
            assert(s == 10 * (s / 10) + s % 10);
            if s % 10 == rd && s / 10 + x == y {
                assert(s + 10 * x == rd + 10 * y);
            }
            if s + 10 * x == rd + 10 * y {
                assert((s + 10 * x) % 10 == s % 10) by (nonlinear_arith)
                    requires s >= 0, x >= 0 || x < 0;
                assert((rd + 10 * y) % 10 == rd) by (nonlinear_arith)
                    requires 0 <= rd < 10;
                assert(s / 10 + x == y);
            }
        }
    }

    /// A valid assignment solves the puzzle exactly when the column check passes.
    pub proof fn lemma_solution_iff_columns(&self, d: Seq<u8>, n: int)
        requires
            self.wf(),
            self.fits_columns(n),
            self.valid_digits(d),
        ensures
            self.is_solution(d) <==> self.check_from(d, 0, 0, n),
    {
        self.lemma_check_from(d, 0, 0, n);
    }
}

} // verus!

verus! {

/// `m` maps each letter `letters[t]` to `d[t]`, and nothing else.
pub open spec fn maps_letters(m: Map<char, u8>, letters: Seq<char>, d: Seq<u8>) -> bool {
    &&& m.dom() == letters.to_set()
    &&& forall|t: int| 0 <= t < letters.len() ==> m[#[trigger] letters[t]] == d[t]
}

/// Relies on `HashMap::insert`: afterwards the key maps to the value and the
/// other keys keep theirs.
#[verifier::external_body]
fn insert_digit(m: &mut std::collections::HashMap<char, u8>, c: char, v: u8)
    ensures
        final(m)@ == old(m)@.insert(c, v),
{
    m.insert(c, v);
}

impl Puzzle {
    /// The map from each letter to its digit in `d`.
    pub fn digit_map(&self, d: &Vec<u8>) -> (m: std::collections::HashMap<char, u8>)
        requires
            self.letters@.no_duplicates(),
            d.len() == self.letters.len(),
        ensures
            maps_letters(m@, self.letters@, d@),
    {
        let mut m: std::collections::HashMap<char, u8> = std::collections::HashMap::new();
        let mut t: usize = 0;
        proof {
            assert(self.letters@.take(0).to_set() =~= Set::<char>::empty());
            assert(m@.dom() =~= Set::<char>::empty());
        }
        while t < self.letters.len()
            invariant
                self.letters@.no_duplicates(),
                d.len() == self.letters.len(),
                t <= self.letters.len(),
                maps_letters(m@, self.letters@.take(t as int), d@),
            decreases self.letters.len() - t,
        {
            let ghost m0 = m@;
            insert_digit(&mut m, self.letters[t], d[t]);
            proof {
                let lt = self.letters@.take(t + 1);
                assert(lt == self.letters@.take(t as int).push(self.letters[t as int]));
                assert(lt.to_set() == self.letters@.take(t as int).to_set().insert(self.letters[t as int]))
                    by {
                    self.letters@.take(t as int).lemma_push_to_set_commute(self.letters[t as int]);
                }
                assert(m@.dom() =~= lt.to_set());
                assert forall|x: int| 0 <= x < lt.len() implies m@[#[trigger] lt[x]] == d@[x] by {
                    if x < t {
                        assert(lt[x] == self.letters@.take(t as int)[x]);
                        assert(self.letters[x] != self.letters[t as int]);
                    }
                }
            }
            t += 1;
        }
        proof {
            assert(self.letters@.take(t as int) == self.letters@);
        }
        m
    }
}

} // verus!
