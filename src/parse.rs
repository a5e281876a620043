use crate::order::{descending, lemma_sort_desc, order_addends, sort_desc, words_view};
use crate::puzzle::{word_fits, Puzzle};
use vstd::prelude::*;
use vstd::string::StrSliceExecFns;

verus! {

/// The upper-case form of an ASCII lower-case letter; any other character
/// stays as it is.
pub open spec fn upper(c: char) -> char {
    if 'a' <= c <= 'z' {
        choose|r: char| #[trigger] (r as u32) == c as u32 - 32
    } else {
        c
    }
}

/// The upper-case form of an ASCII lower-case letter; any other character
/// stays as it is.
fn ascii_upper(c: char) -> (r: char)
    ensures
        r == upper(c),
{
    if 'a' <= c && c <= 'z' {
        ((c as u32) - 32) as u8 as char
    } else {
        c
    }
}

/// Letter number `j` is written in one of the words `ws`.
pub open spec fn occurs_in(ws: Seq<Vec<usize>>, j: int) -> bool {
    exists|x: int, y: int| 0 <= x < ws.len() && 0 <= y < ws[x].len() && ws[x][y] as int == j
}

/// A white-space character: tab to carriage return, space, next line,
/// no-break space, and the Unicode spaces and separators.
pub open spec fn is_blank(c: char) -> bool {
    let u = c as u32;
    ||| 0x09 <= u <= 0x0d
    ||| u == 0x20
    ||| u == 0x85
    ||| u == 0xa0
    ||| u == 0x1680
    ||| 0x2000 <= u <= 0x200a
    ||| u == 0x2028
    ||| u == 0x2029
    ||| u == 0x202f
    ||| u == 0x205f
    ||| u == 0x3000
}

/// Where a reader of a puzzle's text stands: the words read so far, the word
/// being read, the phase (0 among the addends, 1 after the first `=`, 2 in
/// the result), and whether the text has already broken the form.
pub type Scan = (Seq<Seq<char>>, Seq<char>, int, bool);

/// The reader's state after `s`. Blanks separate nothing and are dropped;
/// every other character but `+` and `=` is a letter of the current word.
pub open spec fn scan(s: Seq<char>) -> Scan
    decreases s.len(),
{
    if s.len() == 0 {
        (Seq::empty(), Seq::empty(), 0, false)
    } else {
        let (words, cur, phase, bad) = scan(s.drop_last());
        let c = s.last();
        if bad {
            (words, cur, phase, true)
        } else if phase == 1 {
            if c == '=' {
                (words, cur, 2, false)
            } else {
                (words, cur, phase, true)
            }
        } else if c == '+' || c == '=' {
            if phase == 2 || cur.len() == 0 {
                (words, cur, phase, true)
            } else if c == '+' {
                (words.push(cur), Seq::empty(), 0, false)
            } else {
                (words.push(cur), Seq::empty(), 1, false)
            }
        } else if is_blank(c) {
            (words, cur, phase, false)
        } else {
            (words, cur.push(upper(c)), phase, false)
        }
    }
}

/// The words of a puzzle written `W1 + ... + Wn == R`, upper-cased, addends
/// first and the result last; `None` for text not of that form.
pub open spec fn puzzle_words(s: Seq<char>) -> Option<Seq<Seq<char>>> {
    let (words, cur, phase, bad) = scan(s);
    if bad || phase != 2 || cur.len() == 0 {
        None
    } else {
        Some(words.push(cur))
    }
}

/// The words of the puzzle in `s` as the model holds them: the addends by
/// descending length (words of one length in reading order), then the result.
pub open spec fn model_words(s: Seq<char>) -> Option<Seq<Seq<char>>> {
    match puzzle_words(s) {
        None => None,
        Some(ws) => Some(sort_desc(ws.drop_last()).push(ws.last())),
    }
}

proof fn lemma_sorted_nonempty(ws: Seq<Seq<char>>)
    requires
        forall|k: int| 0 <= k < ws.len() ==> #[trigger] ws[k].len() >= 1,
    ensures
        forall|x: int| 0 <= x < sort_desc(ws).len() ==> #[trigger] sort_desc(ws)[x].len() >= 1,
{
    broadcast use vstd::seq_lib::group_to_multiset_ensures;

    lemma_sort_desc(ws);
    assert forall|x: int| 0 <= x < sort_desc(ws).len() implies #[trigger] sort_desc(ws)[x].len()
        >= 1 by {
        let e = sort_desc(ws)[x];
        assert(sort_desc(ws).contains(e));
        assert(ws.to_multiset().count(e) > 0);
        assert(ws.contains(e));
    }
}

/// Once the text has broken the form, it stays broken.
proof fn lemma_scan_stays_bad(s: Seq<char>, i: int)
    requires
        0 <= i <= s.len(),
        scan(s.take(i)).3,
    ensures
        scan(s).3,
    decreases s.len() - i,
{
    if i < s.len() {
        assert(s.take(i + 1).drop_last() == s.take(i));
        lemma_scan_stays_bad(s, i + 1);
    } else {
        assert(s.take(i) == s);
    }
}

/// Splits `W1 + ... + Wn == R` into its words, in reading order: the addends,
/// then the result last. Blanks are dropped and letters upper-cased.
pub fn split_words(input: &str) -> (r: Option<Vec<Vec<char>>>)
    ensures
        r is None <==> puzzle_words(input@) is None,
        r is Some ==> words_view(r->0@) == puzzle_words(input@)->0,
        r is Some ==> r->0.len() >= 2 && forall|k: int|
            0 <= k < r->0.len() ==> #[trigger] r->0[k].len() >= 1,
{
    let n = input.unicode_len();
    let mut words: Vec<Vec<char>> = Vec::new();
    let mut cur: Vec<char> = Vec::new();
    let mut phase: u8 = 0;
    let mut i: usize = 0;
    while i < n
        invariant
            n == input@.len(),
            i <= n,
            scan(input@.take(i as int)) == (words_view(words@), cur@, phase as int, false),
            phase <= 2,
            phase >= 1 ==> words.len() >= 1,
            forall|k: int| 0 <= k < words.len() ==> #[trigger] words[k].len() >= 1,
        decreases n - i,
    {
        let c = input.get_char(i);
        proof {
            assert(input@.take(i + 1).drop_last() == input@.take(i as int));
            assert(input@.take(i + 1).last() == c);
        }
        if phase == 1 {
            if c != '=' {
                proof {
                    lemma_scan_stays_bad(input@, i + 1);
                }
                return None;
            }
            phase = 2;
        } else if c == '+' || c == '=' {
            if phase == 2 || cur.len() == 0 {
                proof {
                    lemma_scan_stays_bad(input@, i + 1);
                }
                return None;
            }
            let ghost w0 = words@;
            words.push(cur);
            proof {
                assert(words_view(words@) == words_view(w0).push(words@.last()@));
            }
            cur = Vec::new();
            if c == '=' {
                phase = 1;
            }
        } else if is_blank_char(c) {
        } else {
            cur.push(ascii_upper(c));
        }
        i += 1;
    }
    proof {
        assert(input@.take(n as int) == input@);
    }
    if phase != 2 || cur.len() == 0 {
        return None;
    }
    let ghost w0 = words@;
    words.push(cur);
    proof {
        assert(words_view(words@) == words_view(w0).push(words@.last()@));
    }
    Some(words)
}

fn is_blank_char(c: char) -> (r: bool)
    ensures
        r == is_blank(c),
{
    let u = c as u32;
    (0x09 <= u && u <= 0x0d) || u == 0x20 || u == 0x85 || u == 0xa0 || u == 0x1680 || (0x2000 <= u
        && u <= 0x200a) || u == 0x2028 || u == 0x2029 || u == 0x202f || u == 0x205f || u == 0x3000
}

/// The number of letter `c` in `letters`, or the length of `letters` when
/// `c` is not among them.
pub open spec fn letter_number(letters: Seq<char>, c: char) -> int {
    if letters.contains(c) {
        choose|j: int| 0 <= j < letters.len() && letters[j] == c
    } else {
        letters.len() as int
    }
}

/// The letters and the word of numbers after numbering the last `t` letters
/// of `text`, from its end: a letter not yet in `letters` gets the next number.
pub open spec fn number_text(letters: Seq<char>, text: Seq<char>, t: int) -> (Seq<char>, Seq<usize>)
    decreases t,
{
    if t <= 0 {
        (letters, Seq::empty())
    } else {
        let (l, w) = number_text(letters, text, t - 1);
        let c = text[text.len() - t];
        let j = letter_number(l, c);
        (if j == l.len() {
            l.push(c)
        } else {
            l
        }, w.push(j as usize))
    }
}

/// The letters and the numbered words after numbering the first `n` of `words`
/// in turn, starting from no letters.
pub open spec fn number_words(words: Seq<Seq<char>>, n: int) -> (Seq<char>, Seq<Seq<usize>>)
    decreases n,
{
    if n <= 0 {
        (Seq::empty(), Seq::empty())
    } else {
        let (l, ws) = number_words(words, n - 1);
        let (l2, w) = number_text(l, words[n - 1], words[n - 1].len() as int);
        (l2, ws.push(w))
    }
}

/// Numbers the letters of `word`, least significant first, adding new letters
/// to `letters`.
pub fn index_word(letters: &mut Vec<char>, word: &Vec<char>) -> (w: Vec<usize>)
    requires
        old(letters)@.no_duplicates(),
    ensures
        final(letters)@.no_duplicates(),
        old(letters)@.len() <= final(letters)@.len(),
        final(letters)@.subrange(0, old(letters)@.len() as int) == old(letters)@,
        w.len() == word.len(),
        forall|t: int| 0 <= t < w.len() ==> (#[trigger] w[t] as int) < final(letters)@.len(),
        forall|t: int|
            0 <= t < w.len() ==> final(letters)@[#[trigger] w[t] as int] == word@[word.len() - 1 - t],
        forall|j: int|
            old(letters)@.len() <= j < final(letters)@.len() ==> #[trigger] w@.contains(j as usize),
        (final(letters)@, w@) == number_text(old(letters)@, word@, word.len() as int),
{
    let ghost l0 = letters@;
    let mut w: Vec<usize> = Vec::new();
    let mut t: usize = 0;
    while t < word.len()
        invariant
            letters@.no_duplicates(),
            l0.len() <= letters@.len(),
            letters@.subrange(0, l0.len() as int) == l0,
            t <= word.len(),
            w.len() == t,
            forall|x: int| 0 <= x < w.len() ==> (#[trigger] w[x] as int) < letters@.len(),
            forall|x: int|
                0 <= x < w.len() ==> letters@[#[trigger] w[x] as int] == word@[word.len() - 1 - x],
            forall|j: int| l0.len() <= j < letters@.len() ==> #[trigger] w@.contains(j as usize),
            (letters@, w@) == number_text(l0, word@, t as int),
        decreases word.len() - t,
    {
        let c = word[word.len() - 1 - t];
        let mut j: usize = 0;
        while j < letters.len() && letters[j] != c
            invariant
                j <= letters.len(),
                forall|y: int| 0 <= y < j ==> letters@[y] != c,
            decreases letters.len() - j,
        {
            j += 1;
        }
        proof {
            assert(word@[word.len() - (t + 1)] == c);
            if j < letters.len() {
                assert(letters@.contains(c));
                let x = choose|x: int| 0 <= x < letters@.len() && letters@[x] == c;
                assert(x == j);
            }
            assert(j == letter_number(letters@, c));
        }
        if j == letters.len() {
            let ghost before = letters@;
            letters.push(c);
            proof {
                assert forall|x: int, y: int|
                    0 <= x < letters@.len() && 0 <= y < letters@.len() && x != y implies letters@[x]
                    != letters@[y] by {
                    if x < before.len() && y < before.len() {
                        assert(before[x] != before[y]);
                    }
                }
                assert(letters@.subrange(0, l0.len() as int) == before.subrange(0, l0.len() as int));
            }
        }
        let ghost w0 = w@;
        w.push(j);
        proof {
            assert forall|y: int| l0.len() <= y < letters@.len() implies #[trigger] w@.contains(
                y as usize,
            ) by {
                if y == j as int {
                    assert(w@[t as int] == y as usize);
                } else {
                    assert(w0.contains(y as usize));
                    let x = choose|x: int| 0 <= x < w0.len() && w0[x] == y as usize;
                    assert(w@[x] == w0[x]);
                }
            }
        }
        t += 1;
    }
    w
}

/// `w` numbers the letters of `text`, least significant first.
pub open spec fn spells(letters: Seq<char>, w: Seq<usize>, text: Seq<char>) -> bool {
    &&& w.len() == text.len()
    &&& forall|t: int| 0 <= t < w.len() ==> letters[#[trigger] w[t] as int] == text[text.len() - 1 - t]
}

impl Puzzle {
    /// The puzzle is written by `words`: its addends by all but the last,
    /// its result by the last.
    pub open spec fn written_as(&self, words: Seq<Seq<char>>) -> bool {
        &&& words.len() == self.addends.len() + 1
        &&& forall|k: int|
            0 <= k < self.addends.len() ==> spells(self.letters@, #[trigger] self.addends[k]@, words[k])
        &&& spells(self.letters@, self.result@, words.last())
    }

    /// Reads a puzzle written `W1 + ... + Wn == R`, with any blanks around the
    /// words and letters of either case; `None` when it is not of that form.
    pub fn from_str(input: &str) -> (r: Option<Puzzle>)
        ensures
            r is None <==> puzzle_words(input@) is None,
            r is Some ==> r->0.wf() && r->0.written_as(model_words(input@)->0),
            r is Some ==> (r->0.letters@, r->0.addend_words().push(r->0.result@)) == number_words(
                model_words(input@)->0,
                model_words(input@)->0.len() as int,
            ),
            r is Some ==> forall|i: int, j: int|
                0 <= i < j < r->0.addends.len() ==> r->0.addends[i].len() >= r->0.addends[j].len(),
    {
        let text_words = match split_words(input) {
            Some(words) => words,
            None => {
                return None;
            },
        };
        let ghost tw = words_view(text_words@);
        proof {
            assert forall|k: int| 0 <= k < tw.drop_last().len() implies #[trigger] tw.drop_last()[k].len()
                >= 1 by {
                assert(text_words[k].len() >= 1);
            }
            lemma_sorted_nonempty(tw.drop_last());
            lemma_sort_desc(tw.drop_last());
        }
        let words = order_addends(text_words);
        proof {
            assert(words_view(words@).len() == words.len());
            assert forall|k: int| 0 <= k < words.len() implies #[trigger] words[k].len() >= 1 by {
                assert(words_view(words@)[k] == words[k]@);
                if k < words.len() - 1 {
                    assert(words_view(words@)[k] == sort_desc(tw.drop_last())[k]);
                } else {
                    assert(words[k]@ == tw.last());
                    assert(text_words[text_words.len() - 1].len() >= 1);
                }
            }
        }
        let mut letters: Vec<char> = Vec::new();
        let mut addends: Vec<Vec<usize>> = Vec::new();
        let mut k: usize = 0;
        while k + 1 < words.len()
            invariant
                words.len() >= 2,
                forall|x: int| 0 <= x < words.len() ==> #[trigger] words[x].len() >= 1,
                k < words.len(),
                addends.len() == k,
                letters@.no_duplicates(),
                forall|x: int|
                    0 <= x < addends.len() ==> word_fits(#[trigger] addends[x]@, letters@.len()),
                forall|j: int| 0 <= j < letters.len() ==> #[trigger] occurs_in(addends@, j),
                forall|x: int|
                    0 <= x < addends.len() ==> spells(letters@, #[trigger] addends[x]@, words[x]@),
                (letters@, addends@.map_values(|w: Vec<usize>| w@)) == number_words(
                    words_view(words@),
                    k as int,
                ),
            decreases words.len() - k,
        {
            let ghost l0 = letters@;
            let w = index_word(&mut letters, &words[k]);
            proof {
                assert forall|x: int| 0 <= x < addends.len() implies word_fits(
                    #[trigger] addends[x]@,
                    letters@.len(),
                ) && spells(letters@, addends[x]@, words[x]@) by {
                    assert(word_fits(addends[x]@, l0.len()));
                    assert(spells(l0, addends[x]@, words[x]@));
                    assert forall|t: int| 0 <= t < addends[x]@.len() implies letters@[
                        #[trigger] addends[x]@[t] as int] == l0[addends[x]@[t] as int] by {
                        assert(letters@.subrange(0, l0.len() as int)[addends[x]@[t] as int]
                            == letters@[addends[x]@[t] as int]);
                    }
                }
            }
            let ghost a0 = addends@;
            addends.push(w);
            proof {
                assert(words_view(words@)[k as int] == words[k as int]@);
                assert(addends@.map_values(|w: Vec<usize>| w@) == a0.map_values(|w: Vec<usize>| w@).push(
                    w@,
                ));
                assert(addends[k as int]@ == w@);
                assert(words[k as int].len() >= 1);
                assert forall|j: int| 0 <= j < letters.len() implies #[trigger] occurs_in(
                    addends@,
                    j,
                ) by {
                    if j < l0.len() {
                        assert(occurs_in(a0, j));
                        let (x, y) = choose|x: int, y: int|
                            0 <= x < a0.len() && 0 <= y < a0[x].len() && a0[x][y] as int == j;
                        assert(addends@[x] == a0[x]);
                    } else {
                        assert(w@.contains(j as usize));
                        let y = choose|y: int| 0 <= y < w.len() && w@[y] == j as usize;
                        assert(addends@[k as int][y] == w[y]);
                    }
                }
            }
            k += 1;
        }
        let ghost l0 = letters@;
        let ghost av = addends@.map_values(|w: Vec<usize>| w@);
        let result = index_word(&mut letters, &words[k]);
        proof {
            assert(words_view(words@)[k as int] == words[k as int]@);
            assert(k + 1 == words.len());
            assert(words[k as int].len() >= 1);
            assert forall|x: int| 0 <= x < addends.len() implies word_fits(
                #[trigger] addends[x]@,
                letters@.len(),
            ) && spells(letters@, addends[x]@, words[x]@) by {
                assert(word_fits(addends[x]@, l0.len()));
                assert(spells(l0, addends[x]@, words[x]@));
                assert forall|t: int| 0 <= t < addends[x]@.len() implies letters@[
                    #[trigger] addends[x]@[t] as int] == l0[addends[x]@[t] as int] by {
                    assert(letters@.subrange(0, l0.len() as int)[addends[x]@[t] as int]
                        == letters@[addends[x]@[t] as int]);
                }
            }
        }
        let p = Puzzle { letters, addends, result };
        proof {
            assert forall|j: int| 0 <= j < p.letters.len() implies #[trigger] p.occurs(j) by {
                if j < l0.len() {
                    assert(occurs_in(p.addends@, j));
                    let (x, y) = choose|x: int, y: int|
                        0 <= x < p.addends.len() && 0 <= y < p.addends[x].len() && p.addends@[x][y]
                            as int == j;
                    assert(p.addends[x][y] == j);
                } else {
                    assert(p.result@.contains(j as usize));
                    let y = choose|y: int| 0 <= y < p.result.len() && p.result@[y] == j as usize;
                    assert(p.result[y] == j);
                }
            }
        }
        proof {
            let ws = model_words(input@)->0;
            assert(ws == words_view(words@));
            assert forall|i: int, j: int| 0 <= i < j < p.addends.len() implies p.addends[i].len()
                >= p.addends[j].len() by {
                assert(spells(p.letters@, p.addends[i]@, ws[i]));
                assert(spells(p.letters@, p.addends[j]@, ws[j]));
                assert(ws[i] == sort_desc(tw.drop_last())[i]);
                assert(ws[j] == sort_desc(tw.drop_last())[j]);
            }
            assert forall|x: int| 0 <= x < p.addends.len() implies spells(
                p.letters@,
                #[trigger] p.addends[x]@,
                ws[x],
            ) by {
                assert(ws[x] == words[x]@);
            }
            assert(ws.last() == words[k as int]@);
            assert(p.addend_words() == av);
            assert(ws.len() == k + 1);
        }
        Some(p)
    }
}

impl Puzzle {
    /// The puzzle is the one that the text `s` writes: its letters and words
    /// are those that numbering the model words of `s` gives.
    pub open spec fn read_from(&self, s: Seq<char>) -> bool {
        &&& model_words(s) is Some
        &&& (self.letters@, self.addend_words().push(self.result@)) == number_words(
            model_words(s)->0,
            model_words(s)->0.len() as int,
        )
    }
}

/// The text `s` writes a puzzle that has a solution.
pub open spec fn text_has_solution(s: Seq<char>) -> bool {
    exists|p: Puzzle| p.wf() && p.read_from(s) && p.has_solution()
}

/// Two puzzles read from one text have the same solutions.
pub proof fn lemma_same_reading(p1: &Puzzle, p2: &Puzzle, s: Seq<char>, d: Seq<u8>)
    requires
        p1.read_from(s),
        p2.read_from(s),
    ensures
        p1.is_solution(d) == p2.is_solution(d),
        p1.has_solution() == p2.has_solution(),
{
    p1.lemma_addend_words();
    p2.lemma_addend_words();
    let v1 = p1.addend_words().push(p1.result@);
    let v2 = p2.addend_words().push(p2.result@);
    assert(v1 == v2);
    assert(v1.drop_last() == p1.addend_words());
    assert(v2.drop_last() == p2.addend_words());
    assert(p1.addend_words() == p2.addend_words());
    assert(p1.result@ == v1.last());
    assert(p2.result@ == v2.last());
    assert forall|e: Seq<u8>| p1.is_solution(e) == p2.is_solution(e) by {
        assert forall|k: int| 0 <= k < p1.addends.len() implies p1.addends[k]@ == p2.addends[k]@ by {
            assert(p1.addend_words()[k] == p2.addend_words()[k]);
        }
        if p1.no_leading_zero(e) {
            assert forall|k: int| 0 <= k < p2.addends.len() implies e[#[trigger] p2.addends[k]@.last() as int]
                != 0 by {
                assert(p1.addends[k]@ == p2.addends[k]@);
                assert(e[p1.addends[k]@.last() as int] != 0);
            }
        }
        if p2.no_leading_zero(e) {
            assert forall|k: int| 0 <= k < p1.addends.len() implies e[#[trigger] p1.addends[k]@.last() as int]
                != 0 by {
                assert(p1.addends[k]@ == p2.addends[k]@);
                assert(e[p2.addends[k]@.last() as int] != 0);
            }
        }
    }
    if p1.has_solution() {
        let e = choose|e: Seq<u8>| p1.is_solution(e);
        assert(p2.is_solution(e));
    }
    if p2.has_solution() {
        let e = choose|e: Seq<u8>| p2.is_solution(e);
        assert(p1.is_solution(e));
    }
}

} // verus!
