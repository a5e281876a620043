use crate::puzzle::Puzzle;
use vstd::prelude::*;

verus! {

/// A partial assignment of digits to letters: `None` for a letter not yet assigned.
pub open spec fn extends(d: Seq<u8>, a: Seq<Option<u8>>) -> bool {
    &&& d.len() == a.len()
    &&& forall|j: int| 0 <= j < a.len() && (#[trigger] a[j]) is Some ==> d[j] == a[j]->0
}

/// Digit `v` is held by some letter of `a`.
pub open spec fn used(a: Seq<Option<u8>>, v: u8) -> bool {
    exists|j: int| 0 <= j < a.len() && a[j] == Some(v)
}

/// Assigned digits are decimal digits, and no two letters share one.
pub open spec fn partial_ok(a: Seq<Option<u8>>) -> bool {
    &&& forall|j: int| 0 <= j < a.len() && (#[trigger] a[j]) is Some ==> a[j]->0 < 10
    &&& forall|i: int, j: int|
        0 <= i < a.len() && 0 <= j < a.len() && i != j && (#[trigger] a[i]) is Some
            && (#[trigger] a[j]) is Some ==> a[i] != a[j]
}

/// The digits of `a`, with zero for an unassigned letter.
pub open spec fn fill(a: Seq<Option<u8>>) -> Seq<u8> {
    a.map_values(|o: Option<u8>| if o is Some { o->0 } else { 0u8 })
}

pub open spec fn complete(a: Seq<Option<u8>>) -> bool {
    forall|j: int| 0 <= j < a.len() ==> (#[trigger] a[j]) is Some
}

impl Puzzle {
    /// Every letter in the columns below `i` is assigned.
    pub open spec fn assigned_below(&self, a: Seq<Option<u8>>, i: int) -> bool {
        &&& forall|k: int, c: int|
            0 <= k < self.addends.len() && 0 <= c < i && c < self.addends[k].len() ==> (
            #[trigger] a[self.addends[k][c] as int]) is Some
        &&& forall|c: int| 0 <= c < i && c < self.result.len() ==> (#[trigger] a[self.result[c] as int]) is Some
    }

    /// Every letter of column `i` is assigned.
    pub open spec fn column_assigned(&self, a: Seq<Option<u8>>, i: int) -> bool {
        &&& forall|k: int|
            0 <= k < self.addends.len() && 0 <= i < self.addends[k].len() ==> (
            #[trigger] a[self.addends[k][i] as int]) is Some
        &&& 0 <= i < self.result.len() ==> a[self.result[i] as int] is Some
    }

    /// No addend's leading letter is assigned zero.
    pub open spec fn addend_leads_ok(&self, a: Seq<Option<u8>>) -> bool {
        forall|k: int|
            0 <= k < self.addends.len() ==> a[#[trigger] self.addends[k]@.last() as int] != Some(
                0u8,
            )
    }
}

/// The digits below `v` not held by any letter of `a`, in ascending order.
pub open spec fn unused_below(a: Seq<Option<u8>>, v: nat) -> Seq<u8>
    decreases v,
{
    if v == 0 {
        Seq::empty()
    } else if used(a, (v - 1) as u8) {
        unused_below(a, (v - 1) as nat)
    } else {
        unused_below(a, (v - 1) as nat).push((v - 1) as u8)
    }
}

/// The digits not held by any letter of `a`, in ascending order.
pub fn unused_digits(a: &Vec<Option<u8>>) -> (r: Vec<u8>)
    ensures
        r@ == unused_below(a@, 10),
        r@.no_duplicates(),
        forall|v: u8| r@.contains(v) <==> v < 10 && !used(a@, v),
{
    let mut r: Vec<u8> = Vec::new();
    let mut v: u8 = 0;
    while v < 10
        invariant
            v <= 10,
            r@ == unused_below(a@, v as nat),
            forall|x: int| 0 <= x < r.len() ==> r[x] < v,
            r@.no_duplicates(),
            forall|u: u8| r@.contains(u) <==> u < v && !used(a@, u),
        decreases 10 - v,
    {
        let mut found = false;
        let mut j: usize = 0;
        while j < a.len()
            invariant
                j <= a.len(),
                found <==> exists|t: int| 0 <= t < j && a@[t] == Some(v),
            decreases a.len() - j,
        {
            if a[j] == Some(v) {
                found = true;
            }
            j += 1;
        }
        assert(found <==> used(a@, v));
        let ghost r0 = r@;
        if !found {
            proof {
                assert(!r@.contains(v));
            }
            r.push(v);
        }
        assert forall|u: u8| r@.contains(u) <==> u < v + 1 && !used(a@, u) by {
            if !found {
                assert(r@ == r0.push(v));
                assert(r0.contains(u) ==> r@.contains(u)) by {
                    if r0.contains(u) {
                        let x = choose|x: int| 0 <= x < r0.len() && r0[x] == u;
                        assert(r@[x] == u);
                    }
                }
                assert(u == v ==> r@.contains(u)) by {
                    assert(r@[r0.len() as int] == v);
                }
            }
        }
        v += 1;
    }
    r
}

/// `a` with letter `need[x]` assigned the digit `q[x]`, for each `x < t`.
pub open spec fn assign_upto(a: Seq<Option<u8>>, need: Seq<usize>, q: Seq<u8>, t: int) -> Seq<
    Option<u8>,
>
    decreases t,
{
    if t <= 0 {
        a
    } else {
        assign_upto(a, need, q, t - 1).update(need[t - 1] as int, Some(q[t - 1]))
    }
}

/// A copy of `a` with letter `need[t]` assigned the digit `q[t]`.
pub fn assign_digits(a: &Vec<Option<u8>>, need: &Vec<usize>, q: &Vec<u8>) -> (b: Vec<
    Option<u8>,
>)
    requires
        need.len() == q.len(),
        need@.no_duplicates(),
        forall|t: int| 0 <= t < need.len() ==> (need[t] as int) < a.len(),
    ensures
        b.len() == a.len(),
        forall|t: int| 0 <= t < need.len() ==> b[#[trigger] need[t] as int] == Some(q[t]),
        forall|j: int| 0 <= j < a.len() && !need@.contains(j as usize) ==> b[j] == a[j],
        b@ == assign_upto(a@, need@, q@, need.len() as int),
{
    let mut b: Vec<Option<u8>> = Vec::new();
    let mut j: usize = 0;
    while j < a.len()
        invariant
            j <= a.len(),
            b@ == a@.subrange(0, j as int),
        decreases a.len() - j,
    {
        b.push(a[j]);
        j += 1;
    }
    let mut t: usize = 0;
    assert(b@ == a@.subrange(0, a.len() as int));
    assert(b@ == a@);
    while t < need.len()
        invariant
            need.len() == q.len(),
            need@.no_duplicates(),
            forall|x: int| 0 <= x < need.len() ==> (need[x] as int) < a.len(),
            t <= need.len(),
            b.len() == a.len(),
            b@ == assign_upto(a@, need@, q@, t as int),
            forall|x: int| 0 <= x < t ==> b[#[trigger] need[x] as int] == Some(q[x]),
            forall|y: int|
                0 <= y < a.len() && !need@.subrange(0, t as int).contains(y as usize) ==> b[y]
                    == a[y],
        decreases need.len() - t,
    {
        b.set(need[t], Some(q[t]));
        proof {
            assert forall|y: int|
                0 <= y < a.len() && !need@.subrange(0, t + 1).contains(y as usize) implies b[y]
                == a[y] by {
                assert(need@.subrange(0, t + 1)[t as int] == need[t as int]);
                if need@.subrange(0, t as int).contains(y as usize) {
                    let x = choose|x: int| 0 <= x < t && need@.subrange(0, t as int)[x] == y as usize;
                    assert(need@.subrange(0, t + 1)[x] == y as usize);
                }
            }
        }
        t += 1;
    }
    proof {
        assert(need@.subrange(0, need.len() as int) == need@);
    }
    b
}

} // verus!

verus! {

/// `d` extends `a` and gives letter `need[t]` the digit `q[t]`.
pub open spec fn extends_with(d: Seq<u8>, a: Seq<Option<u8>>, need: Seq<usize>, q: Seq<u8>) -> bool {
    &&& extends(d, a)
    &&& q.len() == need.len()
    &&& forall|t: int| 0 <= t < need.len() ==> d[#[trigger] need[t] as int] == q[t]
}

/// Assigning fresh letters: what extends the new assignment is what extends
/// the old one with the new digits.
pub proof fn lemma_assign_extends(
    a: Seq<Option<u8>>,
    need: Seq<usize>,
    q: Seq<u8>,
    b: Seq<Option<u8>>,
    d: Seq<u8>,
)
    requires
        a.len() <= usize::MAX,
        need.len() == q.len(),
        forall|t: int| 0 <= t < need.len() ==> (need[t] as int) < a.len(),
        forall|t: int| 0 <= t < need.len() ==> a[#[trigger] need[t] as int] is None,
        b.len() == a.len(),
        forall|t: int| 0 <= t < need.len() ==> b[#[trigger] need[t] as int] == Some(q[t]),
        forall|j: int| 0 <= j < a.len() && !need.contains(j as usize) ==> b[j] == a[j],
    ensures
        extends(d, b) <==> extends_with(d, a, need, q),
{
    if extends(d, b) {
        assert forall|j: int| 0 <= j < a.len() && (#[trigger] a[j]) is Some implies d[j] == a[j]->0 by {
            if need.contains(j as usize) {
                let t = choose|t: int| 0 <= t < need.len() && need[t] == j as usize;
                assert(a[need[t] as int] is None);
            } else {
                assert(b[j] == a[j]);
                assert(b[j] is Some);
            }
        }
        assert forall|t: int| 0 <= t < need.len() implies d[#[trigger] need[t] as int] == q[t] by {
            assert(b[need[t] as int] is Some);
        }
    }
    if extends_with(d, a, need, q) {
        assert forall|j: int| 0 <= j < b.len() && (#[trigger] b[j]) is Some implies d[j] == b[j]->0 by {
            if need.contains(j as usize) {
                let t = choose|t: int| 0 <= t < need.len() && need[t] == j as usize;
                assert(b[need[t] as int] == Some(q[t]));
                assert(d[need[t] as int] == q[t]);
            } else {
                assert(b[j] == a[j]);
                assert(a[j] is Some);
            }
        }
    }
}

} // verus!
