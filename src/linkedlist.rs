use vstd::prelude::*;
use vstd::string::StringExecFns;

verus! {

struct Node<T> {
    value: T,
    next: Option<Box<Node<T>>>,
}

impl<T> Node<T> {
    fn with_value(value: T) -> (r: Self)
        ensures
            r.value == value,
            r.next is None,
    {
        Node { value, next: None }
    }
}

/// The values held from `n` to the end of its chain.
spec fn chain_view<T>(n: Option<Box<Node<T>>>) -> Seq<T>
    decreases n,
{
    match n {
        None => Seq::empty(),
        Some(b) => seq![b.value].add(chain_view(b.next)),
    }
}

/// A singly linked list, appended to at its back.
pub struct LinkedList<T> {
    root: Option<Box<Node<T>>>,
}

/// The chain `n` with `value` appended at its end.
fn append_chain<T>(n: Option<Box<Node<T>>>, value: T) -> (r: Option<Box<Node<T>>>)
    ensures
        chain_view(r) == chain_view(n).push(value),
    decreases n,
{
    match n {
        None => Some(Box::new(Node::with_value(value))),
        Some(b) => {
            let node = *b;
            let Node { value: v, next } = node;
            let rest = append_chain(next, value);
            proof {
                assert(seq![v].add(chain_view(next)).push(value) =~= seq![v].add(
                    chain_view(next).push(value),
                ));
            }
            Some(Box::new(Node { value: v, next: rest }))
        },
    }
}

impl<T> View for LinkedList<T> {
    type V = Seq<T>;

    closed spec fn view(&self) -> Seq<T> {
        chain_view(self.root)
    }
}

impl<T> Default for LinkedList<T> {
    fn default() -> (r: Self)
        ensures
            r@ == Seq::<T>::empty(),
    {
        LinkedList { root: None }
    }
}

impl<T> LinkedList<T> {
    pub fn new() -> (r: Self)
        ensures
            r@ == Seq::<T>::empty(),
    {
        LinkedList { root: None }
    }

    pub fn push_back(&mut self, value: T)
        ensures
            final(self)@ == old(self)@.push(value),
    {
        let root = self.root.take();
        self.root = append_chain(root, value);
    }

    pub fn length(&self) -> (r: usize)
        requires
            self@.len() <= usize::MAX,
        ensures
            r == self@.len(),
    {
        let mut cur: &Option<Box<Node<T>>> = &self.root;
        let mut count: usize = 0;
        loop
            invariant
                count + chain_view(*cur).len() == self@.len(),
                self@.len() <= usize::MAX,
            ensures
                count == self@.len(),
            decreases chain_view(*cur).len(),
        {
            match cur {
                None => {
                    break;
                },
                Some(node) => {
                    cur = &node.next;
                    count += 1;
                },
            }
        }
        count
    }

    pub fn is_empty(&self) -> (r: bool)
        ensures
            r == (self@.len() == 0),
    {
        self.root.is_none()
    }
}

/// The character of a decimal digit.
pub open spec fn digit_char(d: int) -> char {
    if d == 0 {
        '0'
    } else if d == 1 {
        '1'
    } else if d == 2 {
        '2'
    } else if d == 3 {
        '3'
    } else if d == 4 {
        '4'
    } else if d == 5 {
        '5'
    } else if d == 6 {
        '6'
    } else if d == 7 {
        '7'
    } else if d == 8 {
        '8'
    } else {
        '9'
    }
}

/// The decimal digits of `n`, most significant first.
pub open spec fn digits_text(n: nat) -> Seq<char>
    decreases n,
{
    if n < 10 {
        seq![digit_char(n as int)]
    } else {
        digits_text(n / 10).push(digit_char(n as int % 10))
    }
}

/// An integer written in decimal, with `-` before a negative one.
pub open spec fn decimal_text(v: int) -> Seq<char> {
    if v < 0 {
        seq!['-'] + digits_text((-v) as nat)
    } else {
        digits_text(v as nat)
    }
}

/// The values of `s` in decimal, separated by arrows.
pub open spec fn arrow_join(s: Seq<i32>) -> Seq<char>
    decreases s.len(),
{
    if s.len() == 0 {
        Seq::empty()
    } else if s.len() == 1 {
        decimal_text(s[0] as int)
    } else {
        arrow_join(s.drop_last()) + " -> "@ + decimal_text(s.last() as int)
    }
}

/// Relies on `ToString` for `i32`: the value in decimal, `-` before a negative one.
#[verifier::external_body]
fn int_text(v: i32) -> (r: String)
    ensures
        r@ == decimal_text(v as int),
{
    v.to_string()
}

impl LinkedList<i32> {
    /// The list written as `[v1 -> v2 -> ...]`.
    pub fn to_string(&self) -> (r: String)
        ensures
            r@ == "["@ + arrow_join(self@) + "]"@,
    {
        let mut text = String::from_str("[");
        let mut cur: &Option<Box<Node<i32>>> = &self.root;
        let ghost mut count: int = 0;
        let mut first = true;
        loop
            invariant
                0 <= count <= self@.len(),
                first <==> count == 0,
                chain_view(*cur) == self@.skip(count),
                text@ == "["@ + arrow_join(self@.take(count)),
            ensures
                count == self@.len(),
            decreases chain_view(*cur).len(),
        {
            match cur {
                None => {
                    break;
                },
                Some(node) => {
                    proof {
                        assert(self@.skip(count)[0] == node.value);
                        assert(self@.take(count + 1).drop_last() == self@.take(count));
                        assert(self@.take(count + 1).last() == node.value);
                        assert(self@.skip(count + 1) == self@.skip(count).drop_first());
                    }
                    if !first {
                        text.append(" -> ");
                    }
                    first = false;
                    let digits = int_text(node.value);
                    text.append(digits.as_str());
                    cur = &node.next;
                    proof {
                        count = count + 1;
                    }
                },
            }
        }
        text.append("]");
        proof {
            assert(self@.take(count) == self@);
        }
        text
    }
}

} // verus!
