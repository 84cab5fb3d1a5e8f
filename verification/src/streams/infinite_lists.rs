//! The standard pure implementation of streams: infinite lists built by
//! prepending finitely many elements to an everywhere-constant rest.
//!
//! Every value of the type denotes a genuinely infinite sequence, modelled
//! below by its element at each position; advancing never blocks.

use vstd::prelude::*;

use super::drawn_from;
use super::Stream;

verus! {

/// A non-well-founded list of elements of type `X`: finitely many explicit
/// entries in front of a constant remainder.
///
/// Every value of this type is an eventually constant sequence — the shape
/// the two constructors build. A source whose elements vary without end is
/// fed through the channel-backed stream instead, whose elements come from
/// outside.
pub enum InfiniteList<X> {
    /// An infinite list made by prepending one entry to an infinite list.
    Cons(X, Box<InfiniteList<X>>),
    /// The infinite list repeating one element forever.
    Repeat(X),
}

impl<X> InfiniteList<X> {
    /// The element at position `n` of the infinite sequence this list
    /// denotes.
    pub open spec fn at(self, n: nat) -> X
        decreases n,
    {
        match self {
            InfiniteList::Cons(x, rest) => if n == 0 {
                x
            } else {
                rest.at((n - 1) as nat)
            },
            InfiniteList::Repeat(x) => x,
        }
    }

    /// The list denoting the sequence from position one on.
    pub open spec fn rest(self) -> InfiniteList<X> {
        match self {
            InfiniteList::Cons(_x, rest) => *rest,
            InfiniteList::Repeat(x) => InfiniteList::Repeat(x),
        }
    }

    /// Prepend an entry to an infinite list.
    pub fn cons(x: X, rest: InfiniteList<X>) -> (r: InfiniteList<X>)
        ensures
            r == (InfiniteList::Cons(x, Box::new(rest))),
    {
        InfiniteList::Cons(x, Box::new(rest))
    }

    /// The infinite list of a certain constant.
    pub fn constant(x: X) -> (r: InfiniteList<X>)
        ensures
            r == InfiniteList::<X>::Repeat(x),
    {
        InfiniteList::Repeat(x)
    }
}

/// The denoted sequence shifts by one position on advancing.
pub proof fn lemma_rest_at<X>(l: InfiniteList<X>, n: nat)
    ensures
        l.rest().at(n) == l.at(n + 1),
{
    match l {
        InfiniteList::Cons(_x, _rest) => {},
        InfiniteList::Repeat(_x) => {},
    }
}

/// The list denoting the sequence from position `n` on.
pub open spec fn after<X>(l: InfiniteList<X>, n: nat) -> InfiniteList<X>
    decreases n,
{
    if n == 0 {
        l
    } else {
        after(l, (n - 1) as nat).rest()
    }
}

/// Advancing `n` times shifts the denoted sequence by `n` positions.
proof fn lemma_after_at<X>(l: InfiniteList<X>, n: nat, m: nat)
    ensures
        after(l, n).at(m) == l.at((n + m) as nat),
    decreases n,
{
    if n > 0 {
        lemma_rest_at(after(l, (n - 1) as nat), m);
        lemma_after_at(l, (n - 1) as nat, (m + 1) as nat);
    }
}

/// The stream state at the `i`-th draw from an infinite list is the list
/// advanced to that position.
proof fn lemma_draw_states<X>(
    start: InfiniteList<X>,
    advanced_first: bool,
    reads: Seq<InfiniteList<X>>,
    fed: Seq<X>,
    rest: InfiniteList<X>,
    i: int,
)
    requires
        drawn_from(start, advanced_first, reads, fed, rest),
        0 <= i < reads.len(),
    ensures
        reads[i] == after(
            start,
            (if advanced_first {
                i + 1
            } else {
                i
            }) as nat,
        ),
    decreases i,
{
    if i == 0 {
        if advanced_first {
            assert(after(start, 1) == start.rest());
        }
    } else {
        lemma_draw_states(start, advanced_first, reads, fed, rest, i - 1);
    }
}

/// Elements drawn in order from an infinite list are exactly the list's
/// elements from the front, one position further along where the first draw
/// came after an advance. Together with the evaluator's contract, this pins
/// the inputs an evaluation over an infinite list consumed to the list's own
/// elements, in order.
pub proof fn lemma_drawn_from_list<X>(
    start: InfiniteList<X>,
    advanced_first: bool,
    reads: Seq<InfiniteList<X>>,
    fed: Seq<X>,
    rest: InfiniteList<X>,
    i: int,
)
    requires
        drawn_from(start, advanced_first, reads, fed, rest),
        0 <= i < fed.len(),
    ensures
        fed[i] == start.at(
            (if advanced_first {
                i + 1
            } else {
                i
            }) as nat,
        ),
{
    let base: nat = (if advanced_first {
        i + 1
    } else {
        i
    }) as nat;
    lemma_draw_states(start, advanced_first, reads, fed, rest, i);
    lemma_after_at(start, base, 0);
}

impl<X> Stream<X> for InfiniteList<X> {
    open spec fn current(&self) -> X {
        self.at(0)
    }

    open spec fn advances_to(&self, next: &Self) -> bool {
        *next == self.rest()
    }

    fn head(&self) -> (r: &X) {
        match self {
            InfiniteList::Cons(x, _rest) => x,
            InfiniteList::Repeat(x) => x,
        }
    }

    fn tail(self) -> (r: Self) {
        match self {
            InfiniteList::Cons(_x, rest) => *rest,
            InfiniteList::Repeat(x) => InfiniteList::Repeat(x),
        }
    }
}

} // verus!
