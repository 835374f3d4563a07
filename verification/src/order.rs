//! Three-way comparison of the keys that tracks are sorted by.
//!
//! Text is ordered as `str` orders it: byte by byte over its UTF-8 encoding,
//! a proper prefix before any of its extensions. A missing value comes before
//! every present one.

use vstd::prelude::*;
use vstd::utf8::{encode_utf8, encode_utf8_decode_utf8};

verus! {

/// How a first key stands to a second one.
#[derive(Clone, Copy, Debug, PartialEq, Eq, Structural)]
pub enum Order {
    Less,
    Equal,
    Greater,
}

impl Order {
    /// The same comparison read from the other side.
    pub open spec fn flipped(self) -> Order {
        match self {
            Order::Less => Order::Greater,
            Order::Equal => Order::Equal,
            Order::Greater => Order::Less,
        }
    }

    /// This outcome, or `next` where this one is a tie.
    pub open spec fn and_next(self, next: Order) -> Order {
        if self == Order::Equal {
            next
        } else {
            self
        }
    }

    /// Swaps `Less` and `Greater`.
    pub fn flip(self) -> (r: Order)
        ensures
            r == self.flipped(),
    {
        match self {
            Order::Less => Order::Greater,
            Order::Equal => Order::Equal,
            Order::Greater => Order::Less,
        }
    }

    /// Breaks a tie by a second comparison.
    pub fn followed_by(self, next: Order) -> (r: Order)
        ensures
            r == self.and_next(next),
    {
        match self {
            Order::Equal => next,
            _ => self,
        }
    }
}

/// The order of two integers.
pub open spec fn int_order(a: int, b: int) -> Order {
    if a < b {
        Order::Less
    } else if a == b {
        Order::Equal
    } else {
        Order::Greater
    }
}

/// Lexicographic order of two byte strings.
pub open spec fn bytes_order(a: Seq<u8>, b: Seq<u8>) -> Order
    decreases a.len(),
{
    if a.len() == 0 {
        if b.len() == 0 {
            Order::Equal
        } else {
            Order::Less
        }
    } else if b.len() == 0 {
        Order::Greater
    } else if a[0] != b[0] {
        int_order(a[0] as int, b[0] as int)
    } else {
        bytes_order(a.drop_first(), b.drop_first())
    }
}

/// The order of two texts: that of their UTF-8 encodings.
pub open spec fn text_order(a: Seq<char>, b: Seq<char>) -> Order {
    bytes_order(encode_utf8(a), encode_utf8(b))
}

/// The order of two optional texts, a missing one first.
pub open spec fn opt_text_order(a: Option<Seq<char>>, b: Option<Seq<char>>) -> Order {
    match (a, b) {
        (None, None) => Order::Equal,
        (None, Some(_)) => Order::Less,
        (Some(_), None) => Order::Greater,
        (Some(x), Some(y)) => text_order(x, y),
    }
}

/// The order of two optional numbers, a missing one first.
pub open spec fn opt_number_order(a: Option<u32>, b: Option<u32>) -> Order {
    match (a, b) {
        (None, None) => Order::Equal,
        (None, Some(_)) => Order::Less,
        (Some(_), None) => Order::Greater,
        (Some(x), Some(y)) => int_order(x as int, y as int),
    }
}

/// What two comparisons in a row amount to, where neither is `Greater`:
/// a tie if both are ties, `Less` otherwise.
pub open spec fn chained(first: Order, second: Order) -> Order {
    if first == Order::Equal && second == Order::Equal {
        Order::Equal
    } else {
        Order::Less
    }
}

/// Comparing a byte string with itself gives a tie, and only equal byte
/// strings tie.
pub proof fn lemma_bytes_order_equal(a: Seq<u8>, b: Seq<u8>)
    ensures
        bytes_order(a, b) == Order::Equal <==> a == b,
    decreases a.len(),
{
    if a.len() == 0 || b.len() == 0 {
        if a.len() == 0 && b.len() == 0 {
            assert(a =~= b);
        }
    } else if a[0] != b[0] {
    } else {
        lemma_bytes_order_equal(a.drop_first(), b.drop_first());
        if a.drop_first() == b.drop_first() {
            assert(a =~= seq![a[0]] + a.drop_first());
            assert(b =~= seq![b[0]] + b.drop_first());
        }
    }
}

/// Swapping the two byte strings flips the outcome.
pub proof fn lemma_bytes_order_flip(a: Seq<u8>, b: Seq<u8>)
    ensures
        bytes_order(b, a) == bytes_order(a, b).flipped(),
    decreases a.len(),
{
    if a.len() != 0 && b.len() != 0 && a[0] == b[0] {
        lemma_bytes_order_flip(a.drop_first(), b.drop_first());
    }
}

/// The order of byte strings is transitive, and strict as soon as one step is.
pub proof fn lemma_bytes_order_chain(a: Seq<u8>, b: Seq<u8>, c: Seq<u8>)
    requires
        bytes_order(a, b) != Order::Greater,
        bytes_order(b, c) != Order::Greater,
    ensures
        bytes_order(a, c) == chained(bytes_order(a, b), bytes_order(b, c)),
    decreases a.len(),
{
    if a.len() != 0 && b.len() != 0 && c.len() != 0 {
        if a[0] == b[0] && b[0] == c[0] {
            lemma_bytes_order_chain(a.drop_first(), b.drop_first(), c.drop_first());
        }
    }
}

/// Swapping two optional texts flips the outcome.
pub proof fn lemma_opt_text_order_flip(a: Option<Seq<char>>, b: Option<Seq<char>>)
    ensures
        opt_text_order(b, a) == opt_text_order(a, b).flipped(),
{
    if a is Some && b is Some {
        lemma_bytes_order_flip(encode_utf8(a->0), encode_utf8(b->0));
    }
}

/// An optional text ties with itself.
pub proof fn lemma_opt_text_order_same(a: Option<Seq<char>>)
    ensures
        opt_text_order(a, a) == Order::Equal,
{
    if a is Some {
        lemma_bytes_order_equal(encode_utf8(a->0), encode_utf8(a->0));
    }
}

/// The order of optional texts is transitive, and strict as soon as one step is.
pub proof fn lemma_opt_text_order_chain(
    a: Option<Seq<char>>,
    b: Option<Seq<char>>,
    c: Option<Seq<char>>,
)
    requires
        opt_text_order(a, b) != Order::Greater,
        opt_text_order(b, c) != Order::Greater,
    ensures
        opt_text_order(a, c) == chained(opt_text_order(a, b), opt_text_order(b, c)),
{
    if a is Some && b is Some && c is Some {
        lemma_bytes_order_chain(encode_utf8(a->0), encode_utf8(b->0), encode_utf8(c->0));
    }
}

/// Compares two byte slices lexicographically.
pub fn compare_bytes(a: &[u8], b: &[u8]) -> (r: Order)
    ensures
        r == bytes_order(a@, b@),
{
    let n: usize = if a.len() < b.len() {
        a.len()
    } else {
        b.len()
    };
    let mut i: usize = 0;
    assert(a@.skip(0) =~= a@ && b@.skip(0) =~= b@);
    while i < n
        invariant
            i <= n,
            n <= a@.len(),
            n <= b@.len(),
            bytes_order(a@, b@) == bytes_order(a@.skip(i as int), b@.skip(i as int)),
        decreases n - i,
    {
        let x: u8 = a[i];
        let y: u8 = b[i];
        assert(a@.skip(i as int)[0] == x && b@.skip(i as int)[0] == y);
        if x < y {
            return Order::Less;
        }
        if x > y {
            return Order::Greater;
        }
        assert(a@.skip(i as int).drop_first() =~= a@.skip(i + 1));
        assert(b@.skip(i as int).drop_first() =~= b@.skip(i + 1));
        i += 1;
    }
    if a.len() < b.len() {
        Order::Less
    } else if a.len() > b.len() {
        Order::Greater
    } else {
        Order::Equal
    }
}

/// Compares two texts as `str` does.
pub fn compare_text(a: &str, b: &str) -> (r: Order)
    ensures
        r == text_order(a@, b@),
{
    compare_bytes(a.as_bytes(), b.as_bytes())
}

/// Compares two optional texts, a missing one first.
pub fn compare_opt_text(a: &Option<String>, b: &Option<String>) -> (r: Order)
    ensures
        r == opt_text_order(a.deep_view(), b.deep_view()),
{
    match (a, b) {
        (None, None) => Order::Equal,
        (None, Some(_)) => Order::Less,
        (Some(_), None) => Order::Greater,
        (Some(x), Some(y)) => compare_text(x.as_str(), y.as_str()),
    }
}

/// Compares two optional numbers, a missing one first.
pub fn compare_opt_number(a: Option<u32>, b: Option<u32>) -> (r: Order)
    ensures
        r == opt_number_order(a, b),
{
    match (a, b) {
        (None, None) => Order::Equal,
        (None, Some(_)) => Order::Less,
        (Some(_), None) => Order::Greater,
        (Some(x), Some(y)) => if x < y {
            Order::Less
        } else if x == y {
            Order::Equal
        } else {
            Order::Greater
        },
    }
}

/// Two texts tie only if they are the same text.
pub proof fn lemma_text_order_equal(a: Seq<char>, b: Seq<char>)
    ensures
        text_order(a, b) == Order::Equal <==> a == b,
{
    lemma_bytes_order_equal(encode_utf8(a), encode_utf8(b));
    encode_utf8_decode_utf8(a);
    encode_utf8_decode_utf8(b);
}

/// Whether two texts are the same.
pub fn same_text(a: &str, b: &str) -> (r: bool)
    ensures
        r == (a@ == b@),
{
    proof {
        lemma_text_order_equal(a@, b@);
    }
    match compare_text(a, b) {
        Order::Equal => true,
        _ => false,
    }
}

} // verus!
