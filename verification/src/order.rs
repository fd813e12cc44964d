//! Order: how texts and numbers compare, and the laws of the comparison.
use vstd::prelude::*;
use vstd::utf8::encode_utf8;

verus! {

/// How one value stands to another.
#[derive(Copy, Clone, PartialEq, Eq, Debug, Structural)]
pub enum Order {
    Less,
    Equal,
    Greater,
}

/// How two byte sequences compare: by the first byte in which they differ,
/// and a sequence comes before each of its extensions.
pub open spec fn compare_bytes(a: Seq<u8>, b: Seq<u8>) -> Order
    decreases a.len(),
{
    if a.len() == 0 {
        if b.len() == 0 {
            Order::Equal
        } else {
            Order::Less
        }
    } else if b.len() == 0 {
        Order::Greater
    } else if a[0] < b[0] {
        Order::Less
    } else if a[0] > b[0] {
        Order::Greater
    } else {
        compare_bytes(a.skip(1), b.skip(1))
    }
}

/// How two texts compare: as their UTF-8 bytes do.
pub open spec fn compare_texts(a: Seq<char>, b: Seq<char>) -> Order {
    compare_bytes(encode_utf8(a), encode_utf8(b))
}

/// How two numbers compare.
pub open spec fn compare_numbers(a: int, b: int) -> Order {
    if a < b {
        Order::Less
    } else if a > b {
        Order::Greater
    } else {
        Order::Equal
    }
}

/// The first comparison decides, unless it finds the values equal.
pub open spec fn first_of(first: Order, second: Order) -> Order {
    match first {
        Order::Equal => second,
        _ => first,
    }
}

/// Two byte sequences compare equal exactly if they are the same.
pub proof fn lemma_compare_equal(a: Seq<u8>, b: Seq<u8>)
    ensures
        compare_bytes(a, b) == Order::Equal <==> a == b,
    decreases a.len(),
{
    if a.len() > 0 && b.len() > 0 && a[0] == b[0] {
        lemma_compare_equal(a.skip(1), b.skip(1));
        if a.skip(1) == b.skip(1) {
            assert forall|i: int| 0 <= i < a.len() implies a[i] == b[i] by {
                if i > 0 {
                    assert(a.skip(1)[i - 1] == b.skip(1)[i - 1]);
                }
            }
            assert(a.len() == a.skip(1).len() + 1 && b.len() == b.skip(1).len() + 1);
            assert(a =~= b);
        }
    } else if a.len() == 0 && b.len() == 0 {
        assert(a =~= b);
    }
}

/// Swapping the two sides swaps `Less` and `Greater`.
pub proof fn lemma_compare_flip(a: Seq<u8>, b: Seq<u8>)
    ensures
        compare_bytes(a, b) == Order::Less <==> compare_bytes(b, a) == Order::Greater,
        compare_bytes(a, b) == Order::Equal <==> compare_bytes(b, a) == Order::Equal,
    decreases a.len(),
{
    if a.len() > 0 && b.len() > 0 && a[0] == b[0] {
        lemma_compare_flip(a.skip(1), b.skip(1));
    }
}

/// What comes before something that comes before a third comes before the
/// third.
pub proof fn lemma_compare_transitive(a: Seq<u8>, b: Seq<u8>, c: Seq<u8>)
    requires
        compare_bytes(a, b) == Order::Less,
        compare_bytes(b, c) == Order::Less,
    ensures
        compare_bytes(a, c) == Order::Less,
    decreases a.len(),
{
    if a.len() > 0 && a[0] == b[0] && b[0] == c[0] {
        lemma_compare_transitive(a.skip(1), b.skip(1), c.skip(1));
    }
}

/// Compares two texts by their UTF-8 bytes.
pub fn compare_text(a: &str, b: &str) -> (r: Order)
    ensures
        r == compare_texts(a@, b@),
{
    let x = a.as_bytes();
    let y = b.as_bytes();
    let mut i: usize = 0;
    assert(x@.skip(0) =~= x@ && y@.skip(0) =~= y@);
    while i < x.len() && i < y.len()
        invariant
            i <= x@.len(),
            i <= y@.len(),
            x@ == encode_utf8(a@),
            y@ == encode_utf8(b@),
            compare_bytes(x@, y@) == compare_bytes(x@.skip(i as int), y@.skip(i as int)),
        decreases x.len() - i,
    {
        proof {
            assert(x@.skip(i as int)[0] == x@[i as int]);
            assert(y@.skip(i as int)[0] == y@[i as int]);
            assert(x@.skip(i as int).skip(1) =~= x@.skip(i + 1));
            assert(y@.skip(i as int).skip(1) =~= y@.skip(i + 1));
        }
        if x[i] < y[i] {
            return Order::Less;
        }
        if x[i] > y[i] {
            return Order::Greater;
        }
        i += 1;
    }
    if i < y.len() {
        Order::Less
    } else if i < x.len() {
        Order::Greater
    } else {
        Order::Equal
    }
}

/// Compares two numbers.
pub fn compare_number(a: u64, b: u64) -> (r: Order)
    ensures
        r == compare_numbers(a as int, b as int),
{
    if a < b {
        Order::Less
    } else if a > b {
        Order::Greater
    } else {
        Order::Equal
    }
}

} // verus!
