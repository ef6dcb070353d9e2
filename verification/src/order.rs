//! Three-way comparison of text, the basis of the canonical dependency order.

use vstd::prelude::*;
use vstd::string::StringSliceAdditionalSpecFns;

verus! {

/// The outcome of comparing a left value with a right one.
#[derive(Clone, Copy, Debug, PartialEq, Eq, Structural)]
pub enum Order {
    Less,
    Equal,
    Greater,
}

impl Order {
    /// The outcome of the same comparison with its operands exchanged.
    pub open spec fn flip(self) -> Order {
        match self {
            Order::Less => Order::Greater,
            Order::Equal => Order::Equal,
            Order::Greater => Order::Less,
        }
    }

    /// Lexicographic combination: `self` decides unless it is `Equal`.
    pub open spec fn then_with(self, next: Order) -> Order {
        if self == Order::Equal {
            next
        } else {
            self
        }
    }

    /// Whether the comparison found no difference.
    pub fn is_equal(self) -> (r: bool)
        ensures
            r == (self == Order::Equal),
    {
        match self {
            Order::Equal => true,
            _ => false,
        }
    }

    /// Whether the left value came out greater.
    pub fn is_greater(self) -> (r: bool)
        ensures
            r == (self == Order::Greater),
    {
        match self {
            Order::Greater => true,
            _ => false,
        }
    }
}

/// Lexicographic order of two byte strings: the first differing byte decides,
/// and a proper prefix is smaller.
pub open spec fn bytes_order(a: Seq<u8>, b: Seq<u8>) -> Order
    decreases a.len(),
{
    if a.len() == 0 {
        if b.len() == 0 {
            Order::Equal
        } else {
            Order::Less
        }
    } else if b.len() == 0 {
        Order::Greater
    } else if a[0] < b[0] {
        Order::Less
    } else if a[0] > b[0] {
        Order::Greater
    } else {
        bytes_order(a.drop_first(), b.drop_first())
    }
}

/// Order of two texts: that of their UTF-8 encodings, byte by byte.
pub open spec fn text_order(a: Seq<char>, b: Seq<char>) -> Order {
    bytes_order(vstd::utf8::encode_utf8(a), vstd::utf8::encode_utf8(b))
}

/// Exchanging the operands of a byte comparison flips its outcome.
pub proof fn lemma_bytes_order_flip(a: Seq<u8>, b: Seq<u8>)
    ensures
        bytes_order(b, a) == bytes_order(a, b).flip(),
    decreases a.len(),
{
    if a.len() > 0 && b.len() > 0 && a[0] == b[0] {
        lemma_bytes_order_flip(a.drop_first(), b.drop_first());
    }
}

/// Byte strings compare `Equal` exactly when they are the same.
pub proof fn lemma_bytes_order_equal(a: Seq<u8>, b: Seq<u8>)
    ensures
        bytes_order(a, b) == Order::Equal <==> a == b,
    decreases a.len(),
{
    if a.len() > 0 && b.len() > 0 && a[0] == b[0] {
        lemma_bytes_order_equal(a.drop_first(), b.drop_first());
        if a.drop_first() == b.drop_first() {
            assert(a =~= seq![a[0]] + a.drop_first());
            assert(b =~= seq![b[0]] + b.drop_first());
        }
    } else if a.len() == 0 && b.len() == 0 {
        assert(a =~= b);
    }
}

/// Skipping a common prefix does not change the outcome of a byte comparison.
proof fn lemma_bytes_order_skip(a: Seq<u8>, b: Seq<u8>, n: int)
    requires
        0 <= n <= a.len(),
        n <= b.len(),
        forall|j: int| 0 <= j < n ==> a[j] == b[j],
    ensures
        bytes_order(a, b) == bytes_order(a.skip(n), b.skip(n)),
    decreases n,
{
    if n == 0 {
        assert(a.skip(0) =~= a);
        assert(b.skip(0) =~= b);
    } else {
        lemma_bytes_order_skip(a.drop_first(), b.drop_first(), n - 1);
        assert(a.drop_first().skip(n - 1) =~= a.skip(n));
        assert(b.drop_first().skip(n - 1) =~= b.skip(n));
    }
}

/// Compares two byte slices lexicographically.
pub fn compare_bytes(a: &[u8], b: &[u8]) -> (r: Order)
    ensures
        r == bytes_order(a@, b@),
{
    let mut i: usize = 0;
    while i < a.len() && i < b.len()
        invariant
            i <= a.len(),
            i <= b.len(),
            forall|j: int| 0 <= j < i ==> a@[j] == b@[j],
        decreases a.len() - i,
    {
        if a[i] < b[i] {
            proof {
                lemma_bytes_order_skip(a@, b@, i as int);
            }
            return Order::Less;
        }
        if a[i] > b[i] {
            proof {
                lemma_bytes_order_skip(a@, b@, i as int);
            }
            return Order::Greater;
        }
        i += 1;
    }
    proof {
        lemma_bytes_order_skip(a@, b@, i as int);
    }
    if i < b.len() {
        Order::Less
    } else if i < a.len() {
        Order::Greater
    } else {
        Order::Equal
    }
}

/// Compares two texts by their UTF-8 bytes.
pub fn compare_text(a: &str, b: &str) -> (r: Order)
    ensures
        r == text_order(a@, b@),
{
    compare_bytes(a.as_bytes(), b.as_bytes())
}

/// Byte comparison is transitive where it is strict.
pub proof fn lemma_bytes_order_transitive(a: Seq<u8>, b: Seq<u8>, c: Seq<u8>)
    requires
        bytes_order(a, b) == Order::Less,
        bytes_order(b, c) == Order::Less,
    ensures
        bytes_order(a, c) == Order::Less,
    decreases a.len(),
{
    if a.len() > 0 && b.len() > 0 && c.len() > 0 && a[0] == b[0] && b[0] == c[0] {
        lemma_bytes_order_transitive(a.drop_first(), b.drop_first(), c.drop_first());
    }
}

/// Text comparison is a strict total order: exchanging the operands flips the
/// outcome, `Equal` means the same text, and `Less` is transitive.
pub proof fn lemma_text_order(a: Seq<char>, b: Seq<char>, c: Seq<char>)
    ensures
        text_order(b, a) == text_order(a, b).flip(),
        text_order(a, b) == Order::Equal <==> a == b,
        text_order(a, b) == Order::Less && text_order(b, c) == Order::Less ==> text_order(a, c)
            == Order::Less,
{
    let ea = vstd::utf8::encode_utf8(a);
    let eb = vstd::utf8::encode_utf8(b);
    let ec = vstd::utf8::encode_utf8(c);
    lemma_bytes_order_flip(ea, eb);
    lemma_bytes_order_equal(ea, eb);
    if ea == eb {
        vstd::utf8::encode_utf8_decode_utf8(a);
        vstd::utf8::encode_utf8_decode_utf8(b);
    }
    if bytes_order(ea, eb) == Order::Less && bytes_order(eb, ec) == Order::Less {
        lemma_bytes_order_transitive(ea, eb, ec);
    }
}

/// Lexicographic order of two lists of texts: the first differing pair
/// decides, and a proper prefix is smaller.
pub open spec fn texts_order(a: Seq<Seq<char>>, b: Seq<Seq<char>>) -> Order
    decreases a.len(),
{
    if a.len() == 0 {
        if b.len() == 0 {
            Order::Equal
        } else {
            Order::Less
        }
    } else if b.len() == 0 {
        Order::Greater
    } else {
        text_order(a[0], b[0]).then_with(texts_order(a.drop_first(), b.drop_first()))
    }
}

/// Exchanging the operands of a list comparison flips its outcome, and lists
/// compare `Equal` exactly when they are the same.
pub proof fn lemma_texts_order_flip(a: Seq<Seq<char>>, b: Seq<Seq<char>>)
    ensures
        texts_order(b, a) == texts_order(a, b).flip(),
        texts_order(a, b) == Order::Equal <==> a == b,
    decreases a.len(),
{
    if a.len() > 0 && b.len() > 0 {
        lemma_text_order(a[0], b[0], b[0]);
        lemma_texts_order_flip(a.drop_first(), b.drop_first());
        if a[0] == b[0] && a.drop_first() == b.drop_first() {
            assert(a =~= seq![a[0]] + a.drop_first());
            assert(b =~= seq![b[0]] + b.drop_first());
        }
    } else if a.len() == 0 && b.len() == 0 {
        assert(a =~= b);
    }
}

/// List comparison is transitive where it is strict.
pub proof fn lemma_texts_order_transitive(a: Seq<Seq<char>>, b: Seq<Seq<char>>, c: Seq<Seq<char>>)
    requires
        texts_order(a, b) == Order::Less,
        texts_order(b, c) == Order::Less,
    ensures
        texts_order(a, c) == Order::Less,
    decreases a.len(),
{
    if a.len() > 0 && b.len() > 0 && c.len() > 0 {
        lemma_text_order(a[0], b[0], c[0]);
        lemma_text_order(b[0], c[0], c[0]);
        lemma_text_order(a[0], c[0], c[0]);
        if a[0] == b[0] && b[0] == c[0] {
            lemma_texts_order_transitive(a.drop_first(), b.drop_first(), c.drop_first());
        }
    }
}

/// Skipping a prefix of pairwise equal texts does not change the outcome of
/// a list comparison.
proof fn lemma_texts_order_skip(a: Seq<Seq<char>>, b: Seq<Seq<char>>, n: int)
    requires
        0 <= n <= a.len(),
        n <= b.len(),
        forall|j: int| 0 <= j < n ==> text_order(#[trigger] a[j], b[j]) == Order::Equal,
    ensures
        texts_order(a, b) == texts_order(a.skip(n), b.skip(n)),
    decreases n,
{
    if n == 0 {
        assert(a.skip(0) =~= a);
        assert(b.skip(0) =~= b);
    } else {
        assert(text_order(a[0], b[0]) == Order::Equal);
        assert forall|j: int| 0 <= j < n - 1 implies text_order(
            #[trigger] a.drop_first()[j],
            b.drop_first()[j],
        ) == Order::Equal by {
            assert(text_order(a[j + 1], b[j + 1]) == Order::Equal);
        }
        lemma_texts_order_skip(a.drop_first(), b.drop_first(), n - 1);
        assert(a.drop_first().skip(n - 1) =~= a.skip(n));
        assert(b.drop_first().skip(n - 1) =~= b.skip(n));
    }
}

/// The characters of each text of a list.
pub open spec fn texts_of(v: Seq<String>) -> Seq<Seq<char>> {
    Seq::new(v.len(), |i: int| v[i]@)
}

/// Compares two lists of texts lexicographically.
pub fn compare_texts(a: &Vec<String>, b: &Vec<String>) -> (r: Order)
    ensures
        r == texts_order(texts_of(a@), texts_of(b@)),
{
    let ghost ta = texts_of(a@);
    let ghost tb = texts_of(b@);
    let mut i: usize = 0;
    while i < a.len() && i < b.len()
        invariant
            i <= a.len(),
            i <= b.len(),
            ta == texts_of(a@),
            tb == texts_of(b@),
            forall|j: int| 0 <= j < i ==> text_order(#[trigger] ta[j], tb[j]) == Order::Equal,
        decreases a.len() - i,
    {
        let o = compare_text(a[i].as_str(), b[i].as_str());
        if !o.is_equal() {
            proof {
                lemma_texts_order_skip(ta, tb, i as int);
                assert(ta.skip(i as int)[0] == ta[i as int]);
                assert(tb.skip(i as int)[0] == tb[i as int]);
            }
            return o;
        }
        i += 1;
    }
    proof {
        lemma_texts_order_skip(ta, tb, i as int);
    }
    if i < b.len() {
        Order::Less
    } else if i < a.len() {
        Order::Greater
    } else {
        Order::Equal
    }
}

} // verus!
