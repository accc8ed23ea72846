//! Lexicographic order on byte strings, and on text by its UTF-8 bytes.

use vstd::prelude::*;
use vstd::relations::*;
use vstd::utf8::*;

verus! {

/// `a` and `b` agree before position `k`, where `a` either ends or holds the smaller byte.
pub open spec fn differs_at(a: Seq<u8>, b: Seq<u8>, k: int) -> bool {
    &&& 0 <= k <= a.len()
    &&& k < b.len()
    &&& forall|i: int| 0 <= i < k ==> a[i] == b[i]
    &&& k == a.len() || a[k] < b[k]
}

/// Strict lexicographic order on byte strings.
pub open spec fn bytes_lt(a: Seq<u8>, b: Seq<u8>) -> bool {
    exists|k: int| differs_at(a, b, k)
}

/// Lexicographic order on byte strings.
pub open spec fn bytes_le(a: Seq<u8>, b: Seq<u8>) -> bool {
    a == b || bytes_lt(a, b)
}

/// Strict order on text: the order of its UTF-8 bytes.
pub open spec fn text_lt(a: Seq<char>, b: Seq<char>) -> bool {
    bytes_lt(encode_utf8(a), encode_utf8(b))
}

/// Order on text: the order of its UTF-8 bytes.
pub open spec fn text_le(a: Seq<char>, b: Seq<char>) -> bool {
    a == b || text_lt(a, b)
}

/// [`text_le`] as a relation, for sorting.
pub open spec fn text_order() -> spec_fn(Seq<char>, Seq<char>) -> bool {
    |a: Seq<char>, b: Seq<char>| text_le(a, b)
}

/// The contents of a sequence of strings.
pub open spec fn texts(s: Seq<String>) -> Seq<Seq<char>> {
    s.map_values(|t: String| t@)
}

/// No byte string sorts before itself, and no two sort before each other.
pub proof fn lemma_bytes_lt_asymmetric(a: Seq<u8>, b: Seq<u8>)
    requires
        bytes_lt(a, b),
    ensures
        !bytes_lt(b, a),
        a != b,
{
    let k = choose|k: int| differs_at(a, b, k);
    if bytes_lt(b, a) {
        let j = choose|j: int| differs_at(b, a, j);
        if j < k {
            assert(a[j] == b[j]);
        } else if k < j {
            assert(b[k] == a[k]);
        }
    }
    if a == b {
        assert(k < a.len());
    }
}

/// The order on byte strings is transitive.
pub proof fn lemma_bytes_lt_transitive(a: Seq<u8>, b: Seq<u8>, c: Seq<u8>)
    requires
        bytes_lt(a, b),
        bytes_lt(b, c),
    ensures
        bytes_lt(a, c),
{
    let k = choose|k: int| differs_at(a, b, k);
    let j = choose|j: int| differs_at(b, c, j);
    let m = if k < j { k } else { j };
    assert(differs_at(a, c, m));
}

/// Of two different byte strings, one sorts before the other.
pub proof fn lemma_bytes_lt_total(a: Seq<u8>, b: Seq<u8>)
    ensures
        bytes_lt(a, b) || a == b || bytes_lt(b, a),
{
    lemma_bytes_lt_total_from(a, b, 0);
}

proof fn lemma_bytes_lt_total_from(a: Seq<u8>, b: Seq<u8>, k: int)
    requires
        0 <= k <= a.len(),
        k <= b.len(),
        forall|i: int| 0 <= i < k ==> a[i] == b[i],
    ensures
        bytes_lt(a, b) || a == b || bytes_lt(b, a),
    decreases a.len() - k,
{
    if k == a.len() {
        if k == b.len() {
            assert(a =~= b);
        } else {
            assert(differs_at(a, b, k));
        }
    } else if k == b.len() {
        assert(differs_at(b, a, k));
    } else if a[k] < b[k] {
        assert(differs_at(a, b, k));
    } else if b[k] < a[k] {
        assert(differs_at(b, a, k));
    } else {
        lemma_bytes_lt_total_from(a, b, k + 1);
    }
}

/// A zero byte behind a byte string makes the smallest one that sorts after it.
pub proof fn the_next_byte_string(a: Seq<u8>, b: Seq<u8>)
    ensures
        bytes_lt(a, b) <==> bytes_le(a.push(0), b),
{
    let n = a.push(0);
    assert(differs_at(a, n, a.len() as int));
    if bytes_lt(a, b) {
        let k = choose|k: int| differs_at(a, b, k);
        if k < a.len() {
            assert(differs_at(n, b, k));
        } else if b[k] > 0 {
            assert(differs_at(n, b, k));
        } else if b.len() == n.len() {
            assert(n =~= b);
        } else {
            assert(differs_at(n, b, n.len() as int));
        }
    }
    if bytes_le(n, b) && n != b {
        lemma_bytes_lt_transitive(a, n, b);
    }
}

/// Text sorts by its bytes: what is the same or has the smaller bytes at the first difference comes
/// first, and what begins another text comes before it.
pub proof fn text_sorts_by_its_bytes(a: Seq<char>, b: Seq<char>, c: Seq<u8>, d: Seq<u8>, rest: Seq<u8>)
    ensures
        text_order()(a, b) <==> a == b || bytes_lt(encode_utf8(a), encode_utf8(b)),
        rest.len() > 0 ==> bytes_lt(c, c + rest),
        c.len() > 0 && d.len() > 0 && c[0] < d[0] ==> bytes_lt(c, d) && !bytes_lt(d, c),
        c.len() > 0 && d.len() > 0 && c[0] == d[0] ==> (bytes_lt(c, d) <==> bytes_lt(
            c.skip(1),
            d.skip(1),
        )),
{
    if rest.len() > 0 {
        assert(differs_at(c, c + rest, c.len() as int));
    }
    if c.len() > 0 && d.len() > 0 {
        if c[0] < d[0] {
            assert(differs_at(c, d, 0));
            lemma_bytes_lt_asymmetric(c, d);
        }
        if c[0] == d[0] {
            let x = c.skip(1);
            let y = d.skip(1);
            if bytes_lt(c, d) {
                let k = choose|k: int| differs_at(c, d, k);
                assert(k > 0);
                assert forall|i: int| 0 <= i < k - 1 implies x[i] == y[i] by {
                    assert(c[i + 1] == d[i + 1]);
                }
                assert(differs_at(x, y, k - 1));
            }
            if bytes_lt(x, y) {
                let k = choose|k: int| differs_at(x, y, k);
                assert forall|i: int| 0 <= i < k + 1 implies c[i] == d[i] by {
                    if i > 0 {
                        assert(x[i - 1] == y[i - 1]);
                    }
                }
                assert(differs_at(c, d, k + 1));
            }
        }
    }
}

/// Text with equal UTF-8 bytes is equal.
pub proof fn lemma_utf8_injective(a: Seq<char>, b: Seq<char>)
    requires
        encode_utf8(a) == encode_utf8(b),
    ensures
        a == b,
{
    encode_utf8_decode_utf8(a);
    encode_utf8_decode_utf8(b);
}

/// [`text_order`] is a total ordering.
pub proof fn lemma_text_order_total()
    ensures
        total_ordering(text_order()),
{
    let r = text_order();
    assert forall|a: Seq<char>, b: Seq<char>| #[trigger] r(a, b) && #[trigger] r(b, a) implies a
        == b by {
        if a != b {
            lemma_bytes_lt_asymmetric(encode_utf8(a), encode_utf8(b));
        }
    }
    assert forall|a: Seq<char>, b: Seq<char>, c: Seq<char>| #[trigger]
        r(a, b) && #[trigger] r(b, c) implies r(a, c) by {
        if a != b && b != c {
            lemma_bytes_lt_transitive(encode_utf8(a), encode_utf8(b), encode_utf8(c));
        }
    }
    assert forall|a: Seq<char>, b: Seq<char>| #[trigger] r(a, b) || #[trigger] r(b, a) by {
        lemma_text_lt_total(a, b);
    }
}

/// Of two different texts, one sorts before the other.
pub proof fn lemma_text_lt_total(a: Seq<char>, b: Seq<char>)
    ensures
        text_lt(a, b) || a == b || text_lt(b, a),
{
    lemma_bytes_lt_total(encode_utf8(a), encode_utf8(b));
    if encode_utf8(a) == encode_utf8(b) {
        lemma_utf8_injective(a, b);
    }
}

/// Does `a` sort strictly before `b`?
pub fn bytes_less(a: &[u8], b: &[u8]) -> (r: bool)
    ensures
        r == bytes_lt(a@, b@),
{
    let mut k: usize = 0;
    while k < a.len() && k < b.len() && a[k] == b[k]
        invariant
            k <= a@.len(),
            k <= b@.len(),
            forall|i: int| 0 <= i < k ==> a@[i] == b@[i],
        decreases a@.len() - k,
    {
        k = k + 1;
    }
    let r: bool = k < b.len() && (k == a.len() || a[k] < b[k]);
    proof {
        if r {
            assert(differs_at(a@, b@, k as int));
        } else if bytes_lt(a@, b@) {
            let j = choose|j: int| differs_at(a@, b@, j);
            if j < k {
                assert(a@[j] == b@[j]);
            } else if k < j {
                assert(a@[k as int] == b@[k as int]);
            }
        }
    }
    r
}

/// Does `a` sort strictly before `b`, by UTF-8 bytes?
pub fn text_less(a: &str, b: &str) -> (r: bool)
    ensures
        r == text_lt(a@, b@),
{
    bytes_less(a.as_bytes(), b.as_bytes())
}

/// Are the two byte strings the same?
pub fn bytes_same(a: &[u8], b: &[u8]) -> (r: bool)
    ensures
        r == (a@ == b@),
{
    if a.len() != b.len() {
        return false;
    }
    let mut k: usize = 0;
    while k < a.len()
        invariant
            a@.len() == b@.len(),
            k <= a@.len(),
            forall|i: int| 0 <= i < k ==> a@[i] == b@[i],
        decreases a@.len() - k,
    {
        if a[k] != b[k] {
            return false;
        }
        k = k + 1;
    }
    assert(a@ =~= b@);
    true
}

/// Are the two texts the same?
pub fn text_same(a: &str, b: &str) -> (r: bool)
    ensures
        r == (a@ == b@),
{
    let r: bool = bytes_same(a.as_bytes(), b.as_bytes());
    proof {
        if r {
            lemma_utf8_injective(a@, b@);
        }
    }
    r
}

/// The strings in ascending order.
pub fn sort_texts(items: Vec<String>) -> (r: Vec<String>)
    ensures
        texts(r@) == texts(items@).sort_by(text_order()),
{
    let mut out: Vec<String> = Vec::new();
    let mut i: usize = 0;
    assert(texts(out@) =~= Seq::<Seq<char>>::empty());
    assert(texts(items@).take(0) =~= Seq::<Seq<char>>::empty());
    while i < items.len()
        invariant
            i <= items@.len(),
            out@.len() == i,
            sorted_by(texts(out@), text_order()),
            texts(out@).to_multiset() == texts(items@).take(i as int).to_multiset(),
        decreases items@.len() - i,
    {
        let item: String = items[i].clone();
        let mut k: usize = out.len();
        while k > 0 && text_less(item.as_str(), out[k - 1].as_str())
            invariant
                k <= out@.len(),
                forall|j: int| k <= j < out@.len() ==> text_lt(item@, #[trigger] out@[j]@),
            decreases k,
        {
            k = k - 1;
        }
        proof {
            lemma_insert_sorted(texts(out@), item@, k as int);
            vstd::seq_lib::to_multiset_insert(texts(out@), k as int, item@);
            assert(texts(items@).take(i + 1) =~= texts(items@).take(i as int).push(item@));
            broadcast use vstd::seq_lib::group_to_multiset_ensures;
            assert(texts(out@.insert(k as int, item)) =~= texts(out@).insert(k as int, item@));
        }
        out.insert(k, item);
        i = i + 1;
    }
    proof {
        lemma_text_order_total();
        assert(texts(items@).take(i as int) =~= texts(items@));
        texts(items@).lemma_sort_by_ensures(text_order());
        vstd::seq_lib::lemma_sorted_unique(
            texts(out@),
            texts(items@).sort_by(text_order()),
            text_order(),
        );
    }
    out
}

proof fn lemma_insert_sorted(s: Seq<Seq<char>>, x: Seq<char>, k: int)
    requires
        sorted_by(s, text_order()),
        0 <= k <= s.len(),
        forall|j: int| k <= j < s.len() ==> text_lt(x, #[trigger] s[j]),
        k > 0 ==> !text_lt(x, s[k - 1]),
    ensures
        sorted_by(s.insert(k, x), text_order()),
{
    lemma_text_order_total();
    let r = text_order();
    let t = s.insert(k, x);
    assert forall|i: int, j: int| 0 <= i < j < t.len() implies #[trigger] r(t[i], t[j]) by {
        if j == k {
            lemma_text_lt_total(x, s[k - 1]);
            assert(r(s[k - 1], x));
            if i < k - 1 {
                assert(r(s[i], s[k - 1]));
            }
        } else if i == k {
            assert(text_lt(x, s[j - 1]));
        } else {
            let i0 = if i < k { i } else { i - 1 };
            let j0 = if j < k { j } else { j - 1 };
            assert(r(s[i0], s[j0]));
        }
    }
}

} // verus!
