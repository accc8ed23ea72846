//! The region layout of a cluster, as ground truth for where a key lives.
//!
//! Region bounds are reported in the memcomparable encoding, not as raw keys. A raw key is encoded
//! before it is compared, or it would be put in the wrong region.

use vstd::prelude::*;
use vstd::string::*;

use crate::order::{
    bytes_le, bytes_less, bytes_lt, differs_at, lemma_bytes_lt_asymmetric, lemma_bytes_lt_total,
};
use crate::text::chars_of;

verus! {

/// The last group of an encoded key: what is left of it, zeros up to eight bytes, and a marker that
/// says how many zeros.
pub open spec fn last_group(rest: Seq<u8>) -> Seq<u8> {
    Seq::new(
        9,
        |i: int|
            if i < rest.len() {
                rest[i]
            } else if i < 8 {
                0u8
            } else {
                (0xf7 + rest.len()) as u8
            },
    )
}

/// The memcomparable encoding of a key: groups of eight bytes, each followed by a marker. A key
/// whose length is a multiple of eight ends with a group of zeros, or it would sort wrongly among
/// its own extensions.
pub open spec fn encoded_key(key: Seq<u8>) -> Seq<u8>
    decreases key.len(),
{
    if key.len() < 8 {
        last_group(key)
    } else {
        key.take(8).push(0xff) + encoded_key(key.skip(8))
    }
}

/// Encode a raw key the way that region bounds are reported.
pub fn encode_key(key: &[u8]) -> (r: Vec<u8>)
    ensures
        r@ == encoded_key(key@),
{
    let mut out: Vec<u8> = Vec::new();
    let mut at: usize = 0;
    proof {
        assert(key@.skip(0) =~= key@);
        assert(out@ + encoded_key(key@) =~= encoded_key(key@));
    }
    while key.len() - at >= 8
        invariant
            at <= key@.len(),
            out@ + encoded_key(key@.skip(at as int)) == encoded_key(key@),
        decreases key@.len() - at,
    {
        let ghost rest = key@.skip(at as int);
        let ghost before = out@;
        let mut i: usize = 0;
        proof {
            assert(before + rest.take(0) =~= before);
        }
        while i < 8
            invariant
                i <= 8,
                at + 8 <= key@.len(),
                at + 8 <= key.len(),
                rest == key@.skip(at as int),
                out@ == before + rest.take(i as int),
            decreases 8 - i,
        {
            out.push(key[at + i]);
            i = i + 1;
            assert(out@ =~= before + rest.take(i as int));
        }
        out.push(0xff);
        proof {
            let group = rest.take(8).push(0xff);
            assert(out@ =~= before + group);
            assert(rest.skip(8) =~= key@.skip(at + 8));
            let tail = encoded_key(rest.skip(8));
            assert((before + group) + tail =~= before + (group + tail));
        }
        at = at + 8;
    }
    let ghost rest = key@.skip(at as int);
    let ghost before = out@;
    let mut i: usize = 0;
    proof {
        assert(before + last_group(rest).take(0) =~= before);
    }
    while i < 8
        invariant
            i <= 8,
            at <= key@.len(),
            key@.len() - at < 8,
            rest == key@.skip(at as int),
            out@ == before + last_group(rest).take(i as int),
        decreases 8 - i,
    {
        if i < key.len() - at {
            out.push(key[at + i]);
        } else {
            out.push(0);
        }
        i = i + 1;
        assert(out@ =~= before + last_group(rest).take(i as int));
    }
    let left: usize = key.len() - at;
    out.push(0xf7 + left as u8);
    proof {
        assert(out@ =~= before + last_group(rest));
    }
    out
}

/// Where two byte strings agree up to `k`, and from there on up to `n` the first is nowhere greater
/// and at `n` smaller, the first sorts before the second.
proof fn lemma_lt_from(x: Seq<u8>, y: Seq<u8>, k: int, n: int)
    requires
        0 <= k <= n < x.len(),
        n < y.len(),
        forall|i: int| 0 <= i < k ==> x[i] == y[i],
        forall|i: int| k <= i < n ==> x[i] <= y[i],
        x[n] < y[n],
    ensures
        bytes_lt(x, y),
    decreases n - k,
{
    if x[k] < y[k] {
        assert(differs_at(x, y, k));
    } else {
        lemma_lt_from(x, y, k + 1, n);
    }
}

proof fn lemma_encoded_start(key: Seq<u8>)
    ensures
        encoded_key(key).len() >= 9,
        forall|i: int|
            0 <= i < 8 ==> #[trigger] encoded_key(key)[i] == if i < key.len() {
                key[i]
            } else {
                0u8
            },
        encoded_key(key)[8] == if key.len() < 8 {
            (0xf7 + key.len()) as u8
        } else {
            0xffu8
        },
{
}

proof fn lemma_encoding_keeps_lt(a: Seq<u8>, b: Seq<u8>)
    requires
        bytes_lt(a, b),
    ensures
        bytes_lt(encoded_key(a), encoded_key(b)),
    decreases a.len(),
{
    let x = encoded_key(a);
    let y = encoded_key(b);
    lemma_encoded_start(a);
    lemma_encoded_start(b);
    let k = choose|k: int| differs_at(a, b, k);
    if k >= 8 {
        let a1 = a.skip(8);
        let b1 = b.skip(8);
        assert(differs_at(a1, b1, k - 8));
        lemma_encoding_keeps_lt(a1, b1);
        assert(a.take(8) =~= b.take(8));
        let g = a.take(8).push(0xff);
        let j = choose|j: int| differs_at(encoded_key(a1), encoded_key(b1), j);
        assert(differs_at(g + encoded_key(a1), g + encoded_key(b1), j + 9));
    } else if k < a.len() {
        assert(x[k] == a[k] && y[k] == b[k]);
        assert(differs_at(x, y, k));
    } else {
        // `a` ends where `b` goes on.
        assert forall|i: int| 0 <= i < k implies x[i] == y[i] by {
            assert(x[i] == a[i] && y[i] == b[i]);
        }
        lemma_lt_from(x, y, k, 8);
    }
}

/// Keys sort as their encodings do.
pub proof fn encoding_preserves_order(a: Seq<u8>, b: Seq<u8>)
    ensures
        bytes_lt(a, b) <==> bytes_lt(encoded_key(a), encoded_key(b)),
{
    if bytes_lt(a, b) {
        lemma_encoding_keeps_lt(a, b);
    }
    if bytes_lt(encoded_key(a), encoded_key(b)) {
        lemma_bytes_lt_asymmetric(encoded_key(a), encoded_key(b));
        lemma_bytes_lt_total(a, b);
        if bytes_lt(b, a) {
            lemma_encoding_keeps_lt(b, a);
        }
    }
}

/// Different keys have different encodings.
pub proof fn encodings_tell_keys_apart(a: Seq<u8>, b: Seq<u8>)
    requires
        encoded_key(a) == encoded_key(b),
    ensures
        a == b,
{
    lemma_bytes_lt_total(a, b);
    if bytes_lt(a, b) {
        lemma_encoding_keeps_lt(a, b);
        lemma_bytes_lt_asymmetric(encoded_key(a), encoded_key(b));
    }
    if bytes_lt(b, a) {
        lemma_encoding_keeps_lt(b, a);
        lemma_bytes_lt_asymmetric(encoded_key(b), encoded_key(a));
    }
}

/// A region, with its bounds as they are reported. An empty bound is no bound.
#[derive(Debug, Clone)]
pub struct RegionInfo {
    pub id: u64,
    pub start: Vec<u8>,
    pub end: Vec<u8>,
}

impl RegionInfo {
    /// The region holds the encoded key: its start belongs to it, and its end does not.
    pub open spec fn holds(self, encoded: Seq<u8>) -> bool {
        &&& self.start@.len() == 0 || bytes_le(self.start@, encoded)
        &&& self.end@.len() == 0 || bytes_lt(encoded, self.end@)
    }

    /// Does the region hold the encoded key?
    pub fn contains(&self, encoded: &[u8]) -> (r: bool)
        ensures
            r == self.holds(encoded@),
    {
        proof {
            lemma_bytes_lt_total(self.start@, encoded@);
            if bytes_lt(encoded@, self.start@) {
                lemma_bytes_lt_asymmetric(encoded@, self.start@);
            }
        }
        let after_start: bool = self.start.len() == 0 || !bytes_less(
            encoded,
            self.start.as_slice(),
        );
        let before_end: bool = self.end.len() == 0 || bytes_less(encoded, self.end.as_slice());
        after_start && before_end
    }
}

/// The position of the first region that holds the raw key, if one does.
pub open spec fn located(regions: Seq<RegionInfo>, key: Seq<u8>) -> Option<int>
    decreases regions.len(),
{
    if regions.len() == 0 {
        None
    } else {
        match located(regions.drop_last(), key) {
            Some(i) => Some(i),
            None => if regions.last().holds(encoded_key(key)) {
                Some(regions.len() - 1)
            } else {
                None
            },
        }
    }
}

/// The id of the region that holds the raw key, if one does.
pub open spec fn region_id(regions: Seq<RegionInfo>, key: Seq<u8>) -> Option<u64> {
    match located(regions, key) {
        Some(i) => Some(regions[i].id),
        None => None,
    }
}

/// Where a raw key is located: at the first region that holds it.
pub proof fn the_first_region_that_holds_a_key(regions: Seq<RegionInfo>, key: Seq<u8>)
    ensures
        match located(regions, key) {
            Some(i) => {
                &&& 0 <= i < regions.len()
                &&& regions[i].holds(encoded_key(key))
                &&& forall|j: int| 0 <= j < i ==> !(#[trigger] regions[j]).holds(encoded_key(key))
            },
            None => forall|j: int|
                0 <= j < regions.len() ==> !(#[trigger] regions[j]).holds(encoded_key(key)),
        },
    decreases regions.len(),
{
    if regions.len() > 0 {
        let init = regions.drop_last();
        the_first_region_that_holds_a_key(init, key);
        match located(init, key) {
            Some(i) => {
                assert forall|j: int| 0 <= j < i implies !(#[trigger] regions[j]).holds(
                    encoded_key(key),
                ) by {
                    assert(!init[j].holds(encoded_key(key)));
                }
            },
            None => {
                assert forall|j: int| 0 <= j < init.len() implies !(#[trigger] regions[j]).holds(
                    encoded_key(key),
                ) by {
                    assert(!init[j].holds(encoded_key(key)));
                }
            },
        }
    }
}

/// Locate a raw key within one view of the layout.
pub fn locate<'a>(snapshot: &'a [RegionInfo], key: &[u8]) -> (r: Option<&'a RegionInfo>)
    ensures
        match r {
            Some(region) => located(snapshot@, key@) matches Some(i) && 0 <= i < snapshot@.len()
                && *region == snapshot@[i],
            None => located(snapshot@, key@) is None,
        },
{
    let encoded: Vec<u8> = encode_key(key);
    let mut i: usize = 0;
    proof {
        the_first_region_that_holds_a_key(snapshot@, key@);
    }
    while i < snapshot.len()
        invariant
            encoded@ == encoded_key(key@),
            i <= snapshot@.len(),
            forall|j: int| 0 <= j < i ==> !(#[trigger] snapshot@[j]).holds(encoded@),
            match located(snapshot@, key@) {
                Some(i) => {
                    &&& 0 <= i < snapshot@.len()
                    &&& snapshot@[i].holds(encoded_key(key@))
                    &&& forall|j: int|
                        0 <= j < i ==> !(#[trigger] snapshot@[j]).holds(encoded_key(key@))
                },
                None => forall|j: int|
                    0 <= j < snapshot@.len() ==> !(#[trigger] snapshot@[j]).holds(
                        encoded_key(key@),
                    ),
            },
        decreases snapshot@.len() - i,
    {
        if snapshot[i].contains(encoded.as_slice()) {
            return Some(&snapshot[i]);
        }
        i = i + 1;
    }
    None
}

/// Which regions hold `a` and `b`, in one view of the layout.
///
/// Two ids from two views can differ without the keys ever having been apart.
pub fn region_pair(snapshot: &[RegionInfo], a: &[u8], b: &[u8]) -> (r: (Option<u64>, Option<u64>))
    ensures
        r.0 == region_id(snapshot@, a@),
        r.1 == region_id(snapshot@, b@),
{
    let x: Option<u64> = match locate(snapshot, a) {
        Some(region) => Some(region.id),
        None => None,
    };
    let y: Option<u64> = match locate(snapshot, b) {
        Some(region) => Some(region.id),
        None => None,
    };
    (x, y)
}

/// The two keys are in different regions.
pub open spec fn cross_region(regions: Seq<RegionInfo>, a: Seq<u8>, b: Seq<u8>) -> bool {
    &&& region_id(regions, a) is Some
    &&& region_id(regions, b) is Some
    &&& region_id(regions, a) != region_id(regions, b)
}

/// Are the two keys in different regions, in one view of the layout?
pub fn are_cross_region(snapshot: &[RegionInfo], a: &[u8], b: &[u8]) -> (r: bool)
    ensures
        r == cross_region(snapshot@, a@, b@),
{
    match region_pair(snapshot, a, b) {
        (Some(x), Some(y)) => x != y,
        _ => false,
    }
}

/// A layout cut at a raw key: the region below it, and the region from it on.
pub open spec fn cut_at(left: RegionInfo, right: RegionInfo, at: Seq<u8>) -> bool {
    &&& left.start@.len() == 0
    &&& left.end@ == encoded_key(at)
    &&& right.start@ == encoded_key(at)
    &&& right.end@.len() == 0
    &&& left.id != right.id
}

/// A cut separates the keys below it from the keys at and above it.
pub proof fn a_cut_separates(
    left: RegionInfo,
    right: RegionInfo,
    at: Seq<u8>,
    lo: Seq<u8>,
    hi: Seq<u8>,
)
    requires
        cut_at(left, right, at),
        bytes_lt(lo, at),
        bytes_le(at, hi),
    ensures
        region_id(seq![left, right], lo) == Some(left.id),
        region_id(seq![left, right], hi) == Some(right.id),
        cross_region(seq![left, right], lo, hi),
{
    let regions = seq![left, right];
    let e = encoded_key(at);
    lemma_encoded_start(at);
    encoding_preserves_order(lo, at);
    encoding_preserves_order(at, hi);
    if bytes_lt(encoded_key(hi), e) {
        encoding_preserves_order(hi, at);
        if at == hi {
            lemma_bytes_lt_asymmetric(hi, at);
        } else {
            lemma_bytes_lt_asymmetric(at, hi);
        }
    }
    assert(regions.drop_last() =~= seq![left]);
    assert(seq![left].drop_last() =~= Seq::<RegionInfo>::empty());
    assert(seq![left].last() == left);
    assert(regions.last() == right);
    reveal_with_fuel(located, 3);
}

/// What it takes for two keys to be in different regions.
#[derive(Debug, Clone, Copy, PartialEq, Eq)]
pub enum Separation {
    /// They are: in these two.
    Met(u64, u64),
    /// The region that holds the first one is to be split.
    Split(u64),
    /// No region holds the first one in this view.
    Unknown,
}

/// What it takes for `lo` and `hi` to be in different regions, decided in one view of the layout.
pub fn separation(snapshot: &[RegionInfo], lo: &[u8], hi: &[u8]) -> (r: Separation)
    ensures
        r == match (region_id(snapshot@, lo@), region_id(snapshot@, hi@)) {
            (Some(a), Some(b)) => if a != b {
                Separation::Met(a, b)
            } else {
                Separation::Split(a)
            },
            (Some(a), None) => Separation::Split(a),
            (None, _) => Separation::Unknown,
        },
{
    match region_pair(snapshot, lo, hi) {
        (Some(a), Some(b)) => {
            if a != b {
                Separation::Met(a, b)
            } else {
                Separation::Split(a)
            }
        },
        (Some(a), None) => Separation::Split(a),
        (None, _) => Separation::Unknown,
    }
}

/// The hexadecimal digit for a value below sixteen.
pub open spec fn hex_digit(v: int) -> char {
    if v < 10 {
        ('0' as int + v) as char
    } else {
        ('a' as int + (v - 10)) as char
    }
}

/// The value of a hexadecimal digit.
pub open spec fn hex_value(c: char) -> Option<int> {
    if '0' <= c <= '9' {
        Some(c as int - '0' as int)
    } else if 'a' <= c <= 'f' {
        Some(c as int - 'a' as int + 10)
    } else if 'A' <= c <= 'F' {
        Some(c as int - 'A' as int + 10)
    } else {
        None
    }
}

/// The bytes in hexadecimal, two digits each.
pub open spec fn hex_of(bytes: Seq<u8>) -> Seq<char> {
    Seq::new(
        2 * bytes.len(),
        |i: int|
            if i % 2 == 0 {
                hex_digit(bytes[i / 2] as int / 16)
            } else {
                hex_digit(bytes[i / 2] as int % 16)
            },
    )
}

/// The byte that two characters spell: two digits, or a plus sign and a digit.
pub open spec fn hex_pair(high: char, low: char) -> Option<u8> {
    match (hex_value(high), hex_value(low)) {
        (Some(h), Some(l)) => Some((16 * h + l) as u8),
        (None, Some(l)) => if high == '+' {
            Some(l as u8)
        } else {
            None
        },
        _ => None,
    }
}

/// The text is hexadecimal: every two characters spell a byte.
pub open spec fn is_hex(s: Seq<char>) -> bool {
    &&& s.len() % 2 == 0
    &&& forall|i: int| 0 <= i < s.len() / 2 ==> (#[trigger] hex_pair(s[2 * i], s[2 * i + 1])) is Some
}

/// The bytes that hexadecimal text spells.
pub open spec fn hex_bytes(s: Seq<char>) -> Seq<u8> {
    Seq::new(
        s.len() / 2,
        |i: int| hex_pair(s[2 * i], s[2 * i + 1])->0,
    )
}

/// An encoded key is groups of nine bytes: the bytes of the key eight by eight, the last of them
/// filled up with zeros, and behind each group a marker, which is 0xff for a full group and says of
/// the last group how many bytes of the key are in it.
pub proof fn an_encoded_key_is_groups_of_nine(key: Seq<u8>)
    ensures
        encoded_key(key).len() == 9 * (key.len() / 8 + 1),
        forall|i: int|
            0 <= i < key.len() ==> encoded_key(key)[9 * (i / 8) + i % 8] == #[trigger] key[i],
        forall|g: int|
            0 <= g < key.len() / 8 ==> #[trigger] encoded_key(key)[9 * g + 8] == 0xff,
        forall|i: int|
            9 * (key.len() / 8) + key.len() % 8 <= i < 9 * (key.len() / 8) + 8
                ==> #[trigger] encoded_key(key)[i] == 0,
        encoded_key(key).last() == 0xf7 + key.len() % 8,
    decreases key.len(),
{
    let e = encoded_key(key);
    let n = key.len() as int;
    if n < 8 {
        assert forall|i: int| 0 <= i < n implies e[9 * (i / 8) + i % 8] == #[trigger] key[i] by {
            assert(i / 8 == 0 && i % 8 == i);
        }
        assert(n / 8 == 0 && n % 8 == n);
    } else {
        let rest = key.skip(8);
        let t = encoded_key(rest);
        an_encoded_key_is_groups_of_nine(rest);
        assert(rest.len() == n - 8);
        assert((n - 8) / 8 == n / 8 - 1 && (n - 8) % 8 == n % 8);
        assert forall|i: int| 0 <= i < n implies e[9 * (i / 8) + i % 8] == #[trigger] key[i] by {
            if i < 8 {
                assert(i / 8 == 0 && i % 8 == i);
                assert(e[i] == key.take(8)[i]);
            } else {
                assert((i - 8) / 8 == i / 8 - 1 && (i - 8) % 8 == i % 8);
                assert(rest[i - 8] == key[i]);
                assert(e[9 * (i / 8) + i % 8] == t[9 * (i / 8) + i % 8 - 9]);
            }
        }
        assert forall|g: int| 0 <= g < n / 8 implies #[trigger] e[9 * g + 8] == 0xff by {
            if g == 0 {
                assert(e[8] == 0xff);
            } else {
                assert(t[9 * (g - 1) + 8] == 0xff);
                assert(e[9 * g + 8] == t[9 * g + 8 - 9]);
            }
        }
        assert forall|i: int|
            9 * (n / 8) + n % 8 <= i < 9 * (n / 8) + 8 implies #[trigger] e[i] == 0 by {
            assert(t[i - 9] == 0);
        }
        assert(e.last() == t.last());
    }
}

/// A region whose bounds are the encodings of two raw keys holds exactly the raw keys from the first
/// up to the second. A region without bounds holds every key.
pub proof fn a_region_holds_what_is_between_its_bounds(
    region: RegionInfo,
    lo: Seq<u8>,
    hi: Seq<u8>,
    key: Seq<u8>,
)
    ensures
        region.start@ == encoded_key(lo) && region.end@ == encoded_key(hi) ==> (region.holds(
            encoded_key(key),
        ) <==> bytes_le(lo, key) && bytes_lt(key, hi)),
        region.start@ == encoded_key(lo) && region.end@.len() == 0 ==> (region.holds(
            encoded_key(key),
        ) <==> bytes_le(lo, key)),
        region.start@.len() == 0 && region.end@ == encoded_key(hi) ==> (region.holds(
            encoded_key(key),
        ) <==> bytes_lt(key, hi)),
        region.start@.len() == 0 && region.end@.len() == 0 ==> region.holds(encoded_key(key)),
{
    lemma_encoded_start(lo);
    lemma_encoded_start(hi);
    encoding_preserves_order(lo, key);
    encoding_preserves_order(key, hi);
    if encoded_key(lo) == encoded_key(key) {
        encodings_tell_keys_apart(lo, key);
    }
}

/// Whether two keys are in different regions does not depend on which is named first, and no key is
/// in a different region from itself.
pub proof fn being_apart_is_mutual(regions: Seq<RegionInfo>, a: Seq<u8>, b: Seq<u8>)
    ensures
        cross_region(regions, a, b) <==> cross_region(regions, b, a),
        !cross_region(regions, a, a),
        cross_region(regions, a, b) ==> located(regions, a) != located(regions, b),
        located(regions, a) is Some && located(regions, b) is Some && !cross_region(regions, a, b)
            ==> regions[located(regions, a)->0].id == regions[located(regions, b)->0].id,
{
}

/// The digits of hexadecimal: written small, read small and large alike, and a plus sign in front of
/// a digit is worth nothing.
pub proof fn the_hexadecimal_digits(v: int, c: char, low: char)
    ensures
        0 <= v < 16 ==> hex_digit(v) == "0123456789abcdef"@[v],
        0 <= v < 16 ==> hex_value(hex_digit(v)) == Some(v),
        'A' <= c <= 'F' ==> hex_value(c) == hex_value((c as int + 32) as char),
        hex_value(c) is Some ==> 0 <= hex_value(c)->0 < 16 && (c == hex_digit(hex_value(c)->0) || (
        c as int + 32) as char == hex_digit(hex_value(c)->0)),
        hex_pair('+', low) == hex_pair('0', low),
{
    reveal_strlit("0123456789abcdef");
}

/// The bytes in hexadecimal.
pub fn bytes_to_hex(bytes: &[u8]) -> (r: String)
    ensures
        r@ == hex_of(bytes@),
{
    let mut out: String = String::new();
    let mut i: usize = 0;
    proof {
        assert(out@ =~= hex_of(bytes@).take(0));
    }
    while i < bytes.len()
        invariant
            i <= bytes@.len(),
            out@ == hex_of(bytes@).take(2 * i),
        decreases bytes@.len() - i,
    {
        let b: u8 = bytes[i];
        let ghost before = out@;
        out.push(digit_of(b / 16));
        out.push(digit_of(b % 16));
        proof {
            let h = hex_of(bytes@);
            assert((2 * i) / 2 == i && (2 * i + 1) / 2 == i);
            assert(h[2 * i] == hex_digit(b as int / 16));
            assert(h[2 * i + 1] == hex_digit(b as int % 16));
            assert(out@ =~= before.push(h[2 * i]).push(h[2 * i + 1]));
            assert(out@ =~= h.take(2 * (i + 1)));
        }
        i = i + 1;
    }
    proof {
        assert(hex_of(bytes@).take(2 * i) =~= hex_of(bytes@));
    }
    out
}

/// The hexadecimal digit for a value.
fn digit_of(v: u8) -> (r: char)
    requires
        v < 16,
    ensures
        r == hex_digit(v as int),
{
    if v < 10 {
        (48u8 + v) as char
    } else {
        (97u8 + (v - 10)) as char
    }
}

/// The value of a hexadecimal digit.
fn value_of(c: char) -> (r: Option<u8>)
    ensures
        match r {
            Some(v) => hex_value(c) == Some(v as int) && v < 16,
            None => hex_value(c) is None,
        },
{
    if '0' <= c && c <= '9' {
        Some((c as u32 - 48) as u8)
    } else if 'a' <= c && c <= 'f' {
        Some((c as u32 - 97 + 10) as u8)
    } else if 'A' <= c && c <= 'F' {
        Some((c as u32 - 65 + 10) as u8)
    } else {
        None
    }
}

/// The bytes that hexadecimal text spells, where it is that.
pub fn hex_to_bytes(s: &str) -> (r: Option<Vec<u8>>)
    ensures
        match r {
            Some(bytes) => is_hex(s@) && bytes@ == hex_bytes(s@),
            None => !is_hex(s@),
        },
{
    let chars: Vec<char> = chars_of(s);
    if chars.len() % 2 != 0 {
        return None;
    }
    let mut out: Vec<u8> = Vec::new();
    let n: usize = chars.len() / 2;
    let mut i: usize = 0;
    while i < n
        invariant
            chars@ == s@,
            chars@.len() == 2 * n,
            i <= n,
            out@.len() == i,
            forall|j: int|
                0 <= j < i ==> (#[trigger] hex_pair(s@[2 * j], s@[2 * j + 1])) is Some,
            forall|j: int| 0 <= j < i ==> out@[j] == hex_pair(s@[2 * j], s@[2 * j + 1])->0,
        decreases n - i,
    {
        let high: char = chars[2 * i];
        let low: char = chars[2 * i + 1];
        let byte: u8 = match (value_of(high), value_of(low)) {
            (Some(h), Some(l)) => 16 * h + l,
            (None, Some(l)) => {
                if high != '+' {
                    assert(hex_pair(s@[2 * i], s@[2 * i + 1]) is None);
                    return None;
                }
                l
            },
            _ => {
                assert(hex_pair(s@[2 * i], s@[2 * i + 1]) is None);
                return None;
            },
        };
        out.push(byte);
        i = i + 1;
    }
    proof {
        assert(out@ =~= hex_bytes(s@));
    }
    Some(out)
}

/// Hexadecimal gives back the bytes that were spelled in it.
pub proof fn hex_gives_back_the_bytes(bytes: Seq<u8>)
    ensures
        is_hex(hex_of(bytes)),
        hex_bytes(hex_of(bytes)) == bytes,
{
    let h = hex_of(bytes);
    assert forall|v: int| 0 <= v < 16 implies hex_value(#[trigger] hex_digit(v)) == Some(v) by {}
    assert forall|i: int| 0 <= i < bytes.len() implies #[trigger] hex_pair(h[2 * i], h[2 * i + 1])
        == Some(bytes[i]) by {
        let b = bytes[i] as int;
        assert((2 * i) / 2 == i && (2 * i + 1) / 2 == i);
        assert(h[2 * i] == hex_digit(b / 16));
        assert(h[2 * i + 1] == hex_digit(b % 16));
        assert(hex_value(hex_digit(b / 16)) == Some(b / 16));
        assert(hex_value(hex_digit(b % 16)) == Some(b % 16));
    }
    assert forall|i: int| 0 <= i < bytes.len() implies hex_bytes(h)[i] == bytes[i] by {
        assert(hex_pair(h[2 * i], h[2 * i + 1]) == Some(bytes[i]));
    }
    assert(hex_bytes(h) =~= bytes);
}

} // verus!
