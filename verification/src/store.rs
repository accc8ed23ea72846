//! A metadata store over the transactional client: one write batch is one transaction.
//!
//! A batch is checked, buffered and committed in a fixed order. A precondition that does not hold
//! and a lost write-write race are conflicts; everything else that goes wrong is a fault.

use vstd::prelude::*;

use crate::order::{
    bytes_le, bytes_lt, differs_at, lemma_bytes_lt_asymmetric, lemma_bytes_lt_total,
};
use crate::paging::{below, keys_ascend, lemma_behind};
use crate::text::{copy_bytes, starts_with};

verus! {

/// How a store protects the preconditions of a batch from write skew.
///
/// Snapshot isolation checks for conflicts only on keys that a transaction writes. A key that it
/// only reads has to be locked.
#[derive(Debug, Clone, Copy, PartialEq, Eq)]
pub enum LockMode {
    /// Every precondition is read with a locking read.
    Pessimistic,
    /// Every precondition joins the locks of the prewrite, so that the commit checks it.
    OptimisticLocked,
    /// Unsafe: preconditions are read and never checked. It exists to show the anomaly that the
    /// other two prevent.
    OptimisticUnlocked,
}

impl LockMode {
    /// Is a transaction in this mode begun as a pessimistic one?
    pub fn pessimistic(self) -> (r: bool)
        ensures
            r == (self is Pessimistic),
    {
        match self {
            LockMode::Pessimistic => true,
            LockMode::OptimisticLocked => false,
            LockMode::OptimisticUnlocked => false,
        }
    }
}

/// How many pairs a scan asks for at once.
pub const SCAN_PAGE: u32 = 256;

/// `u` is the upper bound of the keys that begin with `prefix`: the prefix up to its last byte that
/// is not 0xff, with that byte incremented.
pub open spec fn is_upper_bound(prefix: Seq<u8>, u: Seq<u8>) -> bool {
    &&& 0 < u.len() <= prefix.len()
    &&& forall|i: int| 0 <= i < u.len() - 1 ==> u[i] == prefix[i]
    &&& prefix[u.len() - 1] < 0xff
    &&& u.last() == prefix[u.len() - 1] + 1
    &&& forall|i: int| u.len() <= i < prefix.len() ==> prefix[i] == 0xff
}

/// Every byte is 0xff.
pub open spec fn all_ff(prefix: Seq<u8>) -> bool {
    forall|i: int| 0 <= i < prefix.len() ==> prefix[i] == 0xff
}

/// The smallest key that sorts after every key that begins with `prefix`. There is none for a
/// prefix that is empty or all 0xff.
pub fn prefix_upper_bound(prefix: &[u8]) -> (r: Option<Vec<u8>>)
    ensures
        match r {
            Some(u) => is_upper_bound(prefix@, u@),
            None => all_ff(prefix@),
        },
{
    let mut n: usize = prefix.len();
    while n > 0
        invariant
            n <= prefix@.len(),
            forall|i: int| n <= i < prefix@.len() ==> prefix@[i] == 0xff,
        decreases n,
    {
        let last: u8 = prefix[n - 1];
        if last != 0xff {
            let mut upper: Vec<u8> = Vec::new();
            let mut i: usize = 0;
            while i < n - 1
                invariant
                    n <= prefix@.len(),
                    0 < n,
                    i <= n - 1,
                    upper@.len() == i,
                    forall|j: int| 0 <= j < i ==> upper@[j] == prefix@[j],
                decreases n - i,
            {
                upper.push(prefix[i]);
                i = i + 1;
            }
            upper.push(last + 1);
            return Some(upper);
        }
        n = n - 1;
    }
    None
}

/// The keys that begin with a prefix are exactly those from the prefix up to its upper bound.
pub proof fn the_prefix_range_is_exact(prefix: Seq<u8>, u: Seq<u8>, key: Seq<u8>)
    requires
        is_upper_bound(prefix, u),
    ensures
        starts_with(key, prefix) <==> bytes_le(prefix, key) && bytes_lt(key, u),
{
    let n = u.len() - 1;
    if starts_with(key, prefix) {
        lemma_prefix_first(prefix, key);
        assert(key[0 + n] == prefix[n]);
        assert forall|i: int| 0 <= i < n implies key[i] == u[i] by {
            assert(key[0 + i] == prefix[i]);
        }
        assert(differs_at(key, u, n));
    }
    if bytes_le(prefix, key) && bytes_lt(key, u) && prefix != key {
        let k = choose|k: int| differs_at(prefix, key, k);
        let j = choose|j: int| differs_at(key, u, j);
        if k < prefix.len() {
            // `key` is greater than the prefix at `k`, where the prefix is not 0xff.
            assert(prefix[k] < key[k]);
            if k < n {
                if j <= k {
                    assert(j < k ==> key[j] == prefix[j]);
                }
            } else if k == n {
                if j < n {
                    assert(key[j] == prefix[j]);
                } else if j > n {
                    assert(key[n] == u[n]);
                }
            } else {
                assert(prefix[k] == 0xff);
            }
        }
        assert(starts_with(key, prefix));
    }
    if prefix == key {
        assert(starts_with(key, prefix));
    }
}

proof fn lemma_prefix_first(prefix: Seq<u8>, key: Seq<u8>)
    requires
        starts_with(key, prefix),
    ensures
        bytes_le(prefix, key),
{
    assert forall|i: int| 0 <= i < prefix.len() implies key[i] == prefix[i] by {
        assert(key[0 + i] == prefix[i]);
    }
    if key.len() == prefix.len() {
        assert(key =~= prefix);
    } else {
        assert(differs_at(prefix, key, prefix.len() as int));
    }
}

/// No smaller key bounds the keys that begin with a prefix.
pub proof fn the_upper_bound_is_the_least(prefix: Seq<u8>, u: Seq<u8>, b: Seq<u8>)
    requires
        is_upper_bound(prefix, u),
        forall|key: Seq<u8>| #[trigger] starts_with(key, prefix) ==> bytes_lt(key, b),
    ensures
        bytes_le(u, b),
{
    assert(starts_with(prefix, prefix));
    if bytes_lt(b, u) {
        the_prefix_range_is_exact(prefix, u, b);
        assert(starts_with(b, prefix));
        lemma_bytes_lt_asymmetric(b, b);
    }
    lemma_bytes_lt_total(u, b);
}

/// The keys that begin with a prefix that is empty or all 0xff are those from the prefix on, and no
/// key bounds them.
pub proof fn a_prefix_of_ff_is_unbounded(prefix: Seq<u8>, key: Seq<u8>, b: Seq<u8>)
    requires
        all_ff(prefix),
    ensures
        starts_with(key, prefix) <==> bytes_le(prefix, key),
        exists|above: Seq<u8>| #[trigger] starts_with(above, prefix) && !bytes_lt(above, b),
{
    if starts_with(key, prefix) {
        lemma_prefix_first(prefix, key);
    }
    if bytes_le(prefix, key) && prefix != key {
        let k = choose|k: int| differs_at(prefix, key, k);
        assert(k == prefix.len());
        assert(starts_with(key, prefix));
    }
    if prefix == key {
        assert(starts_with(key, prefix));
    }
    let above = Seq::new((prefix.len() + b.len() + 1) as nat, |i: int| 0xffu8);
    assert(starts_with(above, prefix));
    if bytes_lt(above, b) {
        let k = choose|k: int| differs_at(above, b, k);
        assert(k < b.len());
    }
}

/// The keys of the pairs.
pub open spec fn pair_keys(pairs: Seq<(Vec<u8>, Vec<u8>)>) -> Seq<Seq<u8>> {
    pairs.map_values(|p: (Vec<u8>, Vec<u8>)| p.0@)
}

/// A scan of the pairs under a prefix, page by page.
#[derive(Debug)]
pub struct Scan {
    /// Where the next page begins.
    pub cursor: Vec<u8>,
    /// Where the range ends, if it does.
    pub upper: Option<Vec<u8>>,
    /// The pairs that were found, in order.
    pub found: Vec<(Vec<u8>, Vec<u8>)>,
    /// The end of the range is reached.
    pub done: bool,
}

impl Scan {
    /// The key lies in the range that begins with the prefix at `from`.
    pub open spec fn in_range(self, from: Seq<u8>, key: Seq<u8>) -> bool {
        &&& bytes_le(from, key)
        &&& self.upper matches Some(u) ==> bytes_lt(key, u@)
    }

    /// A scan of the pairs under `prefix`.
    pub fn new(prefix: &[u8]) -> (r: Self)
        ensures
            r.cursor@ == prefix@,
            match r.upper {
                Some(u) => is_upper_bound(prefix@, u@),
                None => all_ff(prefix@),
            },
            r.found@.len() == 0,
            !r.done,
            forall|key: Seq<u8>| #[trigger]
                r.in_range(prefix@, key) <==> starts_with(key, prefix@),
    {
        let upper: Option<Vec<u8>> = prefix_upper_bound(prefix);
        let r: Scan = Scan { cursor: copy_bytes(prefix), upper, found: Vec::new(), done: false };
        proof {
            assert forall|key: Seq<u8>| #[trigger] r.in_range(prefix@, key) <==> starts_with(
                key,
                prefix@,
            ) by {
                match upper {
                    Some(u) => the_prefix_range_is_exact(prefix@, u@, key),
                    None => a_prefix_of_ff_is_unbounded(prefix@, key, key),
                }
            }
        }
        r
    }

    /// Take a page of at most [`SCAN_PAGE`] pairs. A page that is full is followed by another one,
    /// from the smallest key behind its last.
    pub fn take_page(self, page: Vec<(Vec<u8>, Vec<u8>)>) -> (r: Self)
        ensures
            r.upper == self.upper,
            r.found@ == self.found@ + page@,
            r.done == (page@.len() != SCAN_PAGE),
            !r.done ==> r.cursor@ == page@.last().0@.push(0),
            r.done ==> r.cursor == self.cursor,
    {
        let mut page: Vec<(Vec<u8>, Vec<u8>)> = page;
        let mut found: Vec<(Vec<u8>, Vec<u8>)> = self.found;
        if page.len() != SCAN_PAGE as usize {
            found.append(&mut page);
            return Scan { cursor: self.cursor, upper: self.upper, found, done: true };
        }
        let mut cursor: Vec<u8> = copy_bytes(page[page.len() - 1].0.as_slice());
        cursor.push(0);
        found.append(&mut page);
        Scan { cursor, upper: self.upper, found, done: false }
    }

    /// The scan has found the first of the pairs in `all`, up to where it stands.
    pub open spec fn stands_in(self, all: Seq<(Vec<u8>, Vec<u8>)>) -> bool {
        if self.done {
            self.found@ == all
        } else {
            let k = below(pair_keys(all), self.cursor@) as int;
            k <= all.len() && self.found@ == all.take(k)
        }
    }

    /// `page` is the page of the pairs in `all` from where the scan stands.
    pub open spec fn is_page(
        self,
        all: Seq<(Vec<u8>, Vec<u8>)>,
        page: Seq<(Vec<u8>, Vec<u8>)>,
    ) -> bool {
        let rest = all.skip(below(pair_keys(all), self.cursor@) as int);
        page == if rest.len() < SCAN_PAGE {
            rest
        } else {
            rest.take(SCAN_PAGE as int)
        }
    }
}

/// A scan begins with nothing found, and nothing left out of the pairs under the prefix.
pub proof fn a_scan_begins_at_its_prefix(
    scan: Scan,
    prefix: Seq<u8>,
    all: Seq<(Vec<u8>, Vec<u8>)>,
)
    requires
        !scan.done,
        scan.found@.len() == 0,
        scan.cursor@ == prefix,
        forall|i: int| 0 <= i < all.len() ==> starts_with((#[trigger] all[i]).0@, prefix),
    ensures
        scan.stands_in(all),
{
    let keys = pair_keys(all);
    if keys.len() > 0 {
        assert(keys[0] == all[0].0@);
        lemma_prefix_first(prefix, keys[0]);
        if bytes_lt(keys[0], prefix) {
            lemma_bytes_lt_asymmetric(keys[0], prefix);
        }
    }
    assert(scan.found@ =~= all.take(0));
}

/// Every page takes a scan of the pairs in `all` on: it still has the first of them without a gap,
/// and where it ends it has all of them. A page that does not end it leaves fewer pairs to find.
pub proof fn a_scan_misses_nothing(
    scan: Scan,
    page: Seq<(Vec<u8>, Vec<u8>)>,
    after: Scan,
    all: Seq<(Vec<u8>, Vec<u8>)>,
)
    requires
        keys_ascend(pair_keys(all)),
        !scan.done,
        scan.stands_in(all),
        scan.is_page(all, page),
        after.found@ == scan.found@ + page,
        after.done == (page.len() != SCAN_PAGE),
        !after.done ==> after.cursor@ == page.last().0@.push(0),
    ensures
        after.stands_in(all),
        !after.done ==> below(pair_keys(all), scan.cursor@) < below(pair_keys(all), after.cursor@)
            <= all.len(),
{
    let keys = pair_keys(all);
    let k = below(keys, scan.cursor@) as int;
    let rest = all.skip(k);
    let n = SCAN_PAGE as int;
    if rest.len() < n {
        assert(all =~= all.take(k) + rest);
    } else {
        assert(all.take(k) + rest.take(n) =~= all.take(k + n));
        assert(page.last() == all[k + n - 1]);
        assert(keys[k + n - 1] == page.last().0@);
        lemma_behind(keys, k + n - 1);
    }
}

} // verus!
