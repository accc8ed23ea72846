//! Reading a range page by page, to its end and without a gap.

use vstd::prelude::*;

use crate::dispatch::LockInfo;
use crate::order::{
    bytes_le, bytes_lt, lemma_bytes_lt_asymmetric, lemma_bytes_lt_transitive, the_next_byte_string,
};
use crate::text::copy_bytes;

verus! {

/// The keys stand in strictly ascending order.
pub open spec fn keys_ascend(keys: Seq<Seq<u8>>) -> bool {
    forall|i: int, j: int|
        0 <= i < j < keys.len() ==> bytes_lt(#[trigger] keys[i], #[trigger] keys[j])
}

/// How many of the keys, from the first, sort before `cursor`.
pub open spec fn below(keys: Seq<Seq<u8>>, cursor: Seq<u8>) -> nat
    decreases keys.len(),
{
    if keys.len() == 0 || !bytes_lt(keys[0], cursor) {
        0
    } else {
        1 + below(keys.skip(1), cursor)
    }
}

/// `m` keys sort before `cursor` where each of the first `m` does and the next one does not.
pub proof fn lemma_below(keys: Seq<Seq<u8>>, cursor: Seq<u8>, m: int)
    requires
        0 <= m <= keys.len(),
        forall|i: int| 0 <= i < m ==> bytes_lt(#[trigger] keys[i], cursor),
        m < keys.len() ==> !bytes_lt(keys[m], cursor),
    ensures
        below(keys, cursor) == m,
    decreases m,
{
    if m > 0 {
        let rest = keys.skip(1);
        assert(bytes_lt(keys[0], cursor));
        assert forall|i: int| 0 <= i < m - 1 implies bytes_lt(#[trigger] rest[i], cursor) by {
            assert(bytes_lt(keys[i + 1], cursor));
        }
        lemma_below(rest, cursor, m - 1);
    }
}

/// Behind the key at position `m`, the next key is at position `m + 1`.
pub proof fn lemma_behind(keys: Seq<Seq<u8>>, m: int)
    requires
        keys_ascend(keys),
        0 <= m < keys.len(),
    ensures
        below(keys, keys[m].push(0)) == m + 1,
{
    let cursor = keys[m].push(0);
    the_next_byte_string(keys[m], cursor);
    assert forall|i: int| 0 <= i < m + 1 implies bytes_lt(#[trigger] keys[i], cursor) by {
        if i < m {
            assert(bytes_lt(keys[i], keys[m]));
            lemma_bytes_lt_transitive(keys[i], keys[m], cursor);
        }
    }
    if m + 1 < keys.len() {
        let next = keys[m + 1];
        assert(bytes_lt(keys[m], next));
        the_next_byte_string(keys[m], next);
        if bytes_lt(next, cursor) {
            lemma_bytes_lt_asymmetric(next, cursor);
        }
    }
    lemma_below(keys, cursor, m + 1);
}

/// The keys of the locks.
pub open spec fn lock_keys(locks: Seq<LockInfo>) -> Seq<Seq<u8>> {
    locks.map_values(|l: LockInfo| l.key@)
}

/// A scan for locks that pages to the end of its range.
///
/// The batch size is a hint for paging, never a limit: a scan that stopped at it would report
/// fewer locks than there are.
#[derive(Debug)]
pub struct LockScan {
    /// How many locks are asked for at once.
    pub size: u32,
    /// Where the next page begins.
    pub cursor: Vec<u8>,
    /// The locks that were found, in order.
    pub found: Vec<LockInfo>,
    /// The end of the range is reached.
    pub done: bool,
}

impl LockScan {
    /// A scan from `start`.
    pub fn new(start: &[u8], batch_size: u32) -> (r: Self)
        ensures
            r.size == if batch_size == 0 {
                1
            } else {
                batch_size
            },
            r.cursor@ == start@,
            r.found@.len() == 0,
            !r.done,
    {
        let size: u32 = if batch_size == 0 {
            1
        } else {
            batch_size
        };
        LockScan { size, cursor: copy_bytes(start), found: Vec::new(), done: false }
    }

    /// Take a page.
    ///
    /// The client may return up to a batch for each region, so a page can hold more than was asked
    /// for, with a gap behind the first batch. Only the first batch of a page that is not short is
    /// sure to be without a gap.
    pub fn take_page(self, page: Vec<LockInfo>) -> (r: Self)
        requires
            self.size > 0,
        ensures
            r.size == self.size,
            if page@.len() < self.size {
                &&& r.done
                &&& r.found@ == self.found@ + page@
                &&& r.cursor == self.cursor
            } else {
                &&& !r.done
                &&& r.found@ == self.found@ + page@.take(self.size as int)
                &&& r.cursor@ == page@[self.size - 1].key@.push(0)
            },
    {
        let mut page: Vec<LockInfo> = page;
        let mut found: Vec<LockInfo> = self.found;
        let size: usize = self.size as usize;
        if page.len() < size {
            found.append(&mut page);
            return LockScan { size: self.size, cursor: self.cursor, found, done: true };
        }
        let mut cursor: Vec<u8> = copy_bytes(page[size - 1].key.as_slice());
        cursor.push(0);
        page.truncate(size);
        found.append(&mut page);
        LockScan { size: self.size, cursor, found, done: false }
    }

    /// The scan has found the first of the locks in `all`, up to where it stands.
    pub open spec fn stands_in(self, all: Seq<LockInfo>) -> bool {
        if self.done {
            self.found@ == all
        } else {
            let k = below(lock_keys(all), self.cursor@) as int;
            k <= all.len() && self.found@ == all.take(k)
        }
    }

    /// `page` is a page of the locks in `all` from where the scan stands: it begins with the first
    /// batch of those that are left, or holds all of them where they are fewer.
    pub open spec fn is_page(self, all: Seq<LockInfo>, page: Seq<LockInfo>) -> bool {
        let rest = all.skip(below(lock_keys(all), self.cursor@) as int);
        let sure = if rest.len() < self.size {
            rest.len() as int
        } else {
            self.size as int
        };
        &&& sure <= page.len() <= rest.len()
        &&& page.take(sure) == rest.take(sure)
    }
}

/// A scan begins with nothing found, and nothing left out.
pub proof fn a_lock_scan_begins_at_the_start(scan: LockScan, all: Seq<LockInfo>)
    requires
        !scan.done,
        scan.found@.len() == 0,
        forall|i: int| 0 <= i < all.len() ==> bytes_le(scan.cursor@, (#[trigger] all[i]).key@),
    ensures
        scan.stands_in(all),
{
    let keys = lock_keys(all);
    if keys.len() > 0 {
        assert(keys[0] == all[0].key@);
        if bytes_lt(keys[0], scan.cursor@) {
            lemma_bytes_lt_asymmetric(keys[0], scan.cursor@);
        }
    }
    assert(scan.found@ =~= all.take(0));
}

/// Every page takes a scan of the locks in `all` on: it still has the first of them without a gap,
/// and where it ends it has all of them. A page that does not end it leaves fewer locks to find.
pub proof fn a_lock_scan_misses_nothing(
    scan: LockScan,
    page: Seq<LockInfo>,
    after: LockScan,
    all: Seq<LockInfo>,
)
    requires
        keys_ascend(lock_keys(all)),
        scan.size > 0,
        !scan.done,
        scan.stands_in(all),
        scan.is_page(all, page),
        after.size == scan.size,
        if page.len() < scan.size {
            &&& after.done
            &&& after.found@ == scan.found@ + page
        } else {
            &&& !after.done
            &&& after.found@ == scan.found@ + page.take(scan.size as int)
            &&& after.cursor@ == page[scan.size - 1].key@.push(0)
        },
    ensures
        after.stands_in(all),
        !after.done ==> below(lock_keys(all), scan.cursor@) < below(lock_keys(all), after.cursor@)
            <= all.len(),
{
    let keys = lock_keys(all);
    let k = below(keys, scan.cursor@) as int;
    let rest = all.skip(k);
    let n = scan.size as int;
    if page.len() < n {
        assert(page =~= page.take(rest.len() as int));
        assert(rest =~= rest.take(rest.len() as int));
        assert(all =~= all.take(k) + rest);
    } else {
        assert(page.take(n)[n - 1] == page[n - 1]);
        assert(rest.take(n)[n - 1] == all[k + n - 1]);
        assert(all.take(k) + rest.take(n) =~= all.take(k + n));
        assert(keys[k + n - 1] == page[n - 1].key@);
        lemma_behind(keys, k + n - 1);
    }
}

} // verus!
