//! The block allocation table: which addresses its entries may name.
use crate::dynamic::BAT_UNALLOCATED;
use crate::error::{Error, Result};
use crate::format as wire;
use crate::format::{read_u32, SECTOR_SIZE};
use crate::reader;
use vstd::prelude::*;

verus! {

/// Why a table entry cannot be believed, where blocks of `total` bytes
/// have to stand in `lo..hi`; `None` where it can.
pub open spec fn entry_refusal(entry: u32, lo: int, hi: int, total: int) -> Option<Error> {
    if entry == BAT_UNALLOCATED {
        None
    } else if reader::block_host(entry) < lo {
        Some(Error::Corrupt("BAT entry names a block inside the image's own metadata"))
    } else if reader::block_host(entry) + total > hi {
        Some(
            Error::Corrupt("BAT entry names a block running into the trailing footer or past it"),
        )
    } else {
        None
    }
}

/// What is wrong with the first of the first `n` entries that cannot be
/// believed.
pub open spec fn entries_refusal(bat: Seq<u32>, n: int, lo: int, hi: int, total: int) -> Option<
    Error,
>
    decreases n,
{
    if n <= 0 {
        None
    } else {
        match entries_refusal(bat, n - 1, lo, hi, total) {
            Some(e) => Some(e),
            None => entry_refusal(bat[n - 1], lo, hi, total),
        }
    }
}

/// Two virtual blocks have one host block.
pub open spec fn has_alias(bat: Seq<u32>) -> bool {
    exists|b: int, c: int|
        0 <= b < c < bat.len() && #[trigger] bat[b] != BAT_UNALLOCATED && bat[b]
            == #[trigger] bat[c]
}

/// The host blocks of two virtual blocks share a byte.
pub open spec fn has_overlap(bat: Seq<u32>, total: int) -> bool {
    exists|b: int, c: int|
        0 <= b < c < bat.len() && #[trigger] bat[b] != BAT_UNALLOCATED && #[trigger] bat[c]
            != BAT_UNALLOCATED && reader::blocks_overlap(bat[b], bat[c], total)
}

/// Why a table cannot be believed, or `None` where it can.
pub open spec fn table_refusal(bat: Seq<u32>, lo: int, hi: int, total: int) -> Option<Error> {
    match entries_refusal(bat, bat.len() as int, lo, hi, total) {
        Some(e) => Some(e),
        None => if has_alias(bat) {
            Some(Error::Corrupt("two BAT entries name the same block"))
        } else if has_overlap(bat, total) {
            Some(Error::Corrupt("two BAT entries name overlapping blocks"))
        } else {
            None
        },
    }
}

/// The table held in `bytes`: `n` big-endian entries.
pub fn parse_table(bytes: &[u8], n: usize) -> (r: Vec<u32>)
    requires
        4 * n <= bytes.len(),
    ensures
        r@.len() == n,
        forall|b: int| 0 <= b < n ==> #[trigger] r@[b] == wire::be32(bytes@, 4 * b),
{
    let mut r: Vec<u32> = Vec::with_capacity(n);
    let mut b: usize = 0;
    while b < n
        invariant
            b <= n,
            4 * n <= bytes.len(),
            r@.len() == b,
            forall|c: int| 0 <= c < b ==> #[trigger] r@[c] == wire::be32(bytes@, 4 * c),
        decreases n - b,
    {
        r.push(read_u32(bytes, 4 * b));
        b += 1;
    }
    r
}

/// `slice::sort_unstable` on a vector of `u32`: the same elements, each as
/// often as before, in ascending order.
#[verifier::external_body]
fn sort_unstable(v: &mut Vec<u32>)
    ensures
        final(v)@.to_multiset() == old(v)@.to_multiset(),
        forall|i: int, j: int| 0 <= i <= j < final(v)@.len() ==> final(v)@[i] <= final(v)@[j],
{
    v.sort_unstable();
}

/// `a` lists the allocated entries of `bat`, each at its place in `at`.
spec fn lists(a: Seq<u32>, at: Seq<int>, bat: Seq<u32>, n: int) -> bool {
    &&& a.len() == at.len()
    &&& forall|i: int|
        0 <= i < a.len() ==> 0 <= #[trigger] at[i] < n && a[i] == bat[at[i]] && a[i]
            != BAT_UNALLOCATED
    &&& forall|i: int, j: int| 0 <= i < j < at.len() ==> at[i] < at[j]
    &&& forall|b: int|
        0 <= b < n && #[trigger] bat[b] != BAT_UNALLOCATED ==> exists|i: int|
            0 <= i < at.len() && at[i] == b
}

/// Whether two of the entries are equal, and failing that, whether the
/// blocks of two of them overlap, shows between neighbours once they are
/// sorted.
proof fn lemma_neighbours_tell(
    bat: Seq<u32>,
    a: Seq<u32>,
    at: Seq<int>,
    sorted: Seq<u32>,
    total: int,
)
    requires
        lists(a, at, bat, bat.len() as int),
        sorted.to_multiset() == a.to_multiset(),
        forall|i: int, j: int| 0 <= i <= j < sorted.len() ==> sorted[i] <= sorted[j],
        total > 0,
    ensures
        has_alias(bat) <==> exists|i: int|
            0 <= i < sorted.len() - 1 && #[trigger] sorted[i] == sorted[i + 1],
        !has_alias(bat) ==> (has_overlap(bat, total) <==> exists|i: int|
            0 <= i < sorted.len() - 1 && reader::block_host(sorted[i + 1]) < reader::block_host(
                #[trigger] sorted[i],
            ) + total),
{
    broadcast use vstd::seq_lib::group_to_multiset_ensures;

    let twins = exists|i: int| 0 <= i < sorted.len() - 1 && #[trigger] sorted[i] == sorted[i + 1];
    // Duplicates survive sorting, both ways.
    if a.no_duplicates() {
        a.lemma_multiset_has_no_duplicates();
        sorted.lemma_multiset_has_no_duplicates_conv();
    } else if sorted.no_duplicates() {
        sorted.lemma_multiset_has_no_duplicates();
        a.lemma_multiset_has_no_duplicates_conv();
    }
    assert(a.no_duplicates() == sorted.no_duplicates());
    if !sorted.no_duplicates() {
        let (i, j) = choose|i: int, j: int|
            0 <= i < sorted.len() && 0 <= j < sorted.len() && i != j && sorted[i] == sorted[j];
        let p = if i < j { i } else { j };
        let q = if i < j { j } else { i };
        assert(sorted[p] <= sorted[p + 1] <= sorted[q]);
        assert(twins);
    }
    assert(twins == !sorted.no_duplicates());
    if has_alias(bat) {
        let (b, c) = choose|b: int, c: int|
            0 <= b < c < bat.len() && #[trigger] bat[b] != BAT_UNALLOCATED && bat[b]
                == #[trigger] bat[c];
        let i = choose|i: int| 0 <= i < at.len() && at[i] == b;
        let j = choose|j: int| 0 <= j < at.len() && at[j] == c;
        assert(a[i] == a[j] && i != j);
        assert(!a.no_duplicates());
    }
    if !a.no_duplicates() {
        let (i, j) = choose|i: int, j: int|
            0 <= i < a.len() && 0 <= j < a.len() && i != j && a[i] == a[j];
        let p = if i < j { i } else { j };
        let q = if i < j { j } else { i };
        assert(bat[at[p]] == bat[at[q]] && at[p] < at[q]);
        assert(has_alias(bat));
    }
    if !has_alias(bat) {
        lemma_close_neighbours(bat, a, at, sorted, total);
    }
}

proof fn lemma_close_neighbours(
    bat: Seq<u32>,
    a: Seq<u32>,
    at: Seq<int>,
    sorted: Seq<u32>,
    total: int,
)
    requires
        lists(a, at, bat, bat.len() as int),
        sorted.to_multiset() == a.to_multiset(),
        forall|i: int, j: int| 0 <= i <= j < sorted.len() ==> sorted[i] <= sorted[j],
        total > 0,
        sorted.no_duplicates(),
        !has_alias(bat),
    ensures
        has_overlap(bat, total) <==> exists|i: int|
            0 <= i < sorted.len() - 1 && reader::block_host(sorted[i + 1]) < reader::block_host(
                #[trigger] sorted[i],
            ) + total,
{
    broadcast use vstd::seq_lib::group_to_multiset_ensures;

    let close = exists|i: int|
        0 <= i < sorted.len() - 1 && reader::block_host(sorted[i + 1]) < reader::block_host(
            #[trigger] sorted[i],
        ) + total;
    if has_overlap(bat, total) {
        let (b, c) = choose|b: int, c: int|
            0 <= b < c < bat.len() && #[trigger] bat[b] != BAT_UNALLOCATED && #[trigger] bat[c]
                != BAT_UNALLOCATED && reader::blocks_overlap(bat[b], bat[c], total);
        let i = choose|i: int| 0 <= i < at.len() && at[i] == b;
        let j = choose|j: int| 0 <= j < at.len() && at[j] == c;
        assert(a.contains(a[i]) && a.contains(a[j]));
        assert(sorted.to_multiset().count(a[i]) > 0 && sorted.to_multiset().count(a[j]) > 0);
        assert(sorted.contains(bat[b]) && sorted.contains(bat[c]));
        let p = choose|p: int| 0 <= p < sorted.len() && sorted[p] == bat[b];
        let q = choose|q: int| 0 <= q < sorted.len() && sorted[q] == bat[c];
        assert(bat[b] != bat[c]);
        let lo = if p < q { p } else { q };
        let hi = if p < q { q } else { p };
        assert(sorted[lo] <= sorted[lo + 1] <= sorted[hi]);
        assert(close);
    }
    if close {
        let p = choose|i: int|
            0 <= i < sorted.len() - 1 && reader::block_host(sorted[i + 1]) < reader::block_host(
                #[trigger] sorted[i],
            ) + total;
        assert(sorted[p] <= sorted[p + 1]);
        assert(sorted.contains(sorted[p]) && sorted.contains(sorted[p + 1]));
        assert(a.to_multiset().count(sorted[p]) > 0 && a.to_multiset().count(sorted[p + 1]) > 0);
        assert(a.contains(sorted[p]) && a.contains(sorted[p + 1]));
        let i = choose|i: int| 0 <= i < a.len() && a[i] == sorted[p];
        let j = choose|j: int| 0 <= j < a.len() && a[j] == sorted[p + 1];
        assert(at[i] != at[j]);
        let b = if at[i] < at[j] { at[i] } else { at[j] };
        let c = if at[i] < at[j] { at[j] } else { at[i] };
        assert(bat[b] != BAT_UNALLOCATED && bat[c] != BAT_UNALLOCATED);
        assert(reader::blocks_overlap(bat[b], bat[c], total));
        assert(has_overlap(bat, total));
    }
}

proof fn lemma_first_refusal_stands(bat: Seq<u32>, n: int, m: int, lo: int, hi: int, total: int)
    requires
        0 <= n <= m,
        entries_refusal(bat, n, lo, hi, total) is Some,
    ensures
        entries_refusal(bat, m, lo, hi, total) == entries_refusal(bat, n, lo, hi, total),
    decreases m - n,
{
    if n < m {
        lemma_first_refusal_stands(bat, n, m - 1, lo, hi, total);
    }
}

/// What no refused entry means for every entry.
pub proof fn lemma_every_entry_is_believed(
    bat: Seq<u32>,
    n: int,
    lo: int,
    hi: int,
    total: int,
    b: int,
)
    requires
        entries_refusal(bat, n, lo, hi, total) is None,
        0 <= b < n,
    ensures
        entry_refusal(bat[b], lo, hi, total) is None,
    decreases n,
{
    if b < n - 1 {
        lemma_every_entry_is_believed(bat, n - 1, lo, hi, total, b);
    }
}

/// The other way round: where every entry is believed, none is refused.
pub proof fn lemma_no_entry_is_refused(bat: Seq<u32>, n: int, lo: int, hi: int, total: int)
    requires
        forall|b: int| 0 <= b < n ==> entry_refusal(#[trigger] bat[b], lo, hi, total) is None,
    ensures
        entries_refusal(bat, n, lo, hi, total) is None,
    decreases n,
{
    if n > 0 {
        lemma_no_entry_is_refused(bat, n - 1, lo, hi, total);
    }
}

/// Check every entry of a table whose blocks, of `total` bytes each, have
/// to stand in `lo..hi`, and that no two of them share a byte.
pub fn check_table(bat: &Vec<u32>, lo: u64, hi: u64, total: u64) -> (r: Result<()>)
    requires
        0 < total <= 0x2_0000_0000,
    ensures
        r is Ok <==> table_refusal(bat@, lo as int, hi as int, total as int) is None,
        r matches Err(e) ==> table_refusal(bat@, lo as int, hi as int, total as int) == Some(e),
{
    let mut allocated: Vec<u32> = Vec::new();
    let ghost mut at: Seq<int> = seq![];
    let mut b: usize = 0;
    while b < bat.len()
        invariant
            b <= bat@.len(),
            0 < total <= 0x2_0000_0000,
            entries_refusal(bat@, b as int, lo as int, hi as int, total as int) is None,
            lists(allocated@, at, bat@, b as int),
        decreases bat@.len() - b,
    {
        let entry: u32 = bat[b];
        let ghost at0 = at;
        let ghost a0 = allocated@;
        if entry != BAT_UNALLOCATED {
            let block_off: u64 = entry as u64 * SECTOR_SIZE;
            if block_off < lo {
                proof {
                    lemma_first_refusal_stands(
                        bat@,
                        b + 1,
                        bat@.len() as int,
                        lo as int,
                        hi as int,
                        total as int,
                    );
                }
                return Err(
                    Error::Corrupt("BAT entry names a block inside the image's own metadata"),
                );
            }
            if block_off + total > hi {
                proof {
                    lemma_first_refusal_stands(
                        bat@,
                        b + 1,
                        bat@.len() as int,
                        lo as int,
                        hi as int,
                        total as int,
                    );
                }
                return Err(
                    Error::Corrupt(
                        "BAT entry names a block running into the trailing footer or past it",
                    ),
                );
            }
            allocated.push(entry);
            proof {
                at = at.push(b as int);
                assert forall|c: int|
                    0 <= c < b + 1 && #[trigger] bat@[c] != BAT_UNALLOCATED implies exists|i: int|
                    0 <= i < at.len() && at[i] == c by {
                    if c < b {
                        let i = choose|i: int| 0 <= i < at0.len() && at0[i] == c;
                        assert(at[i] == c);
                    } else {
                        assert(at[at0.len() as int] == c);
                    }
                }
            }
        }
        b += 1;
    }
    let ghost listed = allocated@;
    sort_unstable(&mut allocated);
    proof {
        lemma_neighbours_tell(bat@, listed, at, allocated@, total as int);
    }
    let mut i: usize = 1;
    while i < allocated.len()
        invariant
            1 <= i,
            i <= allocated@.len() || i == 1,
            forall|j: int| 0 <= j < i - 1 ==> #[trigger] allocated@[j] != allocated@[j + 1],
            has_alias(bat@) <==> exists|j: int|
                0 <= j < allocated@.len() - 1 && #[trigger] allocated@[j] == allocated@[j + 1],
            entries_refusal(bat@, bat@.len() as int, lo as int, hi as int, total as int) is None,
        decreases allocated@.len() - i,
    {
        if allocated[i - 1] == allocated[i] {
            proof {
                assert(allocated@[i - 1] == allocated@[i - 1 + 1]);
            }
            return Err(Error::Corrupt("two BAT entries name the same block"));
        }
        i += 1;
    }
    proof {
        assert(!has_alias(bat@));
    }
    let mut i: usize = 1;
    while i < allocated.len()
        invariant
            1 <= i,
            i <= allocated@.len() || i == 1,
            0 < total <= 0x2_0000_0000,
            forall|j: int|
                0 <= j < i - 1 ==> !(reader::block_host(allocated@[j + 1]) < reader::block_host(
                    #[trigger] allocated@[j],
                ) + total),
            !has_alias(bat@),
            has_overlap(bat@, total as int) <==> exists|j: int|
                0 <= j < allocated@.len() - 1 && reader::block_host(allocated@[j + 1])
                    < reader::block_host(#[trigger] allocated@[j]) + total,
            entries_refusal(bat@, bat@.len() as int, lo as int, hi as int, total as int) is None,
        decreases allocated@.len() - i,
    {
        if (allocated[i] as u64) * SECTOR_SIZE < allocated[i - 1] as u64 * SECTOR_SIZE + total {
            proof {
                assert(reader::block_host(allocated@[i - 1 + 1]) < reader::block_host(
                    allocated@[i - 1],
                ) + total);
            }
            return Err(Error::Corrupt("two BAT entries name overlapping blocks"));
        }
        i += 1;
    }
    Ok(())
}

} // verus!
