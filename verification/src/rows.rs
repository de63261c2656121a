//! Compressed rows: faces listed under the owners they name.
//!
//! Each face names at most two owners (its cells, or the two ends of an inner face). The
//! rows list, for each owner, the faces that name it, in face order; a face that names
//! the same owner twice is listed twice. The rows of all owners lie end to end in one
//! vector, and an offsets vector says where each row starts.

use vstd::prelude::*;

use crate::mesh::FaceId;

verus! {

/// Does `end` name owner `owner`?
pub open spec fn names(end: Option<u32>, owner: nat) -> bool {
    match end {
        Some(o) => o == owner,
        None => false,
    }
}

/// Is `end` absent, or an owner below `n`?
pub open spec fn end_below(end: Option<u32>, n: nat) -> bool {
    match end {
        Some(o) => o < n,
        None => true,
    }
}

/// Every owner named by `items` is below `n`.
pub open spec fn ends_within(items: Seq<(Option<u32>, Option<u32>)>, n: nat) -> bool {
    forall|i: int| 0 <= i < items.len() ==> end_below((#[trigger] items[i]).0, n) && end_below(items[i].1, n)
}

/// The row of owner `owner`: the faces naming it, in face order, a face naming it twice
/// being listed twice.
pub open spec fn listed(items: Seq<(Option<u32>, Option<u32>)>, owner: nat) -> Seq<FaceId>
    decreases items.len(),
{
    if items.len() == 0 {
        Seq::empty()
    } else {
        let rest = listed(items.drop_last(), owner);
        let f = FaceId((items.len() - 1) as u32);
        let with_first = if names(items.last().0, owner) {
            rest.push(f)
        } else {
            rest
        };
        if names(items.last().1, owner) {
            with_first.push(f)
        } else {
            with_first
        }
    }
}

/// Number of owners named by `items`, counted with repetition.
pub open spec fn end_count(items: Seq<(Option<u32>, Option<u32>)>) -> nat
    decreases items.len(),
{
    if items.len() == 0 {
        0
    } else {
        end_count(items.drop_last()) + (if items.last().0 is Some {
            1nat
        } else {
            0nat
        }) + (if items.last().1 is Some {
            1nat
        } else {
            0nat
        })
    }
}

/// Total length of the rows of owners `0..k`.
pub open spec fn sum_listed(items: Seq<(Option<u32>, Option<u32>)>, k: nat) -> nat
    decreases k,
{
    if k == 0 {
        0
    } else {
        sum_listed(items, (k - 1) as nat) + listed(items, (k - 1) as nat).len()
    }
}

/// Number of `c < k` equal to `x`.
pub open spec fn sum_hits(x: int, k: nat) -> nat
    decreases k,
{
    if k == 0 {
        0
    } else {
        sum_hits(x, (k - 1) as nat) + if x == k - 1 {
            1nat
        } else {
            0nat
        }
    }
}

/// Number of `c < k` named by `end`.
pub open spec fn end_hits(end: Option<u32>, k: nat) -> nat {
    match end {
        Some(o) => sum_hits(o as int, k),
        None => 0,
    }
}

/// Among `0..k`, `x` is hit once if it lies there, else never.
pub(crate) proof fn lemma_count_hits(x: int, k: nat)
    ensures
        sum_hits(x, k) == if 0 <= x < k {
            1nat
        } else {
            0nat
        },
    decreases k,
{
    if k > 0 {
        lemma_count_hits(x, (k - 1) as nat);
    }
}

/// Adding a face adds it to the rows of the owners it names.
proof fn lemma_sum_listed_push(items: Seq<(Option<u32>, Option<u32>)>, item: (Option<u32>, Option<u32>), k: nat)
    ensures
        sum_listed(items.push(item), k) == sum_listed(items, k) + end_hits(item.0, k) + end_hits(item.1, k),
    decreases k,
{
    if k > 0 {
        lemma_sum_listed_push(items, item, (k - 1) as nat);
        assert(items.push(item).drop_last() == items);
    }
}

/// Without faces, every row is empty.
proof fn lemma_sum_listed_empty(items: Seq<(Option<u32>, Option<u32>)>, k: nat)
    requires
        items.len() == 0,
    ensures
        sum_listed(items, k) == 0,
    decreases k,
{
    if k > 0 {
        lemma_sum_listed_empty(items, (k - 1) as nat);
    }
}

/// The rows of owners `0..n` hold, all together, each named owner once.
pub proof fn lemma_sum_listed_total(items: Seq<(Option<u32>, Option<u32>)>, n: nat)
    requires
        ends_within(items, n),
    ensures
        sum_listed(items, n) == end_count(items),
    decreases items.len(),
{
    if items.len() == 0 {
        lemma_sum_listed_empty(items, n);
    } else {
        let before = items.drop_last();
        assert forall|i: int| 0 <= i < before.len() implies end_below((#[trigger] before[i]).0, n) && end_below(before[i].1, n) by {
            assert(before[i] == items[i]);
        }
        lemma_sum_listed_total(before, n);
        let item = items.last();
        assert(items == before.push(item));
        assert(item == items[items.len() - 1]);
        lemma_sum_listed_push(before, item, n);
        if let Some(o) = item.0 {
            lemma_count_hits(o as int, n);
        }
        if let Some(o) = item.1 {
            lemma_count_hits(o as int, n);
        }
    }
}

/// Rows only grow as faces are added.
proof fn lemma_listed_prefix(items: Seq<(Option<u32>, Option<u32>)>, f: int, owner: nat)
    requires
        0 <= f <= items.len(),
    ensures
        listed(items.take(f), owner).len() <= listed(items, owner).len(),
        listed(items, owner).take(listed(items.take(f), owner).len() as int) == listed(items.take(f), owner),
    decreases items.len() - f,
{
    if f < items.len() {
        assert(items.drop_last().take(f) == items.take(f));
        lemma_listed_prefix(items.drop_last(), f, owner);
        let a = listed(items.drop_last(), owner);
        let t = listed(items.take(f), owner);
        assert(listed(items, owner).take(t.len() as int) =~= a.take(t.len() as int));
    } else {
        assert(items.take(f) == items);
        assert(listed(items, owner).take(listed(items, owner).len() as int) =~= listed(items, owner));
    }
}

/// Sums over more owners are larger; one row is no longer than the sum it is part of.
pub proof fn lemma_sum_listed_mono(items: Seq<(Option<u32>, Option<u32>)>, i: nat, k: nat)
    requires
        i <= k,
    ensures
        sum_listed(items, i) <= sum_listed(items, k),
        i < k ==> sum_listed(items, i) + listed(items, i).len() <= sum_listed(items, k),
    decreases k - i,
{
    if i < k {
        lemma_sum_listed_mono(items, i, (k - 1) as nat);
    }
}

/// Slot `j` of owner `c`'s row lies before the row of owner `d`, or after all of it.
proof fn lemma_ranges_apart(items: Seq<(Option<u32>, Option<u32>)>, c: int, j: int, d: int)
    requires
        0 <= c,
        0 <= d,
        0 <= j < listed(items, c as nat).len(),
    ensures
        c < d ==> sum_listed(items, c as nat) + j < sum_listed(items, d as nat),
        c > d ==> sum_listed(items, c as nat) + j >= sum_listed(items, d as nat) + listed(items, d as nat).len(),
{
    if c < d {
        lemma_sum_listed_mono(items, c as nat, d as nat);
    } else if c > d {
        lemma_sum_listed_mono(items, d as nat, c as nat);
    }
}

/// A row lists faces of `items`, each naming the row's owner.
pub proof fn lemma_listed_faces(items: Seq<(Option<u32>, Option<u32>)>, owner: nat)
    requires
        items.len() <= u32::MAX + 1,
    ensures
        forall|j: int|
            0 <= j < listed(items, owner).len() ==> (#[trigger] listed(items, owner)[j]).0 < items.len() && (names(
                items[listed(items, owner)[j].0 as int].0,
                owner,
            ) || names(items[listed(items, owner)[j].0 as int].1, owner)),
    decreases items.len(),
{
    if items.len() > 0 {
        let before = items.drop_last();
        lemma_listed_faces(before, owner);
        let t = listed(items, owner);
        let r = listed(before, owner);
        assert forall|j: int| 0 <= j < t.len() implies (#[trigger] t[j]).0 < items.len() && (names(items[t[j].0 as int].0, owner)
            || names(items[t[j].0 as int].1, owner)) by {
            if j < r.len() {
                assert(t[j] == r[j]);
                assert(items[r[j].0 as int] == before[r[j].0 as int]);
            }
        }
    }
}

/// A face is in the row of an owner exactly when it names that owner.
pub proof fn lemma_listed_contains(items: Seq<(Option<u32>, Option<u32>)>, owner: nat, i: int)
    requires
        items.len() <= u32::MAX + 1,
        0 <= i < items.len(),
    ensures
        listed(items, owner).contains(FaceId(i as u32)) <==> (names(items[i].0, owner) || names(items[i].1, owner)),
    decreases items.len(),
{
    let before = items.drop_last();
    let last = items.len() - 1;
    lemma_listed_faces(items, owner);
    if i < last {
        lemma_listed_contains(before, owner, i);
        assert(before[i] == items[i]);
        let t = listed(items, owner);
        let r = listed(before, owner);
        if r.contains(FaceId(i as u32)) {
            let j = choose|j: int| 0 <= j < r.len() && r[j] == FaceId(i as u32);
            assert(t[j] == r[j]);
        }
        if t.contains(FaceId(i as u32)) {
            let j = choose|j: int| 0 <= j < t.len() && t[j] == FaceId(i as u32);
            if j >= r.len() {
                assert(t[j] == FaceId(last as u32));
                assert((last as u32) != (i as u32));
            } else {
                assert(t[j] == r[j]);
            }
        }
    } else {
        let t = listed(items, owner);
        let r = listed(before, owner);
        lemma_listed_faces(before, owner);
        if names(items[i].0, owner) || names(items[i].1, owner) {
            assert(t[t.len() - 1] == FaceId(i as u32));
        }
        if t.contains(FaceId(i as u32)) {
            let j = choose|j: int| 0 <= j < t.len() && t[j] == FaceId(i as u32);
            if j < r.len() {
                assert(t[j] == r[j]);
                assert(r[j].0 < before.len());
            }
        }
    }
}

/// Length of each row: `counts[c + 1]` is the length of owner `c`'s row.
fn count_rows(items: &Vec<(Option<u32>, Option<u32>)>, n: usize) -> (counts: Vec<usize>)
    requires
        ends_within(items@, n as nat),
        n < usize::MAX,
        end_count(items@) <= usize::MAX,
    ensures
        counts@.len() == n + 1,
        counts@[0] == 0,
        forall|c: int| 0 <= c < n ==> #[trigger] counts@[c + 1] == listed(items@, c as nat).len(),
{
    let ghost all = items@;
    let ghost total = end_count(items@);
    proof {
        lemma_sum_listed_total(all, n as nat);
    }
    let mut counts: Vec<usize> = Vec::new();
    let mut i: usize = 0;
    while i <= n
        invariant
            i <= n + 1,
            n < usize::MAX,
            counts@.len() == i,
            forall|c: int| 0 <= c < i ==> counts@[c] == 0,
        decreases n + 1 - i,
    {
        counts.push(0);
        i = i + 1;
    }
    proof {
        assert forall|c: int| 0 <= c < n implies #[trigger] counts@[c + 1] == listed(all.take(0), c as nat).len() by {
            assert(all.take(0).len() == 0);
        }
    }
    let mut f: usize = 0;
    while f < items.len()
        invariant
            all == items@,
            ends_within(all, n as nat),
            sum_listed(all, n as nat) == total,
            total <= usize::MAX,
            f <= all.len(),
            counts@.len() == n + 1,
            counts@[0] == 0,
            forall|c: int| 0 <= c < n ==> #[trigger] counts@[c + 1] == listed(all.take(f as int), c as nat).len(),
        decreases all.len() - f,
    {
        let (first, second) = items[f];
        proof {
            let prefix = all.take(f as int + 1);
            assert(prefix.drop_last() == all.take(f as int));
            assert(prefix.last() == all[f as int]);
            assert(end_below(all[f as int].0, n as nat) && end_below(all[f as int].1, n as nat));
        }
        if let Some(o) = first {
            let l = o as usize;
            proof {
                lemma_listed_prefix(all, f as int + 1, l as nat);
                lemma_sum_listed_mono(all, l as nat, n as nat);
            }
            counts.set(l + 1, counts[l + 1] + 1);
        }
        if let Some(o) = second {
            let r = o as usize;
            proof {
                lemma_listed_prefix(all, f as int + 1, r as nat);
                lemma_sum_listed_mono(all, r as nat, n as nat);
            }
            counts.set(r + 1, counts[r + 1] + 1);
        }
        proof {
            assert forall|c: int| 0 <= c < n implies #[trigger] counts@[c + 1] == listed(all.take(f as int + 1), c as nat).len() by {
                let prefix = all.take(f as int + 1);
                assert(prefix.drop_last() == all.take(f as int));
            }
        }
        f = f + 1;
    }
    assert(all.take(all.len() as int) == all);
    counts
}

/// Running sums of the counts: `offsets[c]` is the total length of the rows of owners
/// `0..c`.
fn accumulate_rows(items: &Vec<(Option<u32>, Option<u32>)>, n: usize, counts: Vec<usize>) -> (offsets: Vec<usize>)
    requires
        n < usize::MAX,
        sum_listed(items@, n as nat) <= usize::MAX,
        counts@.len() == n + 1,
        counts@[0] == 0,
        forall|c: int| 0 <= c < n ==> #[trigger] counts@[c + 1] == listed(items@, c as nat).len(),
    ensures
        offsets@.len() == n + 1,
        forall|c: int| 0 <= c <= n ==> #[trigger] offsets@[c] == sum_listed(items@, c as nat),
{
    let ghost all = items@;
    let mut counts = counts;
    proof {
        assert forall|c: int| 1 <= c <= n implies #[trigger] counts@[c] == listed(all, (c - 1) as nat).len() by {
            assert(counts@[(c - 1) + 1] == listed(all, (c - 1) as nat).len());
        }
    }
    let mut k: usize = 1;
    while k <= n
        invariant
            all == items@,
            1 <= k <= n + 1,
            n < usize::MAX,
            sum_listed(all, n as nat) <= usize::MAX,
            counts@.len() == n + 1,
            counts@[0] == 0,
            forall|c: int| 0 <= c < k ==> #[trigger] counts@[c] == sum_listed(all, c as nat),
            forall|c: int| k <= c <= n ==> #[trigger] counts@[c] == listed(all, (c - 1) as nat).len(),
        decreases n + 1 - k,
    {
        proof {
            lemma_sum_listed_mono(all, k as nat, n as nat);
        }
        counts.set(k, counts[k] + counts[k - 1]);
        k = k + 1;
    }
    counts
}

/// Lists every face in the rows of the owners it names, in face order, from each row's
/// offset.
fn fill_rows(items: &Vec<(Option<u32>, Option<u32>)>, n: usize, offsets: &Vec<usize>) -> (rows: Vec<FaceId>)
    requires
        ends_within(items@, n as nat),
        items@.len() <= u32::MAX + 1,
        offsets@.len() == n + 1,
        forall|c: int| 0 <= c <= n ==> #[trigger] offsets@[c] == sum_listed(items@, c as nat),
    ensures
        rows@.len() == offsets@[n as int],
        forall|c: int|
            0 <= c < n ==> #[trigger] rows@.subrange(offsets@[c] as int, offsets@[c + 1] as int) == listed(items@, c as nat),
{
    let ghost all = items@;
    let size = offsets[n];
    let mut rows: Vec<FaceId> = Vec::new();
    let mut x: usize = 0;
    while x < size
        invariant
            x <= size,
            rows@.len() == x,
        decreases size - x,
    {
        rows.push(FaceId(0));
        x = x + 1;
    }
    let mut cursor: Vec<usize> = Vec::new();
    let mut c0: usize = 0;
    while c0 < n
        invariant
            c0 <= n,
            offsets@.len() == n + 1,
            cursor@.len() == c0,
            forall|c: int| 0 <= c < c0 ==> cursor@[c] == offsets@[c],
        decreases n - c0,
    {
        cursor.push(offsets[c0]);
        c0 = c0 + 1;
    }
    proof {
        assert forall|c: int| 0 <= c < n implies #[trigger] cursor@[c] == offsets@[c] + listed(all.take(0), c as nat).len() by {
            assert(all.take(0).len() == 0);
        }
    }
    let mut f: usize = 0;
    while f < items.len()
        invariant
            all == items@,
            ends_within(all, n as nat),
            all.len() <= u32::MAX + 1,
            f <= all.len(),
            offsets@.len() == n + 1,
            rows@.len() == offsets@[n as int],
            cursor@.len() == n,
            forall|c: int| 0 <= c <= n ==> #[trigger] offsets@[c] == sum_listed(all, c as nat),
            forall|c: int| 0 <= c < n ==> #[trigger] cursor@[c] == offsets@[c] + listed(all.take(f as int), c as nat).len(),
            forall|c: int, j: int|
                0 <= c < n && 0 <= j < listed(all.take(f as int), c as nat).len() ==> rows@[offsets@[c] + j]
                    == #[trigger] listed(all.take(f as int), c as nat)[j],
        decreases all.len() - f,
    {
        let (first, second) = items[f];
        let fid = FaceId(f as u32);
        let ghost prefix = all.take(f as int + 1);
        let ghost old_prefix = all.take(f as int);
        proof {
            assert(prefix.drop_last() == old_prefix);
            assert(prefix.last() == all[f as int]);
            assert(end_below(all[f as int].0, n as nat) && end_below(all[f as int].1, n as nat));
        }
        let ghost old_rows = rows@;
        let ghost mut owner_1: int = -1;
        let ghost mut slot_1: int = -1;
        let ghost mut owner_2: int = -1;
        let ghost mut slot_2: int = -1;
        if let Some(o) = first {
            let l = o as usize;
            proof {
                lemma_listed_prefix(all, f as int + 1, l as nat);
                lemma_sum_listed_mono(all, l as nat, n as nat);
            }
            let slot = cursor[l];
            rows.set(slot, fid);
            cursor.set(l, slot + 1);
            proof {
                owner_1 = l as int;
                slot_1 = slot as int;
            }
        }
        let ghost mid_rows = rows@;
        if let Some(o) = second {
            let r = o as usize;
            proof {
                lemma_listed_prefix(all, f as int + 1, r as nat);
                lemma_sum_listed_mono(all, r as nat, n as nat);
            }
            let slot = cursor[r];
            rows.set(slot, fid);
            cursor.set(r, slot + 1);
            proof {
                owner_2 = r as int;
                slot_2 = slot as int;
            }
        }
        proof {
            assert(owner_1 >= 0 ==> slot_1 < offsets@[owner_1] + listed(all, owner_1 as nat).len());
            assert(owner_1 >= 0 ==> slot_1 >= offsets@[owner_1] + listed(old_prefix, owner_1 as nat).len());
            assert(owner_2 >= 0 ==> slot_2 < offsets@[owner_2] + listed(all, owner_2 as nat).len());
            assert(owner_2 >= 0 ==> slot_2 >= offsets@[owner_2] + listed(old_prefix, owner_2 as nat).len());
            assert(owner_1 >= 0 ==> mid_rows == old_rows.update(slot_1, fid));
            assert(owner_1 < 0 ==> mid_rows == old_rows);
            assert(owner_2 >= 0 ==> rows@ == mid_rows.update(slot_2, fid));
            assert(owner_2 < 0 ==> rows@ == mid_rows);
            assert forall|c: int| 0 <= c < n implies #[trigger] cursor@[c] == offsets@[c] + listed(prefix, c as nat).len() by {}
            assert forall|c: int, j: int|
                0 <= c < n && 0 <= j < listed(prefix, c as nat).len() implies rows@[offsets@[c] + j]
                    == #[trigger] listed(prefix, c as nat)[j] by {
                let t = listed(old_prefix, c as nat);
                if j < t.len() {
                    assert(listed(prefix, c as nat)[j] == t[j]);
                    lemma_listed_prefix(all, f as int, c as nat);
                    lemma_sum_listed_mono(all, c as nat, n as nat);
                    if owner_1 >= 0 {
                        lemma_ranges_apart(all, c, j, owner_1);
                        assert(offsets@[c] + j != slot_1);
                    }
                    if owner_2 >= 0 {
                        lemma_ranges_apart(all, c, j, owner_2);
                        assert(offsets@[c] + j != slot_2);
                    }
                    assert(rows@[offsets@[c] + j] == old_rows[offsets@[c] + j]);
                } else {
                    assert(listed(prefix, c as nat)[j] == fid);
                    assert(offsets@[c] + j == slot_1 || offsets@[c] + j == slot_2);
                }
            }
        }
        f = f + 1;
    }
    assert(all.take(all.len() as int) == all);
    proof {
        assert forall|c: int| 0 <= c < n implies #[trigger] rows@.subrange(offsets@[c] as int, offsets@[c + 1] as int) == listed(all, c as nat) by {
            lemma_sum_listed_mono(all, c as nat, n as nat);
            assert(rows@.subrange(offsets@[c] as int, offsets@[c + 1] as int) =~= listed(all, c as nat));
        }
    }
    rows
}

/// Builds the rows of owners `0..n`: the row of owner `c` is
/// `rows[offsets[c] .. offsets[c + 1]]`, the faces naming `c` in face order.
pub fn build_rows(items: &Vec<(Option<u32>, Option<u32>)>, n: usize) -> (r: (Vec<usize>, Vec<FaceId>))
    requires
        ends_within(items@, n as nat),
        items@.len() <= u32::MAX + 1,
        n < usize::MAX,
        end_count(items@) <= usize::MAX,
    ensures
        r.0@.len() == n + 1,
        r.0@[n as int] == r.1@.len(),
        r.1@.len() == end_count(items@),
        forall|c: int| 0 <= c <= n ==> #[trigger] r.0@[c] == sum_listed(items@, c as nat),
        forall|c: int|
            0 <= c < n ==> #[trigger] r.1@.subrange(r.0@[c] as int, r.0@[c + 1] as int) == listed(items@, c as nat),
{
    proof {
        lemma_sum_listed_total(items@, n as nat);
    }
    let counts = count_rows(items, n);
    let offsets = accumulate_rows(items, n, counts);
    let rows = fill_rows(items, n, &offsets);
    (offsets, rows)
}

} // verus!
