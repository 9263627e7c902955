use vstd::prelude::*;
use crate::rfid::{ScanResult, ScanRecord, merge, copy_bytes};

verus! {

/// Milliseconds without a detection after which a tag counts as inactive.
pub const INACTIVE_AGE: u64 = 5000;

/// Milliseconds since `r` was last seen, at time `now` (zero if `now` is earlier).
pub open spec fn elapsed(r: ScanRecord, now: u64) -> int {
    if now >= r.last_seen { now - r.last_seen } else { 0 }
}

/// A tag is active while less than `INACTIVE_AGE` has passed since it was seen.
pub open spec fn is_active(r: ScanRecord, now: u64) -> bool {
    elapsed(r, now) < INACTIVE_AGE
}

/// The age used for ordering: the elapsed time, floored at `INACTIVE_AGE`.
pub open spec fn clamped_age(r: ScanRecord, now: u64) -> int {
    if elapsed(r, now) < INACTIVE_AGE { INACTIVE_AGE as int } else { elapsed(r, now) }
}

/// Lexicographic comparison of byte sequences: negative, zero or positive.
pub open spec fn lex_cmp(a: Seq<u8>, b: Seq<u8>) -> int
    decreases a.len(),
{
    if a.len() == 0 {
        if b.len() == 0 { 0 } else { -1 }
    } else if b.len() == 0 {
        1
    } else if a[0] < b[0] {
        -1
    } else if a[0] > b[0] {
        1
    } else {
        lex_cmp(a.drop_first(), b.drop_first())
    }
}

/// Comparison by the pair (clamped age, tag ID).
pub open spec fn key_cmp(a: ScanRecord, b: ScanRecord, now: u64) -> int {
    if clamped_age(a, now) < clamped_age(b, now) {
        -1
    } else if clamped_age(a, now) > clamped_age(b, now) {
        1
    } else {
        lex_cmp(a.epc, b.epc)
    }
}

pub open spec fn key_le(a: ScanRecord, b: ScanRecord, now: u64) -> bool {
    key_cmp(a, b, now) <= 0
}

pub proof fn lemma_lex_cmp_antisym(a: Seq<u8>, b: Seq<u8>)
    ensures
        lex_cmp(b, a) == -lex_cmp(a, b),
    decreases a.len(),
{
    if a.len() > 0 && b.len() > 0 && a[0] == b[0] {
        lemma_lex_cmp_antisym(a.drop_first(), b.drop_first());
    }
}

pub proof fn lemma_key_total(a: ScanRecord, b: ScanRecord, now: u64)
    ensures
        !key_le(a, b, now) ==> key_le(b, a, now),
{
    lemma_lex_cmp_antisym(a.epc, b.epc);
}

pub proof fn lemma_lex_cmp_trans(a: Seq<u8>, b: Seq<u8>, c: Seq<u8>)
    requires
        lex_cmp(a, b) <= 0,
        lex_cmp(b, c) <= 0,
    ensures
        lex_cmp(a, c) <= 0,
    decreases a.len(),
{
    if a.len() > 0 && b.len() > 0 && c.len() > 0 && a[0] == b[0] && b[0] == c[0] {
        lemma_lex_cmp_trans(a.drop_first(), b.drop_first(), c.drop_first());
    }
}

pub proof fn lemma_lex_cmp_zero(a: Seq<u8>, b: Seq<u8>)
    requires
        lex_cmp(a, b) == 0,
    ensures
        a == b,
    decreases a.len(),
{
    if a.len() > 0 && b.len() > 0 {
        lemma_lex_cmp_zero(a.drop_first(), b.drop_first());
        assert(a.drop_first().len() == b.drop_first().len());
        assert forall|i: int| 0 <= i < a.len() implies a[i] == b[i] by {
            if i > 0 {
                assert(a[i] == a.drop_first()[i - 1]);
                assert(b[i] == b.drop_first()[i - 1]);
            }
        }
        assert(a =~= b);
    } else {
        assert(a =~= b);
    }
}

pub proof fn lemma_key_trans(a: ScanRecord, b: ScanRecord, c: ScanRecord, now: u64)
    requires
        key_le(a, b, now),
        key_le(b, c, now),
    ensures
        key_le(a, c, now),
{
    if clamped_age(a, now) == clamped_age(b, now) && clamped_age(b, now) == clamped_age(c, now) {
        lemma_lex_cmp_trans(a.epc, b.epc, c.epc);
    }
}

/// Records ordered each way have the same tag ID.
pub proof fn lemma_key_antisym(a: ScanRecord, b: ScanRecord, now: u64)
    requires
        key_le(a, b, now),
        key_le(b, a, now),
    ensures
        a.epc == b.epc,
{
    lemma_lex_cmp_antisym(a.epc, b.epc);
    lemma_lex_cmp_zero(a.epc, b.epc);
}

fn elapsed_of(r: &ScanResult, now: u64) -> (e: u64)
    ensures
        e == elapsed(r@, now),
{
    if now >= r.last_seen { now - r.last_seen } else { 0 }
}

fn clamped_age_of(r: &ScanResult, now: u64) -> (e: u64)
    ensures
        e == clamped_age(r@, now),
{
    let e = elapsed_of(r, now);
    if e < INACTIVE_AGE { INACTIVE_AGE } else { e }
}

impl ScanResult {
    /// Whether this tag is active at time `now`.
    pub fn active(&self, now: u64) -> (b: bool)
        ensures
            b == is_active(self@, now),
    {
        elapsed_of(self, now) < INACTIVE_AGE
    }
}

/// Lexicographic comparison of two byte vectors.
pub fn compare_bytes(a: &Vec<u8>, b: &Vec<u8>) -> (c: i8)
    ensures
        c as int == lex_cmp(a@, b@),
{
    let mut i: usize = 0;
    assert(a@.subrange(0, a@.len() as int) =~= a@);
    assert(b@.subrange(0, b@.len() as int) =~= b@);
    while i < a.len() && i < b.len()
        invariant
            i <= a.len(),
            i <= b.len(),
            lex_cmp(a@, b@) == lex_cmp(a@.subrange(i as int, a@.len() as int), b@.subrange(i as int, b@.len() as int)),
        decreases a.len() - i,
    {
        if a[i] < b[i] {
            return -1;
        } else if a[i] > b[i] {
            return 1;
        }
        assert(a@.subrange(i as int, a@.len() as int).drop_first() =~= a@.subrange(i + 1, a@.len() as int));
        assert(b@.subrange(i as int, b@.len() as int).drop_first() =~= b@.subrange(i + 1, b@.len() as int));
        i = i + 1;
    }
    if a.len() == i && b.len() == i {
        0
    } else if a.len() == i {
        -1
    } else {
        1
    }
}

/// Whether two byte vectors hold the same bytes.
pub fn same_bytes(a: &Vec<u8>, b: &Vec<u8>) -> (r: bool)
    ensures
        r == (a@ == b@),
{
    if a.len() != b.len() {
        return false;
    }
    let mut i: usize = 0;
    while i < a.len()
        invariant
            i <= a.len(),
            a.len() == b.len(),
            a@.subrange(0, i as int) == b@.subrange(0, i as int),
        decreases a.len() - i,
    {
        if a[i] != b[i] {
            assert(a@[i as int] != b@[i as int]);
            return false;
        }
        assert(a@.subrange(0, i + 1) =~= a@.subrange(0, i as int).push(a@[i as int]));
        assert(b@.subrange(0, i + 1) =~= b@.subrange(0, i as int).push(b@[i as int]));
        i = i + 1;
    }
    assert(a@ =~= a@.subrange(0, i as int));
    assert(b@ =~= b@.subrange(0, i as int));
    true
}

/// Comparison of two records by (clamped age, tag ID).
pub fn compare_key(a: &ScanResult, b: &ScanResult, now: u64) -> (c: i8)
    ensures
        c as int == key_cmp(a@, b@, now),
{
    let x = clamped_age_of(a, now);
    let y = clamped_age_of(b, now);
    if x < y {
        -1
    } else if x > y {
        1
    } else {
        compare_bytes(&a.epc, &b.epc)
    }
}

/// An entry is listed when inactive entries are shown, or when it is active.
pub open spec fn visible(show_inactive: bool, r: ScanRecord, now: u64) -> bool {
    show_inactive || is_active(r, now)
}

/// `v` is the listing of `items` at time `now`: exactly the visible entries,
/// each once, ordered by (clamped age, tag ID).
pub open spec fn is_view(items: Seq<ScanRecord>, show_inactive: bool, now: u64, v: Seq<ScanRecord>) -> bool {
    &&& partial_view(items, show_inactive, now, items.len() as int, v)
    &&& sorted_by_key(v, now)
}

/// Adjacent entries are in (clamped age, tag ID) order.
pub open spec fn sorted_by_key(v: Seq<ScanRecord>, now: u64) -> bool {
    forall|k: int| 0 <= k < v.len() - 1 ==> key_le(#[trigger] v[k], v[k + 1], now)
}

/// No two records share a tag ID.
pub open spec fn distinct_keys(v: Seq<ScanRecord>) -> bool {
    forall|k1: int, k2: int| 0 <= k1 < k2 < v.len() ==> v[k1].epc != v[k2].epc
}

/// `v` holds exactly the visible entries among the first `n` of `items`, each once.
pub open spec fn partial_view(items: Seq<ScanRecord>, show_inactive: bool, now: u64, n: int, v: Seq<ScanRecord>) -> bool {
    &&& forall|k: int| 0 <= k < v.len() ==> #[trigger] visible(show_inactive, v[k], now)
    &&& forall|k: int| #![trigger v[k]] 0 <= k < v.len() ==> exists|i: int| 0 <= i < n && items[i] == v[k]
    &&& forall|i: int| #![trigger items[i]] 0 <= i < n && visible(show_inactive, items[i], now)
            ==> exists|k: int| 0 <= k < v.len() && v[k] == items[i]
    &&& distinct_keys(v)
}

proof fn lemma_fresh_key(items: Seq<ScanRecord>, show_inactive: bool, now: u64, n: int, v: Seq<ScanRecord>)
    requires
        0 <= n < items.len(),
        distinct_keys(items),
        partial_view(items, show_inactive, now, n, v),
    ensures
        forall|k: int| 0 <= k < v.len() ==> v[k].epc != items[n].epc,
{
    assert forall|k: int| 0 <= k < v.len() implies v[k].epc != items[n].epc by {
        let m = choose|m: int| 0 <= m < n && items[m] == #[trigger] v[k];
    }
}

proof fn lemma_view_skip(items: Seq<ScanRecord>, show_inactive: bool, now: u64, n: int, v: Seq<ScanRecord>)
    requires
        0 <= n < items.len(),
        !visible(show_inactive, items[n], now),
        partial_view(items, show_inactive, now, n, v),
    ensures
        partial_view(items, show_inactive, now, n + 1, v),
{
    assert forall|k: int| 0 <= k < v.len() implies exists|i: int| 0 <= i < n + 1 && items[i] == #[trigger] v[k] by {
        let m = choose|m: int| 0 <= m < n && items[m] == #[trigger] v[k];
    }
}

proof fn lemma_insert_covers(items: Seq<ScanRecord>, show_inactive: bool, now: u64, n: int, v: Seq<ScanRecord>, j: int)
    requires
        0 <= n < items.len(),
        0 <= j <= v.len(),
        forall|i: int| 0 <= i < n && visible(show_inactive, items[i], now)
            ==> exists|k: int| 0 <= k < v.len() && v[k] == #[trigger] items[i],
    ensures
        forall|i: int| 0 <= i < n + 1 && visible(show_inactive, items[i], now)
            ==> exists|k: int| 0 <= k < v.insert(j, items[n]).len() && v.insert(j, items[n])[k] == #[trigger] items[i],
{
    let w = v.insert(j, items[n]);
    assert forall|m: int| 0 <= m < n + 1 && visible(show_inactive, items[m], now)
        implies exists|k: int| 0 <= k < w.len() && w[k] == #[trigger] items[m] by {
        if m == n {
            assert(w[j] == items[m]);
        } else {
            let k = choose|k: int| 0 <= k < v.len() && v[k] == #[trigger] items[m];
            if k < j {
                assert(w[k] == items[m]);
            } else {
                assert(w[k + 1] == items[m]);
            }
        }
    }
}

proof fn lemma_insert_drawn(items: Seq<ScanRecord>, show_inactive: bool, now: u64, n: int, v: Seq<ScanRecord>, j: int)
    requires
        0 <= n < items.len(),
        0 <= j <= v.len(),
        visible(show_inactive, items[n], now),
        partial_view(items, show_inactive, now, n, v),
    ensures
        forall|k: int| 0 <= k < v.insert(j, items[n]).len() ==> #[trigger] visible(show_inactive, v.insert(j, items[n])[k], now),
        forall|k: int| 0 <= k < v.insert(j, items[n]).len() ==> exists|i: int| 0 <= i < n + 1 && items[i] == #[trigger] v.insert(j, items[n])[k],
{
    let w = v.insert(j, items[n]);
    assert forall|k: int| 0 <= k < w.len() implies exists|m: int| 0 <= m < n + 1 && items[m] == #[trigger] w[k] by {
        if k == j {
            assert(items[n] == w[k]);
        } else if k < j {
            let m = choose|m: int| 0 <= m < n && items[m] == #[trigger] v[k];
            assert(items[m] == w[k]);
        } else {
            let m = choose|m: int| 0 <= m < n && items[m] == #[trigger] v[k - 1];
            assert(items[m] == w[k]);
        }
    }
    assert forall|k: int| 0 <= k < w.len() implies #[trigger] visible(show_inactive, w[k], now) by {
        if k < j {
            assert(v[k] == w[k]);
        } else if k > j {
            assert(v[k - 1] == w[k]);
        }
    }
}

proof fn lemma_insert_distinct(v: Seq<ScanRecord>, j: int, x: ScanRecord)
    requires
        0 <= j <= v.len(),
        distinct_keys(v),
        forall|k: int| 0 <= k < v.len() ==> v[k].epc != x.epc,
    ensures
        distinct_keys(v.insert(j, x)),
{
    let w = v.insert(j, x);
    assert forall|k1: int, k2: int| 0 <= k1 < k2 < w.len() implies w[k1].epc != w[k2].epc by {
        if k1 != j && k2 != j {
            let a = if k1 < j { k1 } else { k1 - 1 };
            let b = if k2 < j { k2 } else { k2 - 1 };
            assert(w[k1] == v[a]);
            assert(w[k2] == v[b]);
        } else if k1 == j {
            let b = if k2 < j { k2 } else { k2 - 1 };
            assert(w[k2] == v[b]);
        } else {
            let a = if k1 < j { k1 } else { k1 - 1 };
            assert(w[k1] == v[a]);
        }
    }
}

proof fn lemma_view_insert(items: Seq<ScanRecord>, show_inactive: bool, now: u64, n: int, v: Seq<ScanRecord>, j: int)
    requires
        0 <= n < items.len(),
        0 <= j <= v.len(),
        visible(show_inactive, items[n], now),
        partial_view(items, show_inactive, now, n, v),
        forall|k: int| 0 <= k < v.len() ==> v[k].epc != items[n].epc,
    ensures
        partial_view(items, show_inactive, now, n + 1, v.insert(j, items[n])),
{
    lemma_insert_covers(items, show_inactive, now, n, v, j);
    lemma_insert_drawn(items, show_inactive, now, n, v, j);
    lemma_insert_distinct(v, j, items[n]);
}

/// The records behind a listing of references.
pub open spec fn records_of(v: Seq<&ScanResult>) -> Seq<ScanRecord> {
    v.map_values(|x: &ScanResult| x@)
}

/// Inserts `x` into the sorted listing `out` at the first place where the
/// order is kept, and returns that place.
fn insert_sorted<'a>(out: &mut Vec<&'a ScanResult>, x: &'a ScanResult, now: u64) -> (j: usize)
    requires
        sorted_by_key(records_of(old(out)@), now),
    ensures
        j <= old(out)@.len(),
        records_of(final(out)@) == records_of(old(out)@).insert(j as int, x@),
        sorted_by_key(records_of(final(out)@), now),
{
    let mut j: usize = 0;
    while j < out.len() && compare_key(x, out[j], now) > 0
        invariant
            j <= out@.len(),
            j > 0 ==> key_le(records_of(out@)[j - 1], x@, now),
        decreases out@.len() - j,
    {
        proof {
            lemma_key_total(x@, out@[j as int]@, now);
        }
        j = j + 1;
    }
    let ghost old_out = records_of(out@);
    out.insert(j, x);
    assert(records_of(out@) =~= old_out.insert(j as int, x@));
    assert forall|k: int| 0 <= k < out@.len() - 1 implies key_le(#[trigger] records_of(out@)[k], records_of(out@)[k + 1], now) by {
        if k + 1 < j {
            assert(old_out[k] == records_of(out@)[k]);
            assert(old_out[k + 1] == records_of(out@)[k + 1]);
        } else if k > j {
            assert(old_out[k - 1] == records_of(out@)[k]);
            assert(old_out[k] == records_of(out@)[k + 1]);
        }
    }
    j
}

/// The records after folding detection `e` in: merged into the record with
/// its tag ID, or added at the end when there is none.
pub open spec fn absorb(s: Seq<ScanRecord>, e: ScanRecord) -> Seq<ScanRecord> {
    if exists|i: int| 0 <= i < s.len() && s[i].epc == e.epc {
        let i = choose|i: int| 0 <= i < s.len() && s[i].epc == e.epc;
        s.update(i, merge(s[i], e))
    } else {
        s.push(e)
    }
}

/// The records after folding in each of `events`, in order.
pub open spec fn absorb_all(s: Seq<ScanRecord>, events: Seq<ScanRecord>) -> Seq<ScanRecord>
    decreases events.len(),
{
    if events.len() == 0 {
        s
    } else {
        absorb(absorb_all(s, events.drop_last()), events.last())
    }
}

/// The tag ID held as a selection, as a sequence.
pub open spec fn key_of(o: Option<Vec<u8>>) -> Option<Seq<u8>> {
    match o {
        Some(v) => Some(v@),
        None => None,
    }
}

/// No record is visible at time `now`.
pub open spec fn none_visible(items: Seq<ScanRecord>, show_inactive: bool, now: u64) -> bool {
    forall|i: int| 0 <= i < items.len() ==> !#[trigger] visible(show_inactive, items[i], now)
}

/// `k` is the tag ID of the visible record that comes first in
/// (clamped age, tag ID) order.
pub open spec fn least_visible(items: Seq<ScanRecord>, show_inactive: bool, now: u64, k: Seq<u8>) -> bool {
    exists|i: int| #![trigger items[i]]
        0 <= i < items.len() && visible(show_inactive, items[i], now) && items[i].epc == k
        && forall|j: int| 0 <= j < items.len() && visible(show_inactive, items[j], now)
            ==> key_le(items[i], #[trigger] items[j], now)
}

/// The head of a sorted listing comes first in it.
pub proof fn lemma_sorted_head(v: Seq<ScanRecord>, now: u64, k: int)
    requires
        sorted_by_key(v, now),
        0 <= k < v.len(),
    ensures
        key_le(v[0], v[k], now),
    decreases k,
{
    if k == 0 {
        lemma_lex_cmp_antisym(v[0].epc, v[0].epc);
    } else {
        lemma_sorted_head(v, now, k - 1);
        assert(key_le(v[k - 1], v[k], now));
        lemma_key_trans(v[0], v[k - 1], v[k], now);
    }
}

/// The head of a listing is the least visible record.
pub proof fn lemma_view_head_least(items: Seq<ScanRecord>, show_inactive: bool, now: u64, v: Seq<ScanRecord>)
    requires
        is_view(items, show_inactive, now, v),
        v.len() > 0,
    ensures
        least_visible(items, show_inactive, now, v[0].epc),
{
    let i = choose|i: int| 0 <= i < items.len() && items[i] == v[0];
    assert(visible(show_inactive, v[0], now));
    assert forall|j: int| 0 <= j < items.len() && visible(show_inactive, items[j], now)
        implies key_le(items[i], #[trigger] items[j], now) by {
        let k = choose|k: int| 0 <= k < v.len() && v[k] == items[j];
        lemma_sorted_head(v, now, k);
    }
    assert(items[i].epc == v[0].epc);
}

/// At most one tag ID is the least visible one.
pub proof fn lemma_least_visible_unique(items: Seq<ScanRecord>, show_inactive: bool, now: u64, k1: Seq<u8>, k2: Seq<u8>)
    requires
        least_visible(items, show_inactive, now, k1),
        least_visible(items, show_inactive, now, k2),
    ensures
        k1 == k2,
{
    let i1 = choose|i: int| #![trigger items[i]]
        0 <= i < items.len() && visible(show_inactive, items[i], now) && items[i].epc == k1
        && forall|j: int| 0 <= j < items.len() && visible(show_inactive, items[j], now)
            ==> key_le(items[i], #[trigger] items[j], now);
    let i2 = choose|i: int| #![trigger items[i]]
        0 <= i < items.len() && visible(show_inactive, items[i], now) && items[i].epc == k2
        && forall|j: int| 0 <= j < items.len() && visible(show_inactive, items[j], now)
            ==> key_le(items[i], #[trigger] items[j], now);
    assert(key_le(items[i1], items[i2], now));
    assert(key_le(items[i2], items[i1], now));
    lemma_key_antisym(items[i1], items[i2], now);
}

/// The position of tag ID `k` in listing `v`, or 0 when it is not there.
pub open spec fn position_in(v: Seq<ScanRecord>, k: Seq<u8>) -> int {
    if exists|i: int| 0 <= i < v.len() && v[i].epc == k {
        choose|i: int| 0 <= i < v.len() && v[i].epc == k
    } else {
        0
    }
}

/// One cyclic step from position `i` in a listing of length `n`.
pub open spec fn cyclic_step(i: int, n: int, reverse: bool) -> int {
    if reverse {
        if i == 0 { n - 1 } else { i - 1 }
    } else {
        if i == n - 1 { 0 } else { i + 1 }
    }
}

/// The selection that moving from `sel` over listing `v` gives.
pub open spec fn moved_selection(v: Seq<ScanRecord>, sel: Option<Seq<u8>>, reverse: bool) -> Option<Seq<u8>> {
    if v.len() == 0 {
        sel
    } else {
        match sel {
            None => Some(v[0].epc),
            Some(k) => Some(v[cyclic_step(position_in(v, k), v.len() as int, reverse)].epc),
        }
    }
}

/// The position of tag ID `sel` in a listing, or 0 when it is not there.
fn position_of(v: &Vec<&ScanResult>, sel: &Vec<u8>) -> (r: usize)
    requires
        distinct_keys(records_of(v@)),
    ensures
        r == position_in(records_of(v@), sel@),
        v@.len() > 0 ==> r < v@.len(),
{
    let ghost w = records_of(v@);
    let mut i: usize = 0;
    while i < v.len()
        invariant
            i <= v@.len(),
            w == records_of(v@),
            distinct_keys(w),
            forall|m: int| 0 <= m < i ==> w[m].epc != sel@,
        decreases v@.len() - i,
    {
        if same_bytes(&v[i].epc, sel) {
            proof {
                assert(w[i as int].epc == sel@);
                let c = choose|c: int| 0 <= c < w.len() && w[c].epc == sel@;
                if c < i {
                    assert(w[c].epc != w[i as int].epc);
                } else if c > i {
                    assert(w[i as int].epc != w[c].epc);
                }
            }
            return i;
        }
        i = i + 1;
    }
    assert(!exists|c: int| 0 <= c < w.len() && w[c].epc == sel@);
    0
}

/// The registry of detected tags: one record per tag ID, the selected tag,
/// and whether inactive tags are listed.
pub struct App {
    pub items: Vec<ScanResult>,
    pub selected: Option<Vec<u8>>,
    pub show_inactive: bool,
}

impl App {
    /// The records held, in storage order.
    pub open spec fn records(&self) -> Seq<ScanRecord> {
        self.items@.map_values(|x: ScanResult| x@)
    }

    /// No two records share a tag ID.
    pub open spec fn wf(&self) -> bool {
        forall|i: int, j: int| 0 <= i < j < self.items@.len() ==> self.items@[i].epc@ != self.items@[j].epc@
    }

    /// Index of the record with tag ID `epc`, if there is one.
    fn find(&self, epc: &Vec<u8>) -> (r: Option<usize>)
        ensures
            match r {
                Some(i) => i < self.items@.len() && self.items@[i as int].epc@ == epc@,
                None => forall|i: int| 0 <= i < self.items@.len() ==> self.items@[i].epc@ != epc@,
            },
    {
        let mut i: usize = 0;
        while i < self.items.len()
            invariant
                i <= self.items@.len(),
                forall|k: int| 0 <= k < i ==> self.items@[k].epc@ != epc@,
            decreases self.items@.len() - i,
        {
            if same_bytes(&self.items[i].epc, epc) {
                return Some(i);
            }
            i = i + 1;
        }
        None
    }

    /// Folds one detection into the records.
    fn absorb_one(&mut self, e: ScanResult)
        requires
            old(self).wf(),
        ensures
            final(self).wf(),
            final(self).records() == absorb(old(self).records(), e@),
            final(self).selected == old(self).selected,
            final(self).show_inactive == old(self).show_inactive,
    {
        let ghost recs = self.records();
        match self.find(&e.epc) {
            Some(i) => {
                let mut cur = self.items[i].duplicate();
                cur.update(e);
                self.items.set(i, cur);
                proof {
                    assert(recs[i as int].epc == e@.epc);
                    let c = choose|c: int| 0 <= c < recs.len() && recs[c].epc == e@.epc;
                    assert(recs[c].epc == self.items@[c].epc@ || c == i);
                    assert(c == i);
                    assert(self.records() =~= recs.update(i as int, merge(recs[i as int], e@)));
                }
            },
            None => {
                self.items.push(e);
                proof {
                    assert(!exists|i: int| 0 <= i < recs.len() && recs[i].epc == e@.epc) by {
                        assert forall|i: int| 0 <= i < recs.len() implies recs[i].epc != e@.epc by {
                            assert(recs[i].epc == old(self).items@[i].epc@);
                        }
                    }
                    assert(self.records() =~= recs.push(e@));
                }
            },
        }
    }

    /// Folds the drained `events` into the records, in order, then fixes the
    /// selection: cleared when nothing is listed at `now`, set to the head of
    /// the listing when there was none, kept otherwise.
    pub fn update_items(&mut self, events: Vec<ScanResult>, now: u64)
        requires
            old(self).wf(),
        ensures
            final(self).wf(),
            final(self).records() == absorb_all(old(self).records(), events@.map_values(|e: ScanResult| e@)),
            final(self).show_inactive == old(self).show_inactive,
            none_visible(final(self).records(), final(self).show_inactive, now) ==> final(self).selected.is_none(),
            !none_visible(final(self).records(), final(self).show_inactive, now) && old(self).selected.is_none()
                ==> (key_of(final(self).selected) matches Some(k) && least_visible(final(self).records(), final(self).show_inactive, now, k)),
            !none_visible(final(self).records(), final(self).show_inactive, now) && old(self).selected.is_some()
                ==> key_of(final(self).selected) == key_of(old(self).selected),
    {
        let ghost evs = events@.map_values(|e: ScanResult| e@);
        let ghost start = self.records();
        let mut j: usize = 0;
        while j < events.len()
            invariant
                self.wf(),
                j <= events@.len(),
                evs == events@.map_values(|e: ScanResult| e@),
                self.records() == absorb_all(start, evs.subrange(0, j as int)),
                self.selected == old(self).selected,
                self.show_inactive == old(self).show_inactive,
            decreases events@.len() - j,
        {
            let e = events[j].duplicate();
            self.absorb_one(e);
            proof {
                assert(evs.subrange(0, j + 1).drop_last() =~= evs.subrange(0, j as int));
            }
            j = j + 1;
        }
        proof {
            assert(evs.subrange(0, j as int) =~= evs);
        }
        let v = self.get_items(now);
        if v.len() > 0 {
            proof {
                let w = records_of(v@);
                assert(w[0] == v@[0]@);
                let m = choose|m: int| 0 <= m < self.records().len() && self.records()[m] == #[trigger] w[0];
                assert(visible(self.show_inactive, w[0], now));
            }
            if self.selected.is_none() {
                let k = copy_bytes(&v[0].epc);
                proof {
                    assert(records_of(v@)[0].epc == k@);
                    lemma_view_head_least(self.records(), self.show_inactive, now, records_of(v@));
                }
                self.selected = Some(k);
            }
        } else {
            proof {
                assert forall|i: int| 0 <= i < self.records().len() implies !#[trigger] visible(self.show_inactive, self.records()[i], now) by {
                    if visible(self.show_inactive, self.records()[i], now) {
                        let k = choose|k: int| 0 <= k < records_of(v@).len() && records_of(v@)[k] == self.records()[i];
                    }
                }
            }
            self.selected = None;
        }
    }

    /// Moves the selection one step through the listing at `now`, cyclically:
    /// backwards when `reverse`. With nothing selected, selects the head of the
    /// listing; a selection not listed counts as the head. An empty listing
    /// leaves the selection as it is.
    #[verifier::rlimit(50)]
    pub fn update_selected(&mut self, reverse: bool, now: u64)
        requires
            old(self).wf(),
        ensures
            final(self).wf(),
            final(self).items@ == old(self).items@,
            final(self).show_inactive == old(self).show_inactive,
            exists|v: Seq<ScanRecord>| is_view(old(self).records(), old(self).show_inactive, now, v)
                && key_of(final(self).selected) == moved_selection(v, key_of(old(self).selected), reverse),
            none_visible(old(self).records(), old(self).show_inactive, now) ==> final(self).selected == old(self).selected,
            !none_visible(old(self).records(), old(self).show_inactive, now) && old(self).selected.is_none()
                ==> (key_of(final(self).selected) matches Some(k) && least_visible(old(self).records(), old(self).show_inactive, now, k)),
    {
        let v = self.get_items(now);
        let ghost w = records_of(v@);
        proof {
            if w.len() > 0 {
                lemma_view_head_least(self.records(), self.show_inactive, now, w);
                let m = choose|m: int| 0 <= m < self.records().len() && self.records()[m] == w[0];
                assert(visible(self.show_inactive, w[0], now));
            } else {
                assert forall|i: int| 0 <= i < self.records().len() implies !#[trigger] visible(self.show_inactive, self.records()[i], now) by {
                    if visible(self.show_inactive, self.records()[i], now) {
                        let k = choose|k: int| 0 <= k < w.len() && w[k] == self.records()[i];
                    }
                }
            }
        }
        if v.len() == 0 {
            assert(key_of(self.selected) == moved_selection(w, key_of(self.selected), reverse));
            return;
        }
        let ghost old_sel = key_of(self.selected);
        let n = v.len();
        let k: usize = match &self.selected {
            None => 0,
            Some(sel) => {
                let idx = position_of(&v, sel);
                let stepped: usize = if reverse {
                    if idx == 0 { n - 1 } else { idx - 1 }
                } else {
                    if idx == n - 1 { 0 } else { idx + 1 }
                };
                stepped
            },
        };
        let chosen = copy_bytes(&v[k].epc);
        proof {
            assert(w[k as int].epc == chosen@);
            assert(Some(chosen@) == moved_selection(w, old_sel, reverse));
        }
        self.selected = Some(chosen);
        assert(is_view(self.records(), self.show_inactive, now, w));
    }

    /// Flips whether inactive tags are listed.
    pub fn toggle_show_inactive(&mut self)
        ensures
            final(self).show_inactive == !old(self).show_inactive,
            final(self).items@ == old(self).items@,
            final(self).selected == old(self).selected,
    {
        self.show_inactive = !self.show_inactive;
    }

    /// An empty registry with nothing selected, listing active tags only.
    pub fn new() -> (r: App)
        ensures
            r.wf(),
            r.items@.len() == 0,
            r.selected.is_none(),
            !r.show_inactive,
    {
        App { items: Vec::new(), selected: None, show_inactive: false }
    }

    /// The listing at time `now`: the visible records, each once, sorted by
    /// (clamped age, tag ID).
    pub fn get_items(&self, now: u64) -> (r: Vec<&ScanResult>)
        requires
            self.wf(),
        ensures
            is_view(self.records(), self.show_inactive, now, records_of(r@)),
    {
        let mut out: Vec<&ScanResult> = Vec::new();
        let ghost recs = self.records();
        proof {
            assert(distinct_keys(recs)) by {
                assert forall|a: int, b: int| 0 <= a < b < recs.len() implies recs[a].epc != recs[b].epc by {
                    assert(recs[a].epc == self.items@[a].epc@);
                    assert(recs[b].epc == self.items@[b].epc@);
                }
            }
            assert(records_of(out@) =~= Seq::<ScanRecord>::empty());
        }
        let mut i: usize = 0;
        while i < self.items.len()
            invariant
                self.wf(),
                recs == self.records(),
                distinct_keys(recs),
                i <= self.items.len(),
                partial_view(recs, self.show_inactive, now, i as int, records_of(out@)),
                sorted_by_key(records_of(out@), now),
            decreases self.items.len() - i,
        {
            let x = &self.items[i];
            assert(recs[i as int] == x@);
            if self.show_inactive || x.active(now) {
                let ghost old_out = records_of(out@);
                proof {
                    lemma_fresh_key(recs, self.show_inactive, now, i as int, old_out);
                }
                let j = insert_sorted(&mut out, x, now);
                proof {
                    lemma_view_insert(recs, self.show_inactive, now, i as int, old_out, j as int);
                }
            } else {
                proof {
                    lemma_view_skip(recs, self.show_inactive, now, i as int, records_of(out@));
                }
            }
            i = i + 1;
        }
        proof {
            assert(recs.subrange(0, i as int) =~= recs);
        }
        out
    }
}

} // verus!

verus! {

/// A listing never holds two entries with the same tag ID.
pub proof fn lemma_view_unique(items: Seq<ScanRecord>, show_inactive: bool, now: u64, v: Seq<ScanRecord>)
    requires
        is_view(items, show_inactive, now, v),
    ensures
        forall|k1: int, k2: int| 0 <= k1 < v.len() && 0 <= k2 < v.len() && k1 != k2 ==> v[k1].epc != v[k2].epc,
{
    assert forall|k1: int, k2: int| 0 <= k1 < v.len() && 0 <= k2 < v.len() && k1 != k2 implies v[k1].epc != v[k2].epc by {
        if k1 > k2 {
            assert(v[k2].epc != v[k1].epc);
        }
    }
}

/// Adjacent entries of a listing are in non-decreasing (clamped age, tag ID) order.
pub proof fn lemma_view_ordered(items: Seq<ScanRecord>, show_inactive: bool, now: u64, v: Seq<ScanRecord>)
    requires
        is_view(items, show_inactive, now, v),
    ensures
        forall|k: int| 0 <= k < v.len() - 1 ==> {
            let (a, b) = (#[trigger] v[k], v[k + 1]);
            clamped_age(a, now) < clamped_age(b, now)
                || (clamped_age(a, now) == clamped_age(b, now) && lex_cmp(a.epc, b.epc) <= 0)
        },
{
    assert forall|k: int| 0 <= k < v.len() - 1 implies {
        let (a, b) = (#[trigger] v[k], v[k + 1]);
        clamped_age(a, now) < clamped_age(b, now)
            || (clamped_age(a, now) == clamped_age(b, now) && lex_cmp(a.epc, b.epc) <= 0)
    } by {
        assert(key_le(v[k], v[k + 1], now));
    }
}

/// Listing only active tags leaves out every entry seen `INACTIVE_AGE` or more
/// ago; listing inactive ones too leaves out no record.
pub proof fn lemma_view_filter(items: Seq<ScanRecord>, show_inactive: bool, now: u64, v: Seq<ScanRecord>)
    requires
        is_view(items, show_inactive, now, v),
    ensures
        !show_inactive ==> forall|k: int| 0 <= k < v.len() ==> elapsed(#[trigger] v[k], now) < INACTIVE_AGE,
        show_inactive ==> forall|i: int| 0 <= i < items.len() ==> #[trigger] v.contains(items[i]),
{
    if !show_inactive {
        assert forall|k: int| 0 <= k < v.len() implies elapsed(#[trigger] v[k], now) < INACTIVE_AGE by {
            assert(visible(show_inactive, v[k], now));
        }
    }
    if show_inactive {
        assert forall|i: int| 0 <= i < items.len() implies #[trigger] v.contains(items[i]) by {
            assert(visible(show_inactive, items[i], now));
            let k = choose|k: int| 0 <= k < v.len() && v[k] == items[i];
            assert(v[k] == items[i]);
        }
    }
}

/// On a non-empty listing, stepping forward from the last entry selects the
/// first, and stepping back from the first selects the last.
pub proof fn lemma_selection_wraparound(items: Seq<ScanRecord>, show_inactive: bool, now: u64, v: Seq<ScanRecord>)
    requires
        is_view(items, show_inactive, now, v),
        v.len() > 0,
    ensures
        moved_selection(v, Some(v[v.len() - 1].epc), false) == Some(v[0].epc),
        moved_selection(v, Some(v[0].epc), true) == Some(v[v.len() - 1].epc),
{
    let n = v.len() as int;
    let last = v[n - 1].epc;
    let first = v[0].epc;
    assert(exists|c: int| 0 <= c < v.len() && v[c].epc == last);
    let c = choose|c: int| 0 <= c < v.len() && v[c].epc == last;
    if c != n - 1 {
        assert(v[c].epc != v[n - 1].epc);
    }
    assert(exists|d: int| 0 <= d < v.len() && v[d].epc == first);
    let d = choose|d: int| 0 <= d < v.len() && v[d].epc == first;
    if d != 0 {
        assert(v[0].epc != v[d].epc);
    }
}

/// Folding a single visible detection into an empty registry leaves it the
/// only record, and so the least visible one: the one selected.
pub proof fn lemma_first_detection_selected(e: ScanRecord, show_inactive: bool, now: u64)
    requires
        visible(show_inactive, e, now),
    ensures
        absorb_all(Seq::empty(), seq![e]) == seq![e],
        !none_visible(seq![e], show_inactive, now),
        forall|k: Seq<u8>| least_visible(seq![e], show_inactive, now, k) <==> k == e.epc,
{
    assert(seq![e].drop_last() =~= Seq::<ScanRecord>::empty());
    assert(seq![e].last() == e);
    assert(absorb_all(Seq::empty(), seq![e].drop_last()) == Seq::<ScanRecord>::empty());
    assert(Seq::<ScanRecord>::empty().push(e) =~= seq![e]);
    assert(seq![e][0] == e);
    lemma_lex_cmp_antisym(e.epc, e.epc);
    assert(key_le(e, e, now));
    assert(least_visible(seq![e], show_inactive, now, e.epc));
    assert forall|k: Seq<u8>| least_visible(seq![e], show_inactive, now, k) implies k == e.epc by {
        lemma_least_visible_unique(seq![e], show_inactive, now, k, e.epc);
    }
}

/// A registry whose only record was seen `INACTIVE_AGE` or more ago lists
/// nothing while inactive tags are hidden, so folding in no events clears the
/// selection.
pub proof fn lemma_stale_entry_unlisted(r: ScanRecord, now: u64)
    requires
        elapsed(r, now) >= INACTIVE_AGE,
    ensures
        absorb_all(seq![r], Seq::empty()) == seq![r],
        none_visible(seq![r], false, now),
{
    assert(seq![r][0] == r);
}

} // verus!
