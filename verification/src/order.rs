use vstd::prelude::*;
use vstd::utf8::encode_utf8;
use vstd::string::StringSliceAdditionalSpecFns;

use crate::frequency::Entry;

verus! {

/// How the rows of a histogram are arranged.
pub enum Order {
    /// Most frequent first; values of equal frequency keep their order.
    Frequency,
    /// By value, comparing the UTF-8 bytes lexicographically (the order of
    /// `str`'s `Ord`).
    Alphabetical,
    /// By the given keys, one per entry, smallest first; entries with equal
    /// keys keep their order.
    Numeric(Vec<u64>),
}

/// The order the rows of a histogram are printed in: by frequency, or, with
/// `sort_index`, by value, numerically when every value has a numeric key
/// (given in `numeric_keys`) and alphabetically otherwise.
pub fn sort_order(sort_index: bool, numeric_keys: Option<Vec<u64>>) -> (r: Order)
    ensures
        !sort_index ==> r is Frequency,
        sort_index ==> match numeric_keys {
            Some(keys) => r == Order::Numeric(keys),
            None => r is Alphabetical,
        },
{
    if !sort_index {
        Order::Frequency
    } else {
        match numeric_keys {
            Some(keys) => Order::Numeric(keys),
            None => Order::Alphabetical,
        }
    }
}

/// Lexicographic order on byte strings: `a` comes strictly before `b`.
pub open spec fn bytes_less(a: Seq<u8>, b: Seq<u8>) -> bool
    decreases a.len(),
{
    if a.len() == 0 {
        b.len() > 0
    } else if b.len() == 0 {
        false
    } else if a[0] != b[0] {
        a[0] < b[0]
    } else {
        bytes_less(a.drop_first(), b.drop_first())
    }
}

/// Whether `order` can be applied to `entries` (numeric keys: one per entry).
pub open spec fn order_fits(entries: Seq<Entry>, order: Order) -> bool {
    match order {
        Order::Numeric(keys) => keys@.len() == entries.len(),
        _ => true,
    }
}

/// Whether entry `i` of `entries` comes before entry `j` under `order`. Ties
/// are broken by position, which makes this a strict total order.
pub open spec fn ranks_before(entries: Seq<Entry>, order: Order, i: int, j: int) -> bool {
    match order {
        Order::Frequency => entries[i].count > entries[j].count || (entries[i].count
            == entries[j].count && i < j),
        Order::Alphabetical => {
            let a = encode_utf8(entries[i].value@);
            let b = encode_utf8(entries[j].value@);
            bytes_less(a, b) || (a == b && i < j)
        },
        Order::Numeric(keys) => keys@[i] < keys@[j] || (keys@[i] == keys@[j] && i < j),
    }
}

/// Whether the positions `p` are listed in the order `order` gives them.
pub open spec fn in_rank_order(entries: Seq<Entry>, order: Order, p: Seq<usize>) -> bool {
    forall|a: int, b: int|
        0 <= a < b < p.len() ==> #[trigger] ranks_before(entries, order, p[a] as int, p[b] as int)
}

/// `p` lists every position of `entries` once, in the order `order` gives them.
pub open spec fn is_ranking(entries: Seq<Entry>, order: Order, p: Seq<usize>) -> bool {
    &&& p.len() == entries.len()
    &&& forall|a: int| 0 <= a < p.len() ==> #[trigger] p[a] < entries.len()
    &&& in_rank_order(entries, order, p)
}

/// `sorted` is `entries` rearranged as `order` gives them.
pub open spec fn is_arranged(entries: Seq<Entry>, order: Order, sorted: Seq<Entry>) -> bool {
    exists|p: Seq<usize>|
        #![trigger is_ranking(entries, order, p)]
        is_ranking(entries, order, p) && sorted.len() == p.len() && forall|a: int|
            0 <= a < p.len() ==> #[trigger] sorted[a] == entries[p[a] as int]
}

/// Byte strings are ordered lexicographically: `a` comes strictly before `b`
/// exactly when, after a prefix the two share, `a` ends while `b` goes on, or
/// the next byte of `a` is smaller than the next byte of `b`.
pub proof fn lemma_bytes_less_is_lexicographic(a: Seq<u8>, b: Seq<u8>)
    ensures
        bytes_less(a, b) <==> exists|k: int|
            0 <= k <= a.len() && k <= b.len() && #[trigger] a.take(k) == b.take(k) && ((k == a.len()
                && k < b.len()) || (k < a.len() && k < b.len() && a[k] < b[k])),
    decreases a.len(),
{
    if a.len() > 0 && b.len() > 0 && a[0] == b[0] {
        let ta = a.drop_first();
        let tb = b.drop_first();
        lemma_bytes_less_is_lexicographic(ta, tb);
        assert(bytes_less(a, b) == bytes_less(ta, tb));
        if bytes_less(a, b) {
            let k = choose|k: int|
                0 <= k <= ta.len() && k <= tb.len() && #[trigger] ta.take(k) == tb.take(k) && ((k
                    == ta.len() && k < tb.len()) || (k < ta.len() && k < tb.len() && ta[k] < tb[k]));
            assert forall|i: int| 0 <= i < k + 1 implies #[trigger] a.take(k + 1)[i] == b.take(k + 1)[i] by {
                if i > 0 {
                    assert(ta.take(k)[i - 1] == tb.take(k)[i - 1]);
                }
            }
            assert(a.take(k + 1) =~= b.take(k + 1));
            if k < ta.len() && k < tb.len() {
                assert(a[k + 1] == ta[k] && b[k + 1] == tb[k]);
            }
            assert(0 <= k + 1 <= a.len() && k + 1 <= b.len() && a.take(k + 1) == b.take(k + 1) && ((k
                + 1 == a.len() && k + 1 < b.len()) || (k + 1 < a.len() && k + 1 < b.len() && a[k + 1]
                < b[k + 1])));
        }
        if exists|k: int|
            0 <= k <= a.len() && k <= b.len() && #[trigger] a.take(k) == b.take(k) && ((k == a.len()
                && k < b.len()) || (k < a.len() && k < b.len() && a[k] < b[k])) {
            let k = choose|k: int|
                0 <= k <= a.len() && k <= b.len() && #[trigger] a.take(k) == b.take(k) && ((k
                    == a.len() && k < b.len()) || (k < a.len() && k < b.len() && a[k] < b[k]));
            assert(k > 0);
            assert(a.take(k)[0] == b.take(k)[0]);
            assert forall|i: int| 0 <= i < k - 1 implies #[trigger] ta.take(k - 1)[i] == tb.take(k - 1)[i] by {
                assert(a.take(k)[i + 1] == b.take(k)[i + 1]);
            }
            assert(ta.take(k - 1) =~= tb.take(k - 1));
            assert(ta.take(k - 1) == tb.take(k - 1) && ((k - 1 == ta.len() && k - 1 < tb.len()) || (k
                - 1 < ta.len() && k - 1 < tb.len() && ta[k - 1] < tb[k - 1])));
        }
    } else {
        assert(a.take(0) =~= b.take(0));
        if exists|k: int|
            0 <= k <= a.len() && k <= b.len() && #[trigger] a.take(k) == b.take(k) && ((k == a.len()
                && k < b.len()) || (k < a.len() && k < b.len() && a[k] < b[k])) {
            let k = choose|k: int|
                0 <= k <= a.len() && k <= b.len() && #[trigger] a.take(k) == b.take(k) && ((k
                    == a.len() && k < b.len()) || (k < a.len() && k < b.len() && a[k] < b[k]));
            if k > 0 {
                assert(a.take(k)[0] == b.take(k)[0]);
            }
        }
    }
}

proof fn lemma_bytes_less_irreflexive(a: Seq<u8>)
    ensures
        !bytes_less(a, a),
    decreases a.len(),
{
    if a.len() > 0 {
        lemma_bytes_less_irreflexive(a.drop_first());
    }
}

proof fn lemma_bytes_less_transitive(a: Seq<u8>, b: Seq<u8>, c: Seq<u8>)
    requires
        bytes_less(a, b),
        bytes_less(b, c),
    ensures
        bytes_less(a, c),
    decreases a.len(),
{
    if a.len() > 0 && b.len() > 0 && c.len() > 0 && a[0] == b[0] && b[0] == c[0] {
        lemma_bytes_less_transitive(a.drop_first(), b.drop_first(), c.drop_first());
    }
}

proof fn lemma_bytes_less_total(a: Seq<u8>, b: Seq<u8>)
    requires
        a != b,
    ensures
        bytes_less(a, b) || bytes_less(b, a),
    decreases a.len(),
{
    if a.len() == 0 {
        assert(b.len() > 0) by {
            if b.len() == 0 {
                assert(a =~= b);
            }
        }
    } else if b.len() > 0 && a[0] == b[0] {
        if a.drop_first() == b.drop_first() {
            assert(a =~= seq![a[0]] + a.drop_first());
            assert(b =~= seq![b[0]] + b.drop_first());
        }
        lemma_bytes_less_total(a.drop_first(), b.drop_first());
    }
}

proof fn lemma_bytes_less_antisymmetric(a: Seq<u8>, b: Seq<u8>)
    requires
        bytes_less(a, b),
    ensures
        !bytes_less(b, a),
    decreases a.len(),
{
    if a.len() > 0 && b.len() > 0 && a[0] == b[0] {
        lemma_bytes_less_antisymmetric(a.drop_first(), b.drop_first());
    }
}

/// No entry comes before itself.
pub proof fn lemma_rank_irreflexive(entries: Seq<Entry>, order: Order, i: int)
    ensures
        !ranks_before(entries, order, i, i),
{
    if order is Alphabetical {
        lemma_bytes_less_irreflexive(encode_utf8(entries[i].value@));
    }
}

/// If `i` comes before `j`, then `j` does not come before `i`.
pub proof fn lemma_rank_asymmetric(entries: Seq<Entry>, order: Order, i: int, j: int)
    requires
        ranks_before(entries, order, i, j),
    ensures
        !ranks_before(entries, order, j, i),
{
    if order is Alphabetical {
        let a = encode_utf8(entries[i].value@);
        let b = encode_utf8(entries[j].value@);
        if bytes_less(a, b) {
            lemma_bytes_less_antisymmetric(a, b);
        } else {
            lemma_bytes_less_irreflexive(a);
        }
    }
}

/// The ranking relation is transitive.
pub proof fn lemma_rank_transitive(entries: Seq<Entry>, order: Order, i: int, j: int, k: int)
    requires
        ranks_before(entries, order, i, j),
        ranks_before(entries, order, j, k),
    ensures
        ranks_before(entries, order, i, k),
{
    if order is Alphabetical {
        let a = encode_utf8(entries[i].value@);
        let b = encode_utf8(entries[j].value@);
        let c = encode_utf8(entries[k].value@);
        if bytes_less(a, b) && bytes_less(b, c) {
            lemma_bytes_less_transitive(a, b, c);
        }
    }
}

/// Of two different positions, one comes before the other.
pub proof fn lemma_rank_total(entries: Seq<Entry>, order: Order, i: int, j: int)
    requires
        i != j,
    ensures
        ranks_before(entries, order, i, j) || ranks_before(entries, order, j, i),
{
    if order is Alphabetical {
        let a = encode_utf8(entries[i].value@);
        let b = encode_utf8(entries[j].value@);
        if a != b {
            lemma_bytes_less_total(a, b);
        }
    }
}

/// Compares two byte strings lexicographically.
fn bytes_before(a: &[u8], b: &[u8]) -> (r: bool)
    ensures
        r == bytes_less(a@, b@),
{
    let mut i: usize = 0;
    assert(a@.skip(0) =~= a@);
    assert(b@.skip(0) =~= b@);
    while i < a.len() && i < b.len() && a[i] == b[i]
        invariant
            i <= a@.len(),
            i <= b@.len(),
            bytes_less(a@, b@) == bytes_less(a@.skip(i as int), b@.skip(i as int)),
        decreases a@.len() - i,
    {
        assert(a@.skip(i as int).drop_first() =~= a@.skip(i + 1));
        assert(b@.skip(i as int).drop_first() =~= b@.skip(i + 1));
        i = i + 1;
    }
    if i < a.len() && i < b.len() {
        a[i] < b[i]
    } else {
        i == a.len() && i < b.len()
    }
}

/// Whether entry `i` comes before entry `j` under `order`.
fn rank_before(entries: &Vec<Entry>, order: &Order, i: usize, j: usize) -> (r: bool)
    requires
        i < entries@.len(),
        j < entries@.len(),
        order_fits(entries@, *order),
    ensures
        r == ranks_before(entries@, *order, i as int, j as int),
{
    match order {
        Order::Frequency => {
            let ci = entries[i].count;
            let cj = entries[j].count;
            assert(ci == entries@[i as int].count);
            ci > cj || (ci == cj && i < j)
        },
        Order::Alphabetical => {
            let a = entries[i].value.as_str().as_bytes();
            let b = entries[j].value.as_str().as_bytes();
            proof {
                if a@ != b@ {
                    lemma_bytes_less_total(a@, b@);
                }
            }
            if bytes_before(a, b) {
                true
            } else if i < j {
                !bytes_before(b, a)
            } else {
                false
            }
        },
        Order::Numeric(keys) => {
            let ki = keys[i];
            let kj = keys[j];
            ki < kj || (ki == kj && i < j)
        },
    }
}


/// Merges two position lists, each in rank order and with no position in
/// common, into one list in rank order.
fn merge_positions(
    entries: &Vec<Entry>,
    order: &Order,
    left: Vec<usize>,
    right: Vec<usize>,
) -> (out: Vec<usize>)
    requires
        order_fits(entries@, *order),
        forall|a: int| 0 <= a < left@.len() ==> #[trigger] left@[a] < entries@.len(),
        forall|b: int| 0 <= b < right@.len() ==> #[trigger] right@[b] < entries@.len(),
        in_rank_order(entries@, *order, left@),
        in_rank_order(entries@, *order, right@),
        forall|a: int, b: int|
            0 <= a < left@.len() && 0 <= b < right@.len() ==> #[trigger] left@[a]
                != #[trigger] right@[b],
    ensures
        out@.len() == left@.len() + right@.len(),
        forall|k: int|
            0 <= k < out@.len() ==> left@.contains(#[trigger] out@[k]) || right@.contains(
                out@[k],
            ),
        in_rank_order(entries@, *order, out@),
{
    let mut out: Vec<usize> = Vec::new();
    let mut i: usize = 0;
    let mut j: usize = 0;
    while i < left.len() || j < right.len()
        invariant
            order_fits(entries@, *order),
            forall|a: int| 0 <= a < left@.len() ==> #[trigger] left@[a] < entries@.len(),
            forall|b: int| 0 <= b < right@.len() ==> #[trigger] right@[b] < entries@.len(),
            in_rank_order(entries@, *order, left@),
            in_rank_order(entries@, *order, right@),
            forall|a: int, b: int|
                0 <= a < left@.len() && 0 <= b < right@.len() ==> #[trigger] left@[a]
                    != #[trigger] right@[b],
            i <= left@.len(),
            j <= right@.len(),
            out@.len() == i + j,
            forall|k: int|
                0 <= k < out@.len() ==> left@.contains(#[trigger] out@[k]) || right@.contains(
                    out@[k],
                ),
            in_rank_order(entries@, *order, out@),
            out@.len() > 0 && i < left@.len() ==> ranks_before(
                entries@,
                *order,
                out@.last() as int,
                left@[i as int] as int,
            ),
            out@.len() > 0 && j < right@.len() ==> ranks_before(
                entries@,
                *order,
                out@.last() as int,
                right@[j as int] as int,
            ),
        decreases left@.len() + right@.len() - i - j,
    {
        let take_left = if i < left.len() {
            if j < right.len() {
                rank_before(entries, order, left[i], right[j])
            } else {
                true
            }
        } else {
            false
        };
        let x = if take_left {
            left[i]
        } else {
            right[j]
        };
        proof {
            if !take_left && i < left@.len() {
                lemma_rank_total(entries@, *order, left@[i as int] as int, right@[j as int] as int);
            }
            let old_out = out@;
            let new_out = old_out.push(x);
            assert forall|a: int, b: int| 0 <= a < b < new_out.len() implies #[trigger] ranks_before(
                entries@,
                *order,
                new_out[a] as int,
                new_out[b] as int,
            ) by {
                if b == old_out.len() && a < old_out.len() - 1 {
                    assert(ranks_before(
                        entries@,
                        *order,
                        old_out[a] as int,
                        old_out[old_out.len() - 1] as int,
                    ));
                    lemma_rank_transitive(
                        entries@,
                        *order,
                        old_out[a] as int,
                        old_out.last() as int,
                        x as int,
                    );
                } else if b < old_out.len() {
                    assert(new_out[a] == old_out[a] && new_out[b] == old_out[b]);
                }
            }
            if take_left {
                if i + 1 < left@.len() {
                    assert(ranks_before(
                        entries@,
                        *order,
                        left@[i as int] as int,
                        left@[i + 1] as int,
                    ));
                }
                assert(left@.contains(x));
            } else {
                if j + 1 < right@.len() {
                    assert(ranks_before(
                        entries@,
                        *order,
                        right@[j as int] as int,
                        right@[j + 1] as int,
                    ));
                }
                assert(right@.contains(x));
            }
        }
        out.push(x);
        if take_left {
            i = i + 1;
        } else {
            j = j + 1;
        }
    }
    out
}

/// Sorts the distinct positions `v` into rank order.
fn sort_positions(entries: &Vec<Entry>, order: &Order, v: Vec<usize>) -> (r: Vec<usize>)
    requires
        order_fits(entries@, *order),
        forall|k: int| 0 <= k < v@.len() ==> #[trigger] v@[k] < entries@.len(),
        v@.no_duplicates(),
    ensures
        r@.len() == v@.len(),
        forall|k: int| 0 <= k < r@.len() ==> v@.contains(#[trigger] r@[k]),
        in_rank_order(entries@, *order, r@),
    decreases v@.len(),
{
    if v.len() <= 1 {
        return v;
    }
    let ghost all = v@;
    let mut left = v;
    let mid = left.len() / 2;
    let right = left.split_off(mid);
    assert(left@ == all.subrange(0, mid as int));
    assert(right@ == all.subrange(mid as int, all.len() as int));
    assert forall|k: int| 0 <= k < left@.len() implies #[trigger] left@[k] < entries@.len() by {
        assert(left@[k] == all[k]);
    }
    assert forall|k: int| 0 <= k < right@.len() implies #[trigger] right@[k] < entries@.len() by {
        assert(right@[k] == all[k + mid]);
    }
    assert(left@.no_duplicates()) by {
        assert forall|a: int, b: int| 0 <= a < left@.len() && 0 <= b < left@.len() && a != b implies left@[a] != left@[b] by {
            assert(left@[a] == all[a] && left@[b] == all[b]);
        }
    }
    assert(right@.no_duplicates()) by {
        assert forall|a: int, b: int| 0 <= a < right@.len() && 0 <= b < right@.len() && a != b implies right@[a] != right@[b] by {
            assert(right@[a] == all[a + mid] && right@[b] == all[b + mid]);
        }
    }
    let ghost lv = left@;
    let ghost rv = right@;
    let sorted_left = sort_positions(entries, order, left);
    let sorted_right = sort_positions(entries, order, right);
    assert forall|a: int, b: int|
        0 <= a < sorted_left@.len() && 0 <= b < sorted_right@.len() implies #[trigger] sorted_left@[a]
        != #[trigger] sorted_right@[b] by {
        assert(lv.contains(sorted_left@[a]));
        assert(rv.contains(sorted_right@[b]));
        let p = choose|p: int| 0 <= p < lv.len() && lv[p] == sorted_left@[a];
        let q = choose|q: int| 0 <= q < rv.len() && rv[q] == sorted_right@[b];
        assert(all[p] == lv[p]);
        assert(all[q + mid] == rv[q]);
    }
    assert forall|a: int| 0 <= a < sorted_left@.len() implies #[trigger] sorted_left@[a]
        < entries@.len() by {
        assert(lv.contains(sorted_left@[a]));
    }
    assert forall|b: int| 0 <= b < sorted_right@.len() implies #[trigger] sorted_right@[b]
        < entries@.len() by {
        assert(rv.contains(sorted_right@[b]));
    }
    let r = merge_positions(entries, order, sorted_left, sorted_right);
    assert forall|k: int| 0 <= k < r@.len() implies all.contains(#[trigger] r@[k]) by {
        if sorted_left@.contains(r@[k]) {
            let a = choose|a: int| 0 <= a < sorted_left@.len() && sorted_left@[a] == r@[k];
            assert(lv.contains(sorted_left@[a]));
            let p = choose|p: int| 0 <= p < lv.len() && lv[p] == sorted_left@[a];
            assert(all[p] == lv[p]);
        } else {
            let b = choose|b: int| 0 <= b < sorted_right@.len() && sorted_right@[b] == r@[k];
            assert(rv.contains(sorted_right@[b]));
            let q = choose|q: int| 0 <= q < rv.len() && rv[q] == sorted_right@[b];
            assert(all[q + mid] == rv[q]);
        }
    }
    r
}

/// The positions of `entries`, listed in the order `order` gives them.
pub fn ranking(entries: &Vec<Entry>, order: &Order) -> (p: Vec<usize>)
    requires
        order_fits(entries@, *order),
    ensures
        is_ranking(entries@, *order, p@),
{
    let n = entries.len();
    let mut v: Vec<usize> = Vec::new();
    for i in 0..n
        invariant
            n == entries@.len(),
            v@.len() == i,
            forall|k: int| 0 <= k < i ==> #[trigger] v@[k] == k,
    {
        v.push(i);
    }
    let r = sort_positions(entries, order, v);
    assert forall|a: int| 0 <= a < r@.len() implies #[trigger] r@[a] < entries@.len() by {
        assert(v@.contains(r@[a]));
    }
    r
}

/// Rearranges `entries` as `order` gives them, the way the rows of a histogram
/// are sorted before they are printed.
pub fn sort_entries(entries: &mut Vec<Entry>, order: &Order)
    requires
        order_fits(old(entries)@, *order),
    ensures
        is_arranged(old(entries)@, *order, final(entries)@),
{
    let p = ranking(entries, order);
    let mut sorted: Vec<Entry> = Vec::new();
    for a in 0..p.len()
        invariant
            is_ranking(entries@, *order, p@),
            sorted@.len() == a,
            forall|k: int| 0 <= k < a ==> #[trigger] sorted@[k] == entries@[p@[k] as int],
    {
        sorted.push(entries[p[a]].duplicate());
    }
    let ghost before = entries@;
    *entries = sorted;
    assert(is_ranking(before, *order, p@));
}


proof fn lemma_distinct_below_bound(s: Seq<usize>, n: nat)
    requires
        s.no_duplicates(),
        forall|a: int| 0 <= a < s.len() ==> #[trigger] s[a] < n,
    ensures
        s.len() <= n,
    decreases n,
{
    if n == 0 {
        if s.len() > 0 {
            assert(s[0] < n);
        }
    } else if s.contains((n - 1) as usize) {
        let i = choose|i: int| 0 <= i < s.len() && s[i] == (n - 1) as usize;
        let t = s.remove(i);
        assert forall|a: int| 0 <= a < t.len() implies #[trigger] t[a] < (n - 1) as nat by {
            if a < i {
                assert(t[a] == s[a]);
            } else {
                assert(t[a] == s[a + 1]);
            }
        }
        assert(t.no_duplicates()) by {
            assert forall|a: int, b: int| 0 <= a < t.len() && 0 <= b < t.len() && a != b implies t[a]
                != t[b] by {
                let sa = if a < i {
                    a
                } else {
                    a + 1
                };
                let sb = if b < i {
                    b
                } else {
                    b + 1
                };
                assert(t[a] == s[sa] && t[b] == s[sb]);
            }
        }
        lemma_distinct_below_bound(t, (n - 1) as nat);
    } else {
        assert forall|a: int| 0 <= a < s.len() implies #[trigger] s[a] < (n - 1) as nat by {
            assert(s[a] != (n - 1) as usize);
        }
        lemma_distinct_below_bound(s, (n - 1) as nat);
    }
}

proof fn lemma_distinct_covers(s: Seq<usize>, n: nat, k: usize)
    requires
        s.no_duplicates(),
        s.len() == n,
        forall|a: int| 0 <= a < s.len() ==> #[trigger] s[a] < n,
        k < n,
    ensures
        s.contains(k),
{
    if !s.contains(k) {
        let top = (n - 1) as usize;
        let t = s.map_values(|x: usize| if x == top {
            k
        } else {
            x
        });
        assert forall|a: int| 0 <= a < t.len() implies #[trigger] t[a] < (n - 1) as nat by {
            if s[a] == top {
                if k == top {
                    assert(s.contains(k));
                }
            }
        }
        assert(t.no_duplicates()) by {
            assert forall|a: int, b: int| 0 <= a < t.len() && 0 <= b < t.len() && a != b implies t[a]
                != t[b] by {
                if s[a] == top && s[b] != top {
                    assert(s.contains(s[b]));
                } else if s[b] == top && s[a] != top {
                    assert(s.contains(s[a]));
                }
            }
        }
        lemma_distinct_below_bound(t, (n - 1) as nat);
    }
}

/// A ranking lists every position exactly once: it is a permutation.
pub proof fn lemma_ranking_is_permutation(entries: Seq<Entry>, order: Order, p: Seq<usize>)
    requires
        is_ranking(entries, order, p),
    ensures
        p.no_duplicates(),
        forall|k: usize| k < entries.len() ==> #[trigger] p.contains(k),
{
    assert forall|a: int, b: int| 0 <= a < p.len() && 0 <= b < p.len() && a != b implies p[a]
        != p[b] by {
        if a < b {
            assert(ranks_before(entries, order, p[a] as int, p[b] as int));
        } else {
            assert(ranks_before(entries, order, p[b] as int, p[a] as int));
        }
        if p[a] == p[b] {
            lemma_rank_irreflexive(entries, order, p[a] as int);
        }
    }
    assert forall|k: usize| k < entries.len() implies #[trigger] p.contains(k) by {
        lemma_distinct_covers(p, entries.len(), k);
    }
}

proof fn lemma_rankings_agree_below(
    entries: Seq<Entry>,
    order: Order,
    p: Seq<usize>,
    q: Seq<usize>,
    a: int,
)
    requires
        is_ranking(entries, order, p),
        is_ranking(entries, order, q),
        0 <= a <= p.len(),
    ensures
        forall|b: int| 0 <= b < a ==> p[b] == q[b],
    decreases a,
{
    if a > 0 {
        lemma_rankings_agree_below(entries, order, p, q, a - 1);
        lemma_ranking_is_permutation(entries, order, p);
        lemma_ranking_is_permutation(entries, order, q);
        let b = a - 1;
        let x = p[b];
        let y = q[b];
        if x != y {
            assert(q.contains(x));
            let c = choose|c: int| 0 <= c < q.len() && q[c] == x;
            assert(p.contains(y));
            let d = choose|d: int| 0 <= d < p.len() && p[d] == y;
            if c < b {
                assert(p[c] == q[c]);
            } else if d < b {
                assert(p[d] == q[d]);
            } else {
                assert(ranks_before(entries, order, q[b] as int, q[c] as int));
                assert(ranks_before(entries, order, p[b] as int, p[d] as int));
                lemma_rank_asymmetric(entries, order, x as int, y as int);
            }
        }
    }
}

/// There is only one ranking of a list under an order: sorting has one result.
pub proof fn lemma_ranking_unique(entries: Seq<Entry>, order: Order, p: Seq<usize>, q: Seq<usize>)
    requires
        is_ranking(entries, order, p),
        is_ranking(entries, order, q),
    ensures
        p == q,
{
    lemma_rankings_agree_below(entries, order, p, q, p.len() as int);
    assert(p =~= q);
}

/// Sorting keeps every entry and adds none: each entry of the unsorted list
/// stands in the sorted one, at exactly one place, and the lengths agree.
pub proof fn lemma_arranged_keeps_entries(
    entries: Seq<Entry>,
    order: Order,
    sorted: Seq<Entry>,
    k: usize,
)
    requires
        is_arranged(entries, order, sorted),
        k < entries.len(),
    ensures
        sorted.len() == entries.len(),
        exists|a: int| 0 <= a < sorted.len() && sorted[a] == entries[k as int],
{
    let p = choose|p: Seq<usize>|
        #![trigger is_ranking(entries, order, p)]
        is_ranking(entries, order, p) && sorted.len() == p.len() && forall|a: int|
            0 <= a < p.len() ==> #[trigger] sorted[a] == entries[p[a] as int];
    lemma_ranking_is_permutation(entries, order, p);
    assert(p.contains(k));
    let a = choose|a: int| 0 <= a < p.len() && p[a] == k;
    assert(sorted[a] == entries[k as int]);
}

/// Sorted by frequency, the counts never increase down the list: the most
/// frequent value comes first.
pub proof fn lemma_frequency_order_descends(entries: Seq<Entry>, sorted: Seq<Entry>, a: int, b: int)
    requires
        is_arranged(entries, Order::Frequency, sorted),
        0 <= a < b < sorted.len(),
    ensures
        sorted[a].count >= sorted[b].count,
{
    let p = choose|p: Seq<usize>|
        #![trigger is_ranking(entries, Order::Frequency, p)]
        is_ranking(entries, Order::Frequency, p) && sorted.len() == p.len() && forall|i: int|
            0 <= i < p.len() ==> #[trigger] sorted[i] == entries[p[i] as int];
    assert(ranks_before(entries, Order::Frequency, p[a] as int, p[b] as int));
    assert(sorted[a] == entries[p[a] as int]);
    assert(sorted[b] == entries[p[b] as int]);
}

/// Sorted by value, the values' UTF-8 bytes never decrease down the list.
pub proof fn lemma_alphabetical_order_ascends(
    entries: Seq<Entry>,
    sorted: Seq<Entry>,
    a: int,
    b: int,
)
    requires
        is_arranged(entries, Order::Alphabetical, sorted),
        0 <= a < b < sorted.len(),
    ensures
        !bytes_less(encode_utf8(sorted[b].value@), encode_utf8(sorted[a].value@)),
{
    let p = choose|p: Seq<usize>|
        #![trigger is_ranking(entries, Order::Alphabetical, p)]
        is_ranking(entries, Order::Alphabetical, p) && sorted.len() == p.len() && forall|i: int|
            0 <= i < p.len() ==> #[trigger] sorted[i] == entries[p[i] as int];
    assert(ranks_before(entries, Order::Alphabetical, p[a] as int, p[b] as int));
    assert(sorted[a] == entries[p[a] as int]);
    assert(sorted[b] == entries[p[b] as int]);
    let x = encode_utf8(sorted[a].value@);
    let y = encode_utf8(sorted[b].value@);
    if bytes_less(x, y) {
        lemma_bytes_less_antisymmetric(x, y);
    } else {
        lemma_bytes_less_irreflexive(x);
    }
}

/// In a ranking by numeric keys the keys never decrease (compared as the
/// unsigned numbers they are), and positions with equal keys keep their input
/// order.
pub proof fn lemma_numeric_ranking_ascends(
    entries: Seq<Entry>,
    keys: Vec<u64>,
    p: Seq<usize>,
    a: int,
    b: int,
)
    requires
        is_ranking(entries, Order::Numeric(keys), p),
        0 <= a < b < p.len(),
    ensures
        keys@[p[a] as int] <= keys@[p[b] as int],
        keys@[p[a] as int] == keys@[p[b] as int] ==> p[a] < p[b],
{
    assert(ranks_before(entries, Order::Numeric(keys), p[a] as int, p[b] as int));
}

/// Sorted under numeric keys, the key of each entry is at most the key of
/// every entry below it.
pub proof fn lemma_numeric_order_ascends(
    entries: Seq<Entry>,
    keys: Vec<u64>,
    sorted: Seq<Entry>,
    a: int,
    b: int,
)
    requires
        is_arranged(entries, Order::Numeric(keys), sorted),
        0 <= a < b < sorted.len(),
    ensures
        exists|i: int, j: int|
            0 <= i < entries.len() && 0 <= j < entries.len() && sorted[a] == entries[i] && sorted[b]
                == entries[j] && #[trigger] keys@[i] <= #[trigger] keys@[j],
{
    let p = choose|p: Seq<usize>|
        #![trigger is_ranking(entries, Order::Numeric(keys), p)]
        is_ranking(entries, Order::Numeric(keys), p) && sorted.len() == p.len() && forall|i: int|
            0 <= i < p.len() ==> #[trigger] sorted[i] == entries[p[i] as int];
    lemma_numeric_ranking_ascends(entries, keys, p, a, b);
    assert(sorted[a] == entries[p[a] as int]);
    assert(sorted[b] == entries[p[b] as int]);
    assert(keys@[p[a] as int] <= keys@[p[b] as int]);
}

/// In a ranking by frequency the counts never increase, and positions with
/// equal counts keep their input order.
pub proof fn lemma_frequency_ranking_descends(
    entries: Seq<Entry>,
    p: Seq<usize>,
    a: int,
    b: int,
)
    requires
        is_ranking(entries, Order::Frequency, p),
        0 <= a < b < p.len(),
    ensures
        entries[p[a] as int].count >= entries[p[b] as int].count,
        entries[p[a] as int].count == entries[p[b] as int].count ==> p[a] < p[b],
{
    assert(ranks_before(entries, Order::Frequency, p[a] as int, p[b] as int));
}

/// Sorting by numeric keys is a stable sort by those keys: the sorted list is
/// the input rearranged by a permutation `p` under which the keys, read as the
/// unsigned numbers they are, never decrease, and entries with equal keys keep
/// their input order.
pub proof fn lemma_numeric_sort_is_stable(entries: Seq<Entry>, keys: Vec<u64>, sorted: Seq<Entry>)
    requires
        is_arranged(entries, Order::Numeric(keys), sorted),
    ensures
        exists|p: Seq<usize>|
            #![trigger p.no_duplicates()]
            p.len() == entries.len() && sorted.len() == entries.len() && p.no_duplicates() && (
            forall|a: int|
                0 <= a < p.len() ==> #[trigger] p[a] < entries.len() && sorted[a] == entries[p[a] as int])
                && (forall|a: int, b: int|
                #![trigger p[a], p[b]]
                0 <= a < b < p.len() ==> keys@[p[a] as int] <= keys@[p[b] as int] && (keys@[p[a] as int]
                    == keys@[p[b] as int] ==> p[a] < p[b])),
{
    let p = choose|p: Seq<usize>|
        #![trigger is_ranking(entries, Order::Numeric(keys), p)]
        is_ranking(entries, Order::Numeric(keys), p) && sorted.len() == p.len() && forall|i: int|
            0 <= i < p.len() ==> #[trigger] sorted[i] == entries[p[i] as int];
    lemma_ranking_is_permutation(entries, Order::Numeric(keys), p);
    assert forall|a: int, b: int| 0 <= a < b < p.len() implies keys@[p[a] as int] <= keys@[p[b] as int]
        && (keys@[p[a] as int] == keys@[p[b] as int] ==> p[a] < p[b]) by {
        lemma_numeric_ranking_ascends(entries, keys, p, a, b);
    }
}

/// Sorting by frequency is a stable sort by count, largest first: the sorted
/// list is the input rearranged by a permutation `p` under which the counts
/// never increase, and entries with equal counts keep their input order.
pub proof fn lemma_frequency_sort_is_stable(entries: Seq<Entry>, sorted: Seq<Entry>)
    requires
        is_arranged(entries, Order::Frequency, sorted),
    ensures
        exists|p: Seq<usize>|
            #![trigger p.no_duplicates()]
            p.len() == entries.len() && sorted.len() == entries.len() && p.no_duplicates() && (
            forall|a: int|
                0 <= a < p.len() ==> #[trigger] p[a] < entries.len() && sorted[a] == entries[p[a] as int])
                && (forall|a: int, b: int|
                #![trigger p[a], p[b]]
                0 <= a < b < p.len() ==> entries[p[a] as int].count >= entries[p[b] as int].count && (
                entries[p[a] as int].count == entries[p[b] as int].count ==> p[a] < p[b])),
{
    let p = choose|p: Seq<usize>|
        #![trigger is_ranking(entries, Order::Frequency, p)]
        is_ranking(entries, Order::Frequency, p) && sorted.len() == p.len() && forall|i: int|
            0 <= i < p.len() ==> #[trigger] sorted[i] == entries[p[i] as int];
    lemma_ranking_is_permutation(entries, Order::Frequency, p);
    assert forall|a: int, b: int| 0 <= a < b < p.len() implies entries[p[a] as int].count
        >= entries[p[b] as int].count && (entries[p[a] as int].count == entries[p[b] as int].count
        ==> p[a] < p[b]) by {
        lemma_frequency_ranking_descends(entries, p, a, b);
    }
}

/// Sorting by value is a stable sort by the values' UTF-8 bytes: the sorted
/// list is the input rearranged by a permutation `p` under which no value's
/// bytes come lexicographically before those of a value above it, and entries
/// with equal values keep their input order.
pub proof fn lemma_alphabetical_sort_is_stable(entries: Seq<Entry>, sorted: Seq<Entry>)
    requires
        is_arranged(entries, Order::Alphabetical, sorted),
    ensures
        exists|p: Seq<usize>|
            #![trigger p.no_duplicates()]
            p.len() == entries.len() && sorted.len() == entries.len() && p.no_duplicates() && (
            forall|a: int|
                0 <= a < p.len() ==> #[trigger] p[a] < entries.len() && sorted[a] == entries[p[a] as int])
                && (forall|a: int, b: int|
                #![trigger p[a], p[b]]
                0 <= a < b < p.len() ==> !bytes_less(
                    encode_utf8(entries[p[b] as int].value@),
                    encode_utf8(entries[p[a] as int].value@),
                ) && (entries[p[a] as int].value@ == entries[p[b] as int].value@ ==> p[a] < p[b])),
{
    let p = choose|p: Seq<usize>|
        #![trigger is_ranking(entries, Order::Alphabetical, p)]
        is_ranking(entries, Order::Alphabetical, p) && sorted.len() == p.len() && forall|i: int|
            0 <= i < p.len() ==> #[trigger] sorted[i] == entries[p[i] as int];
    lemma_ranking_is_permutation(entries, Order::Alphabetical, p);
    assert forall|a: int, b: int| 0 <= a < b < p.len() implies !bytes_less(
        encode_utf8(entries[p[b] as int].value@),
        encode_utf8(entries[p[a] as int].value@),
    ) && (entries[p[a] as int].value@ == entries[p[b] as int].value@ ==> p[a] < p[b]) by {
        assert(ranks_before(entries, Order::Alphabetical, p[a] as int, p[b] as int));
        let x = encode_utf8(entries[p[a] as int].value@);
        let y = encode_utf8(entries[p[b] as int].value@);
        if bytes_less(x, y) {
            lemma_bytes_less_antisymmetric(x, y);
        } else {
            lemma_bytes_less_irreflexive(x);
        }
        if entries[p[a] as int].value@ == entries[p[b] as int].value@ {
            lemma_bytes_less_irreflexive(x);
        }
    }
}

} // verus!
