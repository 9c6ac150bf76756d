use vstd::prelude::*;
use vstd::hash_map::StringHashMap;

verus! {

broadcast use vstd::seq_lib::group_to_multiset_ensures;

/// One row of a histogram: a distinct value and how often it occurs.
#[derive(Debug)]
pub struct Entry {
    pub value: String,
    pub count: usize,
}

impl Entry {
    /// A copy of this entry.
    pub fn duplicate(&self) -> (r: Entry)
        ensures
            r == *self,
    {
        Entry { value: self.value.clone(), count: self.count }
    }
}

/// The position of the first occurrence of `x` in `s` (`s.len()` if none).
pub open spec fn first_index<A>(s: Seq<A>, x: A) -> int
    decreases s.len(),
{
    if s.len() == 0 {
        0
    } else if s[0] == x {
        0
    } else {
        1 + first_index(s.drop_first(), x)
    }
}

/// The values in column `col` of `rows`, in row order. A row with no field
/// at `col` gives nothing.
pub open spec fn column_values(rows: Seq<Seq<Seq<char>>>, col: int) -> Seq<Seq<char>>
    decreases rows.len(),
{
    if rows.len() == 0 {
        Seq::empty()
    } else {
        let earlier = column_values(rows.drop_last(), col);
        if 0 <= col < rows.last().len() {
            earlier.push(rows.last()[col])
        } else {
            earlier
        }
    }
}

/// The sum of the counts of `table`.
pub open spec fn total_count(table: Seq<Entry>) -> nat
    decreases table.len(),
{
    if table.len() == 0 {
        0
    } else {
        total_count(table.drop_last()) + table.last().count as nat
    }
}

/// The sum of `s`.
pub open spec fn sum_of(s: Seq<usize>) -> nat
    decreases s.len(),
{
    if s.len() == 0 {
        0
    } else {
        sum_of(s.drop_last()) + s.last() as nat
    }
}

proof fn lemma_sum_of_update(s: Seq<usize>, i: int, x: usize)
    requires
        0 <= i < s.len(),
    ensures
        sum_of(s.update(i, x)) == sum_of(s) - s[i] + x,
    decreases s.len(),
{
    let t = s.update(i, x);
    if i == s.len() - 1 {
        assert(t.drop_last() =~= s.drop_last());
    } else {
        assert(t.drop_last() =~= s.drop_last().update(i, x));
        lemma_sum_of_update(s.drop_last(), i, x);
    }
}

/// Some entry of `table` has the value `v`.
pub open spec fn lists_value(table: Seq<Entry>, v: Seq<char>) -> bool {
    exists|i: int| 0 <= i < table.len() && #[trigger] table[i].value@ == v
}

/// `table` is the frequency table of `values`: every distinct value listed
/// once, with the number of times it occurs, in the order in which the
/// values first occur.
pub open spec fn is_frequency_table(values: Seq<Seq<char>>, table: Seq<Entry>) -> bool {
    &&& forall|i: int|
        0 <= i < table.len() ==> values.contains(#[trigger] table[i].value@) && table[i].count
            == values.to_multiset().count(table[i].value@)
    &&& forall|k: int| 0 <= k < values.len() ==> lists_value(table, #[trigger] values[k])
    &&& forall|i: int, j: int|
        0 <= i < j < table.len() ==> first_index(values, #[trigger] table[i].value@) < first_index(
            values,
            #[trigger] table[j].value@,
        )
}

proof fn lemma_first_index_at_most<A>(s: Seq<A>, x: A, k: int)
    requires
        0 <= k < s.len(),
        s[k] == x,
    ensures
        first_index(s, x) <= k,
    decreases k,
{
    if k > 0 && s[0] != x {
        lemma_first_index_at_most(s.drop_first(), x, k - 1);
    }
}

pub proof fn lemma_first_index_is<A>(s: Seq<A>, x: A, k: int)
    requires
        0 <= k < s.len(),
        s[k] == x,
        forall|m: int| 0 <= m < k ==> s[m] != x,
    ensures
        first_index(s, x) == k,
    decreases k,
{
    if k > 0 {
        assert(s[0] != x);
        let t = s.drop_first();
        assert forall|m: int| 0 <= m < k - 1 implies t[m] != x by {
            assert(t[m] == s[m + 1]);
        }
        lemma_first_index_is(t, x, k - 1);
    }
}

/// The first index of `x` in `s` is where `x` first stands, or `s.len()` when
/// it does not occur.
pub proof fn lemma_first_index_bounds<A>(s: Seq<A>, x: A)
    ensures
        0 <= first_index(s, x) <= s.len(),
        first_index(s, x) < s.len() ==> s[first_index(s, x)] == x,
        forall|j: int| 0 <= j < first_index(s, x) ==> #[trigger] s[j] != x,
    decreases s.len(),
{
    if s.len() > 0 && s[0] != x {
        let t = s.drop_first();
        lemma_first_index_bounds(t, x);
        assert forall|j: int| 0 <= j < first_index(s, x) implies #[trigger] s[j] != x by {
            if j > 0 {
                assert(s[j] == t[j - 1]);
            }
        }
    }
}

/// If `x` does not occur in `s`, its first index is `s.len()`.
pub proof fn lemma_first_index_absent<A>(s: Seq<A>, x: A)
    requires
        forall|m: int| 0 <= m < s.len() ==> s[m] != x,
    ensures
        first_index(s, x) == s.len(),
    decreases s.len(),
{
    if s.len() > 0 {
        let t = s.drop_first();
        assert forall|m: int| 0 <= m < t.len() implies t[m] != x by {
            assert(t[m] == s[m + 1]);
        }
        lemma_first_index_absent(t, x);
    }
}

/// The values in column `col` of `rows`, in row order, skipping rows that
/// have no field there.
pub fn column_of(rows: &Vec<Vec<String>>, col: usize) -> (values: Vec<String>)
    ensures
        values.deep_view() == column_values(rows.deep_view(), col as int),
{
    let mut values: Vec<String> = Vec::new();
    let n = rows.len();
    for r in 0..n
        invariant
            n == rows@.len(),
            values.deep_view() == column_values(rows.deep_view().take(r as int), col as int),
    {
        let ghost before = values.deep_view();
        let row = &rows[r];
        assert(rows.deep_view().take(r + 1).drop_last() =~= rows.deep_view().take(r as int));
        assert(rows.deep_view().take(r + 1).last() == row.deep_view());
        if col < row.len() {
            values.push(row[col].clone());
            assert(values.deep_view() =~= before.push(row.deep_view()[col as int]));
        }
    }
    assert(rows.deep_view().take(n as int) =~= rows.deep_view());
    values
}

/// Counts how often each distinct value occurs in `values`, listing the
/// distinct values in the order of their first occurrence.
#[verifier::spinoff_prover]
pub fn frequency_table(values: &Vec<String>) -> (table: Vec<Entry>)
    ensures
        is_frequency_table(values.deep_view(), table@),
        total_count(table@) == values@.len(),
{
    let ghost vals = values.deep_view();
    let n = values.len();
    let mut index: StringHashMap<usize> = StringHashMap::new();
    let mut distinct: Vec<String> = Vec::new();
    let mut counts: Vec<usize> = Vec::new();
    let mut k: usize = 0;
    while k < n
        invariant
            k <= n,
            n == values@.len(),
            vals == values.deep_view(),
            distinct@.len() == counts@.len(),
            sum_of(counts@) == k,
            forall|i: int|
                0 <= i < distinct@.len() ==> vals.take(k as int).contains(
                    #[trigger] distinct@[i]@,
                ) && counts@[i] == vals.take(k as int).to_multiset().count(distinct@[i]@)
                    && counts@[i] <= k && first_index(vals, distinct@[i]@) < k,
            forall|m: int|
                0 <= m < k ==> exists|i: int|
                    0 <= i < distinct@.len() && #[trigger] distinct@[i]@ == #[trigger] vals[m],
            forall|i: int, j: int|
                0 <= i < j < distinct@.len() ==> first_index(vals, #[trigger] distinct@[i]@)
                    < first_index(vals, #[trigger] distinct@[j]@),
            forall|key: Seq<char>|
                #[trigger] index@.contains_key(key) <==> exists|i: int|
                    0 <= i < distinct@.len() && #[trigger] distinct@[i]@ == key,
            forall|i: int|
                0 <= i < distinct@.len() ==> #[trigger] index@.contains_key(distinct@[i]@)
                    && index@[distinct@[i]@] == i,
        decreases n - k,
    {
        let v = &values[k];
        assert(vals[k as int] == v@);
        let ghost pre = vals.take(k as int);
        let ghost post = vals.take(k + 1);
        assert(post =~= pre.push(v@));
        let found: Option<usize> = match index.get(v.as_str()) {
            Some(p) => Some(*p),
            None => None,
        };
        match found {
            Some(pos) => {
                let ghost wi = choose|i: int| 0 <= i < distinct@.len() && distinct@[i]@ == v@;
                assert(index@[distinct@[wi]@] == wi);
                assert(pos == wi);
                let c = counts[pos];
                proof {
                    lemma_sum_of_update(counts@, pos as int, (c + 1) as usize);
                }
                counts.set(pos, c + 1);
                assert forall|i: int| 0 <= i < distinct@.len() implies post.contains(
                    #[trigger] distinct@[i]@,
                ) && counts@[i] == post.to_multiset().count(distinct@[i]@) && counts@[i] <= k + 1
                    && first_index(vals, distinct@[i]@) < k + 1 by {
                    if i != pos {
                        assert(index@.contains_key(distinct@[i]@));
                        assert(index@[distinct@[i]@] == i);
                        assert(distinct@[i]@ != v@);
                    }
                    let w = choose|m: int| 0 <= m < pre.len() && pre[m] == distinct@[i]@;
                    assert(post[w] == pre[w]);
                }
                assert forall|m: int| 0 <= m < k + 1 implies exists|i: int|
                    0 <= i < distinct@.len() && #[trigger] distinct@[i]@ == #[trigger] vals[m] by {
                    if m == k {
                        assert(distinct@[pos as int]@ == vals[m]);
                    } else {
                        let i = choose|i: int|
                            0 <= i < distinct@.len() && #[trigger] distinct@[i]@ == vals[m];
                        assert(distinct@[i]@ == vals[m]);
                    }
                }
                assert forall|i: int| 0 <= i < distinct@.len() implies #[trigger] index@.contains_key(
                    distinct@[i]@,
                ) && index@[distinct@[i]@] == i by {}
            },
            None => {
                assert(!pre.contains(v@)) by {
                    if pre.contains(v@) {
                        let m = choose|m: int| 0 <= m < pre.len() && pre[m] == v@;
                        assert(vals[m] == pre[m]);
                        let i = choose|i: int|
                            0 <= i < distinct@.len() && #[trigger] distinct@[i]@ == vals[m];
                        assert(index@.contains_key(distinct@[i]@));
                    }
                }
                proof {
                    assert forall|m: int| 0 <= m < k implies vals[m] != v@ by {
                        assert(pre[m] == vals[m]);
                    }
                    lemma_first_index_is(vals, v@, k as int);
                }
                let ghost old_distinct = distinct@;
                let ghost old_counts = counts@;
                let ghost old_index = index@;
                let pos = distinct.len();
                index.insert(v.clone(), pos);
                distinct.push(v.clone());
                counts.push(1);
                assert(counts@.drop_last() =~= old_counts);
                assert forall|i: int| 0 <= i < distinct@.len() implies post.contains(
                    #[trigger] distinct@[i]@,
                ) && counts@[i] == post.to_multiset().count(distinct@[i]@) && counts@[i] <= k + 1
                    && first_index(vals, distinct@[i]@) < k + 1 by {
                    if i < old_distinct.len() {
                        assert(distinct@[i] == old_distinct[i]);
                        assert(counts@[i] == old_counts[i]);
                        assert(index@.contains_key(old_distinct[i]@));
                        assert(index@[old_distinct[i]@] == i);
                        assert(distinct@[i]@ != v@);
                        let w = choose|m: int| 0 <= m < pre.len() && pre[m] == distinct@[i]@;
                        assert(post[w] == pre[w]);
                    } else {
                        assert(post[k as int] == v@);
                        assert(pre.to_multiset().count(v@) == 0);
                    }
                }
                assert forall|m: int| 0 <= m < k + 1 implies exists|i: int|
                    0 <= i < distinct@.len() && #[trigger] distinct@[i]@ == #[trigger] vals[m] by {
                    if m == k {
                        assert(distinct@[pos as int]@ == vals[m]);
                    } else {
                        let i = choose|i: int|
                            0 <= i < old_distinct.len() && #[trigger] old_distinct[i]@ == vals[m];
                        assert(distinct@[i] == old_distinct[i]);
                    }
                }
                assert forall|key: Seq<char>| #[trigger]
                    index@.contains_key(key) <==> exists|i: int|
                        0 <= i < distinct@.len() && #[trigger] distinct@[i]@ == key by {
                    if index@.contains_key(key) && key != v@ {
                        let i = choose|i: int|
                            0 <= i < old_distinct.len() && #[trigger] old_distinct[i]@ == key;
                        assert(distinct@[i] == old_distinct[i]);
                    }
                    if key == v@ {
                        assert(distinct@[pos as int]@ == key);
                    }
                }
                assert forall|i: int| 0 <= i < distinct@.len() implies #[trigger] index@.contains_key(
                    distinct@[i]@,
                ) && index@[distinct@[i]@] == i by {
                    if i < old_distinct.len() {
                        assert(distinct@[i] == old_distinct[i]);
                        assert(old_index.contains_key(old_distinct[i]@));
                        assert(old_index[old_distinct[i]@] == i);
                        assert(old_distinct[i]@ != v@);
                    }
                }
            },
        }
        k = k + 1;
    }
    assert(vals.take(n as int) =~= vals);
    let mut table: Vec<Entry> = Vec::new();
    let ghost dv = distinct@;
    let ghost cv = counts@;
    assert forall|a: int| 0 <= a < dv.len() implies vals.contains(#[trigger] dv[a]@) && cv[a]
        == vals.to_multiset().count(dv[a]@) by {
        assert(vals.take(n as int).contains(distinct@[a]@));
    }
    let mut i: usize = 0;
    while i < distinct.len()
        invariant
            i <= distinct@.len(),
            dv == distinct@,
            cv == counts@,
            distinct@.len() == counts@.len(),
            table@.len() == i,
            total_count(table@) == sum_of(counts@.take(i as int)),
            forall|a: int|
                0 <= a < i ==> #[trigger] table@[a].value@ == distinct@[a]@ && table@[a].count
                    == counts@[a],
        decreases distinct@.len() - i,
    {
        let ghost before = table@;
        table.push(Entry { value: distinct[i].clone(), count: counts[i] });
        assert(table@.drop_last() =~= before);
        assert forall|a: int| 0 <= a < i + 1 implies #[trigger] table@[a].value@ == distinct@[a]@
            && table@[a].count == counts@[a] by {
            if a < i {
                assert(table@[a] == before[a]);
            }
        }
        assert(counts@.take(i + 1).drop_last() =~= counts@.take(i as int));
        i = i + 1;
    }
    assert(counts@.take(i as int) =~= counts@);
    assert forall|i: int| 0 <= i < table@.len() implies vals.contains(#[trigger] table@[i].value@)
        && table@[i].count == vals.to_multiset().count(table@[i].value@) by {
        assert(table@[i].value@ == dv[i]@);
    }
    assert forall|k: int| 0 <= k < vals.len() implies lists_value(table@, #[trigger] vals[k]) by {
        let i = choose|i: int| 0 <= i < distinct@.len() && #[trigger] distinct@[i]@ == vals[k];
        assert(table@[i].value@ == vals[k]);
    }
    assert forall|i: int, j: int| 0 <= i < j < table@.len() implies first_index(
        vals,
        #[trigger] table@[i].value@,
    ) < first_index(vals, #[trigger] table@[j].value@) by {
        assert(table@[i].value@ == distinct@[i]@);
        assert(table@[j].value@ == distinct@[j]@);
    }
    assert(is_frequency_table(vals, table@));
    table
}

/// A frequency table lists each value once.
pub proof fn lemma_table_values_distinct(values: Seq<Seq<char>>, table: Seq<Entry>, i: int, j: int)
    requires
        is_frequency_table(values, table),
        0 <= i < j < table.len(),
    ensures
        table[i].value@ != table[j].value@,
{
    assert(first_index(values, table[i].value@) < first_index(values, table[j].value@));
}

/// A frequency table lists exactly the values that occur, each with a count of
/// at least one.
pub proof fn lemma_table_lists_what_occurs(values: Seq<Seq<char>>, table: Seq<Entry>, v: Seq<char>)
    requires
        is_frequency_table(values, table),
    ensures
        lists_value(table, v) <==> values.contains(v),
        forall|i: int| 0 <= i < table.len() ==> #[trigger] table[i].count >= 1,
{
    broadcast use vstd::seq_lib::group_to_multiset_ensures;
    if values.contains(v) {
        let k = choose|k: int| 0 <= k < values.len() && values[k] == v;
        assert(lists_value(table, values[k]));
    }
    if lists_value(table, v) {
        let i = choose|i: int| 0 <= i < table.len() && table[i].value@ == v;
        assert(values.contains(table[i].value@));
    }
    assert forall|i: int| 0 <= i < table.len() implies #[trigger] table[i].count >= 1 by {
        assert(values.contains(table[i].value@));
    }
}

/// The values in a column are the fields at `col` of the rows that have one,
/// in row order.
pub proof fn lemma_column_values_are_fields(rows: Seq<Seq<Seq<char>>>, col: int)
    ensures
        column_values(rows, col) == rows.filter(|r: Seq<Seq<char>>| 0 <= col < r.len()).map_values(
            |r: Seq<Seq<char>>| r[col],
        ),
    decreases rows.len(),
{
    let has = |r: Seq<Seq<char>>| 0 <= col < r.len();
    let field = |r: Seq<Seq<char>>| r[col];
    if rows.len() == 0 {
        assert(rows.filter(has).map_values(field) =~= Seq::<Seq<char>>::empty());
    } else {
        lemma_column_values_are_fields(rows.drop_last(), col);
        reveal(Seq::filter);
        let earlier = rows.drop_last().filter(has);
        if has(rows.last()) {
            assert(rows.filter(has) == earlier.push(rows.last()));
            assert(earlier.push(rows.last()).map_values(field) =~= earlier.map_values(field).push(
                rows.last()[col],
            ));
        } else {
            assert(rows.filter(has) == earlier);
        }
    }
}

/// In a frequency table, a value listed above another occurs in the input
/// before the other's first occurrence.
pub proof fn lemma_table_follows_first_occurrence(
    values: Seq<Seq<char>>,
    table: Seq<Entry>,
    i: int,
    j: int,
)
    requires
        is_frequency_table(values, table),
        0 <= i < j < table.len(),
    ensures
        exists|k: int|
            0 <= k < values.len() && #[trigger] values[k] == table[i].value@ && forall|m: int|
                0 <= m <= k ==> #[trigger] values[m] != table[j].value@,
{
    let v = table[i].value@;
    let w = table[j].value@;
    assert(values.contains(v));
    assert(values.contains(w));
    lemma_first_index_bounds(values, v);
    lemma_first_index_bounds(values, w);
    let cv = choose|c: int| 0 <= c < values.len() && values[c] == v;
    if first_index(values, v) >= values.len() {
        assert(values[cv] != v);
    }
    let k = first_index(values, v);
    assert(first_index(values, v) < first_index(values, w));
    assert(values[k] == v);
}

} // verus!
