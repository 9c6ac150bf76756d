use vstd::prelude::*;
use vstd::string::StringSliceAdditionalSpecFns;
use vstd::utf8::encode_utf8;

use crate::frequency::{total_count, Entry};
use crate::text::{decimal_digits, decimal_width};

verus! {

/// The numbers that laying out the rows of a histogram as a table needs.
pub struct TableLayout {
    /// The length in bytes of the longest value.
    pub value_width: usize,
    /// The number of digits of the longest count.
    pub count_width: usize,
    /// The largest count.
    pub max_count: usize,
    /// The sum of the counts.
    pub total: usize,
    /// For each row, the sum of its count and the counts of the rows above
    /// it.
    pub running_totals: Vec<usize>,
}

/// The larger of two numbers.
pub open spec fn larger(a: nat, b: nat) -> nat {
    if a >= b {
        a
    } else {
        b
    }
}

/// The length in bytes (UTF-8) of the longest value of `table`; 0 if empty.
pub open spec fn widest_value(table: Seq<Entry>) -> nat
    decreases table.len(),
{
    if table.len() == 0 {
        0
    } else {
        larger(widest_value(table.drop_last()), encode_utf8(table.last().value@).len())
    }
}

/// The number of decimal digits of the longest count of `table`; 0 if empty.
pub open spec fn widest_count(table: Seq<Entry>) -> nat
    decreases table.len(),
{
    if table.len() == 0 {
        0
    } else {
        larger(widest_count(table.drop_last()), decimal_width(table.last().count as nat))
    }
}

/// The largest count of `table`; 0 if empty.
pub open spec fn largest_count(table: Seq<Entry>) -> nat
    decreases table.len(),
{
    if table.len() == 0 {
        0
    } else {
        larger(largest_count(table.drop_last()), table.last().count as nat)
    }
}

/// The largest count is at least every count and is the count of some row.
pub proof fn lemma_largest_count_is_max(table: Seq<Entry>)
    ensures
        forall|i: int| 0 <= i < table.len() ==> #[trigger] table[i].count <= largest_count(table),
        table.len() > 0 ==> exists|i: int|
            0 <= i < table.len() && #[trigger] table[i].count == largest_count(table),
        table.len() == 0 ==> largest_count(table) == 0,
    decreases table.len(),
{
    if table.len() > 0 {
        let rest = table.drop_last();
        lemma_largest_count_is_max(rest);
        assert forall|i: int| 0 <= i < table.len() implies #[trigger] table[i].count
            <= largest_count(table) by {
            if i < rest.len() {
                assert(table[i] == rest[i]);
            }
        }
        if largest_count(rest) >= table.last().count && rest.len() > 0 {
            let i = choose|i: int| 0 <= i < rest.len() && #[trigger] rest[i].count == largest_count(
                rest,
            );
            assert(table[i] == rest[i]);
        } else {
            assert(table[table.len() - 1].count == largest_count(table));
        }
    }
}

/// The widest value is at least as long (in UTF-8 bytes) as every value and
/// is the length of some value.
pub proof fn lemma_widest_value_is_max(table: Seq<Entry>)
    ensures
        forall|i: int|
            0 <= i < table.len() ==> encode_utf8(#[trigger] table[i].value@).len() <= widest_value(
                table,
            ),
        table.len() > 0 ==> exists|i: int|
            0 <= i < table.len() && encode_utf8(#[trigger] table[i].value@).len() == widest_value(
                table,
            ),
        table.len() == 0 ==> widest_value(table) == 0,
    decreases table.len(),
{
    if table.len() > 0 {
        let rest = table.drop_last();
        lemma_widest_value_is_max(rest);
        assert forall|i: int| 0 <= i < table.len() implies encode_utf8(
            #[trigger] table[i].value@,
        ).len() <= widest_value(table) by {
            if i < rest.len() {
                assert(table[i] == rest[i]);
            }
        }
        if widest_value(rest) >= encode_utf8(table.last().value@).len() && rest.len() > 0 {
            let i = choose|i: int|
                0 <= i < rest.len() && encode_utf8(#[trigger] rest[i].value@).len()
                    == widest_value(rest);
            assert(table[i] == rest[i]);
        } else {
            assert(encode_utf8(table[table.len() - 1].value@).len() == widest_value(table));
        }
    }
}

/// The widest count has at least as many digits as every count and is the
/// digit count of some row.
pub proof fn lemma_widest_count_is_max(table: Seq<Entry>)
    ensures
        forall|i: int|
            0 <= i < table.len() ==> decimal_width(#[trigger] table[i].count as nat) <= widest_count(
                table,
            ),
        table.len() > 0 ==> exists|i: int|
            0 <= i < table.len() && decimal_width(#[trigger] table[i].count as nat)
                == widest_count(table),
        table.len() == 0 ==> widest_count(table) == 0,
    decreases table.len(),
{
    if table.len() > 0 {
        let rest = table.drop_last();
        lemma_widest_count_is_max(rest);
        assert forall|i: int| 0 <= i < table.len() implies decimal_width(
            #[trigger] table[i].count as nat,
        ) <= widest_count(table) by {
            if i < rest.len() {
                assert(table[i] == rest[i]);
            }
        }
        if widest_count(rest) >= decimal_width(table.last().count as nat) && rest.len() > 0 {
            let i = choose|i: int|
                0 <= i < rest.len() && decimal_width(#[trigger] rest[i].count as nat)
                    == widest_count(rest);
            assert(table[i] == rest[i]);
        } else {
            assert(decimal_width(table[table.len() - 1].count as nat) == widest_count(table));
        }
    }
}

proof fn lemma_total_count_prefix(table: Seq<Entry>, k: int)
    requires
        0 <= k <= table.len(),
    ensures
        total_count(table.take(k)) <= total_count(table),
    decreases table.len() - k,
{
    if k < table.len() {
        lemma_total_count_prefix(table, k + 1);
        assert(table.take(k + 1).drop_last() =~= table.take(k));
    } else {
        assert(table.take(k) =~= table);
    }
}

/// Computes the widths, largest count, total and running totals that the
/// rows of `table` are laid out with.
pub fn table_layout(table: &Vec<Entry>) -> (r: TableLayout)
    requires
        total_count(table@) <= usize::MAX,
    ensures
        r.value_width == widest_value(table@),
        r.count_width == widest_count(table@),
        r.max_count == largest_count(table@),
        r.total == total_count(table@),
        r.running_totals@.len() == table@.len(),
        forall|i: int|
            0 <= i < table@.len() ==> #[trigger] r.running_totals@[i] == total_count(
                table@.take(i + 1),
            ),
        table@.len() > 0 ==> r.running_totals@.last() == r.total,
        forall|i: int| 0 <= i < table@.len() ==> #[trigger] table@[i].count <= r.max_count,
        table@.len() > 0 ==> exists|i: int|
            0 <= i < table@.len() && #[trigger] table@[i].count == r.max_count,
        forall|i: int|
            0 <= i < table@.len() ==> encode_utf8(#[trigger] table@[i].value@).len()
                <= r.value_width,
        table@.len() > 0 ==> exists|i: int|
            0 <= i < table@.len() && encode_utf8(#[trigger] table@[i].value@).len()
                == r.value_width,
        forall|i: int|
            0 <= i < table@.len() ==> decimal_width(#[trigger] table@[i].count as nat)
                <= r.count_width,
        table@.len() > 0 ==> exists|i: int|
            0 <= i < table@.len() && decimal_width(#[trigger] table@[i].count as nat)
                == r.count_width,
        table@.len() == 0 ==> r.value_width == 0 && r.count_width == 0 && r.max_count == 0
            && r.total == 0,
        table@.len() > 0 ==> r.running_totals@[0] == table@[0].count,
        forall|i: int|
            0 < i < table@.len() ==> #[trigger] r.running_totals@[i] == r.running_totals@[i - 1]
                + table@[i].count,
{
    let mut value_width: usize = 0;
    let mut count_width: usize = 0;
    let mut max_count: usize = 0;
    let mut total: usize = 0;
    let mut running_totals: Vec<usize> = Vec::new();
    let mut i: usize = 0;
    while i < table.len()
        invariant
            i <= table@.len(),
            total_count(table@) <= usize::MAX,
            value_width == widest_value(table@.take(i as int)),
            count_width == widest_count(table@.take(i as int)),
            max_count == largest_count(table@.take(i as int)),
            total == total_count(table@.take(i as int)),
            running_totals@.len() == i,
            i > 0 ==> running_totals@[0] == table@[0].count,
            forall|j: int|
                0 < j < i ==> #[trigger] running_totals@[j] == running_totals@[j - 1]
                    + table@[j].count,
            forall|j: int|
                0 <= j < i ==> #[trigger] running_totals@[j] == total_count(
                    table@.take(j + 1),
                ),
        decreases table@.len() - i,
    {
        let e = &table[i];
        let ghost prefix = table@.take(i + 1);
        assert(prefix.drop_last() =~= table@.take(i as int));
        assert(prefix.last() == table@[i as int]);
        proof {
            lemma_total_count_prefix(table@, i + 1);
        }
        let bytes = e.value.as_str().as_bytes().len();
        if bytes > value_width {
            value_width = bytes;
        }
        let digits = decimal_digits(e.count);
        if digits > count_width {
            count_width = digits;
        }
        if e.count > max_count {
            max_count = e.count;
        }
        total = total + e.count;
        running_totals.push(total);
        i = i + 1;
    }
    assert(table@.take(i as int) =~= table@);
    proof {
        lemma_largest_count_is_max(table@);
        lemma_widest_value_is_max(table@);
        lemma_widest_count_is_max(table@);
    }
    TableLayout { value_width, count_width, max_count, total, running_totals }
}

} // verus!
