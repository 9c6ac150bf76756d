use vstd::prelude::*;
use vstd::arithmetic::power::pow;

verus! {

/// Whether `c` has the Unicode `White_Space` property, which is what
/// `char::is_whitespace` (and so `str::trim`) treats as whitespace.
pub open spec fn is_space(c: char) -> bool {
    let u = c as u32;
    ||| 0x9 <= u <= 0xd
    ||| u == 0x20
    ||| u == 0x85
    ||| u == 0xa0
    ||| u == 0x1680
    ||| 0x2000 <= u <= 0x200a
    ||| u == 0x2028
    ||| u == 0x2029
    ||| u == 0x202f
    ||| u == 0x205f
    ||| u == 0x3000
}

/// `cs` without its leading whitespace.
pub open spec fn trim_start(cs: Seq<char>) -> Seq<char>
    decreases cs.len(),
{
    if cs.len() > 0 && is_space(cs[0]) {
        trim_start(cs.drop_first())
    } else {
        cs
    }
}

/// `cs` without its trailing whitespace.
pub open spec fn trim_end(cs: Seq<char>) -> Seq<char>
    decreases cs.len(),
{
    if cs.len() > 0 && is_space(cs.last()) {
        trim_end(cs.drop_last())
    } else {
        cs
    }
}

/// `cs` without leading and trailing whitespace, as `str::trim` gives it.
pub open spec fn trim(cs: Seq<char>) -> Seq<char> {
    trim_end(trim_start(cs))
}

/// Whether `c` is one of the ASCII digits `0` to `9`.
pub open spec fn is_digit(c: char) -> bool {
    0x30 <= c as u32 <= 0x39
}

/// The value of the decimal numeral `ds` (most significant digit first).
pub open spec fn numeral_value(ds: Seq<char>) -> nat
    decreases ds.len(),
{
    if ds.len() == 0 {
        0
    } else {
        numeral_value(ds.drop_last()) * 10 + ((ds.last() as u32) - 0x30) as nat
    }
}

/// `cs` without one leading `+`, if it has one.
pub open spec fn unsigned_part(cs: Seq<char>) -> Seq<char> {
    if cs.len() > 0 && cs[0] == '+' {
        cs.drop_first()
    } else {
        cs
    }
}

/// What parsing `cs` as a `usize` gives: an optional `+`, then at least one
/// ASCII digit and nothing else, with a value that fits in a `usize`.
pub open spec fn usize_numeral(cs: Seq<char>) -> Option<usize> {
    let ds = unsigned_part(cs);
    if ds.len() > 0 && (forall|i: int| 0 <= i < ds.len() ==> is_digit(#[trigger] ds[i]))
        && numeral_value(ds) <= usize::MAX {
        Some(numeral_value(ds) as usize)
    } else {
        None
    }
}

/// The number of decimal digits of `n`, as `n.to_string().len()` counts them.
pub open spec fn decimal_width(n: nat) -> nat
    decreases n,
{
    if n < 10 {
        1
    } else {
        1 + decimal_width(n / 10)
    }
}

/// The characters of a string slice, in order.
pub fn chars_of(s: &str) -> (r: Vec<char>)
    ensures
        r@ == s@,
{
    let mut r: Vec<char> = Vec::new();
    for c in it: s.chars()
        invariant
            r@ == it.seq().take(it.index() as int),
    {
        r.push(c);
    }
    r
}

/// Whether `c` is Unicode whitespace.
pub fn is_space_char(c: char) -> (r: bool)
    ensures
        r == is_space(c),
{
    let u = c as u32;
    (0x9 <= u && u <= 0xd) || u == 0x20 || u == 0x85 || u == 0xa0 || u == 0x1680 || (0x2000
        <= u && u <= 0x200a) || u == 0x2028 || u == 0x2029 || u == 0x202f || u == 0x205f || u
        == 0x3000
}

proof fn lemma_trim_end_keeps_nonspace_start(cs: Seq<char>)
    requires
        cs.len() > 0,
        !is_space(cs[0]),
    ensures
        trim_end(cs).len() > 0,
    decreases cs.len(),
{
    if is_space(cs.last()) {
        assert(cs.len() > 1);
        assert(cs.drop_last()[0] == cs[0]);
        lemma_trim_end_keeps_nonspace_start(cs.drop_last());
    }
}

proof fn lemma_trim_start_empty_iff_blank(cs: Seq<char>)
    ensures
        (trim_start(cs).len() == 0) <==> forall|i: int| 0 <= i < cs.len() ==> is_space(#[trigger] cs[i]),
        trim_start(cs).len() > 0 ==> !is_space(trim_start(cs)[0]),
    decreases cs.len(),
{
    if cs.len() > 0 && is_space(cs[0]) {
        let rest = cs.drop_first();
        lemma_trim_start_empty_iff_blank(rest);
        if forall|i: int| 0 <= i < rest.len() ==> is_space(#[trigger] rest[i]) {
            assert forall|i: int| 0 <= i < cs.len() implies is_space(#[trigger] cs[i]) by {
                if i > 0 {
                    assert(cs[i] == rest[i - 1]);
                }
            }
        } else {
            let i = choose|i: int| 0 <= i < rest.len() && !is_space(#[trigger] rest[i]);
            assert(cs[i + 1] == rest[i]);
        }
    }
}

/// A string trims to nothing exactly when every character is whitespace.
pub proof fn lemma_trim_empty_iff_blank(cs: Seq<char>)
    ensures
        (trim(cs).len() == 0) <==> forall|i: int| 0 <= i < cs.len() ==> is_space(#[trigger] cs[i]),
{
    lemma_trim_start_empty_iff_blank(cs);
    if trim_start(cs).len() > 0 {
        lemma_trim_end_keeps_nonspace_start(trim_start(cs));
    }
}

proof fn lemma_trim_start_at(cs: Seq<char>, i: int)
    requires
        0 <= i <= cs.len(),
        forall|j: int| 0 <= j < i ==> is_space(#[trigger] cs[j]),
        i == cs.len() || !is_space(cs[i]),
    ensures
        trim_start(cs) == cs.subrange(i, cs.len() as int),
    decreases i,
{
    if i == 0 {
        assert(cs.subrange(0, cs.len() as int) =~= cs);
    } else {
        let rest = cs.drop_first();
        assert forall|j: int| 0 <= j < i - 1 implies is_space(#[trigger] rest[j]) by {
            assert(rest[j] == cs[j + 1]);
        }
        lemma_trim_start_at(rest, i - 1);
        assert(rest.subrange(i - 1, rest.len() as int) =~= cs.subrange(i, cs.len() as int));
    }
}

proof fn lemma_trim_end_at(cs: Seq<char>, k: int)
    requires
        0 <= k <= cs.len(),
        forall|j: int| k <= j < cs.len() ==> is_space(#[trigger] cs[j]),
        k == 0 || !is_space(cs[k - 1]),
    ensures
        trim_end(cs) == cs.subrange(0, k),
    decreases cs.len() - k,
{
    if k == cs.len() {
        assert(cs.subrange(0, k) =~= cs);
    } else {
        let rest = cs.drop_last();
        assert forall|j: int| k <= j < rest.len() implies is_space(#[trigger] rest[j]) by {
            assert(rest[j] == cs[j]);
        }
        lemma_trim_end_at(rest, k);
        assert(rest.subrange(0, k) =~= cs.subrange(0, k));
    }
}

/// `cs` without leading and trailing whitespace.
pub fn trim_chars(cs: &Vec<char>) -> (r: Vec<char>)
    ensures
        r@ == trim(cs@),
{
    let n = cs.len();
    let mut i: usize = 0;
    while i < n && is_space_char(cs[i])
        invariant
            i <= n == cs@.len(),
            forall|j: int| 0 <= j < i ==> is_space(#[trigger] cs@[j]),
        decreases n - i,
    {
        i = i + 1;
    }
    proof {
        lemma_trim_start_at(cs@, i as int);
    }
    let ghost start = cs@.subrange(i as int, n as int);
    let mut k: usize = n;
    while k > i && is_space_char(cs[k - 1])
        invariant
            i <= k <= n == cs@.len(),
            forall|j: int| k <= j < n ==> is_space(#[trigger] cs@[j]),
        decreases k,
    {
        k = k - 1;
    }
    proof {
        assert forall|j: int| k - i <= j < start.len() implies is_space(#[trigger] start[j]) by {
            assert(start[j] == cs@[j + i]);
        }
        if k > i {
            assert(start[k - i - 1] == cs@[k - 1]);
        }
        lemma_trim_end_at(start, k - i);
    }
    let mut r: Vec<char> = Vec::new();
    let mut m: usize = i;
    while m < k
        invariant
            i <= m <= k <= n == cs@.len(),
            r@ == cs@.subrange(i as int, m as int),
        decreases k - m,
    {
        r.push(cs[m]);
        m = m + 1;
        assert(r@ =~= cs@.subrange(i as int, m as int));
    }
    assert(start.subrange(0, k - i) =~= cs@.subrange(i as int, k as int));
    r
}

proof fn lemma_numeral_prefix_grows(ds: Seq<char>, k: int)
    requires
        0 <= k <= ds.len(),
        forall|i: int| 0 <= i < ds.len() ==> is_digit(#[trigger] ds[i]),
    ensures
        numeral_value(ds.take(k)) <= numeral_value(ds),
    decreases ds.len() - k,
{
    if k < ds.len() {
        lemma_numeral_prefix_grows(ds, k + 1);
        assert(ds.take(k + 1).drop_last() =~= ds.take(k));
        assert(ds.take(k + 1).last() == ds[k]);
        assert(is_digit(ds[k]));
    } else {
        assert(ds.take(k) =~= ds);
    }
}

/// Parses `cs` as a `usize` the way `str::parse::<usize>` does: an optional
/// `+` followed by ASCII digits, refusing anything that does not fit.
pub fn parse_usize(cs: &Vec<char>) -> (r: Option<usize>)
    ensures
        r == usize_numeral(cs@),
{
    let n = cs.len();
    let start: usize = if n > 0 && cs[0] == '+' {
        1
    } else {
        0
    };
    let ghost ds = unsigned_part(cs@);
    assert(ds =~= cs@.subrange(start as int, n as int));
    if start == n {
        return None;
    }
    let mut value: usize = 0;
    let mut i: usize = start;
    while i < n
        invariant
            start <= i <= n == cs@.len(),
            ds == cs@.subrange(start as int, n as int),
            ds == unsigned_part(cs@),
            forall|j: int| 0 <= j < i - start ==> is_digit(#[trigger] ds[j]),
            value == numeral_value(ds.take(i - start)),
        decreases n - i,
    {
        let c = cs[i];
        assert(ds[i - start] == c);
        let u = c as u32;
        if u < 0x30 || u > 0x39 {
            assert(!is_digit(ds[i - start]));
            assert(!(forall|j: int| 0 <= j < ds.len() ==> is_digit(#[trigger] ds[j])));
            return None;
        }
        let d = (u - 0x30) as usize;
        assert(ds.take(i - start + 1).drop_last() =~= ds.take(i - start));
        assert(ds.take(i - start + 1).last() == c);
        if value > (usize::MAX - d) / 10 {
            proof {
                assert(value * 10 + d > usize::MAX) by (nonlinear_arith)
                    requires
                        value > (usize::MAX - d) / 10,
                        d <= 9,
                ;
                assert(numeral_value(ds.take(i - start + 1)) == value * 10 + d);
                if forall|j: int| 0 <= j < ds.len() ==> is_digit(#[trigger] ds[j]) {
                    lemma_numeral_prefix_grows(ds, i - start + 1);
                    assert(numeral_value(ds) > usize::MAX);
                }
            }
            return None;
        }
        proof {
            assert(value * 10 + d <= usize::MAX) by (nonlinear_arith)
                requires
                    value <= (usize::MAX - d) / 10,
                    d <= 9,
            ;
        }
        value = value * 10 + d;
        i = i + 1;
    }
    assert(ds.take(n - start) =~= ds);
    Some(value)
}

proof fn lemma_decimal_width_bound(n: nat)
    ensures
        decimal_width(n) >= 1,
        n >= 1 ==> decimal_width(n) <= n,
    decreases n,
{
    if n >= 10 {
        lemma_decimal_width_bound(n / 10);
    }
}

/// The number of decimal digits of `n`.
pub fn decimal_digits(n: usize) -> (r: usize)
    ensures
        r == decimal_width(n as nat),
{
    let mut m = n;
    let mut r: usize = 1;
    while m >= 10
        invariant
            r + decimal_width(m as nat) == decimal_width(n as nat) + 1,
            1 <= r,
            m <= n,
        decreases m,
    {
        proof {
            lemma_decimal_width_bound(m as nat);
            lemma_decimal_width_bound(m as nat / 10);
            lemma_decimal_width_bound(n as nat);
        }
        m = m / 10;
        r = r + 1;
    }
    r
}

/// Trimming keeps the part of `cs` from its first to its last character that
/// is not whitespace: when `i` and `k - 1` are those positions, the result is
/// `cs[i..k]`.
pub proof fn lemma_trim_is_inner_slice(cs: Seq<char>, i: int, k: int)
    requires
        0 <= i < k <= cs.len(),
        forall|j: int| 0 <= j < i ==> is_space(#[trigger] cs[j]),
        forall|j: int| k <= j < cs.len() ==> is_space(#[trigger] cs[j]),
        !is_space(cs[i]),
        !is_space(cs[k - 1]),
    ensures
        trim(cs) == cs.subrange(i, k),
{
    lemma_trim_start_at(cs, i);
    let rest = cs.subrange(i, cs.len() as int);
    assert forall|j: int| k - i <= j < rest.len() implies is_space(#[trigger] rest[j]) by {
        assert(rest[j] == cs[j + i]);
    }
    assert(rest[k - i - 1] == cs[k - 1]);
    lemma_trim_end_at(rest, k - i);
    assert(rest.subrange(0, k - i) =~= cs.subrange(i, k));
}

/// `decimal_width(n)` is the number of decimal digits of `n`: `n` is below
/// `10` to that power, and, from `10` on, at least `10` to one less.
pub proof fn lemma_decimal_width_counts_digits(n: nat)
    ensures
        decimal_width(n) >= 1,
        n < pow(10, decimal_width(n)),
        n >= 10 ==> pow(10, (decimal_width(n) - 1) as nat) <= n,
    decreases n,
{
    reveal(pow);
    if n >= 10 {
        lemma_decimal_width_counts_digits(n / 10);
        let w = decimal_width(n / 10);
        assert(decimal_width(n) == w + 1);
        assert(pow(10, w + 1) == 10 * pow(10, w));
        assert(n < 10 * pow(10, w)) by (nonlinear_arith)
            requires
                (n / 10) < pow(10, w),
                n >= 10,
        ;
        if n / 10 >= 10 {
            assert(pow(10, w) == 10 * pow(10, (w - 1) as nat));
            assert(pow(10, w) <= n) by (nonlinear_arith)
                requires
                    pow(10, (w - 1) as nat) <= n / 10,
                    pow(10, w) == 10 * pow(10, (w - 1) as nat),
                    n >= 10,
            ;
        } else {
            assert(w == 1);
            assert(pow(10, 0) == 1);
            assert(pow(10, 1) == 10 * pow(10, 0));
        }
    } else {
        assert(pow(10, 1) == 10 * pow(10, 0));
    }
}

} // verus!
