use vstd::prelude::*;
use vstd::slice::slice_subrange;
use vstd::utf8::{decode_utf8, valid_utf8};

use crate::text::{chars_of, is_space, lemma_trim_empty_iff_blank, trim, trim_chars};

verus! {

broadcast use vstd::seq_lib::group_to_multiset_ensures;

/// Why no delimiter could be detected.
#[derive(Debug, PartialEq, Eq, Structural)]
pub enum DelimiterError {
    /// The input is empty, or its first line is blank.
    Empty,
    /// The first line is not valid UTF-8.
    InvalidUtf8,
}

impl DelimiterError {
    /// The message that reports this error.
    pub fn message(&self) -> (r: String)
        ensures
            r@ == (match self {
                DelimiterError::Empty => "File is empty or contains no data"@,
                DelimiterError::InvalidUtf8 => "Invalid UTF-8 in file"@,
            }),
    {
        match self {
            DelimiterError::Empty => String::from_str("File is empty or contains no data"),
            DelimiterError::InvalidUtf8 => String::from_str("Invalid UTF-8 in file"),
        }
    }
}

/// The bytes of `bytes` before its first newline (all of it if it has none).
pub open spec fn first_line(bytes: Seq<u8>) -> Seq<u8>
    decreases bytes.len(),
{
    if bytes.len() == 0 || bytes[0] == 10 {
        Seq::empty()
    } else {
        seq![bytes[0]] + first_line(bytes.drop_first())
    }
}

/// How many times `c` occurs in `cs`.
pub open spec fn char_count(cs: Seq<char>, c: char) -> nat {
    cs.to_multiset().count(c)
}

/// The largest of four numbers.
pub open spec fn max4(a: nat, b: nat, c: nat, d: nat) -> nat {
    let ab = if a >= b {
        a
    } else {
        b
    };
    let cd = if c >= d {
        c
    } else {
        d
    };
    if ab >= cd {
        ab
    } else {
        cd
    }
}

/// The delimiter a line suggests: of tab, pipe, comma and space, the one that
/// occurs most often, preferring them in that order on ties; a comma when none
/// occurs.
pub open spec fn delimiter_for(line: Seq<char>) -> char {
    let tabs = char_count(line, '\t');
    let pipes = char_count(line, '|');
    let commas = char_count(line, ',');
    let spaces = char_count(line, ' ');
    let most = max4(tabs, pipes, commas, spaces);
    if most == 0 {
        ','
    } else if tabs == most {
        '\t'
    } else if pipes == most {
        '|'
    } else if commas == most {
        ','
    } else {
        ' '
    }
}

/// What delimiter detection gives for input that begins with `buffer`.
pub open spec fn delimiter_outcome(buffer: Seq<u8>) -> Result<char, DelimiterError> {
    let line = first_line(buffer);
    if buffer.len() == 0 {
        Err(DelimiterError::Empty)
    } else if !valid_utf8(line) {
        Err(DelimiterError::InvalidUtf8)
    } else if trim(decode_utf8(line)).len() == 0 {
        Err(DelimiterError::Empty)
    } else {
        Ok(delimiter_for(decode_utf8(line)))
    }
}

/// `std::str::from_utf8`: the text that `bytes` encode, if they are valid
/// UTF-8. Claimed: the result is present exactly when `bytes` are valid UTF-8
/// (as vstd's `valid_utf8` defines it), and then holds the characters that
/// `bytes` decode to.
#[verifier::external_body]
fn utf8_text(bytes: &[u8]) -> (r: Option<&str>)
    ensures
        r is Some <==> valid_utf8(bytes@),
        r matches Some(s) ==> s@ == decode_utf8(bytes@),
{
    std::str::from_utf8(bytes).ok()
}

proof fn lemma_first_line_is(bytes: Seq<u8>, k: int)
    requires
        0 <= k <= bytes.len(),
        forall|j: int| 0 <= j < k ==> bytes[j] != 10,
        k == bytes.len() || bytes[k] == 10,
    ensures
        first_line(bytes) == bytes.take(k),
    decreases k,
{
    if k == 0 {
        assert(bytes.take(0) =~= Seq::<u8>::empty());
    } else {
        let rest = bytes.drop_first();
        assert forall|j: int| 0 <= j < k - 1 implies rest[j] != 10 by {
            assert(rest[j] == bytes[j + 1]);
        }
        lemma_first_line_is(rest, k - 1);
        assert(bytes.take(k) =~= seq![bytes[0]] + rest.take(k - 1));
    }
}

/// How many times `c` occurs in `cs`.
fn count_char(cs: &Vec<char>, c: char) -> (r: usize)
    ensures
        r == char_count(cs@, c),
{
    let mut r: usize = 0;
    let mut i: usize = 0;
    while i < cs.len()
        invariant
            i <= cs@.len(),
            r == char_count(cs@.take(i as int), c),
            r <= i,
        decreases cs@.len() - i,
    {
        assert(cs@.take(i + 1) =~= cs@.take(i as int).push(cs@[i as int]));
        if cs[i] == c {
            r = r + 1;
        }
        i = i + 1;
    }
    assert(cs@.take(cs@.len() as int) =~= cs@);
    r
}

/// Detects the delimiter of delimited text from the start of the input (the
/// bytes that are available before any is consumed). Only the first line
/// counts: the most frequent of tab, pipe, comma and space there, with that
/// priority on ties, and a comma when there is none of them.
pub fn detect_delimiter(buffer: &[u8]) -> (r: Result<char, DelimiterError>)
    ensures
        r == delimiter_outcome(buffer@),
{
    if buffer.len() == 0 {
        return Err(DelimiterError::Empty);
    }
    let mut end: usize = 0;
    while end < buffer.len() && buffer[end] != 10
        invariant
            end <= buffer@.len(),
            forall|j: int| 0 <= j < end ==> buffer@[j] != 10,
        decreases buffer@.len() - end,
    {
        end = end + 1;
    }
    proof {
        lemma_first_line_is(buffer@, end as int);
    }
    let line_bytes = slice_subrange(buffer, 0, end);
    assert(line_bytes@ =~= buffer@.take(end as int));
    let text = match utf8_text(line_bytes) {
        Some(text) => text,
        None => return Err(DelimiterError::InvalidUtf8),
    };
    let line = chars_of(text);
    let trimmed = trim_chars(&line);
    if trimmed.len() == 0 {
        return Err(DelimiterError::Empty);
    }
    let tabs = count_char(&line, '\t');
    let pipes = count_char(&line, '|');
    let commas = count_char(&line, ',');
    let spaces = count_char(&line, ' ');
    let mut most = tabs;
    if pipes > most {
        most = pipes;
    }
    if commas > most {
        most = commas;
    }
    if spaces > most {
        most = spaces;
    }
    if most == 0 {
        Ok(',')
    } else if tabs == most {
        Ok('\t')
    } else if pipes == most {
        Ok('|')
    } else if commas == most {
        Ok(',')
    } else {
        Ok(' ')
    }
}

/// Only the first line of the input decides the delimiter: two inputs that
/// both have data and share their first line get the same outcome.
pub proof fn lemma_only_first_line_counts(a: Seq<u8>, b: Seq<u8>)
    requires
        a.len() > 0,
        b.len() > 0,
        first_line(a) == first_line(b),
    ensures
        delimiter_outcome(a) == delimiter_outcome(b),
{
}

/// A detected delimiter is a tab, a pipe, a comma or a space, and no other of
/// these four occurs more often on the first line.
pub proof fn lemma_detected_delimiter_is_most_frequent(buffer: Seq<u8>)
    requires
        delimiter_outcome(buffer) is Ok,
    ensures
        ({
            let d = delimiter_outcome(buffer)->Ok_0;
            let line = decode_utf8(first_line(buffer));
            &&& d == '\t' || d == '|' || d == ',' || d == ' '
            &&& char_count(line, d) >= char_count(line, '\t')
            &&& char_count(line, d) >= char_count(line, '|')
            &&& char_count(line, d) >= char_count(line, ',')
            &&& char_count(line, d) >= char_count(line, ' ')
        }),
{
}

/// The detected delimiter wins by count, and among equal counts by the
/// priority tab, pipe, comma, space: every one of the four that comes before
/// it in that priority occurs strictly fewer times on the first line, none
/// occurs more often, and a comma is given when none of them occurs.
pub proof fn lemma_delimiter_priority(buffer: Seq<u8>)
    requires
        delimiter_outcome(buffer) is Ok,
    ensures
        ({
            let d = delimiter_outcome(buffer)->Ok_0;
            let line = decode_utf8(first_line(buffer));
            let tabs = char_count(line, '\t');
            let pipes = char_count(line, '|');
            let commas = char_count(line, ',');
            let spaces = char_count(line, ' ');
            &&& d == '\t' ==> tabs > 0 && tabs >= pipes && tabs >= commas && tabs >= spaces
            &&& d == '|' ==> tabs < pipes && pipes >= commas && pipes >= spaces
            &&& d == ',' ==> (tabs < commas && pipes < commas && commas >= spaces) || (tabs == 0
                && pipes == 0 && commas == 0 && spaces == 0)
            &&& d == ' ' ==> tabs < spaces && pipes < spaces && commas < spaces
            &&& d == '\t' || d == '|' || d == ',' || d == ' '
        }),
{
}

/// The bytes before the first newline: a prefix of the input with no newline
/// in it, followed by a newline or by the end of the input.
pub proof fn lemma_first_line_shape(bytes: Seq<u8>)
    ensures
        first_line(bytes).len() <= bytes.len(),
        first_line(bytes) == bytes.take(first_line(bytes).len() as int),
        forall|j: int| 0 <= j < first_line(bytes).len() ==> #[trigger] bytes[j] != 10,
        first_line(bytes).len() == bytes.len() || bytes[first_line(bytes).len() as int] == 10,
    decreases bytes.len(),
{
    if bytes.len() > 0 && bytes[0] != 10 {
        let rest = bytes.drop_first();
        lemma_first_line_shape(rest);
        let k = first_line(rest).len() as int;
        assert(bytes.take(k + 1) =~= seq![bytes[0]] + rest.take(k));
        assert forall|j: int| 0 <= j < k + 1 implies #[trigger] bytes[j] != 10 by {
            if j > 0 {
                assert(bytes[j] == rest[j - 1]);
            }
        }
    } else {
        assert(bytes.take(0) =~= Seq::<u8>::empty());
    }
}

/// Detection fails as empty exactly when there is no input or every character
/// of the first line is whitespace, and as invalid exactly when the first line
/// is not UTF-8; otherwise it gives a delimiter.
pub proof fn lemma_delimiter_failures(buffer: Seq<u8>)
    ensures
        delimiter_outcome(buffer) == Err::<char, DelimiterError>(DelimiterError::Empty) <==> (
        buffer.len() == 0 || (valid_utf8(first_line(buffer)) && forall|i: int|
            0 <= i < decode_utf8(first_line(buffer)).len() ==> is_space(
                #[trigger] decode_utf8(first_line(buffer))[i],
            ))),
        delimiter_outcome(buffer) == Err::<char, DelimiterError>(DelimiterError::InvalidUtf8) <==> (
        buffer.len() > 0 && !valid_utf8(first_line(buffer))),
{
    if buffer.len() > 0 && valid_utf8(first_line(buffer)) {
        lemma_trim_empty_iff_blank(decode_utf8(first_line(buffer)));
    }
}

} // verus!
