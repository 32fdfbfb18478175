use vstd::prelude::*;

use crate::errors::AggError;

verus! {

/// How many lines of metadata open every corpus file.
pub const HEADER_LINES: usize = 5;

/// One validated data line: a word and the count observed for it.
#[derive(Debug)]
pub struct ParsedLine {
    pub word: String,
    pub count: u64,
}

/// Whitespace that separates the tokens of a data line: the Unicode
/// white-space characters.
pub open spec fn is_ws(c: char) -> bool {
    let u = c as int;
    ||| (0x9 <= u && u <= 0xD)
    ||| u == 0x20
    ||| u == 0x85
    ||| u == 0xA0
    ||| u == 0x1680
    ||| (0x2000 <= u && u <= 0x200A)
    ||| u == 0x2028
    ||| u == 0x2029
    ||| u == 0x202F
    ||| u == 0x205F
    ||| u == 0x3000
}

/// Index of the first non-whitespace character at or after `i`.
pub open spec fn tok_start(s: Seq<char>, i: int) -> int
    decreases s.len() - i when 0 <= i <= s.len()
{
    if i >= s.len() {
        s.len() as int
    } else if is_ws(s[i]) {
        tok_start(s, i + 1)
    } else {
        i
    }
}

/// Index of the first whitespace character at or after `i`.
pub open spec fn tok_end(s: Seq<char>, i: int) -> int
    decreases s.len() - i when 0 <= i <= s.len()
{
    if i >= s.len() {
        s.len() as int
    } else if is_ws(s[i]) {
        i
    } else {
        tok_end(s, i + 1)
    }
}

/// A header line must open with `@`.
pub open spec fn header_ok(s: Seq<char>) -> bool {
    s.len() > 0 && s[0] == '@'
}

/// Start of the word token.
pub open spec fn word_start(s: Seq<char>) -> int {
    tok_start(s, 0)
}

/// End of the word token.
pub open spec fn word_end(s: Seq<char>) -> int {
    tok_end(s, word_start(s))
}

/// A data line holds a word iff it holds any token at all.
pub open spec fn has_word(s: Seq<char>) -> bool {
    word_start(s) < s.len()
}

/// The first whitespace-separated token of the line.
pub open spec fn line_word(s: Seq<char>) -> Seq<char> {
    s.subrange(word_start(s), word_end(s))
}

/// Start of the count token.
pub open spec fn count_start(s: Seq<char>) -> int {
    tok_start(s, word_end(s))
}

/// End of the count token.
pub open spec fn count_end(s: Seq<char>) -> int {
    tok_end(s, count_start(s))
}

/// The line holds a second token.
pub open spec fn has_count(s: Seq<char>) -> bool {
    count_start(s) < s.len()
}

/// The second whitespace-separated token of the line.
pub open spec fn count_tok(s: Seq<char>) -> Seq<char> {
    s.subrange(count_start(s), count_end(s))
}

pub open spec fn is_digit(c: char) -> bool {
    '0' <= c && c <= '9'
}

pub open spec fn digit_val(c: char) -> int {
    c as int - '0' as int
}

pub open spec fn all_digits(s: Seq<char>) -> bool {
    forall|i: int| 0 <= i < s.len() ==> is_digit(#[trigger] s[i])
}

/// Value of a base-10 digit string.
pub open spec fn dec_val(s: Seq<char>) -> int
    decreases s.len()
{
    if s.len() == 0 {
        0
    } else {
        dec_val(s.drop_last()) * 10 + digit_val(s.last())
    }
}

/// The second token is a non-negative base-10 integer that fits the
/// count type.
pub open spec fn count_ok(s: Seq<char>) -> bool {
    has_count(s) && all_digits(count_tok(s)) && dec_val(count_tok(s)) <= u64::MAX
}

/// A data line is well-formed: it has a word and a valid count.
pub open spec fn data_ok(s: Seq<char>) -> bool {
    has_word(s) && count_ok(s)
}

/// The count carried by a well-formed data line.
pub open spec fn line_count(s: Seq<char>) -> int {
    dec_val(count_tok(s))
}

/// Where a token starts, a non-whitespace character stands.
proof fn lemma_tok_start_non_ws(s: Seq<char>, i: int)
    requires
        0 <= i <= s.len(),
        tok_start(s, i) < s.len(),
    ensures
        !is_ws(s[tok_start(s, i)]),
    decreases s.len() - i,
{
    if i < s.len() && is_ws(s[i]) {
        lemma_tok_start_non_ws(s, i + 1);
    }
}

/// A token never starts before the search position.
proof fn lemma_tok_start_bounds(s: Seq<char>, i: int)
    requires
        0 <= i <= s.len(),
    ensures
        i <= tok_start(s, i) <= s.len(),
    decreases s.len() - i,
{
    if i < s.len() && is_ws(s[i]) {
        lemma_tok_start_bounds(s, i + 1);
    }
}

/// A token never ends before it starts.
proof fn lemma_tok_end_bounds(s: Seq<char>, i: int)
    requires
        0 <= i <= s.len(),
    ensures
        i <= tok_end(s, i) <= s.len(),
    decreases s.len() - i,
{
    if i < s.len() && !is_ws(s[i]) {
        lemma_tok_end_bounds(s, i + 1);
    }
}

/// A line's word token, where it exists, is never empty.
pub proof fn lemma_line_word_nonempty(s: Seq<char>)
    requires
        has_word(s),
    ensures
        line_word(s).len() > 0,
{
    lemma_tok_start_bounds(s, 0);
    lemma_tok_start_non_ws(s, 0);
    lemma_tok_end_bounds(s, word_start(s) + 1);
}

pub proof fn lemma_dec_val_nonneg(s: Seq<char>)
    requires
        all_digits(s),
    ensures
        dec_val(s) >= 0,
    decreases s.len(),
{
    if s.len() > 0 {
        assert(all_digits(s.drop_last())) by {
            assert(forall|i: int| 0 <= i < s.len() - 1 ==> s.drop_last()[i] == s[i]);
        }
        lemma_dec_val_nonneg(s.drop_last());
    }
}

/// A digit string is worth at least any of its prefixes.
pub proof fn lemma_dec_val_prefix(s: Seq<char>, k: int)
    requires
        all_digits(s),
        0 <= k <= s.len(),
    ensures
        dec_val(s.subrange(0, k)) <= dec_val(s),
    decreases s.len(),
{
    if k == s.len() {
        assert(s.subrange(0, k) =~= s);
    } else {
        assert(all_digits(s.drop_last())) by {
            assert(forall|i: int| 0 <= i < s.len() - 1 ==> s.drop_last()[i] == s[i]);
        }
        assert(s.drop_last().subrange(0, k) =~= s.subrange(0, k));
        lemma_dec_val_prefix(s.drop_last(), k);
        lemma_dec_val_nonneg(s.drop_last());
    }
}

fn ws_char(c: char) -> (r: bool)
    ensures
        r == is_ws(c),
{
    let u = c as u32;
    (0x9 <= u && u <= 0xD) || u == 0x20 || u == 0x85 || u == 0xA0 || u == 0x1680 || (0x2000 <= u
        && u <= 0x200A) || u == 0x2028 || u == 0x2029 || u == 0x202F || u == 0x205F || u == 0x3000
}

/// Find the next token start at or after `start`.
fn find_tok_start(line: &str, len: usize, start: usize) -> (r: usize)
    requires
        len == line@.len(),
        start <= len,
    ensures
        r == tok_start(line@, start as int),
        start <= r <= len,
        r < len ==> !is_ws(line@[r as int]),
{
    let mut i = start;
    loop
        invariant
            start <= i <= len,
            len == line@.len(),
            tok_start(line@, start as int) == tok_start(line@, i as int),
        ensures
            start <= i <= len,
            i == tok_start(line@, start as int),
            i < len ==> !is_ws(line@[i as int]),
        decreases len - i,
    {
        if i >= len {
            break;
        }
        let c = line.get_char(i);
        if !ws_char(c) {
            break;
        }
        i += 1;
    }
    i
}

/// Find the end of the token that starts at `start`.
fn find_tok_end(line: &str, len: usize, start: usize) -> (r: usize)
    requires
        len == line@.len(),
        start <= len,
    ensures
        r == tok_end(line@, start as int),
        start <= r <= len,
{
    let mut i = start;
    loop
        invariant
            start <= i <= len,
            len == line@.len(),
            tok_end(line@, start as int) == tok_end(line@, i as int),
        ensures
            start <= i <= len,
            i == tok_end(line@, start as int),
        decreases len - i,
    {
        if i >= len {
            break;
        }
        let c = line.get_char(i);
        if ws_char(c) {
            break;
        }
        i += 1;
    }
    i
}

/// Parse the digit token `line[start..end]` into a count, or report that
/// it is not a base-10 integer in range.
fn parse_count(line: &str, len: usize, start: usize, end: usize) -> (r: Option<u64>)
    requires
        len == line@.len(),
        start <= end <= len,
    ensures
        ({
            let tok = line@.subrange(start as int, end as int);
            match r {
                Some(v) => all_digits(tok) && v as int == dec_val(tok),
                None => !(all_digits(tok) && dec_val(tok) <= u64::MAX),
            }
        }),
{
    let ghost tok = line@.subrange(start as int, end as int);
    let mut val: u64 = 0;
    let mut i = start;
    while i < end
        invariant
            start <= i <= end <= len,
            len == line@.len(),
            all_digits(line@.subrange(start as int, i as int)),
            val as int == dec_val(line@.subrange(start as int, i as int)),
            tok == line@.subrange(start as int, end as int),
        decreases end - i,
    {
        let c = line.get_char(i);
        let u = c as u32;
        if u < 48 || u > 57 {
            assert(!is_digit(tok[i - start]));
            return None;
        }
        let d = (u - 48) as u64;
        assert(is_digit(line@[i as int]) && d as int == digit_val(line@[i as int]));
        if val > (u64::MAX - d) / 10 {
            // The prefix already exceeds the range, so the whole token does.
            assert(!(all_digits(tok) && dec_val(tok) <= u64::MAX)) by {
                let pre = line@.subrange(start as int, i + 1);
                assert(pre.drop_last() =~= line@.subrange(start as int, i as int));
                assert(all_digits(pre)) by {
                    assert(forall|j: int| 0 <= j < pre.len() ==> pre[j] == line@[start + j]);
                }
                assert(dec_val(pre) == val as int * 10 + d);
                assert(val as int * 10 + d > u64::MAX) by (nonlinear_arith)
                    requires val > (u64::MAX - d) / 10 && d <= 9;
                if all_digits(tok) {
                    assert(tok.subrange(0, i + 1 - start) =~= pre);
                    lemma_dec_val_prefix(tok, i + 1 - start);
                }
            }
            return None;
        }
        assert(val * 10 + d <= u64::MAX) by (nonlinear_arith)
            requires val <= (u64::MAX - d) / 10 && d <= 9;
        let ghost pre = line@.subrange(start as int, i + 1);
        assert(pre.drop_last() =~= line@.subrange(start as int, i as int));
        assert(forall|j: int| 0 <= j < pre.len() ==> pre[j] == line@[start + j]);
        val = val * 10 + d;
        i += 1;
    }
    assert(line@.subrange(start as int, i as int) =~= tok);
    Some(val)
}

/// Turn one raw line into a validated word/count pair.
///
/// Lines at positions below `HEADER_LINES` are header lines: they must
/// start with `@` and carry no data. Later lines split on whitespace
/// into a word and a base-10 count; extra tokens are ignored.
pub fn parse_line(line: &str, index: usize) -> (r: Result<Option<ParsedLine>, AggError>)
    ensures
        index < HEADER_LINES && header_ok(line@) ==> r == Ok::<Option<ParsedLine>, AggError>(None),
        index < HEADER_LINES && !header_ok(line@) ==> r == Err::<Option<ParsedLine>, AggError>(
            AggError::MalformedHeader,
        ),
        index >= HEADER_LINES && !has_word(line@) ==> r == Err::<Option<ParsedLine>, AggError>(
            AggError::MissingWord,
        ),
        index >= HEADER_LINES && has_word(line@) && !count_ok(line@) ==> r == Err::<
            Option<ParsedLine>,
            AggError,
        >(AggError::MissingOrInvalidCount),
        index >= HEADER_LINES && data_ok(line@) ==> (r matches Ok(o) && o matches Some(p)
            && p.word@ == line_word(line@) && p.count as int == line_count(line@)),
{
    let len = line.unicode_len();
    if index < HEADER_LINES {
        if len > 0 && line.get_char(0) == '@' {
            return Ok(None);
        }
        return Err(AggError::MalformedHeader);
    }
    let ws = find_tok_start(line, len, 0);
    if ws >= len {
        return Err(AggError::MissingWord);
    }
    let we = find_tok_end(line, len, ws);
    let word = line.substring_char(ws, we).to_owned();
    let cs = find_tok_start(line, len, we);
    if cs >= len {
        return Err(AggError::MissingOrInvalidCount);
    }
    let ce = find_tok_end(line, len, cs);
    match parse_count(line, len, cs, ce) {
        Some(count) => Ok(Some(ParsedLine { word, count })),
        None => Err(AggError::MissingOrInvalidCount),
    }
}

} // verus!
