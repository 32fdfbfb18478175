use vstd::prelude::*;

use crate::export::{recs_view, FrequencyRecord};

verus! {

/// The digit character of `d`.
pub open spec fn digit_char(d: int) -> char {
    if d == 0 {
        '0'
    } else if d == 1 {
        '1'
    } else if d == 2 {
        '2'
    } else if d == 3 {
        '3'
    } else if d == 4 {
        '4'
    } else if d == 5 {
        '5'
    } else if d == 6 {
        '6'
    } else if d == 7 {
        '7'
    } else if d == 8 {
        '8'
    } else {
        '9'
    }
}

/// The base-10 digits of `n`, most significant first.
pub open spec fn dec_str(n: int) -> Seq<char>
    decreases n when n >= 0
{
    if n < 10 {
        seq![digit_char(n)]
    } else {
        dec_str(n / 10).push(digit_char(n % 10))
    }
}

/// One digit as text.
fn digit_str(d: u64) -> (r: &'static str)
    requires
        d < 10,
    ensures
        r@ =~= seq![digit_char(d as int)],
{
    proof {
        reveal_strlit("0");
        reveal_strlit("1");
        reveal_strlit("2");
        reveal_strlit("3");
        reveal_strlit("4");
        reveal_strlit("5");
        reveal_strlit("6");
        reveal_strlit("7");
        reveal_strlit("8");
        reveal_strlit("9");
    }
    match d {
        0 => "0",
        1 => "1",
        2 => "2",
        3 => "3",
        4 => "4",
        5 => "5",
        6 => "6",
        7 => "7",
        8 => "8",
        _ => "9",
    }
}

/// Render `n` in base 10.
pub fn u64_to_dec(n: u64) -> (s: String)
    ensures
        s@ == dec_str(n as int),
    decreases n,
{
    if n < 10 {
        digit_str(n).to_owned()
    } else {
        let mut s = u64_to_dec(n / 10);
        let d = digit_str(n % 10);
        s.append(d);
        proof {
            assert(dec_str((n / 10) as int).push(digit_char((n % 10) as int)) =~= dec_str(
                (n / 10) as int,
            ) + seq![digit_char((n % 10) as int)]);
        }
        s
    }
}

/// The text of one record line: the word, a tab, the count.
pub open spec fn record_line(w: Seq<char>, c: int) -> Seq<char> {
    w + seq!['\t'] + dec_str(c)
}

/// The two metadata lines that open each export destination.
pub open spec fn meta_lines(size: int, size_1: int) -> Seq<Seq<char>> {
    seq!["@size"@ + seq!['\t'] + dec_str(size), "@size-1"@ + seq!['\t'] + dec_str(size_1)]
}

/// Every line of one export destination, in output order.
pub open spec fn render_lines(size: int, size_1: int, recs: Seq<(Seq<char>, int)>) -> Seq<
    Seq<char>,
> {
    meta_lines(size, size_1) + recs.map_values(|p: (Seq<char>, int)| record_line(p.0, p.1))
}

fn render_record(r: &FrequencyRecord) -> (s: String)
    ensures
        s@ == record_line(r.word@, r.count as int),
{
    proof {
        reveal_strlit("\t");
    }
    let mut s = r.word.clone();
    s.append("\t");
    let d = u64_to_dec(r.count);
    s.append(d.as_str());
    proof {
        assert(s@ =~= r.word@ + seq!['\t'] + dec_str(r.count as int));
    }
    s
}

/// Render one export destination: the `@size` and `@size-1` metadata
/// lines, then one line per record, in the records' order.
#[verifier::loop_isolation(false)]
pub fn render_export(size: u64, size_1: u64, recs: &Vec<FrequencyRecord>) -> (out: Vec<String>)
    ensures
        out@.map_values(|l: String| l@) == render_lines(
            size as int,
            size_1 as int,
            recs_view(recs@),
        ),
{
    proof {
        reveal_strlit("@size");
        reveal_strlit("@size-1");
        reveal_strlit("\t");
    }
    let mut out: Vec<String> = Vec::new();
    let mut meta = String::from_str("@size");
    meta.append("\t");
    let dsize = u64_to_dec(size);
    meta.append(dsize.as_str());
    out.push(meta);
    let mut meta1 = String::from_str("@size-1");
    meta1.append("\t");
    let dsize1 = u64_to_dec(size_1);
    meta1.append(dsize1.as_str());
    out.push(meta1);
    let ghost target = render_lines(size as int, size_1 as int, recs_view(recs@));
    proof {
        assert(out@[0]@ =~= "@size"@ + seq!['\t'] + dec_str(size as int));
        assert(out@[1]@ =~= "@size-1"@ + seq!['\t'] + dec_str(size_1 as int));
        assert(target[0] == out@[0]@ && target[1] == out@[1]@);
        assert(out@.map_values(|l: String| l@) =~= target.subrange(0, 2));
    }
    let n = recs.len();
    let mut i: usize = 0;
    while i < n
        invariant
            i <= n,
            out@.len() == i + 2,
            out@.map_values(|l: String| l@) =~= target.subrange(0, i + 2),
        decreases n - i,
    {
        let line = render_record(&recs[i]);
        out.push(line);
        proof {
            assert(target[i + 2] == record_line(recs@[i as int].word@, recs@[i as int].count as int));
            assert(out@.map_values(|l: String| l@) =~= target.subrange(0, i + 3));
        }
        i += 1;
    }
    proof {
        assert(target.subrange(0, n + 2) =~= target);
    }
    out
}

} // verus!
