use vstd::prelude::*;

use crate::errors::AggError;
use crate::model::count_of;
use crate::parse::{
    count_ok, data_ok, has_word, header_ok, lemma_line_word_nonempty, line_count, line_word,
    parse_line, HEADER_LINES,
};
use crate::table::{freqs_of, get_count, table_wf, upsert_count, MAX_COUNT};

verus! {

/// What folding one file into the table must produce: the updated counts
/// and the file's own total, or the first structural failure.
pub enum ScanOutcome {
    Done { counts: Map<Seq<char>, int>, total: int },
    Fail { err: AggError },
}

/// Fold the lines of one file into the table, line by line from `i` on,
/// carrying the running file total, with every stored count read
/// exactly. Header lines are validated and discarded; each data line
/// adds its count to its word's entry.
pub open spec fn scan_lines(
    m: Map<Seq<char>, int>,
    total: int,
    ls: Seq<Seq<char>>,
    i: int,
) -> ScanOutcome
    decreases ls.len() - i when 0 <= i <= ls.len()
{
    if i >= ls.len() {
        ScanOutcome::Done { counts: m, total }
    } else {
        let line = ls[i];
        if i < HEADER_LINES as int {
            if header_ok(line) {
                scan_lines(m, total, ls, i + 1)
            } else {
                ScanOutcome::Fail { err: AggError::MalformedHeader }
            }
        } else if !has_word(line) {
            ScanOutcome::Fail { err: AggError::MissingWord }
        } else if !count_ok(line) {
            ScanOutcome::Fail { err: AggError::MissingOrInvalidCount }
        } else {
            let w = line_word(line);
            let c = line_count(line);
            if count_of(m, w) + c > MAX_COUNT || total + c > u64::MAX {
                ScanOutcome::Fail { err: AggError::CountOverflow }
            } else {
                scan_lines(m.insert(w, count_of(m, w) + c), total + c, ls, i + 1)
            }
        }
    }
}

/// The fold as it runs against a store whose single-key lookup on line
/// `i` succeeds iff `looked[i]`: a failed lookup reads zero in place of
/// the stored count, and processing goes on — availability over
/// exactness, the one non-fatal store failure.
pub open spec fn scan_lines_with(
    m: Map<Seq<char>, int>,
    total: int,
    ls: Seq<Seq<char>>,
    i: int,
    looked: Seq<bool>,
) -> ScanOutcome
    decreases ls.len() - i when 0 <= i <= ls.len()
{
    if i >= ls.len() {
        ScanOutcome::Done { counts: m, total }
    } else {
        let line = ls[i];
        if i < HEADER_LINES as int {
            if header_ok(line) {
                scan_lines_with(m, total, ls, i + 1, looked)
            } else {
                ScanOutcome::Fail { err: AggError::MalformedHeader }
            }
        } else if !has_word(line) {
            ScanOutcome::Fail { err: AggError::MissingWord }
        } else if !count_ok(line) {
            ScanOutcome::Fail { err: AggError::MissingOrInvalidCount }
        } else {
            let w = line_word(line);
            let c = line_count(line);
            let base = if looked[i] {
                count_of(m, w)
            } else {
                0
            };
            if base + c > MAX_COUNT || total + c > u64::MAX {
                ScanOutcome::Fail { err: AggError::CountOverflow }
            } else {
                scan_lines_with(m.insert(w, base + c), total + c, ls, i + 1, looked)
            }
        }
    }
}

/// Against a store whose lookups all succeed, the fold is the exact
/// one: the laws stated over `scan_lines` hold of any run in which no
/// lookup failed.
pub proof fn lemma_scan_with_all(
    m: Map<Seq<char>, int>,
    total: int,
    ls: Seq<Seq<char>>,
    i: int,
    looked: Seq<bool>,
)
    requires
        0 <= i <= ls.len(),
        forall|j: int| i <= j < ls.len() ==> #[trigger] looked[j],
    ensures
        scan_lines_with(m, total, ls, i, looked) == scan_lines(m, total, ls, i),
    decreases ls.len() - i,
{
    if i < ls.len() {
        let line = ls[i];
        if i < HEADER_LINES as int {
            if header_ok(line) {
                lemma_scan_with_all(m, total, ls, i + 1, looked);
            }
        } else if has_word(line) && count_ok(line) {
            let w = line_word(line);
            let c = line_count(line);
            if count_of(m, w) + c <= MAX_COUNT && total + c <= u64::MAX {
                lemma_scan_with_all(m.insert(w, count_of(m, w) + c), total + c, ls, i + 1, looked);
            }
        }
    }
}

/// The views of a file's lines.
pub open spec fn line_views(lines: Seq<String>) -> Seq<Seq<char>> {
    lines.map_values(|l: String| l@)
}

/// The header lines the file has all start with `@`.
pub open spec fn headers_ok(ls: Seq<Seq<char>>) -> bool {
    forall|i: int| 0 <= i < HEADER_LINES as int && i < ls.len() ==> header_ok(#[trigger] ls[i])
}

/// Fold one file's lines into the frequency table.
///
/// On success the table holds what `scan_lines_with` says for the
/// lookups that succeeded — with every lookup successful, that is the
/// exact fold `scan_lines` (`lemma_scan_with_all`) — and the returned
/// total is the sum of the file's parsed counts. A structural failure
/// (bad header, malformed data line, count out of range) aborts with
/// exactly the error the fold names. A failed lookup is not fatal: it
/// reads zero and processing goes on. `Store` reports a failed write or
/// scan, which only a well-headed file with data lines can reach; the
/// table's state is then untrusted. A bad header is found before any
/// table access: it aborts with `MalformedHeader`, exactly on the files
/// with a bad header line, and commits nothing.
#[verifier::loop_isolation(false)]
pub fn process_lines(conn: &mut rusqlite::Connection, lines: &Vec<String>) -> (r: Result<
    u64,
    AggError,
>)
    requires
        table_wf(freqs_of(*old(conn))),
    ensures
        match r {
            Ok(total) => table_wf(freqs_of(*final(conn))) && exists|looked: Seq<bool>|
                scan_lines_with(freqs_of(*old(conn)), 0, line_views(lines@), 0, looked)
                    == (ScanOutcome::Done {
                    counts: freqs_of(*final(conn)),
                    total: total as int,
                }),
            Err(AggError::Store) => lines@.len() > HEADER_LINES && headers_ok(line_views(lines@)),
            Err(e) => exists|looked: Seq<bool>|
                scan_lines_with(freqs_of(*old(conn)), 0, line_views(lines@), 0, looked)
                    == (ScanOutcome::Fail { err: e }),
        },
        r == Err::<u64, AggError>(AggError::MalformedHeader) <==> !headers_ok(line_views(lines@)),
        !headers_ok(line_views(lines@)) ==> freqs_of(*final(conn)) == freqs_of(*old(conn)),
{
    let ghost m0 = freqs_of(*old(conn));
    let ghost ls = line_views(lines@);
    let ghost mut looked: Seq<bool> = Seq::empty();
    let mut total: u64 = 0;
    let mut idx: usize = 0;
    while idx < lines.len()
        invariant
            idx <= lines.len(),
            looked.len() == idx as int,
            table_wf(freqs_of(*conn)),
            forall|rest: Seq<bool>| #[trigger] scan_lines_with(m0, 0, ls, 0, looked + rest)
                == scan_lines_with(freqs_of(*conn), total as int, ls, idx as int, looked + rest),
            forall|j: int| 0 <= j < idx && j < HEADER_LINES as int ==> header_ok(#[trigger] ls[j]),
            idx <= HEADER_LINES ==> freqs_of(*conn) == m0,
        decreases lines.len() - idx,
    {
        let line = &lines[idx];
        assert(ls[idx as int] == line@);
        match parse_line(line.as_str(), idx) {
            Err(e) => {
                proof {
                    let pad = Seq::new((ls.len() - idx) as nat, |j: int| true);
                    let w = looked + pad;
                    assert(scan_lines_with(m0, 0, ls, 0, looked + pad) == scan_lines_with(
                        freqs_of(*conn),
                        total as int,
                        ls,
                        idx as int,
                        looked + pad,
                    ));
                    if idx < HEADER_LINES {
                        assert(e == AggError::MalformedHeader && !header_ok(ls[idx as int]));
                        assert(!headers_ok(ls));
                    } else {
                        assert(headers_ok(ls));
                    }
                    assert(scan_lines_with(freqs_of(*conn), total as int, ls, idx as int, w)
                        == (ScanOutcome::Fail { err: e }));
                }
                return Err(e);
            },
            Ok(None) => {
                assert(idx < HEADER_LINES && header_ok(line@));
                proof {
                    let looked2 = looked.push(true);
                    assert forall|rest: Seq<bool>| #[trigger] scan_lines_with(
                        m0,
                        0,
                        ls,
                        0,
                        looked2 + rest,
                    ) == scan_lines_with(
                        freqs_of(*conn),
                        total as int,
                        ls,
                        idx + 1,
                        looked2 + rest,
                    ) by {
                        assert(looked2 + rest =~= looked + (seq![true] + rest));
                        assert(scan_lines_with(m0, 0, ls, 0, looked + (seq![true] + rest))
                            == scan_lines_with(
                            freqs_of(*conn),
                            total as int,
                            ls,
                            idx as int,
                            looked + (seq![true] + rest),
                        ));
                    }
                    looked = looked2;
                }
            },
            Ok(Some(p)) => {
                assert(idx >= HEADER_LINES && data_ok(line@));
                assert(p.word@ == line_word(line@) && p.count as int == line_count(line@));
                assert(headers_ok(ls));
                let ghost mcur = freqs_of(*conn);
                let ghost mut b: bool = true;
                let cur: u64 = match get_count(conn, p.word.as_str()) {
                    Ok(Some(c)) => {
                        assert(0 <= c <= MAX_COUNT);
                        c as u64
                    },
                    Ok(None) => 0,
                    Err(_) => {
                        // spec'd resilience: a failed lookup reads zero
                        proof {
                            b = false;
                        }
                        0
                    },
                };
                assert(cur as int == (if b {
                    count_of(mcur, p.word@)
                } else {
                    0
                }));
                let ghost pad = Seq::new((ls.len() - (idx + 1)) as nat, |j: int| true);
                proof {
                    assert((looked.push(b) + pad) =~= looked + (seq![b] + pad));
                    assert(scan_lines_with(m0, 0, ls, 0, looked + (seq![b] + pad))
                        == scan_lines_with(
                        mcur,
                        total as int,
                        ls,
                        idx as int,
                        looked + (seq![b] + pad),
                    ));
                    assert((looked + (seq![b] + pad))[idx as int] == b);
                }
                let new_total = match total.checked_add(p.count) {
                    Some(t) => t,
                    None => {
                        proof {
                            assert(scan_lines_with(mcur, total as int, ls, idx as int, looked + (
                            seq![b] + pad)) == (ScanOutcome::Fail { err: AggError::CountOverflow }));
                        }
                        return Err(AggError::CountOverflow);
                    },
                };
                let new_count = match cur.checked_add(p.count) {
                    Some(c) if c <= MAX_COUNT => c,
                    _ => {
                        proof {
                            assert(cur + p.count > MAX_COUNT);
                            assert(scan_lines_with(mcur, total as int, ls, idx as int, looked + (
                            seq![b] + pad)) == (ScanOutcome::Fail { err: AggError::CountOverflow }));
                        }
                        return Err(AggError::CountOverflow);
                    },
                };
                match upsert_count(conn, p.word.as_str(), new_count) {
                    Ok(_) => {},
                    Err(_) => {
                        return Err(AggError::Store);
                    },
                }
                proof {
                    lemma_line_word_nonempty(line@);
                    assert(freqs_of(*conn) == mcur.insert(p.word@, cur as int + p.count as int));
                    let looked2 = looked.push(b);
                    assert forall|rest: Seq<bool>| #[trigger] scan_lines_with(
                        m0,
                        0,
                        ls,
                        0,
                        looked2 + rest,
                    ) == scan_lines_with(
                        freqs_of(*conn),
                        new_total as int,
                        ls,
                        idx + 1,
                        looked2 + rest,
                    ) by {
                        assert(looked2 + rest =~= looked + (seq![b] + rest));
                        assert(scan_lines_with(m0, 0, ls, 0, looked + (seq![b] + rest))
                            == scan_lines_with(
                            mcur,
                            total as int,
                            ls,
                            idx as int,
                            looked + (seq![b] + rest),
                        ));
                        assert((looked + (seq![b] + rest))[idx as int] == b);
                    }
                    looked = looked2;
                }
                total = new_total;
            },
        }
        idx += 1;
    }
    proof {
        assert(headers_ok(ls));
        assert(looked + Seq::<bool>::empty() =~= looked);
        assert(scan_lines_with(m0, 0, ls, 0, looked + Seq::<bool>::empty()) == scan_lines_with(
            freqs_of(*conn),
            total as int,
            ls,
            idx as int,
            looked + Seq::<bool>::empty(),
        ));
        assert(scan_lines_with(freqs_of(*conn), total as int, ls, idx as int, looked)
            == (ScanOutcome::Done { counts: freqs_of(*conn), total: total as int }));
    }
    Ok(total)
}

/// Whether the directory walk must skip a file, by its name's stem:
/// platform metadata files carry no corpus data.
pub fn should_skip_file(stem: &str) -> (r: bool)
    ensures
        r == (stem@ == ".DS_Store"@),
{
    let s = stem.to_owned();
    let skip = String::from_str(".DS_Store");
    s == skip
}

} // verus!
