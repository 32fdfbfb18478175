use vstd::prelude::*;
use vstd::seq_lib::{commutative_foldr, lemma_fold_right_permutation, lemma_sorted_unique};
use crate::aggregate::{scan_lines, ScanOutcome};
use crate::export::{
    export_ok, filter_over1, lemma_encodes_multiset, recs_view, Export,
};
use crate::model::{count_of, lemma_map_sum_if_insert, map_sum, map_sum_if, map_sum_over1};
use crate::order::{count_desc_leq, lemma_count_desc_total, lemma_word_asc_total, word_asc_leq};
use crate::parse::{header_ok, line_count, line_word, HEADER_LINES};
use crate::render::render_lines;

verus! {

/// The data lines a scan that stands at `i` has still to fold in.
pub open spec fn data_from(ls: Seq<Seq<char>>, i: int) -> Seq<Seq<char>> {
    let k = if i < HEADER_LINES as int {
        HEADER_LINES as int
    } else {
        i
    };
    if ls.len() <= k {
        Seq::empty()
    } else {
        ls.skip(k)
    }
}

/// The data lines of a whole file: everything after the header.
pub open spec fn file_data(ls: Seq<Seq<char>>) -> Seq<Seq<char>> {
    data_from(ls, 0)
}

/// What one data line gives to the count of `w`.
pub open spec fn line_contrib(l: Seq<char>, w: Seq<char>) -> int {
    if line_word(l) == w {
        line_count(l)
    } else {
        0
    }
}

/// The sum of what a file's data lines give to `w`.
pub open spec fn word_sum(ds: Seq<Seq<char>>, w: Seq<char>) -> int {
    ds.fold_right(|l: Seq<char>, acc: int| acc + line_contrib(l, w), 0)
}

/// The sum of every count on a file's data lines.
pub open spec fn data_total(ds: Seq<Seq<char>>) -> int {
    ds.fold_right(|l: Seq<char>, acc: int| acc + line_count(l), 0)
}

/// Some data line carries the word `w`.
pub open spec fn has_word_in(ds: Seq<Seq<char>>, w: Seq<char>) -> bool {
    exists|k: int| 0 <= k < ds.len() && line_word(#[trigger] ds[k]) == w
}

proof fn lemma_word_sum_step(ds: Seq<Seq<char>>, w: Seq<char>)
    requires
        ds.len() > 0,
    ensures
        word_sum(ds, w) == line_contrib(ds[0], w) + word_sum(ds.drop_first(), w),
{
    let f = |l: Seq<char>, acc: int| acc + line_contrib(l, w);
    ds.lemma_fold_right_alt(f, 0);
    ds.drop_first().lemma_fold_right_alt(f, 0);
}

proof fn lemma_data_total_step(ds: Seq<Seq<char>>)
    requires
        ds.len() > 0,
    ensures
        data_total(ds) == line_count(ds[0]) + data_total(ds.drop_first()),
{
    let f = |l: Seq<char>, acc: int| acc + line_count(l);
    ds.lemma_fold_right_alt(f, 0);
    ds.drop_first().lemma_fold_right_alt(f, 0);
}

proof fn lemma_has_word_step(ds: Seq<Seq<char>>, w: Seq<char>)
    requires
        ds.len() > 0,
    ensures
        has_word_in(ds, w) <==> (line_word(ds[0]) == w || has_word_in(ds.drop_first(), w)),
{
    let ds1 = ds.drop_first();
    if has_word_in(ds, w) {
        let k = choose|k: int| 0 <= k < ds.len() && line_word(#[trigger] ds[k]) == w;
        if k > 0 {
            assert(line_word(ds1[k - 1]) == w);
        }
    }
    if has_word_in(ds1, w) {
        let k = choose|k: int| 0 <= k < ds1.len() && line_word(#[trigger] ds1[k]) == w;
        assert(line_word(ds[k + 1]) == w);
    }
}

/// What a completed scan has done to the table: every word's count grew
/// by its per-line sum, the table's total grew by the file's total, and
/// the words are the old ones plus those the file names.
pub proof fn lemma_scan_done(m: Map<Seq<char>, int>, total: int, ls: Seq<Seq<char>>, i: int)
    requires
        0 <= i <= ls.len(),
        m.dom().finite(),
        scan_lines(m, total, ls, i) is Done,
    ensures
        ({
            let out = scan_lines(m, total, ls, i);
            let ds = data_from(ls, i);
            out matches ScanOutcome::Done { counts, total: t2 } && {
                &&& t2 == total + data_total(ds)
                &&& counts.dom().finite()
                &&& map_sum(counts) == map_sum(m) + data_total(ds)
                &&& forall|w: Seq<char>|
                    count_of(counts, w) == count_of(m, w) + #[trigger] word_sum(ds, w)
                &&& forall|w: Seq<char>|
                    #[trigger] counts.dom().contains(w) <==> (m.dom().contains(w) || has_word_in(
                        ds,
                        w,
                    ))
            }
        }),
    decreases ls.len() - i,
{
    let out = scan_lines(m, total, ls, i);
    let ds = data_from(ls, i);
    if i >= ls.len() {
        assert(ds =~= Seq::<Seq<char>>::empty());
        assert(forall|w: Seq<char>| #[trigger] word_sum(ds, w) == 0);
        assert(data_total(ds) == 0);
    } else if i < HEADER_LINES as int {
        assert(header_ok(ls[i]));
        lemma_scan_done(m, total, ls, i + 1);
        assert(ds =~= data_from(ls, i + 1));
    } else {
        let line = ls[i];
        let w0 = line_word(line);
        let c = line_count(line);
        let m1 = m.insert(w0, count_of(m, w0) + c);
        lemma_scan_done(m1, total + c, ls, i + 1);
        let ds1 = data_from(ls, i + 1);
        assert(ds =~= ls.skip(i));
        assert(ds[0] == line);
        assert(ds1 =~= ds.drop_first());
        lemma_data_total_step(ds);
        lemma_map_sum_if_insert(m, |c: int| true, w0, count_of(m, w0) + c);
        assert forall|w: Seq<char>|
            count_of(out->counts, w) == count_of(m, w) + #[trigger] word_sum(ds, w) by {
            lemma_word_sum_step(ds, w);
        }
        assert forall|w: Seq<char>|
            #[trigger] out->counts.dom().contains(w) <==> (m.dom().contains(w) || has_word_in(
                ds,
                w,
            )) by {
            lemma_has_word_step(ds, w);
        }
    }
}

/// The final count of any word is the table's prior count plus the sum
/// of that word's per-line counts across the file, and the file's
/// reported total is the sum of all its counts.
pub proof fn lemma_final_counts(
    m: Map<Seq<char>, int>,
    ls: Seq<Seq<char>>,
    counts: Map<Seq<char>, int>,
    total: int,
    w: Seq<char>,
)
    requires
        m.dom().finite(),
        scan_lines(m, 0, ls, 0) == (ScanOutcome::Done { counts, total }),
    ensures
        count_of(counts, w) == count_of(m, w) + word_sum(file_data(ls), w),
        total == data_total(file_data(ls)),
{
    lemma_scan_done(m, 0, ls, 0);
}

/// Folding one file into the table adds exactly that file's total to
/// the table's overall sum; chained over a run from the empty table,
/// the final sum is the sum of every processed file's total.
pub proof fn lemma_size_accumulates(
    m: Map<Seq<char>, int>,
    ls: Seq<Seq<char>>,
    counts: Map<Seq<char>, int>,
    total: int,
)
    requires
        m.dom().finite(),
        scan_lines(m, 0, ls, 0) == (ScanOutcome::Done { counts, total }),
    ensures
        counts.dom().finite(),
        map_sum(counts) == map_sum(m) + total,
{
    lemma_scan_done(m, 0, ls, 0);
}

/// The outcome of a whole run: fold each file in turn into the table,
/// tracking the sum of the files' totals; nothing once any file fails.
pub open spec fn run_outcome(m: Map<Seq<char>, int>, files: Seq<Seq<Seq<char>>>) -> Option<
    (Map<Seq<char>, int>, int),
>
    decreases files.len(),
{
    if files.len() == 0 {
        Some((m, 0))
    } else {
        match scan_lines(m, 0, files[0], 0) {
            ScanOutcome::Done { counts, total } => match run_outcome(
                counts,
                files.drop_first(),
            ) {
                Some(rest) => Some((rest.0, total + rest.1)),
                None => None,
            },
            ScanOutcome::Fail { .. } => None,
        }
    }
}

/// What a run's files together give to the count of `w`.
pub open spec fn run_word_sum(files: Seq<Seq<Seq<char>>>, w: Seq<char>) -> int
    decreases files.len(),
{
    if files.len() == 0 {
        0
    } else {
        word_sum(file_data(files[0]), w) + run_word_sum(files.drop_first(), w)
    }
}

/// Some data line of some file of the run carries `w`.
pub open spec fn run_has_word(files: Seq<Seq<Seq<char>>>, w: Seq<char>) -> bool
    decreases files.len(),
{
    if files.len() == 0 {
        false
    } else {
        has_word_in(file_data(files[0]), w) || run_has_word(files.drop_first(), w)
    }
}

/// Across a whole run: every word's count grows by the sum of its
/// per-line counts over every processed file, the table's sum — the
/// exported `size` — grows by the sum of the files' totals, and the
/// words present are the prior ones plus exactly those some data line
/// carries. Started from the reset, empty table, the counts and the
/// size are exactly those sums.
pub proof fn lemma_run_counts(
    m: Map<Seq<char>, int>,
    files: Seq<Seq<Seq<char>>>,
    counts: Map<Seq<char>, int>,
    run_total: int,
)
    requires
        m.dom().finite(),
        run_outcome(m, files) == Some((counts, run_total)),
    ensures
        counts.dom().finite(),
        map_sum(counts) == map_sum(m) + run_total,
        forall|w: Seq<char>|
            count_of(counts, w) == count_of(m, w) + #[trigger] run_word_sum(files, w),
        forall|w: Seq<char>|
            #[trigger] counts.dom().contains(w) <==> (m.dom().contains(w) || run_has_word(
                files,
                w,
            )),
    decreases files.len(),
{
    if files.len() > 0 {
        let out = scan_lines(m, 0, files[0], 0);
        lemma_scan_done(m, 0, files[0], 0);
        lemma_run_counts(out->counts, files.drop_first(), counts, run_total - out->total);
        assert forall|w: Seq<char>|
            count_of(counts, w) == count_of(m, w) + #[trigger] run_word_sum(files, w) by {
            assert(count_of(out->counts, w) == count_of(m, w) + word_sum(
                data_from(files[0], 0),
                w,
            ));
            assert(count_of(counts, w) == count_of(out->counts, w) + run_word_sum(
                files.drop_first(),
                w,
            ));
        }
        assert forall|w: Seq<char>|
            #[trigger] counts.dom().contains(w) <==> (m.dom().contains(w) || run_has_word(
                files,
                w,
            )) by {
            assert(out->counts.dom().contains(w) <==> (m.dom().contains(w) || has_word_in(
                data_from(files[0], 0),
                w,
            )));
            assert(counts.dom().contains(w) <==> (out->counts.dom().contains(w) || run_has_word(
                files.drop_first(),
                w,
            )));
        }
    }
}

proof fn lemma_run_word_sum_fold(files: Seq<Seq<Seq<char>>>, w: Seq<char>)
    ensures
        run_word_sum(files, w) == files.fold_right(
            |fl: Seq<Seq<char>>, acc: int| acc + word_sum(file_data(fl), w),
            0,
        ),
    decreases files.len(),
{
    let f = |fl: Seq<Seq<char>>, acc: int| acc + word_sum(file_data(fl), w);
    files.lemma_fold_right_alt(f, 0);
    if files.len() > 0 {
        lemma_run_word_sum_fold(files.drop_first(), w);
        files.drop_first().lemma_fold_right_alt(f, 0);
    }
}

proof fn lemma_run_has_word_exists(files: Seq<Seq<Seq<char>>>, w: Seq<char>)
    ensures
        run_has_word(files, w) <==> exists|k: int|
            0 <= k < files.len() && has_word_in(file_data(#[trigger] files[k]), w),
    decreases files.len(),
{
    if files.len() > 0 {
        let rest = files.drop_first();
        lemma_run_has_word_exists(rest, w);
        if run_has_word(rest, w) {
            let k = choose|k: int|
                0 <= k < rest.len() && has_word_in(file_data(#[trigger] rest[k]), w);
            assert(has_word_in(file_data(files[k + 1]), w));
        }
        if exists|k: int| 0 <= k < files.len() && has_word_in(file_data(#[trigger] files[k]), w) {
            let k = choose|k: int|
                0 <= k < files.len() && has_word_in(file_data(#[trigger] files[k]), w);
            if k > 0 {
                assert(has_word_in(file_data(rest[k - 1]), w));
            }
        }
    }
}

/// Visiting the run's files in any order leaves the same final table
/// and the same run total.
pub proof fn lemma_file_order_independence(
    m: Map<Seq<char>, int>,
    files1: Seq<Seq<Seq<char>>>,
    files2: Seq<Seq<Seq<char>>>,
    counts1: Map<Seq<char>, int>,
    total1: int,
    counts2: Map<Seq<char>, int>,
    total2: int,
)
    requires
        m.dom().finite(),
        run_outcome(m, files1) == Some((counts1, total1)),
        run_outcome(m, files2) == Some((counts2, total2)),
        files1.to_multiset() == files2.to_multiset(),
    ensures
        counts1 == counts2,
        total1 == total2,
{
    broadcast use vstd::seq_lib::group_to_multiset_ensures;

    lemma_run_counts(m, files1, counts1, total1);
    lemma_run_counts(m, files2, counts2, total2);
    assert forall|w: Seq<char>| #[trigger] run_word_sum(files1, w) == run_word_sum(files2, w) by {
        let f = |fl: Seq<Seq<char>>, acc: int| acc + word_sum(file_data(fl), w);
        assert(commutative_foldr(f));
        lemma_run_word_sum_fold(files1, w);
        lemma_run_word_sum_fold(files2, w);
        lemma_fold_right_permutation(files1, files2, f, 0);
    }
    assert forall|w: Seq<char>| #[trigger] run_has_word(files1, w) == run_has_word(files2, w) by {
        lemma_run_has_word_exists(files1, w);
        lemma_run_has_word_exists(files2, w);
        if run_has_word(files1, w) {
            let k = choose|k: int|
                0 <= k < files1.len() && has_word_in(file_data(#[trigger] files1[k]), w);
            assert(files1.contains(files1[k]));
            assert(files1.to_multiset().count(files1[k]) > 0);
            assert(files2.to_multiset().count(files1[k]) > 0);
            assert(files2.contains(files1[k]));
            let j = choose|j: int| 0 <= j < files2.len() && files2[j] == files1[k];
            assert(has_word_in(file_data(files2[j]), w));
        }
        if run_has_word(files2, w) {
            let k = choose|k: int|
                0 <= k < files2.len() && has_word_in(file_data(#[trigger] files2[k]), w);
            assert(files2.contains(files2[k]));
            assert(files2.to_multiset().count(files2[k]) > 0);
            assert(files1.to_multiset().count(files2[k]) > 0);
            assert(files1.contains(files2[k]));
            let j = choose|j: int| 0 <= j < files1.len() && files1[j] == files2[k];
            assert(has_word_in(file_data(files1[j]), w));
        }
    }
    assert(counts1 =~= counts2) by {
        assert(counts1.dom() =~= counts2.dom());
        assert forall|w: Seq<char>| counts1.dom().contains(w) implies #[trigger] counts1[w]
            == counts2[w] by {
            assert(count_of(counts1, w) == count_of(m, w) + run_word_sum(files1, w));
            assert(count_of(counts2, w) == count_of(m, w) + run_word_sum(files2, w));
        }
    }
    assert(total1 == total2) by {
        assert(map_sum(counts1) == map_sum(m) + total1);
        assert(map_sum(counts2) == map_sum(m) + total2);
    }
}

/// Visiting the same data lines in any order leaves the same table and
/// the same total.
pub proof fn lemma_order_independence(
    m: Map<Seq<char>, int>,
    ls1: Seq<Seq<char>>,
    ls2: Seq<Seq<char>>,
    counts1: Map<Seq<char>, int>,
    total1: int,
    counts2: Map<Seq<char>, int>,
    total2: int,
)
    requires
        m.dom().finite(),
        scan_lines(m, 0, ls1, 0) == (ScanOutcome::Done { counts: counts1, total: total1 }),
        scan_lines(m, 0, ls2, 0) == (ScanOutcome::Done { counts: counts2, total: total2 }),
        file_data(ls1).to_multiset() == file_data(ls2).to_multiset(),
    ensures
        counts1 == counts2,
        total1 == total2,
{
    broadcast use vstd::seq_lib::group_to_multiset_ensures;
    lemma_scan_done(m, 0, ls1, 0);
    lemma_scan_done(m, 0, ls2, 0);
    let ds1 = file_data(ls1);
    let ds2 = file_data(ls2);
    assert forall|w: Seq<char>| #[trigger] word_sum(ds1, w) == word_sum(ds2, w) by {
        let f = |l: Seq<char>, acc: int| acc + line_contrib(l, w);
        assert(commutative_foldr(f));
        lemma_fold_right_permutation(ds1, ds2, f, 0);
    }
    assert(total1 == total2) by {
        let f = |l: Seq<char>, acc: int| acc + line_count(l);
        assert(commutative_foldr(f));
        lemma_fold_right_permutation(ds1, ds2, f, 0);
    }
    assert forall|w: Seq<char>| #[trigger] has_word_in(ds1, w) implies has_word_in(ds2, w) by {
        let k = choose|k: int| 0 <= k < ds1.len() && line_word(#[trigger] ds1[k]) == w;
        assert(ds1.contains(ds1[k]));
        assert(ds1.to_multiset().count(ds1[k]) > 0);
        assert(ds2.to_multiset().count(ds1[k]) > 0);
        assert(ds2.contains(ds1[k]));
        let j = choose|j: int| 0 <= j < ds2.len() && ds2[j] == ds1[k];
        assert(line_word(ds2[j]) == w);
    }
    assert forall|w: Seq<char>| #[trigger] has_word_in(ds2, w) implies has_word_in(ds1, w) by {
        let k = choose|k: int| 0 <= k < ds2.len() && line_word(#[trigger] ds2[k]) == w;
        assert(ds2.contains(ds2[k]));
        assert(ds2.to_multiset().count(ds2[k]) > 0);
        assert(ds1.to_multiset().count(ds2[k]) > 0);
        assert(ds1.contains(ds2[k]));
        let j = choose|j: int| 0 <= j < ds1.len() && ds1[j] == ds2[k];
        assert(line_word(ds1[j]) == w);
    }
    assert(counts1 =~= counts2) by {
        assert(counts1.dom() =~= counts2.dom());
        assert forall|w: Seq<char>| counts1.dom().contains(w) implies #[trigger] counts1[w]
            == counts2[w] by {
            assert(count_of(counts1, w) == count_of(m, w) + word_sum(ds1, w));
            assert(count_of(counts2, w) == count_of(m, w) + word_sum(ds2, w));
        }
    }
}

/// The filtered total never exceeds the full total, and the two agree
/// exactly when no word's count is one.
pub proof fn lemma_size_one_bound(m: Map<Seq<char>, int>)
    requires
        m.dom().finite(),
        forall|w: Seq<char>| #[trigger] m.dom().contains(w) ==> m[w] >= 0,
    ensures
        map_sum_over1(m) <= map_sum(m),
        map_sum_over1(m) == map_sum(m) <==> (forall|w: Seq<char>|
            #[trigger] m.dom().contains(w) ==> m[w] != 1),
    decreases m.dom().len(),
{
    if m.dom().len() != 0 {
        let w = m.dom().choose();
        assert(m.dom().contains(w));
        let m1 = m.remove(w);
        lemma_size_one_bound(m1);
        assert(map_sum(m) == (if true {
            m[w]
        } else {
            0
        }) + map_sum_if(m1, |c: int| true));
        assert(map_sum_over1(m) == (if m[w] > 1 {
            m[w]
        } else {
            0
        }) + map_sum_if(m1, |c: int| c > 1));
        if map_sum_over1(m) == map_sum(m) {
            assert forall|w2: Seq<char>| #[trigger] m.dom().contains(w2) implies m[w2] != 1 by {
                if w2 != w {
                    assert(m1.dom().contains(w2));
                }
            }
        }
    } else {
        assert(map_sum(m) == 0 && map_sum_over1(m) == 0);
    }
}

/// No record with a count of one or less reaches either export.
pub proof fn lemma_export_min_count(e: Export, m: Map<Seq<char>, int>, i: int)
    requires
        export_ok(e, m),
    ensures
        0 <= i < e.by_count@.len() ==> recs_view(e.by_count@)[i].1 > 1,
        0 <= i < e.by_word@.len() ==> recs_view(e.by_word@)[i].1 > 1,
{
    if 0 <= i < e.by_count@.len() {
        assert(filter_over1(m).dom().contains(recs_view(e.by_count@)[i].0));
    }
    if 0 <= i < e.by_word@.len() {
        assert(filter_over1(m).dom().contains(recs_view(e.by_word@)[i].0));
    }
}

/// One table has one export: any two correct exports of the same table
/// hold identical totals, identical record orders, and so render to
/// identical lines.
pub proof fn lemma_export_deterministic(e1: Export, e2: Export, m: Map<Seq<char>, int>)
    requires
        export_ok(e1, m),
        export_ok(e2, m),
    ensures
        e1.size == e2.size,
        e1.size_1 == e2.size_1,
        recs_view(e1.by_count@) == recs_view(e2.by_count@),
        recs_view(e1.by_word@) == recs_view(e2.by_word@),
        render_lines(e1.size as int, e1.size_1 as int, recs_view(e1.by_count@)) == render_lines(
            e2.size as int,
            e2.size_1 as int,
            recs_view(e2.by_count@),
        ),
        render_lines(e1.size as int, e1.size_1 as int, recs_view(e1.by_word@)) == render_lines(
            e2.size as int,
            e2.size_1 as int,
            recs_view(e2.by_word@),
        ),
{
    let fm = filter_over1(m);
    lemma_encodes_multiset(recs_view(e1.by_count@), recs_view(e2.by_count@), fm);
    lemma_encodes_multiset(recs_view(e1.by_word@), recs_view(e2.by_word@), fm);
    lemma_count_desc_total();
    lemma_word_asc_total();
    lemma_sorted_unique(
        recs_view(e1.by_count@),
        recs_view(e2.by_count@),
        |a: (Seq<char>, int), b: (Seq<char>, int)| count_desc_leq(a, b),
    );
    lemma_sorted_unique(
        recs_view(e1.by_word@),
        recs_view(e2.by_word@),
        |a: (Seq<char>, int), b: (Seq<char>, int)| word_asc_leq(a, b),
    );
}

} // verus!
