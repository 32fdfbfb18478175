use vstd::prelude::*;

use vstd::relations::sorted_by;

use crate::errors::AggError;
use crate::model::{
    lemma_map_sum_if_remove, map_sum, map_sum_if, map_sum_over1,
};
use crate::order::{count_desc_leq, word_asc_leq};
use crate::table::{freqs_of, scan_all, table_wf, MAX_COUNT};

verus! {

/// One row of the final table: a word and its cumulative count.
pub struct FrequencyRecord {
    pub word: String,
    pub count: u64,
}

impl View for FrequencyRecord {
    type V = (Seq<char>, int);

    open spec fn view(&self) -> (Seq<char>, int) {
        (self.word@, self.count as int)
    }
}

/// The views of a sequence of records.
pub open spec fn recs_view(s: Seq<FrequencyRecord>) -> Seq<(Seq<char>, int)> {
    s.map_values(|r: FrequencyRecord| r@)
}

/// `s` enumerates exactly the entries of `m`, each word once, in some
/// order.
pub open spec fn encodes(s: Seq<(Seq<char>, int)>, m: Map<Seq<char>, int>) -> bool {
    &&& forall|i: int, j: int|
        0 <= i < j < s.len() ==> (#[trigger] s[i]).0 != (#[trigger] s[j]).0
    &&& forall|i: int|
        0 <= i < s.len() ==> m.dom().contains((#[trigger] s[i]).0) && m[s[i].0] == s[i].1
    &&& forall|w: Seq<char>|
        #[trigger] m.dom().contains(w) ==> exists|i: int|
            0 <= i < s.len() && (#[trigger] s[i]).0 == w
}

/// Sum of the counts among `s` that satisfy `p`.
pub open spec fn rec_sum_if(s: Seq<(Seq<char>, int)>, p: spec_fn(int) -> bool) -> int
    decreases s.len(),
{
    if s.len() == 0 {
        0
    } else {
        rec_sum_if(s.drop_last(), p) + (if p(s.last().1) {
            s.last().1
        } else {
            0
        })
    }
}

/// Sum of all counts in `s`.
pub open spec fn rec_sum(s: Seq<(Seq<char>, int)>) -> int {
    rec_sum_if(s, |c: int| true)
}

/// Sum of the counts above one.
pub open spec fn rec_sum_over1(s: Seq<(Seq<char>, int)>) -> int {
    rec_sum_if(s, |c: int| c > 1)
}

/// With non-negative counts, a prefix never sums to more than the whole.
pub proof fn lemma_rec_sum_if_prefix(s: Seq<(Seq<char>, int)>, p: spec_fn(int) -> bool, k: int)
    requires
        0 <= k <= s.len(),
        forall|i: int| 0 <= i < s.len() ==> (#[trigger] s[i]).1 >= 0,
    ensures
        rec_sum_if(s.subrange(0, k), p) <= rec_sum_if(s, p),
    decreases s.len(),
{
    if k == s.len() {
        assert(s.subrange(0, k) =~= s);
    } else {
        assert(s.drop_last().subrange(0, k) =~= s.subrange(0, k));
        assert(forall|i: int| 0 <= i < s.len() - 1 ==> s.drop_last()[i] == s[i]);
        lemma_rec_sum_if_prefix(s.drop_last(), p, k);
    }
}

/// Dropping the last entry of an encoding encodes the map without that
/// word.
proof fn lemma_encodes_drop_last(s: Seq<(Seq<char>, int)>, m: Map<Seq<char>, int>)
    requires
        encodes(s, m),
        s.len() > 0,
    ensures
        encodes(s.drop_last(), m.remove(s.last().0)),
{
    let s1 = s.drop_last();
    let w = s.last().0;
    let m1 = m.remove(w);
    assert(forall|i: int| 0 <= i < s1.len() ==> s1[i] == s[i]);
    assert forall|w2: Seq<char>| #[trigger] m1.dom().contains(w2) implies exists|i: int|
        0 <= i < s1.len() && (#[trigger] s1[i]).0 == w2 by {
        let i = choose|i: int| 0 <= i < s.len() && (#[trigger] s[i]).0 == w2;
        assert(i != s.len() - 1);
        assert(s1[i].0 == w2);
    }
}

/// An encoding of the empty map is empty.
proof fn lemma_encodes_empty(s: Seq<(Seq<char>, int)>, m: Map<Seq<char>, int>)
    requires
        encodes(s, m),
        m.dom() =~= Set::<Seq<char>>::empty(),
    ensures
        s.len() == 0,
{
    if s.len() > 0 {
        assert(m.dom().contains(s[0].0));
    }
}

/// Summing an encoding of `m` is summing `m`.
pub proof fn lemma_encodes_sum(
    s: Seq<(Seq<char>, int)>,
    m: Map<Seq<char>, int>,
    p: spec_fn(int) -> bool,
)
    requires
        encodes(s, m),
        m.dom().finite(),
    ensures
        rec_sum_if(s, p) == map_sum_if(m, p),
    decreases s.len(),
{
    if s.len() == 0 {
        if m.dom().len() != 0 {
            let w = m.dom().choose();
            assert(m.dom().contains(w));
        }
    } else {
        let w = s.last().0;
        lemma_encodes_drop_last(s, m);
        lemma_encodes_sum(s.drop_last(), m.remove(w), p);
        lemma_map_sum_if_remove(m, p, w);
    }
}

/// The entries of `m` with a count above one: what both exports list.
pub open spec fn filter_over1(m: Map<Seq<char>, int>) -> Map<Seq<char>, int> {
    Map::new(|w: Seq<char>| m.dom().contains(w) && m[w] > 1, |w: Seq<char>| m[w])
}

/// The entries of `s` with a count above one, in their order.
pub open spec fn over1(s: Seq<(Seq<char>, int)>) -> Seq<(Seq<char>, int)>
    decreases s.len(),
{
    if s.len() == 0 {
        s
    } else if s.last().1 > 1 {
        over1(s.drop_last()).push(s.last())
    } else {
        over1(s.drop_last())
    }
}

/// Filtering an encoding of `m` by count encodes the filtered map.
pub proof fn lemma_filter_encodes(s: Seq<(Seq<char>, int)>, m: Map<Seq<char>, int>)
    requires
        encodes(s, m),
    ensures
        encodes(over1(s), filter_over1(m)),
    decreases s.len(),
{
    let f = over1(s);
    let fm = filter_over1(m);
    if s.len() == 0 {
        assert forall|w: Seq<char>| #[trigger] fm.dom().contains(w) implies exists|i: int|
            0 <= i < f.len() && (#[trigger] f[i]).0 == w by {
            assert(m.dom().contains(w));
        }
    } else {
        let last = s.last();
        let w = last.0;
        let s1 = s.drop_last();
        let m1 = m.remove(w);
        lemma_encodes_drop_last(s, m);
        lemma_filter_encodes(s1, m1);
        let f1 = over1(s1);
        assert(filter_over1(m1) =~= fm.remove(w));
        if last.1 > 1 {
            assert(f =~= f1.push(last));
            assert(forall|i: int| 0 <= i < f1.len() ==> f[i] == f1[i]);
            // no filtered entry of s1 carries the word of the new last entry
            assert forall|i: int, j: int|
                0 <= i < j < f.len() implies (#[trigger] f[i]).0 != (#[trigger] f[j]).0 by {
                if j == f.len() - 1 {
                    assert(fm.remove(w).dom().contains(f1[i].0) || !filter_over1(m1).dom().contains(
                        f1[i].0,
                    ));
                }
            }
            assert forall|w2: Seq<char>| #[trigger] fm.dom().contains(w2) implies exists|i: int|
                0 <= i < f.len() && (#[trigger] f[i]).0 == w2 by {
                if w2 == w {
                    assert(f[f.len() - 1].0 == w2);
                } else {
                    assert(fm.remove(w).dom().contains(w2));
                    let i = choose|i: int| 0 <= i < f1.len() && (#[trigger] f1[i]).0 == w2;
                    assert(f[i].0 == w2);
                }
            }
        } else {
            assert(f =~= f1);
            assert forall|w2: Seq<char>| #[trigger] fm.dom().contains(w2) implies exists|i: int|
                0 <= i < f.len() && (#[trigger] f[i]).0 == w2 by {
                assert(m.dom().contains(w2) && m[w2] > 1);
                assert(w2 != w);
                assert(fm.remove(w).dom().contains(w2));
            }
        }
    }
}

/// Removing one entry of an encoding encodes the map without its word.
proof fn lemma_encodes_remove(s: Seq<(Seq<char>, int)>, m: Map<Seq<char>, int>, j: int)
    requires
        encodes(s, m),
        0 <= j < s.len(),
    ensures
        encodes(s.remove(j), m.remove(s[j].0)),
{
    let s1 = s.remove(j);
    let w = s[j].0;
    let m1 = m.remove(w);
    assert(forall|i: int| 0 <= i < j ==> s1[i] == s[i]);
    assert(forall|i: int| j <= i < s1.len() ==> s1[i] == s[i + 1]);
    assert forall|w2: Seq<char>| #[trigger] m1.dom().contains(w2) implies exists|i: int|
        0 <= i < s1.len() && (#[trigger] s1[i]).0 == w2 by {
        let i = choose|i: int| 0 <= i < s.len() && (#[trigger] s[i]).0 == w2;
        assert(i != j);
        if i < j {
            assert(s1[i].0 == w2);
        } else {
            assert(s1[i - 1].0 == w2);
        }
    }
}

/// Two encodings of one map hold the same entries, as a multiset.
pub proof fn lemma_encodes_multiset(
    s1: Seq<(Seq<char>, int)>,
    s2: Seq<(Seq<char>, int)>,
    m: Map<Seq<char>, int>,
)
    requires
        encodes(s1, m),
        encodes(s2, m),
    ensures
        s1.to_multiset() == s2.to_multiset(),
    decreases s1.len(),
{
    broadcast use vstd::seq_lib::group_to_multiset_ensures;
    broadcast use vstd::multiset::group_multiset_axioms;

    if s1.len() == 0 {
        assert(m.dom() =~= Set::<Seq<char>>::empty()) by {
            if exists|w: Seq<char>| m.dom().contains(w) {
                let w = choose|w: Seq<char>| m.dom().contains(w);
                assert(m.dom().contains(w));
            }
        }
        lemma_encodes_empty(s2, m);
        assert(s1.to_multiset() =~= s2.to_multiset());
    } else {
        let p = s1.last();
        let w = p.0;
        assert(m.dom().contains(w));
        let j = choose|j: int| 0 <= j < s2.len() && (#[trigger] s2[j]).0 == w;
        assert(s2[j] =~= p);
        lemma_encodes_remove(s1, m, s1.len() - 1);
        assert(s1.remove(s1.len() - 1) =~= s1.drop_last());
        lemma_encodes_remove(s2, m, j);
        lemma_encodes_multiset(s1.drop_last(), s2.remove(j), m.remove(w));
        assert(s1 =~= s1.drop_last().push(p));
        assert(s1.to_multiset() == s1.drop_last().to_multiset().insert(p));
        assert(s2.remove(j).to_multiset() == s2.to_multiset().remove(p));
        assert(s2.to_multiset().count(p) > 0);
        assert(s1.to_multiset() =~= s2.to_multiset());
    }
}

/// An encoding survives any reordering of its entries.
pub proof fn lemma_encodes_permutation(
    s1: Seq<(Seq<char>, int)>,
    s2: Seq<(Seq<char>, int)>,
    m: Map<Seq<char>, int>,
)
    requires
        encodes(s1, m),
        s1.to_multiset() == s2.to_multiset(),
    ensures
        encodes(s2, m),
{
    broadcast use vstd::seq_lib::group_to_multiset_ensures;
    broadcast use vstd::multiset::group_multiset_axioms;

    assert forall|i: int|
        0 <= i < s2.len() implies m.dom().contains((#[trigger] s2[i]).0) && m[s2[i].0]
        == s2[i].1 by {
        assert(s2.contains(s2[i]));
        assert(s2.to_multiset().count(s2[i]) > 0);
        assert(s1.to_multiset().count(s2[i]) > 0);
        assert(s1.contains(s2[i]));
    }
    assert forall|w: Seq<char>| #[trigger] m.dom().contains(w) implies exists|i: int|
        0 <= i < s2.len() && (#[trigger] s2[i]).0 == w by {
        let i1 = choose|i: int| 0 <= i < s1.len() && (#[trigger] s1[i]).0 == w;
        assert(s1.contains(s1[i1]));
        assert(s1.to_multiset().count(s1[i1]) > 0);
        assert(s2.to_multiset().count(s1[i1]) > 0);
        assert(s2.contains(s1[i1]));
        let i2 = choose|i: int| 0 <= i < s2.len() && s2[i] == s1[i1];
        assert(s2[i2].0 == w);
    }
    assert forall|i: int, j: int|
        0 <= i < j < s2.len() implies (#[trigger] s2[i]).0 != (#[trigger] s2[j]).0 by {
        if s2[i].0 == s2[j].0 {
            if s2[i] == s2[j] {
                let p = s2[i];
                assert(s2.remove(j).to_multiset() == s2.to_multiset().remove(p));
                assert(s2.remove(j)[i] == p);
                assert(s2.remove(j).contains(p));
                assert(s2.remove(j).to_multiset().count(p) > 0);
                assert(s2.to_multiset().count(p) >= 2);
                assert(s1.to_multiset().count(p) >= 2);
                assert(s1.contains(p));
                let k1 = choose|k: int| 0 <= k < s1.len() && s1[k] == p;
                assert(s1.remove(k1).to_multiset() == s1.to_multiset().remove(p));
                assert(s1.remove(k1).to_multiset().count(p) > 0);
                assert(s1.remove(k1).contains(p));
                let k2 = choose|k: int| 0 <= k < s1.remove(k1).len() && s1.remove(k1)[k] == p;
                if k2 < k1 {
                    assert(s1[k2] == p && k2 != k1);
                } else {
                    assert(s1[k2 + 1] == p && k2 + 1 != k1);
                }
            } else {
                assert(s2.contains(s2[i]) && s2.contains(s2[j]));
                assert(s2.to_multiset().count(s2[i]) > 0 && s2.to_multiset().count(s2[j]) > 0);
                assert(s1.to_multiset().count(s2[i]) > 0 && s1.to_multiset().count(s2[j]) > 0);
                assert(s1.contains(s2[i]) && s1.contains(s2[j]));
                let k1 = choose|k: int| 0 <= k < s1.len() && s1[k] == s2[i];
                let k2 = choose|k: int| 0 <= k < s1.len() && s1[k] == s2[j];
                assert(k1 != k2);
            }
        }
    }
}

fn rec_leq_count(a: &FrequencyRecord, b: &FrequencyRecord) -> (r: bool)
    ensures
        r == count_desc_leq(a@, b@),
{
    if a.count > b.count {
        true
    } else if a.count == b.count {
        crate::order::str_leq(a.word.as_str(), b.word.as_str())
    } else {
        false
    }
}

fn rec_leq_word(a: &FrequencyRecord, b: &FrequencyRecord) -> (r: bool)
    ensures
        r == word_asc_leq(a@, b@),
{
    if a.word == b.word {
        a.count <= b.count
    } else {
        crate::order::str_leq(a.word.as_str(), b.word.as_str())
    }
}

proof fn lemma_count_desc_conn(a: (Seq<char>, int), b: (Seq<char>, int))
    ensures
        count_desc_leq(a, b) || count_desc_leq(b, a),
{
    crate::order::lemma_lex_connected(a.0, b.0);
}

proof fn lemma_count_desc_trans(a: (Seq<char>, int), b: (Seq<char>, int), c: (Seq<char>, int))
    requires
        count_desc_leq(a, b),
        count_desc_leq(b, c),
    ensures
        count_desc_leq(a, c),
{
    if a.1 == b.1 && b.1 == c.1 {
        crate::order::lemma_lex_trans(a.0, b.0, c.0);
    }
}

proof fn lemma_word_asc_conn(a: (Seq<char>, int), b: (Seq<char>, int))
    ensures
        word_asc_leq(a, b) || word_asc_leq(b, a),
{
    crate::order::lemma_lex_connected(a.0, b.0);
}

proof fn lemma_word_asc_trans(a: (Seq<char>, int), b: (Seq<char>, int), c: (Seq<char>, int))
    requires
        word_asc_leq(a, b),
        word_asc_leq(b, c),
    ensures
        word_asc_leq(a, c),
{
    if a.0 != b.0 && b.0 != c.0 && a.0 != c.0 {
        crate::order::lemma_lex_trans(a.0, b.0, c.0);
    } else if a.0 != b.0 && b.0 != c.0 && a.0 == c.0 {
        crate::order::lemma_lex_antisym(a.0, b.0);
    }
}

/// Sort the records with larger counts first, ties by ascending word.
#[verifier::loop_isolation(false)]
fn sort_by_count(v: &mut Vec<FrequencyRecord>)
    ensures
        recs_view(final(v)@).to_multiset() == recs_view(old(v)@).to_multiset(),
        sorted_by(
            recs_view(final(v)@),
            |a: (Seq<char>, int), b: (Seq<char>, int)| count_desc_leq(a, b),
        ),
{
    broadcast use vstd::seq_lib::group_to_multiset_ensures;
    broadcast use vstd::multiset::group_multiset_axioms;

    let n = v.len();
    if n <= 1 {
        return ;
    }
    let mut i: usize = 1;
    while i < n
        invariant
            1 <= i <= n,
            n == v@.len(),
            recs_view(v@).to_multiset() == recs_view(old(v)@).to_multiset(),
            forall|k: int, l: int|
                0 <= k < l < i as int ==> count_desc_leq(
                    #[trigger] recs_view(v@)[k],
                    #[trigger] recs_view(v@)[l],
                ),
        decreases n - i,
    {
        let mut j: usize = i;
        let mut moving = true;
        while moving && j > 0
            invariant
                j <= i < n,
                n == v@.len(),
                recs_view(v@).to_multiset() == recs_view(old(v)@).to_multiset(),
                moving ==> forall|k: int, l: int|
                    0 <= k < l <= i as int && l != j as int ==> count_desc_leq(
                        #[trigger] recs_view(v@)[k],
                        #[trigger] recs_view(v@)[l],
                    ),
                !moving ==> forall|k: int, l: int|
                    0 <= k < l <= i as int ==> count_desc_leq(
                        #[trigger] recs_view(v@)[k],
                        #[trigger] recs_view(v@)[l],
                    ),
            decreases (if moving { j + 1 } else { 0 }),
        {
            if rec_leq_count(&v[j - 1], &v[j]) {
                proof {
                    let rv = recs_view(v@);
                    assert forall|k: int, l: int| 0 <= k < l <= i as int implies count_desc_leq(
                        #[trigger] rv[k],
                        #[trigger] rv[l],
                    ) by {
                        if l == j as int && k < j - 1 {
                            lemma_count_desc_trans(rv[k], rv[j - 1], rv[l]);
                        }
                    }
                }
                moving = false;
            } else {
                proof {
                    lemma_count_desc_conn(recs_view(v@)[j - 1], recs_view(v@)[j as int]);
                }
                let ghost rv0 = recs_view(v@);
                let x = v.remove(j);
                v.insert(j - 1, x);
                proof {
                    let rv1 = recs_view(v@);
                    assert(rv1 =~= rv0.update(j - 1, rv0[j as int]).update(j as int, rv0[j - 1]));
                    assert(rv1.to_multiset() =~= rv0.to_multiset());
                }
                j -= 1;
            }
        }
        proof {
            let rv = recs_view(v@);
            assert forall|k: int, l: int| 0 <= k < l < i + 1 implies count_desc_leq(
                #[trigger] rv[k],
                #[trigger] rv[l],
            ) by {}
        }
        i += 1;
    }
}

/// Sort the records by ascending word.
#[verifier::loop_isolation(false)]
fn sort_by_word(v: &mut Vec<FrequencyRecord>)
    ensures
        recs_view(final(v)@).to_multiset() == recs_view(old(v)@).to_multiset(),
        sorted_by(
            recs_view(final(v)@),
            |a: (Seq<char>, int), b: (Seq<char>, int)| word_asc_leq(a, b),
        ),
{
    broadcast use vstd::seq_lib::group_to_multiset_ensures;
    broadcast use vstd::multiset::group_multiset_axioms;

    let n = v.len();
    if n <= 1 {
        return ;
    }
    let mut i: usize = 1;
    while i < n
        invariant
            1 <= i <= n,
            n == v@.len(),
            recs_view(v@).to_multiset() == recs_view(old(v)@).to_multiset(),
            forall|k: int, l: int|
                0 <= k < l < i as int ==> word_asc_leq(
                    #[trigger] recs_view(v@)[k],
                    #[trigger] recs_view(v@)[l],
                ),
        decreases n - i,
    {
        let mut j: usize = i;
        let mut moving = true;
        while moving && j > 0
            invariant
                j <= i < n,
                n == v@.len(),
                recs_view(v@).to_multiset() == recs_view(old(v)@).to_multiset(),
                moving ==> forall|k: int, l: int|
                    0 <= k < l <= i as int && l != j as int ==> word_asc_leq(
                        #[trigger] recs_view(v@)[k],
                        #[trigger] recs_view(v@)[l],
                    ),
                !moving ==> forall|k: int, l: int|
                    0 <= k < l <= i as int ==> word_asc_leq(
                        #[trigger] recs_view(v@)[k],
                        #[trigger] recs_view(v@)[l],
                    ),
            decreases (if moving { j + 1 } else { 0 }),
        {
            if rec_leq_word(&v[j - 1], &v[j]) {
                proof {
                    let rv = recs_view(v@);
                    assert forall|k: int, l: int| 0 <= k < l <= i as int implies word_asc_leq(
                        #[trigger] rv[k],
                        #[trigger] rv[l],
                    ) by {
                        if l == j as int && k < j - 1 {
                            lemma_word_asc_trans(rv[k], rv[j - 1], rv[l]);
                        }
                    }
                }
                moving = false;
            } else {
                proof {
                    lemma_word_asc_conn(recs_view(v@)[j - 1], recs_view(v@)[j as int]);
                }
                let ghost rv0 = recs_view(v@);
                let x = v.remove(j);
                v.insert(j - 1, x);
                proof {
                    let rv1 = recs_view(v@);
                    assert(rv1 =~= rv0.update(j - 1, rv0[j as int]).update(j as int, rv0[j - 1]));
                    assert(rv1.to_multiset() =~= rv0.to_multiset());
                }
                j -= 1;
            }
        }
        proof {
            let rv = recs_view(v@);
            assert forall|k: int, l: int| 0 <= k < l < i + 1 implies word_asc_leq(
                #[trigger] rv[k],
                #[trigger] rv[l],
            ) by {}
        }
        i += 1;
    }
}

/// The two sorted projections of the final table, with their totals.
pub struct Export {
    /// Sum of every count in the table.
    pub size: u64,
    /// Sum of the counts above one.
    pub size_1: u64,
    /// Records with a count above one, larger counts first.
    pub by_count: Vec<FrequencyRecord>,
    /// The same records, by ascending word.
    pub by_word: Vec<FrequencyRecord>,
}

/// What a correct export of table `m` holds: the two totals, and both
/// projections listing exactly the entries above one, each sorted by
/// its order.
pub open spec fn export_ok(e: Export, m: Map<Seq<char>, int>) -> bool {
    &&& e.size as int == map_sum(m)
    &&& e.size_1 as int == map_sum_over1(m)
    &&& encodes(recs_view(e.by_count@), filter_over1(m))
    &&& encodes(recs_view(e.by_word@), filter_over1(m))
    &&& sorted_by(
        recs_view(e.by_count@),
        |a: (Seq<char>, int), b: (Seq<char>, int)| count_desc_leq(a, b),
    )
    &&& sorted_by(
        recs_view(e.by_word@),
        |a: (Seq<char>, int), b: (Seq<char>, int)| word_asc_leq(a, b),
    )
    &&& recs_view(e.by_count@).to_multiset() == recs_view(e.by_word@).to_multiset()
}

/// The view of one scanned table row.
pub open spec fn row_view(p: (String, i64)) -> (Seq<char>, int) {
    (p.0@, p.1 as int)
}

/// The views of a full table scan.
pub open spec fn rows_view(rows: Seq<(String, i64)>) -> Seq<(Seq<char>, int)> {
    rows.map_values(|p: (String, i64)| row_view(p))
}

/// Compute the export from one full scan of the table, whose entries
/// must enumerate the table `m` exactly.
#[verifier::loop_isolation(false)]
pub fn build_export(rows: &Vec<(String, i64)>, Ghost(m): Ghost<Map<Seq<char>, int>>) -> (r: Result<
    Export,
    AggError,
>)
    requires
        table_wf(m),
        encodes(rows_view(rows@), m),
    ensures
        match r {
            Ok(e) => export_ok(e, m),
            Err(AggError::CountOverflow) => map_sum(m) > u64::MAX,
            Err(_) => false,
        },
{
    let ghost rv = rows_view(rows@);
    proof {
        assert forall|i: int| 0 <= i < rv.len() implies 0 <= (#[trigger] rv[i]).1 <= MAX_COUNT by {
            assert(m.dom().contains(rv[i].0));
        }
    }
    let n = rows.len();
    let mut size: u64 = 0;
    let mut size_1: u64 = 0;
    let mut i: usize = 0;
    while i < n
        invariant
            i <= n,
            size as int == rec_sum(rv.subrange(0, i as int)),
            size_1 as int == rec_sum_over1(rv.subrange(0, i as int)),
            size_1 <= size,
        decreases n - i,
    {
        let ghost pre = rv.subrange(0, i + 1);
        proof {
            assert(pre.drop_last() =~= rv.subrange(0, i as int));
            assert(pre.last() =~= rv[i as int]);
        }
        let c_raw = rows[i].1;
        assert(c_raw as int == rv[i as int].1);
        let c = c_raw as u64;
        size = match size.checked_add(c) {
            Some(s) => s,
            None => {
                proof {
                    lemma_rec_sum_if_prefix(rv, |c: int| true, i + 1);
                    lemma_encodes_sum(rv, m, |c: int| true);
                }
                return Err(AggError::CountOverflow);
            },
        };
        if c > 1 {
            size_1 = size_1 + c;
        }
        i += 1;
    }
    proof {
        assert(rv.subrange(0, n as int) =~= rv);
        lemma_encodes_sum(rv, m, |c: int| true);
        lemma_encodes_sum(rv, m, |c: int| c > 1);
    }
    let mut by_count: Vec<FrequencyRecord> = Vec::new();
    let mut by_word: Vec<FrequencyRecord> = Vec::new();
    let mut i: usize = 0;
    while i < n
        invariant
            i <= n,
            recs_view(by_count@) == over1(rv.subrange(0, i as int)),
            by_word@.len() == by_count@.len(),
            recs_view(by_word@) == recs_view(by_count@),
        decreases n - i,
    {
        let ghost pre = rv.subrange(0, i + 1);
        proof {
            assert(pre.drop_last() =~= rv.subrange(0, i as int));
            assert(pre.last() =~= rv[i as int]);
            assert(m.dom().contains(rv[i as int].0));
        }
        let c_raw = rows[i].1;
        assert(c_raw as int == rv[i as int].1);
        let c = c_raw as u64;
        if c > 1 {
            let word = rows[i].0.clone();
            let word2 = rows[i].0.clone();
            let ghost vc0 = recs_view(by_count@);
            let ghost vw0 = recs_view(by_word@);
            let rec = FrequencyRecord { word, count: c };
            let rec2 = FrequencyRecord { word: word2, count: c };
            proof {
                assert(rec@ =~= rv[i as int]);
                assert(rec2@ =~= rv[i as int]);
            }
            by_count.push(rec);
            by_word.push(rec2);
            proof {
                assert(recs_view(by_count@) =~= vc0.push(rv[i as int]));
                assert(recs_view(by_word@) =~= vw0.push(rv[i as int]));
                assert(over1(pre) =~= over1(pre.drop_last()).push(pre.last()));
            }
        } else {
            assert(over1(pre) =~= over1(pre.drop_last()));
        }
        i += 1;
    }
    proof {
        assert(rv.subrange(0, n as int) =~= rv);
        lemma_filter_encodes(rv, m);
    }
    let ghost filtered = recs_view(by_count@);
    sort_by_count(&mut by_count);
    sort_by_word(&mut by_word);
    proof {
        lemma_encodes_permutation(filtered, recs_view(by_count@), filter_over1(m));
        lemma_encodes_permutation(filtered, recs_view(by_word@), filter_over1(m));
    }
    Ok(Export { size, size_1, by_count, by_word })
}

/// Read the whole frequency table and build its export.
pub fn export_table(conn: &rusqlite::Connection) -> (r: Result<Export, AggError>)
    requires
        table_wf(freqs_of(*conn)),
    ensures
        match r {
            Ok(e) => export_ok(e, freqs_of(*conn)),
            Err(AggError::Store) => true,
            Err(AggError::CountOverflow) => map_sum(freqs_of(*conn)) > u64::MAX,
            Err(_) => false,
        },
{
    let ghost m = freqs_of(*conn);
    let rows = match scan_all(conn) {
        Ok(rows) => rows,
        Err(_) => {
            return Err(AggError::Store);
        },
    };
    proof {
        let rv = rows_view(rows@);
        assert forall|w: Seq<char>| #[trigger] m.dom().contains(w) implies exists|i: int|
            0 <= i < rv.len() && (#[trigger] rv[i]).0 == w by {
            let i = choose|i: int| 0 <= i < rows@.len() && (#[trigger] rows@[i]).0@ == w;
            assert(rv[i].0 == w);
        }
        assert(encodes(rv, m));
    }
    build_export(&rows, Ghost(m))
}

} // verus!
