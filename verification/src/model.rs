use vstd::prelude::*;

verus! {

/// The count a table holds for `w`, zero where the word is absent.
pub open spec fn count_of(m: Map<Seq<char>, int>, w: Seq<char>) -> int {
    if m.dom().contains(w) {
        m[w]
    } else {
        0
    }
}

/// Sum of the counts that satisfy `p`, over every word of a finite table.
pub open spec fn map_sum_if(m: Map<Seq<char>, int>, p: spec_fn(int) -> bool) -> int
    decreases m.dom().len() when m.dom().finite()
{
    if !m.dom().finite() || m.dom().len() == 0 {
        0
    } else {
        let w = m.dom().choose();
        (if p(m[w]) {
            m[w]
        } else {
            0
        }) + map_sum_if(m.remove(w), p)
    }
}

/// Sum of all counts in the table.
pub open spec fn map_sum(m: Map<Seq<char>, int>) -> int {
    map_sum_if(m, |c: int| true)
}

/// Sum of the counts above one: the total the exports report as their
/// second metadata line.
pub open spec fn map_sum_over1(m: Map<Seq<char>, int>) -> int {
    map_sum_if(m, |c: int| c > 1)
}

/// Taking one word out takes exactly its contribution out of the sum.
pub proof fn lemma_map_sum_if_remove(m: Map<Seq<char>, int>, p: spec_fn(int) -> bool, w: Seq<char>)
    requires
        m.dom().finite(),
        m.dom().contains(w),
    ensures
        map_sum_if(m, p) == map_sum_if(m.remove(w), p) + (if p(m[w]) {
            m[w]
        } else {
            0
        }),
    decreases m.dom().len(),
{
    let c = m.dom().choose();
    assert(m.dom().contains(c));
    if c == w {
    } else {
        let mc = m.remove(c);
        let mw = m.remove(w);
        lemma_map_sum_if_remove(mc, p, w);
        lemma_map_sum_if_remove(mw, p, c);
        assert(mc.remove(w) =~= mw.remove(c));
        // map_sum_if(mw, p) unfolds at its own chosen word; relate it to
        // removing c from mw instead.
        assert(map_sum_if(m, p) == map_sum_if(mc, p) + (if p(m[c]) {
            m[c]
        } else {
            0
        }));
    }
}

/// Writing a word's count changes the sum by the difference.
pub proof fn lemma_map_sum_if_insert(
    m: Map<Seq<char>, int>,
    p: spec_fn(int) -> bool,
    w: Seq<char>,
    v: int,
)
    requires
        m.dom().finite(),
    ensures
        map_sum_if(m.insert(w, v), p) == map_sum_if(m, p) - (if m.dom().contains(w) && p(m[w]) {
            m[w]
        } else {
            0
        }) + (if p(v) {
            v
        } else {
            0
        }),
{
    let mi = m.insert(w, v);
    lemma_map_sum_if_remove(mi, p, w);
    if m.dom().contains(w) {
        lemma_map_sum_if_remove(m, p, w);
        assert(mi.remove(w) =~= m.remove(w));
    } else {
        assert(mi.remove(w) =~= m);
    }
}

} // verus!
