use vstd::prelude::*;

use vstd::relations::total_ordering;

verus! {

/// Lexicographic order on character sequences, by code point.
pub open spec fn lex_leq(a: Seq<char>, b: Seq<char>) -> bool
    decreases a.len(),
{
    if a.len() == 0 {
        true
    } else if b.len() == 0 {
        false
    } else if a[0] == b[0] {
        lex_leq(a.drop_first(), b.drop_first())
    } else {
        (a[0] as int) < (b[0] as int)
    }
}

pub proof fn lemma_lex_refl(a: Seq<char>)
    ensures
        lex_leq(a, a),
    decreases a.len(),
{
    if a.len() > 0 {
        lemma_lex_refl(a.drop_first());
    }
}

pub proof fn lemma_lex_antisym(a: Seq<char>, b: Seq<char>)
    requires
        lex_leq(a, b),
        lex_leq(b, a),
    ensures
        a == b,
    decreases a.len(),
{
    if a.len() == 0 {
        assert(a =~= b);
    } else {
        assert(b.len() > 0);
        assert(a[0] == b[0]);
        lemma_lex_antisym(a.drop_first(), b.drop_first());
        assert(a =~= b) by {
            assert(forall|i: int| 1 <= i < a.len() ==> a[i] == a.drop_first()[i - 1]);
            assert(forall|i: int| 1 <= i < b.len() ==> b[i] == b.drop_first()[i - 1]);
        }
    }
}

pub proof fn lemma_lex_trans(a: Seq<char>, b: Seq<char>, c: Seq<char>)
    requires
        lex_leq(a, b),
        lex_leq(b, c),
    ensures
        lex_leq(a, c),
    decreases a.len(),
{
    if a.len() > 0 && c.len() > 0 {
        assert(b.len() > 0);
        if a[0] == b[0] && b[0] == c[0] {
            lemma_lex_trans(a.drop_first(), b.drop_first(), c.drop_first());
        }
    }
}

pub proof fn lemma_lex_connected(a: Seq<char>, b: Seq<char>)
    ensures
        lex_leq(a, b) || lex_leq(b, a),
    decreases a.len(),
{
    if a.len() > 0 && b.len() > 0 && a[0] == b[0] {
        lemma_lex_connected(a.drop_first(), b.drop_first());
    }
}

/// The order of the count-descending export: larger counts first, equal
/// counts broken by ascending word, so the output order is total.
pub open spec fn count_desc_leq(a: (Seq<char>, int), b: (Seq<char>, int)) -> bool {
    a.1 > b.1 || (a.1 == b.1 && lex_leq(a.0, b.0))
}

/// The order of the word-ascending export.
pub open spec fn word_asc_leq(a: (Seq<char>, int), b: (Seq<char>, int)) -> bool {
    if a.0 == b.0 {
        a.1 <= b.1
    } else {
        lex_leq(a.0, b.0)
    }
}

pub proof fn lemma_count_desc_total()
    ensures
        total_ordering(|a: (Seq<char>, int), b: (Seq<char>, int)| count_desc_leq(a, b)),
{
    let leq = |a: (Seq<char>, int), b: (Seq<char>, int)| count_desc_leq(a, b);
    assert forall|x: (Seq<char>, int)| #[trigger] leq(x, x) by {
        lemma_lex_refl(x.0);
    }
    assert forall|x: (Seq<char>, int), y: (Seq<char>, int)|
        #[trigger] leq(x, y) && #[trigger] leq(y, x) implies x == y by {
        lemma_lex_antisym(x.0, y.0);
    }
    assert forall|x: (Seq<char>, int), y: (Seq<char>, int), z: (Seq<char>, int)|
        #[trigger] leq(x, y) && #[trigger] leq(y, z) implies leq(x, z) by {
        if x.1 == y.1 && y.1 == z.1 {
            lemma_lex_trans(x.0, y.0, z.0);
        }
    }
    assert forall|x: (Seq<char>, int), y: (Seq<char>, int)| #[trigger]
        leq(x, y) || #[trigger] leq(y, x) by {
        lemma_lex_connected(x.0, y.0);
    }
}

pub proof fn lemma_word_asc_total()
    ensures
        total_ordering(|a: (Seq<char>, int), b: (Seq<char>, int)| word_asc_leq(a, b)),
{
    let leq = |a: (Seq<char>, int), b: (Seq<char>, int)| word_asc_leq(a, b);
    assert forall|x: (Seq<char>, int)| #[trigger] leq(x, x) by {
        lemma_lex_refl(x.0);
    }
    assert forall|x: (Seq<char>, int), y: (Seq<char>, int)|
        #[trigger] leq(x, y) && #[trigger] leq(y, x) implies x == y by {
        if x.0 != y.0 {
            lemma_lex_antisym(x.0, y.0);
        }
    }
    assert forall|x: (Seq<char>, int), y: (Seq<char>, int), z: (Seq<char>, int)|
        #[trigger] leq(x, y) && #[trigger] leq(y, z) implies leq(x, z) by {
        if x.0 != y.0 && y.0 != z.0 && x.0 != z.0 {
            lemma_lex_trans(x.0, y.0, z.0);
        } else if x.0 != y.0 && y.0 != z.0 && x.0 == z.0 {
            lemma_lex_antisym(x.0, y.0);
        }
    }
    assert forall|x: (Seq<char>, int), y: (Seq<char>, int)| #[trigger]
        leq(x, y) || #[trigger] leq(y, x) by {
        lemma_lex_connected(x.0, y.0);
    }
}

/// Compare two strings in the lexicographic order of their characters.
pub fn str_leq(a: &str, b: &str) -> (r: bool)
    ensures
        r == lex_leq(a@, b@),
{
    let alen = a.unicode_len();
    let blen = b.unicode_len();
    let mut i: usize = 0;
    assert(a@.skip(0) =~= a@ && b@.skip(0) =~= b@);
    loop
        invariant
            i <= alen,
            i <= blen,
            alen == a@.len(),
            blen == b@.len(),
            lex_leq(a@, b@) == lex_leq(a@.skip(i as int), b@.skip(i as int)),
        ensures
            (i >= alen || i >= blen),
            lex_leq(a@, b@) == lex_leq(a@.skip(i as int), b@.skip(i as int)),
        decreases alen - i,
    {
        if i >= alen || i >= blen {
            break;
        }
        let ca = a.get_char(i);
        let cb = b.get_char(i);
        let ghost sa = a@.skip(i as int);
        let ghost sb = b@.skip(i as int);
        assert(sa[0] == a@[i as int] && sb[0] == b@[i as int]);
        if ca != cb {
            assert(lex_leq(sa, sb) == ((ca as int) < (cb as int)));
            return (ca as u32) < (cb as u32);
        }
        assert(sa.drop_first() =~= a@.skip(i + 1));
        assert(sb.drop_first() =~= b@.skip(i + 1));
        i += 1;
    }
    if i >= alen {
        assert(a@.skip(i as int).len() == 0);
        true
    } else {
        assert(b@.skip(i as int).len() == 0 && a@.skip(i as int).len() > 0);
        false
    }
}

} // verus!
