//! The order in which names are kept and listed: lexicographic order on the
//! characters of a string, each character compared by its code point.
//! (For UTF-8 text this is the same order as comparing the bytes.)

use vstd::prelude::*;
use vstd::std_specs::iter::IteratorSpec;

verus! {

/// `a` comes strictly before `b`: at the first position where they differ the
/// character of `a` has the smaller code point, or `a` is a proper prefix of `b`.
pub open spec fn text_lt(a: Seq<char>, b: Seq<char>) -> bool
    decreases a.len(),
{
    if a.len() == 0 {
        b.len() > 0
    } else if b.len() == 0 {
        false
    } else if a[0] != b[0] {
        (a[0] as int) < (b[0] as int)
    } else {
        text_lt(a.drop_first(), b.drop_first())
    }
}

/// No text comes before itself.
pub proof fn lemma_text_lt_irreflexive(a: Seq<char>)
    ensures
        !text_lt(a, a),
    decreases a.len(),
{
    if a.len() > 0 {
        lemma_text_lt_irreflexive(a.drop_first());
    }
}

/// Of two different texts exactly one comes first.
pub proof fn lemma_text_lt_total(a: Seq<char>, b: Seq<char>)
    ensures
        a != b ==> (text_lt(a, b) || text_lt(b, a)),
        !(text_lt(a, b) && text_lt(b, a)),
    decreases a.len(),
{
    if a.len() > 0 && b.len() > 0 {
        lemma_text_lt_total(a.drop_first(), b.drop_first());
        if a[0] == b[0] && a.drop_first() == b.drop_first() {
            assert(a =~= seq![a[0]] + a.drop_first());
            assert(b =~= seq![b[0]] + b.drop_first());
        }
        if a[0] != b[0] {
            assert((a[0] as int) != (b[0] as int));
        }
    } else if a.len() == 0 && b.len() == 0 {
        assert(a =~= b);
    }
}

/// The order is transitive.
pub proof fn lemma_text_lt_transitive(a: Seq<char>, b: Seq<char>, c: Seq<char>)
    requires
        text_lt(a, b),
        text_lt(b, c),
    ensures
        text_lt(a, c),
    decreases a.len(),
{
    if a.len() > 0 && b.len() > 0 && c.len() > 0 {
        if a[0] == b[0] && b[0] == c[0] {
            lemma_text_lt_transitive(a.drop_first(), b.drop_first(), c.drop_first());
        }
    }
}

/// Texts that start with different characters are ordered by the code
/// points of those characters, whatever follows them.
pub proof fn lemma_text_lt_first_difference(x: char, s: Seq<char>, y: char, t: Seq<char>)
    requires
        x != y,
    ensures
        text_lt(seq![x] + s, seq![y] + t) == ((x as int) < (y as int)),
{
    let a = seq![x] + s;
    let b = seq![y] + t;
    assert(a[0] == x);
    assert(b[0] == y);
}

/// Texts that start with the same character are ordered as what follows it.
pub proof fn lemma_text_lt_same_first(x: char, s: Seq<char>, t: Seq<char>)
    ensures
        text_lt(seq![x] + s, seq![x] + t) == text_lt(s, t),
{
    let a = seq![x] + s;
    let b = seq![x] + t;
    assert(a[0] == x);
    assert(b[0] == x);
    assert(a.drop_first() =~= s);
    assert(b.drop_first() =~= t);
}

/// The empty text comes before every other text, and nothing comes before
/// it.
pub proof fn lemma_text_lt_empty(t: Seq<char>)
    ensures
        text_lt(Seq::empty(), t) == (t.len() > 0),
        !text_lt(t, Seq::empty()),
{
}

/// A proper prefix comes before the text that extends it.
pub proof fn lemma_text_lt_prefix(s: Seq<char>, t: Seq<char>)
    requires
        t.len() > 0,
    ensures
        text_lt(s, s + t),
    decreases s.len(),
{
    if s.len() > 0 {
        lemma_text_lt_prefix(s.drop_first(), t);
        assert((s + t).drop_first() =~= s.drop_first() + t);
        assert((s + t)[0] == s[0]);
    }
}

/// One-character texts are ordered by code point.
pub proof fn lemma_text_lt_single(x: char, y: char)
    ensures
        text_lt(seq![x], seq![y]) == ((x as int) < (y as int)),
{
    if x == y {
        lemma_text_lt_irreflexive(seq![x]);
    } else {
        lemma_text_lt_first_difference(x, Seq::empty(), y, Seq::empty());
        assert(seq![x] + Seq::<char>::empty() =~= seq![x]);
        assert(seq![y] + Seq::<char>::empty() =~= seq![y]);
    }
}

/// Whether `a` comes strictly before `b`, walking both strings once.
pub fn text_less(a: &str, b: &str) -> (r: bool)
    ensures
        r == text_lt(a@, b@),
{
    let mut ia = a.chars();
    let mut ib = b.chars();
    let ghost mut k: int = 0;
    loop
        invariant
            0 <= k <= a@.len(),
            k <= b@.len(),
            ia.remaining() == a@.skip(k),
            ib.remaining() == b@.skip(k),
            ia.obeys_prophetic_iter_laws(),
            ib.obeys_prophetic_iter_laws(),
            text_lt(a@, b@) == text_lt(a@.skip(k), b@.skip(k)),
        decreases a@.len() - k,
    {
        let x = ia.next();
        let y = ib.next();
        match (x, y) {
            (None, None) => {
                return false;
            },
            (None, Some(_)) => {
                return true;
            },
            (Some(_), None) => {
                return false;
            },
            (Some(cx), Some(cy)) => {
                if cx != cy {
                    return cx < cy;
                }
                proof {
                    assert(a@.skip(k).drop_first() =~= a@.skip(k + 1));
                    assert(b@.skip(k).drop_first() =~= b@.skip(k + 1));
                    k = k + 1;
                }
            },
        }
    }
}

} // verus!
