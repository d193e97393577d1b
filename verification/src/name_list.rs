//! Strictly ascending lists of names: the form in which an ordered set of
//! names is kept, found in, added to and removed from.

use vstd::prelude::*;
use crate::text_order::{
    text_less,
    text_lt,
    lemma_text_lt_irreflexive,
    lemma_text_lt_total,
    lemma_text_lt_transitive,
};

verus! {

/// The texts of a list of strings.
pub open spec fn texts(v: Seq<String>) -> Seq<Seq<char>> {
    v.map_values(|s: String| s@)
}

/// Each text comes strictly before every later one.
pub open spec fn ascending(s: Seq<Seq<char>>) -> bool {
    forall|i: int, j: int| 0 <= i < j < s.len() ==> text_lt(#[trigger] s[i], #[trigger] s[j])
}

/// The number of members of `s` that come strictly before `x`.
pub open spec fn rank(s: Set<Seq<char>>, x: Seq<char>) -> nat {
    s.filter(|y: Seq<char>| text_lt(y, x)).len()
}

/// An ascending list holds no text twice.
pub proof fn lemma_ascending_no_duplicates(s: Seq<Seq<char>>)
    requires
        ascending(s),
    ensures
        s.no_duplicates(),
{
    assert forall|i: int, j: int| 0 <= i < s.len() && 0 <= j < s.len() && i != j implies s[i]
        != s[j] by {
        if i < j {
            lemma_text_lt_irreflexive(s[i]);
        } else {
            lemma_text_lt_irreflexive(s[j]);
        }
    }
}

/// The number of members of an ascending list is the size of its set.
pub proof fn lemma_ascending_len(s: Seq<Seq<char>>)
    requires
        ascending(s),
    ensures
        s.to_set().len() == s.len(),
        s.to_set().finite(),
{
    lemma_ascending_no_duplicates(s);
    s.unique_seq_to_set();
    vstd::seq_lib::seq_to_set_is_finite(s);
}

/// Two ascending lists with the same members are the same list: an ordered
/// set has exactly one ascending listing.
pub proof fn lemma_ascending_unique(s: Seq<Seq<char>>, t: Seq<Seq<char>>)
    requires
        ascending(s),
        ascending(t),
        s.to_set() == t.to_set(),
    ensures
        s == t,
    decreases s.len(),
{
    if s.len() == 0 {
        if t.len() > 0 {
            assert(t.to_set().contains(t[0]));
        }
        assert(s =~= t);
    } else {
        if t.len() == 0 {
            assert(s.to_set().contains(s[0]));
        } else {
            assert(t.to_set().contains(s[0]));
            assert(s.to_set().contains(t[0]));
            let j = choose|j: int| 0 <= j < t.len() && t[j] == s[0];
            let i = choose|i: int| 0 <= i < s.len() && s[i] == t[0];
            if j > 0 {
                if i > 0 {
                    lemma_text_lt_total(s[0], s[i]);
                } else {
                    lemma_text_lt_irreflexive(t[0]);
                }
            }
            assert(s[0] == t[0]);
            lemma_ascending_no_duplicates(s);
            lemma_ascending_no_duplicates(t);
            let s1 = s.drop_first();
            let t1 = t.drop_first();
            assert(s1.to_set() =~= t1.to_set()) by {
                assert forall|x: Seq<char>| s1.to_set().contains(x) implies t1.to_set().contains(
                    x,
                ) by {
                    let a = choose|a: int| 0 <= a < s1.len() && s1[a] == x;
                    assert(s.to_set().contains(x));
                    let b = choose|b: int| 0 <= b < t.len() && t[b] == x;
                    if b == 0 {
                        assert(s[a + 1] == s[0]);
                    }
                    assert(t1[b - 1] == x);
                }
                assert forall|x: Seq<char>| t1.to_set().contains(x) implies s1.to_set().contains(
                    x,
                ) by {
                    let a = choose|a: int| 0 <= a < t1.len() && t1[a] == x;
                    assert(t.to_set().contains(x));
                    let b = choose|b: int| 0 <= b < s.len() && s[b] == x;
                    if b == 0 {
                        assert(t[a + 1] == t[0]);
                    }
                    assert(s1[b - 1] == x);
                }
            }
            lemma_ascending_unique(s1, t1);
            assert(s =~= t) by {
                assert forall|k: int| 0 <= k < s.len() implies s[k] == t[k] by {
                    if k > 0 {
                        assert(s[k] == s1[k - 1]);
                    }
                }
            }
        }
    }
}

/// Putting `x` at the place where it belongs keeps a list ascending and adds
/// `x` to its members.
pub proof fn lemma_ascending_insert(s: Seq<Seq<char>>, k: int, x: Seq<char>)
    requires
        ascending(s),
        0 <= k <= s.len(),
        forall|j: int| 0 <= j < k ==> text_lt(#[trigger] s[j], x),
        forall|j: int| k <= j < s.len() ==> text_lt(x, #[trigger] s[j]),
    ensures
        ascending(s.insert(k, x)),
        s.insert(k, x).to_set() == s.to_set().insert(x),
{
    let r = s.insert(k, x);
    assert forall|i: int, j: int| 0 <= i < j < r.len() implies text_lt(r[i], r[j]) by {
        if j < k {
        } else if j == k {
        } else if i < k {
            lemma_text_lt_transitive(s[i], x, s[j - 1]);
        } else if i == k {
        } else {
        }
    }
    assert(r.to_set() =~= s.to_set().insert(x)) by {
        assert forall|y: Seq<char>| s.to_set().insert(x).contains(y) implies r.to_set().contains(
            y,
        ) by {
            if y == x {
                assert(r[k] == x);
            } else {
                let a = choose|a: int| 0 <= a < s.len() && s[a] == y;
                if a < k {
                    assert(r[a] == y);
                } else {
                    assert(r[a + 1] == y);
                }
            }
        }
        assert forall|y: Seq<char>| r.to_set().contains(y) implies s.to_set().insert(x).contains(
            y,
        ) by {
            let a = choose|a: int| 0 <= a < r.len() && r[a] == y;
            if a < k {
                assert(s[a] == y);
            } else if a > k {
                assert(s[a - 1] == y);
            }
        }
    }
}

/// Taking out the member at `k` keeps a list ascending and removes that text
/// from its members.
pub proof fn lemma_ascending_remove(s: Seq<Seq<char>>, k: int)
    requires
        ascending(s),
        0 <= k < s.len(),
    ensures
        ascending(s.remove(k)),
        s.remove(k).to_set() == s.to_set().remove(s[k]),
{
    let r = s.remove(k);
    lemma_ascending_no_duplicates(s);
    assert forall|i: int, j: int| 0 <= i < j < r.len() implies text_lt(r[i], r[j]) by {
        if j < k {
        } else if i < k {
            assert(r[j] == s[j + 1]);
        } else {
            assert(r[i] == s[i + 1]);
            assert(r[j] == s[j + 1]);
        }
    }
    assert(r.to_set() =~= s.to_set().remove(s[k])) by {
        assert forall|y: Seq<char>| s.to_set().remove(s[k]).contains(y) implies r.to_set().contains(
            y,
        ) by {
            let a = choose|a: int| 0 <= a < s.len() && s[a] == y;
            if a < k {
                assert(r[a] == y);
            } else {
                assert(r[a - 1] == y);
            }
        }
        assert forall|y: Seq<char>| r.to_set().contains(y) implies s.to_set().remove(
            s[k],
        ).contains(y) by {
            let a = choose|a: int| 0 <= a < r.len() && r[a] == y;
            if a < k {
                assert(s[a] == y);
            } else {
                assert(s[a + 1] == y);
            }
        }
    }
}

/// In an ascending list the member at position `k` has exactly `k` members
/// before it.
pub proof fn lemma_ascending_rank(s: Seq<Seq<char>>, k: int)
    requires
        ascending(s),
        0 <= k < s.len(),
    ensures
        rank(s.to_set(), s[k]) == k,
{
    let below = s.to_set().filter(|y: Seq<char>| text_lt(y, s[k]));
    let front = s.take(k);
    assert(below =~= front.to_set()) by {
        assert forall|y: Seq<char>| below.contains(y) implies front.to_set().contains(y) by {
            let a = choose|a: int| 0 <= a < s.len() && s[a] == y;
            if a >= k {
                if a == k {
                    lemma_text_lt_irreflexive(y);
                } else {
                    lemma_text_lt_total(s[k], s[a]);
                }
            }
            assert(front[a] == y);
        }
        assert forall|y: Seq<char>| front.to_set().contains(y) implies below.contains(y) by {
            let a = choose|a: int| 0 <= a < front.len() && front[a] == y;
            assert(s[a] == y);
        }
    }
    assert(ascending(front));
    lemma_ascending_len(front);
}

/// In a finite set of texts, no two different members have the same rank:
/// a rank names at most one member.
pub proof fn lemma_rank_unique(s: Set<Seq<char>>, x: Seq<char>, y: Seq<char>)
    requires
        s.finite(),
        s.contains(x),
        s.contains(y),
        rank(s, x) == rank(s, y),
    ensures
        x == y,
{
    if x != y {
        lemma_text_lt_total(x, y);
        let (a, b) = if text_lt(x, y) { (x, y) } else { (y, x) };
        let below_a = s.filter(|z: Seq<char>| text_lt(z, a));
        let below_b = s.filter(|z: Seq<char>| text_lt(z, b));
        s.lemma_len_filter(|z: Seq<char>| text_lt(z, b));
        assert(below_a.subset_of(below_b.remove(a))) by {
            assert forall|z: Seq<char>| below_a.contains(z) implies below_b.remove(a).contains(z) by {
                lemma_text_lt_transitive(z, a, b);
                lemma_text_lt_irreflexive(a);
            }
        }
        vstd::set_lib::lemma_len_subset(below_a, below_b.remove(a));
        assert(below_b.contains(a));
    }
}

/// The texts of a list after putting a string in or taking one out.
pub proof fn lemma_texts_insert_remove(v: Seq<String>, k: int, x: String)
    ensures
        0 <= k <= v.len() ==> texts(v.insert(k, x)) == texts(v).insert(k, x@),
        0 <= k < v.len() ==> texts(v.remove(k)) == texts(v).remove(k),
{
    if 0 <= k <= v.len() {
        assert(texts(v.insert(k, x)) =~= texts(v).insert(k, x@));
    }
    if 0 <= k < v.len() {
        assert(texts(v.remove(k)) =~= texts(v).remove(k));
    }
}

/// Where `x` stands in the ascending list `v`: the position of the first
/// member that does not come before `x`, and whether that member is `x`.
pub fn locate(v: &Vec<String>, x: &str) -> (r: (usize, bool))
    requires
        ascending(texts(v@)),
    ensures
        r.0 <= v.len(),
        forall|j: int| 0 <= j < r.0 ==> text_lt(#[trigger] v@[j]@, x@),
        r.1 ==> r.0 < v.len() && v@[r.0 as int]@ == x@,
        !r.1 ==> forall|j: int| r.0 <= j < v.len() ==> text_lt(x@, #[trigger] v@[j]@),
        r.1 == texts(v@).contains(x@),
{
    let n = v.len();
    let mut i: usize = 0;
    while i < n
        invariant
            n == v.len(),
            i <= n,
            ascending(texts(v@)),
            forall|j: int| 0 <= j < i ==> text_lt(#[trigger] v@[j]@, x@),
        ensures
            i <= n,
            forall|j: int| 0 <= j < i ==> text_lt(#[trigger] v@[j]@, x@),
            i < n ==> !text_lt(v@[i as int]@, x@),
        decreases n - i,
    {
        if !text_less(v[i].as_str(), x) {
            break;
        }
        i = i + 1;
    }
    let found = i < n && !text_less(x, v[i].as_str());
    proof {
        let s = texts(v@);
        if i < n {
            assert(s[i as int] == v@[i as int]@);
            lemma_text_lt_total(v@[i as int]@, x@);
            if !found {
                assert forall|j: int| i <= j < v.len() implies text_lt(x@, #[trigger] v@[j]@) by {
                    assert(s[j] == v@[j]@);
                    if j > i {
                        lemma_text_lt_transitive(x@, v@[i as int]@, v@[j]@);
                    }
                }
            }
        }
        if s.contains(x@) {
            let a = choose|a: int| 0 <= a < s.len() && s[a] == x@;
            assert(s[a] == v@[a]@);
            if a < i {
                lemma_text_lt_irreflexive(x@);
            } else if !found {
                lemma_text_lt_irreflexive(x@);
            }
        }
        if found {
            assert(s[i as int] == v@[i as int]@);
        }
    }
    (i, found)
}

} // verus!
