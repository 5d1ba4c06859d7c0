//! Lists of paths in strictly ascending order: every path once, the order
//! that of strings.

use crate::text::{
    lemma_lex_asymmetric,
    lemma_lex_irreflexive,
    lemma_lex_total,
    lemma_lex_transitive,
    lex_less,
    str_less,
};
use vstd::prelude::*;

verus! {

/// Each path comes before every later one: the list is sorted and holds no
/// path twice.
pub open spec fn strictly_sorted(s: Seq<Seq<char>>) -> bool {
    forall|i: int, j: int| 0 <= i < j < s.len() ==> lex_less(#[trigger] s[i], #[trigger] s[j])
}

/// A sorted list is known by the paths it holds: two strictly sorted lists
/// of the same paths are the same list.
pub proof fn lemma_sorted_unique(a: Seq<Seq<char>>, b: Seq<Seq<char>>)
    requires
        strictly_sorted(a),
        strictly_sorted(b),
        a.to_set() == b.to_set(),
    ensures
        a == b,
    decreases a.len(),
{
    if a.len() == 0 {
        if b.len() > 0 {
            assert(b.to_set().contains(b[0]));
            assert(a.contains(b[0]));
        }
        assert(a =~= b);
    } else if b.len() == 0 {
        assert(a.to_set().contains(a[0]));
        assert(b.contains(a[0]));
    } else {
        let x = a.last();
        let y = b.last();
        assert(a.to_set().contains(x));
        assert(b.contains(x));
        assert(b.to_set().contains(y));
        assert(a.contains(y));
        let i = choose|i: int| 0 <= i < b.len() && b[i] == x;
        let j = choose|j: int| 0 <= j < a.len() && a[j] == y;
        if x != y {
            assert(lex_less(x, y));
            assert(lex_less(y, x));
            lemma_lex_asymmetric(x, y);
        }
        let a0 = a.drop_last();
        let b0 = b.drop_last();
        assert forall|p: Seq<char>| a0.to_set().contains(p) <==> b0.to_set().contains(p) by {
            if a0.contains(p) {
                let k = choose|k: int| 0 <= k < a0.len() && a0[k] == p;
                assert(a[k] == p);
                assert(lex_less(p, x));
                assert(a.to_set().contains(p));
                assert(b.contains(p));
                let m = choose|m: int| 0 <= m < b.len() && b[m] == p;
                if m == b.len() - 1 {
                    lemma_lex_irreflexive(x);
                }
                assert(b0[m] == p);
            }
            if b0.contains(p) {
                let k = choose|k: int| 0 <= k < b0.len() && b0[k] == p;
                assert(b[k] == p);
                assert(lex_less(p, y));
                assert(b.to_set().contains(p));
                assert(a.contains(p));
                let m = choose|m: int| 0 <= m < a.len() && a[m] == p;
                if m == a.len() - 1 {
                    lemma_lex_irreflexive(y);
                }
                assert(a0[m] == p);
            }
        }
        assert(a0.to_set() =~= b0.to_set());
        lemma_sorted_unique(a0, b0);
        assert(a =~= a0.push(x));
        assert(b =~= b0.push(y));
    }
}

/// The place of `path` in a sorted list: the number of paths that come
/// before it.
pub fn position(list: &Vec<String>, path: &str) -> (r: usize)
    requires
        strictly_sorted(list.deep_view()),
    ensures
        r <= list.len(),
        forall|i: int| 0 <= i < r ==> lex_less(#[trigger] list.deep_view()[i], path@),
        forall|i: int| r <= i < list.len() ==> !lex_less(#[trigger] list.deep_view()[i], path@),
{
    let ghost s = list.deep_view();
    let mut lo: usize = 0;
    let mut hi: usize = list.len();
    while lo < hi
        invariant
            lo <= hi <= list.len(),
            s == list.deep_view(),
            strictly_sorted(s),
            forall|i: int| 0 <= i < lo ==> lex_less(#[trigger] s[i], path@),
            forall|i: int| hi <= i < list.len() ==> !lex_less(#[trigger] s[i], path@),
        decreases hi - lo,
    {
        let mid: usize = lo + (hi - lo) / 2;
        if str_less(list[mid].as_str(), path) {
            proof {
                assert forall|i: int| 0 <= i < mid + 1 implies lex_less(#[trigger] s[i], path@) by {
                    if i < mid {
                        lemma_lex_transitive(s[i], s[mid as int], path@);
                    }
                }
            }
            lo = mid + 1;
        } else {
            proof {
                assert forall|i: int| mid <= i < list.len() implies !lex_less(
                    #[trigger] s[i],
                    path@,
                ) by {
                    if i > mid && lex_less(s[i], path@) {
                        lemma_lex_transitive(s[mid as int], s[i], path@);
                    }
                }
            }
            hi = mid;
        }
    }
    lo
}

/// Puts `path` into a sorted list at its place, unless the list holds it
/// already. Returns whether the list grew.
pub fn insert_path(list: &mut Vec<String>, path: String) -> (added: bool)
    requires
        strictly_sorted(old(list).deep_view()),
    ensures
        strictly_sorted(final(list).deep_view()),
        final(list).deep_view().to_set() == old(list).deep_view().to_set().insert(path@),
        added == !old(list).deep_view().contains(path@),
        !added ==> final(list).deep_view() == old(list).deep_view(),
{
    let ghost s = list.deep_view();
    let at = position(list, path.as_str());
    if at < list.len() && !str_less(path.as_str(), list[at].as_str()) {
        proof {
            lemma_lex_total(s[at as int], path@);
            assert(s.to_set().insert(path@) =~= s.to_set());
        }
        return false;
    }
    proof {
        if s.contains(path@) {
            let k = choose|k: int| 0 <= k < s.len() && s[k] == path@;
            lemma_lex_irreflexive(path@);
            if k > at {
                lemma_lex_transitive(path@, s[at as int], s[k]);
            }
        }
    }
    list.insert(at, path);
    proof {
        let t = list.deep_view();
        assert(t =~= s.insert(at as int, path@));
        assert forall|i: int, j: int| 0 <= i < j < t.len() implies lex_less(
            #[trigger] t[i],
            #[trigger] t[j],
        ) by {
            if j < at {
                assert(t[i] == s[i] && t[j] == s[j]);
            } else if j == at {
                assert(t[i] == s[i]);
            } else if i < at {
                assert(t[i] == s[i] && t[j] == s[j - 1]);
                if j - 1 == at {
                    lemma_lex_total(s[at as int], path@);
                    lemma_lex_transitive(s[i], path@, s[at as int]);
                }
            } else if i == at {
                lemma_lex_total(s[at as int], path@);
                if j - 1 > at {
                    lemma_lex_transitive(path@, s[at as int], s[j - 1]);
                }
            } else {
                assert(t[i] == s[i - 1] && t[j] == s[j - 1]);
            }
        }
        assert forall|p: Seq<char>| t.to_set().contains(p) <==> s.to_set().insert(path@).contains(
            p,
        ) by {
            if t.contains(p) {
                let k = choose|k: int| 0 <= k < t.len() && t[k] == p;
                if k < at {
                    assert(s[k] == p);
                } else if k > at {
                    assert(s[k - 1] == p);
                }
            }
            if p == path@ {
                assert(t[at as int] == p);
            } else if s.contains(p) {
                let k = choose|k: int| 0 <= k < s.len() && s[k] == p;
                if k < at {
                    assert(t[k] == p);
                } else {
                    assert(t[k + 1] == p);
                }
            }
        }
        assert(t.to_set() =~= s.to_set().insert(path@));
    }
    true
}

} // verus!
