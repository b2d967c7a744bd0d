//! The statistical mode of a list of positions.

use std::collections::HashMap;
use vstd::prelude::*;

verus! {

broadcast use vstd::std_specs::hash::group_hash_axioms;

/// How many times `x` occurs in `s`.
pub open spec fn occurrences(s: Seq<usize>, x: usize) -> nat
    decreases s.len(),
{
    if s.len() == 0 {
        0
    } else {
        occurrences(s.drop_last(), x) + if s.last() == x {
            1nat
        } else {
            0nat
        }
    }
}

/// `m` is the mode of `s`: it occurs in `s`, no value occurs more often, and
/// among the values that occur as often it is the smallest.
pub open spec fn is_mode(s: Seq<usize>, m: usize) -> bool {
    &&& s.contains(m)
    &&& forall|x: usize| #[trigger] occurrences(s, x) <= occurrences(s, m)
    &&& forall|x: usize| #[trigger] occurrences(s, x) == occurrences(s, m) ==> m <= x
}

/// The mode of `s`, or `None` when `s` is empty.
pub open spec fn mode_of(s: Seq<usize>) -> Option<usize> {
    if s.len() == 0 {
        None
    } else {
        Some(choose|m: usize| is_mode(s, m))
    }
}

pub proof fn lemma_occurrences_bound(s: Seq<usize>, x: usize)
    ensures
        occurrences(s, x) <= s.len(),
        occurrences(s, x) > 0 <==> s.contains(x),
    decreases s.len(),
{
    if s.len() > 0 {
        lemma_occurrences_bound(s.drop_last(), x);
        if s.drop_last().contains(x) {
            let i = choose|i: int| 0 <= i < s.drop_last().len() && s.drop_last()[i] == x;
            assert(s[i] == x);
        }
        if s.contains(x) && s.last() != x {
            let i = choose|i: int| 0 <= i < s.len() && s[i] == x;
            assert(s.drop_last()[i] == x);
        }
    }
}

/// A list has at most one mode.
pub proof fn lemma_mode_unique(s: Seq<usize>, a: usize, b: usize)
    requires
        is_mode(s, a),
        is_mode(s, b),
    ensures
        a == b,
{
    assert(occurrences(s, a) <= occurrences(s, b));
    assert(occurrences(s, b) <= occurrences(s, a));
}

/// The smallest of the most frequent values among the first `n` of `s`,
/// frequency being counted over all of `s`.
spec fn best_among(s: Seq<usize>, n: int) -> usize
    decreases n,
{
    if n <= 1 {
        s[0]
    } else {
        let b = best_among(s, n - 1);
        let c = s[n - 1];
        if occurrences(s, c) > occurrences(s, b) || (occurrences(s, c) == occurrences(s, b) && c
            < b) {
            c
        } else {
            b
        }
    }
}

proof fn lemma_best_among(s: Seq<usize>, n: int)
    requires
        1 <= n <= s.len(),
    ensures
        s.contains(best_among(s, n)),
        forall|j: int|
            0 <= j < n ==> occurrences(s, #[trigger] s[j]) < occurrences(s, best_among(s, n)) || (
            occurrences(s, s[j]) == occurrences(s, best_among(s, n)) && best_among(s, n) <= s[j]),
    decreases n,
{
    if n > 1 {
        lemma_best_among(s, n - 1);
    } else {
        assert(s[0] == s[0]);
    }
    let b = best_among(s, n);
    assert(s.contains(b)) by {
        if n > 1 && b == s[n - 1] {
        }
    }
}

/// Every non-empty list has a mode.
pub proof fn lemma_mode_exists(s: Seq<usize>)
    requires
        s.len() > 0,
    ensures
        is_mode(s, mode_of(s).unwrap()),
{
    lemma_best_among(s, s.len() as int);
    let b = best_among(s, s.len() as int);
    assert forall|x: usize| #[trigger] occurrences(s, x) <= occurrences(s, b) by {
        lemma_occurrences_bound(s, x);
        if occurrences(s, x) > 0 {
            let j = choose|j: int| 0 <= j < s.len() && s[j] == x;
        }
    }
    assert forall|x: usize| #[trigger] occurrences(s, x) == occurrences(s, b) implies b <= x by {
        lemma_occurrences_bound(s, x);
        lemma_occurrences_bound(s, b);
        let j = choose|j: int| 0 <= j < s.len() && s[j] == x;
    }
    assert(is_mode(s, b));
}

/// Calculates the mathematical mode of a vector of usizes. Where several
/// values are most frequent, the smallest of them is returned.
pub fn mode_vec_usize(list: &Vec<usize>) -> (r: Option<usize>)
    ensures
        r == mode_of(list@),
        r is None <==> list@.len() == 0,
        r matches Some(m) ==> is_mode(list@, m),
{
    let mut counts: HashMap<usize, usize> = HashMap::new();
    let mut keys: Vec<usize> = Vec::new();
    let n = list.len();
    let mut i: usize = 0;
    while i < n
        invariant
            n == list@.len(),
            i <= n,
            forall|k: usize| #[trigger] counts@.contains_key(k) <==> keys@.contains(k),
            forall|k: usize| #[trigger] keys@.contains(k) <==> list@.take(i as int).contains(k),
            forall|k: usize| #[trigger]
                counts@.contains_key(k) ==> counts@[k] == occurrences(list@.take(i as int), k),
        decreases n - i,
    {
        let x = list[i];
        let ghost pre = list@.take(i as int);
        let ghost post = list@.take(i + 1);
        let ghost old_keys = keys@;
        assert(post.drop_last() =~= pre);
        proof {
            lemma_occurrences_bound(pre, x);
        }
        match counts.get(&x) {
            Some(c) => {
                let c = *c;
                assert(counts@.contains_key(x));
                assert(old_keys.contains(x));
                counts.insert(x, c + 1);
            },
            None => {
                counts.insert(x, 1);
                keys.push(x);
                assert(keys@[keys@.len() - 1] == x);
            },
        }
        proof {
            assert forall|k: usize| #[trigger] keys@.contains(k) <==> post.contains(k) by {
                lemma_occurrences_bound(pre, k);
                lemma_occurrences_bound(post, k);
                if keys@.contains(k) && !old_keys.contains(k) {
                    let j = choose|j: int| 0 <= j < keys@.len() && keys@[j] == k;
                    if j < old_keys.len() {
                        assert(old_keys[j] == k);
                    }
                }
                if old_keys.contains(k) {
                    let j = choose|j: int| 0 <= j < old_keys.len() && old_keys[j] == k;
                    assert(keys@[j] == k);
                }
            }
        }
        i = i + 1;
    }
    assert(list@.take(n as int) =~= list@);
    if keys.len() == 0 {
        proof {
            if list@.len() > 0 {
                assert(list@.take(n as int).contains(list@[0]));
                assert(keys@.contains(list@[0]));
            }
        }
        return None;
    }
    let mut best_key: usize = keys[0];
    let mut best_count: usize = *counts.get(&best_key).unwrap();
    let mut j: usize = 1;
    while j < keys.len()
        invariant
            1 <= j <= keys@.len(),
            keys@.contains(best_key),
            best_count == occurrences(list@, best_key),
            forall|k: usize| #[trigger] counts@.contains_key(k) <==> keys@.contains(k),
            forall|k: usize| #[trigger] keys@.contains(k) <==> list@.contains(k),
            forall|k: usize| #[trigger] counts@.contains_key(k) ==> counts@[k] == occurrences(list@, k),
            forall|t: int|
                0 <= t < j ==> occurrences(list@, #[trigger] keys@[t]) < best_count || (occurrences(
                    list@,
                    keys@[t],
                ) == best_count && best_key <= keys@[t]),
        decreases keys@.len() - j,
    {
        let k = keys[j];
        assert(keys@.contains(k));
        let c = *counts.get(&k).unwrap();
        if c > best_count || (c == best_count && k < best_key) {
            best_key = k;
            best_count = c;
        }
        j = j + 1;
    }
    proof {
        assert forall|x: usize| #[trigger] occurrences(list@, x) <= occurrences(list@, best_key) by {
            lemma_occurrences_bound(list@, x);
            if occurrences(list@, x) > 0 {
                assert(keys@.contains(x));
                let t = choose|t: int| 0 <= t < keys@.len() && keys@[t] == x;
            }
        }
        assert forall|x: usize| #[trigger]
            occurrences(list@, x) == occurrences(list@, best_key) implies best_key <= x by {
            lemma_occurrences_bound(list@, x);
            lemma_occurrences_bound(list@, best_key);
            assert(keys@.contains(x));
            let t = choose|t: int| 0 <= t < keys@.len() && keys@[t] == x;
        }
        assert(is_mode(list@, best_key));
        lemma_mode_unique(list@, best_key, choose|m: usize| is_mode(list@, m));
    }
    Some(best_key)
}

} // verus!
