use vstd::prelude::*;

use crate::strutil::str_eq;

verus! {

/// The mapping denoted by a sequence of named entries; a later entry
/// overrides an earlier one with the same name.
pub open spec fn assoc_map<T>(s: Seq<(String, T)>) -> Map<Seq<char>, T>
    decreases s.len(),
{
    if s.len() == 0 {
        Map::empty()
    } else {
        assoc_map(s.drop_last()).insert(s.last().0@, s.last().1)
    }
}

/// Whether some entry of `s` is named `k`.
pub open spec fn assoc_has_key<T>(s: Seq<(String, T)>, k: Seq<char>) -> bool {
    exists|i: int| 0 <= i < s.len() && (#[trigger] s[i]).0@ == k
}

/// Names are pairwise distinct.
pub open spec fn assoc_unique<T>(s: Seq<(String, T)>) -> bool {
    forall|i: int, j: int| 0 <= i < j < s.len() ==> (#[trigger] s[i]).0@ != (#[trigger] s[j]).0@
}

/// The domain of the denoted mapping is exactly the set of names that occur.
pub proof fn lemma_assoc_map_dom<T>(s: Seq<(String, T)>)
    ensures
        forall|k: Seq<char>| #[trigger] assoc_map(s).dom().contains(k) <==> assoc_has_key(s, k),
    decreases s.len(),
{
    if s.len() > 0 {
        lemma_assoc_map_dom(s.drop_last());
        assert forall|k: Seq<char>| #[trigger] assoc_map(s).dom().contains(k) implies assoc_has_key(
            s,
            k,
        ) by {
            if s.last().0@ == k {
                assert((s[s.len() - 1]).0@ == k);
            } else {
                assert(assoc_map(s.drop_last()).dom().contains(k));
                assert(assoc_has_key(s.drop_last(), k));
                let i = choose|i: int|
                    0 <= i < s.drop_last().len() && (#[trigger] s.drop_last()[i]).0@ == k;
                assert(s.drop_last()[i] == s[i]);
                assert((s[i]).0@ == k);
            }
        }
        assert forall|k: Seq<char>| assoc_has_key(s, k) implies #[trigger] assoc_map(
            s,
        ).dom().contains(k) by {
            let i = choose|i: int| 0 <= i < s.len() && (#[trigger] s[i]).0@ == k;
            if i < s.len() - 1 {
                assert(s.drop_last()[i] == s[i]);
                assert((s.drop_last()[i]).0@ == k);
                assert(assoc_has_key(s.drop_last(), k));
                assert(assoc_map(s.drop_last()).dom().contains(k));
            } else {
                assert(s.last().0@ == k);
            }
        }
    }
}

/// An entry whose name occurs nowhere later gives the denoted value.
pub proof fn lemma_assoc_map_last_occurrence<T>(s: Seq<(String, T)>, i: int)
    requires
        0 <= i < s.len(),
        forall|j: int| i < j < s.len() ==> (#[trigger] s[j]).0@ != s[i].0@,
    ensures
        assoc_map(s).contains_key(s[i].0@),
        assoc_map(s)[s[i].0@] == s[i].1,
    decreases s.len(),
{
    if i == s.len() - 1 {
    } else {
        assert(s.drop_last()[i] == s[i]);
        lemma_assoc_map_last_occurrence(s.drop_last(), i);
    }
}

/// Looks a name up in a sequence of uniquely named entries.
pub fn assoc_get<'a, T>(entries: &'a Vec<(String, T)>, k: &str) -> (r: Option<&'a T>)
    requires
        assoc_unique(entries@),
    ensures
        match r {
            Some(v) => assoc_map(entries@).dom().contains(k@) && *v == assoc_map(entries@)[k@],
            None => !assoc_map(entries@).dom().contains(k@),
        },
{
    let n = entries.len();
    let mut i: usize = 0;
    while i < n
        invariant
            assoc_unique(entries@),
            n == entries@.len(),
            i <= n,
            forall|j: int| 0 <= j < i ==> (#[trigger] entries@[j]).0@ != k@,
        decreases n - i,
    {
        if str_eq(entries[i].0.as_str(), k) {
            proof {
                lemma_assoc_map_last_occurrence(entries@, i as int);
            }
            return Some(&entries[i].1);
        }
        i += 1;
    }
    proof {
        lemma_assoc_map_dom(entries@);
        assert(!assoc_has_key(entries@, k@));
    }
    None
}

/// Checks that the names of the entries are pairwise distinct.
pub fn assoc_unique_check<T>(entries: &Vec<(String, T)>) -> (r: bool)
    ensures
        r == assoc_unique(entries@),
{
    let n = entries.len();
    let mut i: usize = 0;
    while i < n
        invariant
            i <= n,
            n == entries@.len(),
            forall|a: int, b: int|
                0 <= a < b < i ==> (#[trigger] entries@[a]).0@ != (#[trigger] entries@[b]).0@,
        decreases n - i,
    {
        let mut j: usize = 0;
        while j < i
            invariant
                j <= i,
                i < n,
                n == entries@.len(),
                forall|a: int, b: int|
                    0 <= a < b < i ==> (#[trigger] entries@[a]).0@ != (#[trigger] entries@[b]).0@,
                forall|b: int| 0 <= b < j ==> (#[trigger] entries@[b]).0@ != entries@[i as int].0@,
            decreases i - j,
        {
            if str_eq(entries[j].0.as_str(), entries[i].0.as_str()) {
                assert((entries@[j as int]).0@ == (entries@[i as int]).0@);
                assert(!assoc_unique(entries@));
                return false;
            }
            j += 1;
        }
        i += 1;
    }
    true
}

/// The views of a sequence of strings.
pub open spec fn names_of(v: Seq<String>) -> Seq<Seq<char>> {
    v.map_values(|s: String| s@)
}

/// Whether one of the strings reads `s`.
pub fn contains_name(v: &Vec<String>, s: &str) -> (r: bool)
    ensures
        r == names_of(v@).contains(s@),
{
    let n = v.len();
    let mut i: usize = 0;
    while i < n
        invariant
            n == v@.len(),
            i <= n,
            forall|j: int| 0 <= j < i ==> names_of(v@)[j] != s@,
        decreases n - i,
    {
        if str_eq(v[i].as_str(), s) {
            assert(names_of(v@)[i as int] == s@);
            return true;
        }
        i += 1;
    }
    assert(forall|j: int| 0 <= j < n ==> names_of(v@)[j] != s@);
    false
}

} // verus!
