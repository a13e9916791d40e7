use vstd::prelude::*;

use crate::strutil::str_eq;

verus! {

broadcast use vstd::seq_lib::group_seq_lib_default;

/// The mapping that a sequence of entries denotes: a later entry
/// overrides an earlier one with the same key.
pub open spec fn map_of(s: Seq<(String, String)>) -> Map<Seq<char>, Seq<char>>
    decreases s.len(),
{
    if s.len() == 0 {
        Map::empty()
    } else {
        map_of(s.drop_last()).insert(s.last().0@, s.last().1@)
    }
}

/// Whether some entry of `s` has key `k`.
pub open spec fn has_key(s: Seq<(String, String)>, k: Seq<char>) -> bool {
    exists|i: int| 0 <= i < s.len() && (#[trigger] s[i]).0@ == k
}

/// The domain of the denoted mapping is exactly the set of keys that occur.
pub proof fn lemma_map_of_dom(s: Seq<(String, String)>)
    ensures
        forall|k: Seq<char>| #[trigger] map_of(s).dom().contains(k) <==> has_key(s, k),
    decreases s.len(),
{
    if s.len() > 0 {
        lemma_map_of_dom(s.drop_last());
        assert forall|k: Seq<char>| #[trigger] map_of(s).dom().contains(k) implies has_key(s, k) by {
            if s.last().0@ == k {
                assert((s[s.len() - 1]).0@ == k);
            } else {
                assert(map_of(s.drop_last()).dom().contains(k));
                assert(has_key(s.drop_last(), k));
                let i = choose|i: int| 0 <= i < s.drop_last().len() && (#[trigger] s.drop_last()[i]).0@ == k;
                assert(s.drop_last()[i] == s[i]);
                assert((s[i]).0@ == k);
            }
        }
        assert forall|k: Seq<char>| has_key(s, k) implies #[trigger] map_of(s).dom().contains(k) by {
            let i = choose|i: int| 0 <= i < s.len() && (#[trigger] s[i]).0@ == k;
            if i < s.len() - 1 {
                assert(s.drop_last()[i] == s[i]);
                assert((s.drop_last()[i]).0@ == k);
                assert(has_key(s.drop_last(), k));
                assert(map_of(s.drop_last()).dom().contains(k));
            } else {
                assert(s.last().0@ == k);
            }
        }
    }
}

/// An entry whose key occurs nowhere later in the sequence gives
/// the denoted value of that key.
pub proof fn lemma_map_of_last_occurrence(s: Seq<(String, String)>, i: int)
    requires
        0 <= i < s.len(),
        forall|j: int| i < j < s.len() ==> (#[trigger] s[j]).0@ != s[i].0@,
    ensures
        map_of(s).contains_key(s[i].0@),
        map_of(s)[s[i].0@] == s[i].1@,
    decreases s.len(),
{
    if i == s.len() - 1 {
    } else {
        assert(s.drop_last()[i] == s[i]);
        lemma_map_of_last_occurrence(s.drop_last(), i);
    }
}

/// Updating the only entry that carries a key denotes an insert.
pub proof fn lemma_map_of_update(s: Seq<(String, String)>, i: int, k: String, v: String)
    requires
        0 <= i < s.len(),
        s[i].0@ == k@,
        forall|j: int| i < j < s.len() ==> (#[trigger] s[j]).0@ != k@,
    ensures
        map_of(s.update(i, (k, v))) == map_of(s).insert(k@, v@),
    decreases s.len(),
{
    let s2 = s.update(i, (k, v));
    if i == s.len() - 1 {
        assert(s2.drop_last() =~= s.drop_last());
        assert(map_of(s2) =~= map_of(s).insert(k@, v@));
    } else {
        assert(s2.drop_last() =~= s.drop_last().update(i, (k, v)));
        lemma_map_of_update(s.drop_last(), i, k, v);
        assert(s.last().0@ != k@);
        assert(map_of(s2) =~= map_of(s).insert(k@, v@));
    }
}

/// A flat environment mapping with string keys and string values.
/// Entries keep their insertion order and keys are unique.
#[derive(Debug)]
pub struct EnvMap {
    pub entries: Vec<(String, String)>,
}

impl View for EnvMap {
    type V = Map<Seq<char>, Seq<char>>;

    open spec fn view(&self) -> Map<Seq<char>, Seq<char>> {
        map_of(self.entries@)
    }
}

impl EnvMap {
    /// Keys are pairwise distinct.
    pub open spec fn wf(&self) -> bool {
        crate::assoc::assoc_unique(self.entries@)
    }

    /// Checks that the keys are pairwise distinct.
    pub fn wf_check(&self) -> (r: bool)
        ensures
            r == self.wf(),
    {
        crate::assoc::assoc_unique_check(&self.entries)
    }

    /// The empty environment.
    pub fn new() -> (r: EnvMap)
        ensures
            r.wf(),
            r@ == Map::<Seq<char>, Seq<char>>::empty(),
            r.entries@.len() == 0,
    {
        EnvMap { entries: Vec::new() }
    }

    /// Looks a key up; `Some` exactly when the key is present.
    pub fn get<'a>(&'a self, k: &str) -> (r: Option<&'a String>)
        requires
            self.wf(),
        ensures
            match r {
                Some(v) => self@.dom().contains(k@) && v@ == self@[k@],
                None => !self@.dom().contains(k@),
            },
    {
        let n = self.entries.len();
        let mut i: usize = 0;
        while i < n
            invariant
                self.wf(),
                n == self.entries@.len(),
                i <= n,
                forall|j: int| 0 <= j < i ==> (#[trigger] self.entries@[j]).0@ != k@,
            decreases n - i,
        {
            if str_eq(self.entries[i].0.as_str(), k) {
                proof {
                    lemma_map_of_last_occurrence(self.entries@, i as int);
                }
                return Some(&self.entries[i].1);
            }
            i += 1;
        }
        proof {
            lemma_map_of_dom(self.entries@);
            assert(!has_key(self.entries@, k@));
        }
        None
    }

    /// Binds a key to a value; an existing binding of the key is replaced.
    pub fn set(&mut self, k: String, v: String)
        requires
            old(self).wf(),
        ensures
            final(self).wf(),
            final(self)@ == old(self)@.insert(k@, v@),
    {
        let n = self.entries.len();
        let mut i: usize = 0;
        while i < n
            invariant
                self.wf(),
                self == old(self),
                n == self.entries@.len(),
                i <= n,
                forall|j: int| 0 <= j < i ==> (#[trigger] self.entries@[j]).0@ != k@,
            decreases n - i,
        {
            if str_eq(self.entries[i].0.as_str(), k.as_str()) {
                proof {
                    lemma_map_of_update(self.entries@, i as int, k, v);
                }
                self.entries[i] = (k, v);
                return ;
            }
            i += 1;
        }
        proof {
            assert(self.entries@.push((k, v)).drop_last() =~= self.entries@);
        }
        self.entries.push((k, v));
    }

    /// Adds every binding of `other`, overriding on key collision.
    pub fn extend_with(&mut self, other: &EnvMap)
        requires
            old(self).wf(),
            other.wf(),
        ensures
            final(self).wf(),
            final(self)@ == old(self)@.union_prefer_right(other@),
    {
        let n = other.entries.len();
        let mut i: usize = 0;
        while i < n
            invariant
                self.wf(),
                other.wf(),
                n == other.entries@.len(),
                i <= n,
                self@ == old(self)@.union_prefer_right(map_of(other.entries@.take(i as int))),
            decreases n - i,
        {
            let k = other.entries[i].0.clone();
            let v = other.entries[i].1.clone();
            proof {
                let pre = other.entries@.take(i as int);
                let post = other.entries@.take(i as int + 1);
                assert(post.drop_last() =~= pre);
                assert(post.last() == other.entries@[i as int]);
                assert(old(self)@.union_prefer_right(map_of(pre)).insert(k@, v@) =~= old(self)@.union_prefer_right(
                    map_of(post)));
            }
            self.set(k, v);
            i += 1;
        }
        proof {
            assert(other.entries@.take(n as int) =~= other.entries@);
        }
    }

    /// An equal, independent copy.
    pub fn duplicate(&self) -> (r: EnvMap)
        ensures
            r.entries@ == self.entries@,
            r@ == self@,
            self.wf() ==> r.wf(),
    {
        let mut out: Vec<(String, String)> = Vec::new();
        let n = self.entries.len();
        let mut i: usize = 0;
        while i < n
            invariant
                n == self.entries@.len(),
                i <= n,
                out@ == self.entries@.take(i as int),
            decreases n - i,
        {
            let k = self.entries[i].0.clone();
            let v = self.entries[i].1.clone();
            proof {
                assert(self.entries@.take(i as int).push((k, v)) =~= self.entries@.take(i as int + 1));
            }
            out.push((k, v));
            i += 1;
        }
        proof {
            assert(self.entries@.take(n as int) =~= self.entries@);
        }
        EnvMap { entries: out }
    }

    /// The number of bindings.
    pub fn len(&self) -> (r: usize)
        ensures
            r == self.entries@.len(),
    {
        self.entries.len()
    }
}

} // verus!
