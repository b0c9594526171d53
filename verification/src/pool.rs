//! A quantity pool: how many units of each item are available. Backed by an
//! association list from item name to count; the first entry for a name is
//! the authoritative one.

use vstd::prelude::*;

use crate::stack::Count;
use crate::recipe::str_equal;

verus! {

/// The count that an association list holds for `k`: the first matching
/// entry's count, or zero when no entry matches.
pub open spec fn entries_amt(s: Seq<(String, Count)>, k: Seq<char>) -> nat
    decreases s.len(),
{
    if s.len() == 0 {
        0
    } else if s[0].0@ == k {
        s[0].1 as nat
    } else {
        entries_amt(s.drop_first(), k)
    }
}

/// Whether some entry of the association list has the name `k`.
pub open spec fn entries_has(s: Seq<(String, Count)>, k: Seq<char>) -> bool {
    exists|j: int| 0 <= j < s.len() && s[j].0@ == k
}

proof fn lemma_amt_no_match(s: Seq<(String, Count)>, k: Seq<char>)
    requires
        !entries_has(s, k),
    ensures
        entries_amt(s, k) == 0,
    decreases s.len(),
{
    if s.len() > 0 {
        assert(s[0].0@ != k);
        assert(!entries_has(s.drop_first(), k)) by {
            assert forall|j: int| 0 <= j < s.drop_first().len() implies s.drop_first()[j].0@ != k by {
                assert(s.drop_first()[j] == s[j + 1]);
            }
        }
        lemma_amt_no_match(s.drop_first(), k);
    }
}

proof fn lemma_amt_first(s: Seq<(String, Count)>, i: int, k: Seq<char>)
    requires
        0 <= i < s.len(),
        s[i].0@ == k,
        forall|j: int| 0 <= j < i ==> s[j].0@ != k,
    ensures
        entries_amt(s, k) == s[i].1 as nat,
    decreases s.len(),
{
    if i == 0 {
    } else {
        assert(s[0].0@ != k);
        assert(s.drop_first()[i - 1] == s[i]);
        assert forall|j: int| 0 <= j < i - 1 implies s.drop_first()[j].0@ != k by {
            assert(s.drop_first()[j] == s[j + 1]);
        }
        lemma_amt_first(s.drop_first(), i - 1, k);
    }
}

proof fn lemma_amt_update(s: Seq<(String, Count)>, i: int, e: (String, Count), k: Seq<char>)
    requires
        0 <= i < s.len(),
        e.0@ == s[i].0@,
        forall|j: int| 0 <= j < i ==> s[j].0@ != s[i].0@,
    ensures
        entries_amt(s.update(i, e), k) == if k == e.0@ {
            e.1 as nat
        } else {
            entries_amt(s, k)
        },
    decreases s.len(),
{
    let s2 = s.update(i, e);
    if k == e.0@ {
        assert(s2[i].0@ == k);
        assert(forall|j: int| 0 <= j < i ==> s2[j] == s[j]);
        lemma_amt_first(s2, i, k);
        lemma_amt_first(s, i, k);
    } else {
        if i == 0 {
            assert(s2[0] == e);
            assert(s2.drop_first() =~= s.drop_first());
        } else {
            assert(s2[0] == s[0]);
            if s[0].0@ == k {
            } else {
                assert(s2.drop_first() =~= s.drop_first().update(i - 1, e));
                assert(s.drop_first()[i - 1] == s[i]);
                assert forall|j: int| 0 <= j < i - 1 implies (#[trigger] s.drop_first()[j]).0@
                    != s.drop_first()[i - 1].0@ by {
                    assert(s.drop_first()[j] == s[j + 1]);
                }
                lemma_amt_update(s.drop_first(), i - 1, e, k);
            }
        }
    }
}

proof fn lemma_amt_push(s: Seq<(String, Count)>, e: (String, Count), k: Seq<char>)
    ensures
        entries_amt(s.push(e), k) == if entries_has(s, k) {
            entries_amt(s, k)
        } else if k == e.0@ {
            e.1 as nat
        } else {
            0nat
        },
    decreases s.len(),
{
    let s2 = s.push(e);
    if s.len() == 0 {
        assert(s2[0] == e);
        assert(!entries_has(s, k));
        if k == e.0@ {
            assert(entries_amt(s2, k) == e.1 as nat);
        } else {
            assert(s2.drop_first() =~= Seq::<(String, Count)>::empty());
            assert(entries_amt(s2.drop_first(), k) == 0);
            assert(entries_amt(s2, k) == 0);
        }
    } else {
        assert(s2[0] == s[0]);
        if s[0].0@ == k {
            assert(entries_has(s, k));
            assert(entries_amt(s2, k) == s2[0].1 as nat);
            assert(entries_amt(s, k) == s[0].1 as nat);
        } else {
            assert(s2.drop_first() =~= s.drop_first().push(e));
            assert(entries_amt(s2, k) == entries_amt(s2.drop_first(), k));
            assert(entries_amt(s, k) == entries_amt(s.drop_first(), k));
            lemma_amt_push(s.drop_first(), e, k);
            assert(entries_has(s.drop_first(), k) == entries_has(s, k)) by {
                if entries_has(s.drop_first(), k) {
                    let j = choose|j: int|
                        0 <= j < s.drop_first().len() && s.drop_first()[j].0@ == k;
                    assert(s[j + 1].0@ == k);
                }
                if entries_has(s, k) {
                    let j = choose|j: int| 0 <= j < s.len() && s[j].0@ == k;
                    assert(s.drop_first()[j - 1].0@ == k);
                }
            }
        }
    }
}

/// A pool of available item quantities.
pub struct Pool {
    entries: Vec<(String, Count)>,
}

impl Pool {
    /// How many units of item `k` the pool holds.
    pub closed spec fn amt(self, k: Seq<char>) -> nat {
        entries_amt(self.entries@, k)
    }

    /// Creates an empty pool.
    pub fn new() -> (r: Self)
        ensures
            forall|k: Seq<char>| r.amt(k) == 0,
    {
        Pool { entries: Vec::new() }
    }

    /// Finds the first entry for `k`, if any.
    fn find(&self, k: &str) -> (r: Option<usize>)
        ensures
            match r {
                Some(i) => {
                    &&& i < self.entries@.len()
                    &&& self.entries@[i as int].0@ == k@
                    &&& forall|j: int| 0 <= j < i ==> self.entries@[j].0@ != k@
                    &&& self.amt(k@) == self.entries@[i as int].1 as nat
                },
                None => {
                    &&& !entries_has(self.entries@, k@)
                    &&& self.amt(k@) == 0
                },
            },
    {
        let n = self.entries.len();
        let mut i: usize = 0;
        while i < n
            invariant
                n == self.entries@.len(),
                i <= n,
                forall|j: int| 0 <= j < i ==> self.entries@[j].0@ != k@,
            decreases n - i,
        {
            if str_equal(self.entries[i].0.as_str(), k) {
                proof {
                    lemma_amt_first(self.entries@, i as int, k@);
                }
                return Some(i);
            }
            i += 1;
        }
        proof {
            lemma_amt_no_match(self.entries@, k@);
        }
        None
    }

    /// The number of units of `k` currently available.
    pub fn amount(&self, k: &str) -> (r: Count)
        ensures
            r as nat == self.amt(k@),
    {
        match self.find(k) {
            Some(i) => self.entries[i].1,
            None => 0,
        }
    }

    /// Adds `n` units of `k` to the pool. Returns `false`, changing nothing,
    /// when the new total would not fit in the count type.
    pub fn add(&mut self, k: &str, n: Count) -> (ok: bool)
        ensures
            ok == (old(self).amt(k@) + n <= Count::MAX),
            ok ==> forall|k2: Seq<char>|
                final(self).amt(k2) as int == if k2 == k@ {
                    old(self).amt(k@) + n
                } else {
                    old(self).amt(k2) as int
                },
            !ok ==> forall|k2: Seq<char>| final(self).amt(k2) == old(self).amt(k2),
    {
        match self.find(k) {
            Some(i) => {
                let e = self.entries.remove(i);
                match e.1.checked_add(n) {
                    Some(c2) => {
                        self.entries.insert(i, (e.0, c2));
                        proof {
                            assert(self.entries@ =~= old(self).entries@.update(
                                i as int,
                                (e.0, c2),
                            ));
                            assert forall|k2: Seq<char>| true implies final(self).amt(k2) as int == (
                            if k2 == k@ {
                                old(self).amt(k@) + n
                            } else {
                                old(self).amt(k2) as int
                            }) by {
                                lemma_amt_update(old(self).entries@, i as int, (e.0, c2), k2);
                            }
                        }
                        true
                    },
                    None => {
                        self.entries.insert(i, (e.0, e.1));
                        proof {
                            assert(self.entries@ =~= old(self).entries@.update(
                                i as int,
                                (e.0, e.1),
                            ));
                            assert(self.entries@ =~= old(self).entries@);
                        }
                        false
                    },
                }
            },
            None => {
                let e = (String::from_str(k), n);
                self.entries.push(e);
                proof {
                    assert forall|k2: Seq<char>| true implies final(self).amt(k2) as int == (if k2
                        == k@ {
                        old(self).amt(k@) + n
                    } else {
                        old(self).amt(k2) as int
                    }) by {
                        lemma_amt_push(old(self).entries@, e, k2);
                        if !entries_has(old(self).entries@, k2) {
                            lemma_amt_no_match(old(self).entries@, k2);
                        }
                    }
                }
                true
            },
        }
    }

    /// Draws up to `want` units of `k` from the pool: removes and returns
    /// the smaller of `want` and what is available.
    pub fn take(&mut self, k: &str, want: Count) -> (got: Count)
        ensures
            got as nat == vstd::math::min(old(self).amt(k@) as int, want as int),
            forall|k2: Seq<char>|
                final(self).amt(k2) as int == if k2 == k@ {
                    old(self).amt(k@) - got
                } else {
                    old(self).amt(k2) as int
                },
    {
        match self.find(k) {
            Some(i) => {
                let e = self.entries.remove(i);
                let got: Count = if e.1 < want {
                    e.1
                } else {
                    want
                };
                let rest: Count = e.1 - got;
                self.entries.insert(i, (e.0, rest));
                proof {
                    assert(self.entries@ =~= old(self).entries@.update(i as int, (e.0, rest)));
                    assert forall|k2: Seq<char>| true implies final(self).amt(k2) as int == (if k2
                        == k@ {
                        old(self).amt(k@) - got
                    } else {
                        old(self).amt(k2) as int
                    }) by {
                        lemma_amt_update(old(self).entries@, i as int, (e.0, rest), k2);
                    }
                }
                got
            },
            None => 0,
        }
    }

    /// Removes and returns everything the pool holds for `k`.
    pub fn take_all(&mut self, k: &str) -> (got: Count)
        ensures
            got as nat == old(self).amt(k@),
            forall|k2: Seq<char>|
                final(self).amt(k2) as int == if k2 == k@ {
                    0int
                } else {
                    old(self).amt(k2) as int
                },
    {
        match self.find(k) {
            Some(i) => {
                let e = self.entries.remove(i);
                self.entries.insert(i, (e.0, 0));
                proof {
                    assert(self.entries@ =~= old(self).entries@.update(i as int, (e.0, 0)));
                    assert forall|k2: Seq<char>| true implies final(self).amt(k2) as int == (if k2
                        == k@ {
                        0int
                    } else {
                        old(self).amt(k2) as int
                    }) by {
                        lemma_amt_update(old(self).entries@, i as int, (e.0, 0), k2);
                    }
                }
                e.1
            },
            None => 0,
        }
    }

    /// Makes an exact copy of this pool.
    pub fn duplicate(&self) -> (r: Self)
        ensures
            forall|k: Seq<char>| r.amt(k) == self.amt(k),
    {
        let mut entries: Vec<(String, Count)> = Vec::new();
        let mut i: usize = 0;
        while i < self.entries.len()
            invariant
                i <= self.entries@.len(),
                entries@.len() == i,
                forall|j: int| 0 <= j < i ==> entries@[j] == #[trigger] self.entries@[j],
            decreases self.entries@.len() - i,
        {
            entries.push((self.entries[i].0.clone(), self.entries[i].1));
            i += 1;
        }
        let r = Pool { entries };
        proof {
            assert(r.entries@ =~= self.entries@);
        }
        r
    }
}

} // verus!
