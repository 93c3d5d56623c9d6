//! Values by name: a small table, searched from end to end.

use crate::text;
use vstd::prelude::*;

verus! {

/// Values by name, each name once.
pub struct Table<V> {
    pub pairs: Vec<(String, V)>,
}

impl<V> Table<V> {
    /// Each name once.
    pub open spec fn wf(self) -> bool {
        forall|i: int, j: int|
            0 <= i < j < self.pairs@.len() ==> (#[trigger] self.pairs@[i]).0@ != (
            #[trigger] self.pairs@[j]).0@
    }

    /// Name `k` stands at place `i`.
    pub open spec fn at(self, k: Seq<char>, i: int) -> bool {
        0 <= i < self.pairs@.len() && self.pairs@[i].0@ == k
    }

    /// The value of a name, where there is one.
    pub open spec fn value(self, k: Seq<char>) -> Option<V> {
        if exists|i: int| self.at(k, i) {
            Some(self.pairs@[choose|i: int| self.at(k, i)].1)
        } else {
            None
        }
    }

    proof fn lemma_value(self, k: Seq<char>, i: int)
        requires
            self.wf(),
            self.at(k, i),
        ensures
            self.value(k) == Some(self.pairs@[i].1),
    {
        let j = choose|j: int| self.at(k, j);
        if i < j {
            assert(self.pairs@[i].0@ != self.pairs@[j].0@);
        } else if j < i {
            assert(self.pairs@[j].0@ != self.pairs@[i].0@);
        }
    }

    pub fn new() -> (t: Table<V>)
        ensures
            t.wf(),
            forall|k: Seq<char>| #[trigger] t.value(k) is None,
    {
        Table { pairs: Vec::new() }
    }

    fn find(&self, key: &str) -> (r: Option<usize>)
        requires
            self.wf(),
        ensures
            match r {
                Some(i) => self.at(key@, i as int) && self.value(key@) == Some(
                    self.pairs@[i as int].1,
                ),
                None => forall|i: int| !(#[trigger] self.at(key@, i)),
            },
    {
        let mut i: usize = 0;
        while i < self.pairs.len()
            invariant
                self.wf(),
                i <= self.pairs@.len(),
                forall|k: int| 0 <= k < i ==> !(#[trigger] self.at(key@, k)),
            decreases self.pairs@.len() - i,
        {
            if text::str_eq(self.pairs[i].0.as_str(), key) {
                proof {
                    self.lemma_value(key@, i as int);
                }
                return Some(i);
            }
            i = i + 1;
        }
        None
    }

    /// The value of a name.
    pub fn get(&self, key: &str) -> (r: Option<&V>)
        requires
            self.wf(),
        ensures
            match r {
                Some(v) => self.value(key@) == Some(*v),
                None => self.value(key@) is None,
            },
    {
        match self.find(key) {
            Some(i) => Some(&self.pairs[i].1),
            None => None,
        }
    }

    /// Gives a name its value, in place of the one it had.
    pub fn set(&mut self, key: String, value: V)
        requires
            old(self).wf(),
        ensures
            final(self).wf(),
            final(self).value(key@) == Some(value),
            forall|k: Seq<char>|
                k != key@ ==> #[trigger] final(self).value(k) == old(self).value(k),
    {
        let ghost t0 = *self;
        let ghost kv = key@;
        match self.find(key.as_str()) {
            Some(i) => {
                self.pairs.set(i, (key, value));
                proof {
                    self.lemma_value(kv, i as int);
                    assert forall|k: Seq<char>| k != kv implies #[trigger] self.value(k)
                        == t0.value(k) by {
                        lemma_same_value(*self, t0, k);
                    }
                }
            },
            None => {
                let ghost n = self.pairs@.len() as int;
                proof {
                    assert forall|i: int| 0 <= i < n implies (#[trigger] self.pairs@[i]).0@
                        != kv by {
                        assert(!self.at(kv, i));
                    }
                }
                self.pairs.push((key, value));
                proof {
                    self.lemma_value(kv, n);
                    assert forall|k: Seq<char>| k != kv implies #[trigger] self.value(k)
                        == t0.value(k) by {
                        lemma_same_value(*self, t0, k);
                    }
                }
            },
        }
    }

    /// Takes a name out, and gives the value it had.
    pub fn remove(&mut self, key: &str) -> (r: Option<V>)
        requires
            old(self).wf(),
        ensures
            final(self).wf(),
            r == old(self).value(key@),
            final(self).value(key@) is None,
            forall|k: Seq<char>|
                k != key@ ==> #[trigger] final(self).value(k) == old(self).value(k),
    {
        let ghost t0 = *self;
        match self.find(key) {
            Some(i) => {
                let p = self.pairs.remove(i);
                proof {
                    lemma_removed(t0, *self, i as int);
                }
                Some(p.1)
            },
            None => None,
        }
    }

    /// Takes out what stands at place `i`.
    pub fn remove_at(&mut self, i: usize)
        requires
            old(self).wf(),
            i < old(self).pairs@.len(),
        ensures
            final(self).wf(),
            final(self).pairs@ == old(self).pairs@.remove(i as int),
            old(self).value(old(self).pairs@[i as int].0@) == Some(old(self).pairs@[i as int].1),
            final(self).value(old(self).pairs@[i as int].0@) is None,
            forall|k: Seq<char>|
                k != old(self).pairs@[i as int].0@ ==> #[trigger] final(self).value(k) == old(
                    self,
                ).value(k),
    {
        let ghost t0 = *self;
        self.pairs.remove(i);
        proof {
            t0.lemma_value(t0.pairs@[i as int].0@, i as int);
            lemma_removed(t0, *self, i as int);
        }
    }
}

proof fn lemma_same_value<V>(t: Table<V>, u: Table<V>, k: Seq<char>)
    requires
        t.wf(),
        u.wf(),
        forall|i: int| #[trigger] u.at(k, i) ==> t.at(k, i) && t.pairs@[i].1 == u.pairs@[i].1,
        forall|i: int| #[trigger] t.at(k, i) ==> u.at(k, i) && t.pairs@[i].1 == u.pairs@[i].1,
    ensures
        t.value(k) == u.value(k),
{
    if exists|i: int| u.at(k, i) {
        let i = choose|i: int| u.at(k, i);
        u.lemma_value(k, i);
        t.lemma_value(k, i);
    }
}

proof fn lemma_removed<V>(t: Table<V>, u: Table<V>, i: int)
    requires
        t.wf(),
        0 <= i < t.pairs@.len(),
        u.pairs@ == t.pairs@.remove(i),
    ensures
        u.wf(),
        u.value(t.pairs@[i].0@) is None,
        forall|k: Seq<char>| k != t.pairs@[i].0@ ==> #[trigger] u.value(k) == t.value(k),
{
    assert forall|x: int, y: int| 0 <= x < y < u.pairs@.len() implies (#[trigger] u.pairs@[x]).0@
        != (#[trigger] u.pairs@[y]).0@ by {
        let a = if x < i {
            x
        } else {
            x + 1
        };
        let b = if y < i {
            y
        } else {
            y + 1
        };
        assert(u.pairs@[x] == t.pairs@[a]);
        assert(u.pairs@[y] == t.pairs@[b]);
    }
    let out = t.pairs@[i].0@;
    assert forall|x: int| !(#[trigger] u.at(out, x)) by {
        if u.at(out, x) {
            if x < i {
                assert(u.pairs@[x] == t.pairs@[x]);
            } else {
                assert(u.pairs@[x] == t.pairs@[x + 1]);
            }
        }
    }
    assert forall|k: Seq<char>| k != out implies #[trigger] u.value(k) == t.value(k) by {
        if exists|x: int| t.at(k, x) {
            let x = choose|x: int| t.at(k, x);
            t.lemma_value(k, x);
            let y = if x < i {
                x
            } else {
                x - 1
            };
            assert(u.pairs@[y] == t.pairs@[x]);
            assert(u.at(k, y));
            u.lemma_value(k, y);
        } else if exists|y: int| u.at(k, y) {
            let y = choose|y: int| u.at(k, y);
            let x = if y < i {
                y
            } else {
                y + 1
            };
            assert(u.pairs@[y] == t.pairs@[x]);
            assert(t.at(k, x));
        }
    }
}

} // verus!
