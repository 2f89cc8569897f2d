//! A table from texts to values, kept in the order of the texts.

use vstd::prelude::*;

use crate::text::chars::{owned, same};
use crate::text::order::{
    le, lemma_le_antisymmetric, lemma_le_total, lemma_lt_transitive, strictly_sorted, text_le,
    text_lt,
};

verus! {

/// A map from texts to values.
pub struct Table<V> {
    entries: Vec<(String, V)>,
}

/// The texts of the entries.
spec fn names<V>(s: Seq<(String, V)>) -> Seq<Seq<char>> {
    Seq::new(s.len(), |i: int| s[i].0@)
}

/// The map that the entries stand for.
spec fn mapped<V>(s: Seq<(String, V)>) -> Map<Seq<char>, V> {
    Map::new(|k: Seq<char>| names(s).contains(k), |k: Seq<char>| s[names(s).index_of(k)].1)
}

proof fn lemma_sorted_index(s: Seq<Seq<char>>, i: int)
    requires
        strictly_sorted(s),
        0 <= i < s.len(),
    ensures
        s.contains(s[i]),
        s.index_of(s[i]) == i,
{
    let k = s.index_of(s[i]);
    assert(s[i] == s[i]);
    assert(0 <= k < s.len() && s[k] == s[i]);
    if k < i {
        assert(text_lt(s[k], s[i]));
    } else if i < k {
        assert(text_lt(s[i], s[k]));
    }
}

/// An entry is what the map holds at its name.
proof fn lemma_mapped<V>(s: Seq<(String, V)>, i: int)
    requires
        strictly_sorted(names(s)),
        0 <= i < s.len(),
    ensures
        mapped(s).contains_key(s[i].0@),
        mapped(s)[s[i].0@] == s[i].1,
{
    lemma_sorted_index(names(s), i);
    assert(names(s)[i] == s[i].0@);
}

/// What is not at its place is not there.
proof fn lemma_absent<V>(s: Seq<(String, V)>, key: Seq<char>, k: int)
    requires
        strictly_sorted(names(s)),
        0 <= k <= s.len(),
        forall|i: int| 0 <= i < k ==> text_lt(#[trigger] names(s)[i], key),
        forall|i: int| k <= i < s.len() ==> text_le(key, #[trigger] names(s)[i]),
        k < s.len() ==> s[k].0@ != key,
    ensures
        !names(s).contains(key),
{
    let ns = names(s);
    if ns.contains(key) {
        let i = choose|i: int| 0 <= i < ns.len() && ns[i] == key;
        if i < k {
            assert(text_lt(ns[i], key));
        } else if i > k {
            assert(text_lt(ns[k], ns[i]));
            assert(text_le(key, ns[k]));
            lemma_le_antisymmetric(key, ns[k]);
        } else {
            assert(ns[i] == s[k].0@);
        }
    }
}

impl<V> View for Table<V> {
    type V = Map<Seq<char>, V>;

    closed spec fn view(&self) -> Map<Seq<char>, V> {
        mapped(self.entries@)
    }
}

impl<V> Table<V> {
    #[verifier::type_invariant]
    spec fn wf(self) -> bool {
        strictly_sorted(names(self.entries@))
    }

    /// A table without entries.
    pub fn new() -> (r: Table<V>)
        ensures
            r@ == Map::<Seq<char>, V>::empty(),
    {
        let r: Table<V> = Table { entries: Vec::new() };
        assert(r@ == Map::<Seq<char>, V>::empty());
        r
    }

    /// How many entries come before `key`.
    fn place(&self, key: &str) -> (k: usize)
        ensures
            k <= self.entries@.len(),
            forall|i: int| 0 <= i < k ==> text_lt(#[trigger] names(self.entries@)[i], key@),
            forall|i: int|
                k <= i < self.entries@.len() ==> text_le(key@, #[trigger] names(self.entries@)[i]),
    {
        proof {
            use_type_invariant(self);
        }
        let mut k: usize = 0;
        while k < self.entries.len()
            invariant
                k <= self.entries@.len(),
                strictly_sorted(names(self.entries@)),
                forall|i: int| 0 <= i < k ==> text_lt(#[trigger] names(self.entries@)[i], key@),
            decreases self.entries@.len() - k,
        {
            let ghost ns = names(self.entries@);
            assert(ns[k as int] == self.entries@[k as int].0@);
            if le(key, &self.entries[k].0) {
                assert forall|i: int| k <= i < ns.len() implies text_le(key@, #[trigger] ns[i]) by {
                    if i > k {
                        assert(text_lt(ns[k as int], ns[i]));
                        crate::text::order::lemma_le_transitive(key@, ns[k as int], ns[i]);
                    }
                }
                return k;
            }
            proof {
                lemma_le_total(key@, ns[k as int]);
                if key@ == ns[k as int] {
                    crate::text::order::lemma_le_reflexive(key@);
                }
            }
            k = k + 1;
        }
        k
    }

    /// What the table holds at `key`.
    pub fn get(&self, key: &str) -> (r: Option<&V>)
        ensures
            match r {
                Some(v) => self@.contains_key(key@) && self@[key@] == *v,
                None => !self@.contains_key(key@),
            },
    {
        let k: usize = self.place(key);
        proof {
            use_type_invariant(self);
        }
        if k < self.entries.len() && same(&self.entries[k].0, key) {
            proof {
                lemma_mapped(self.entries@, k as int);
            }
            Some(&self.entries[k].1)
        } else {
            proof {
                lemma_absent(self.entries@, key@, k as int);
            }
            None
        }
    }

    /// Whether the table holds something at `key`.
    pub fn contains(&self, key: &str) -> (r: bool)
        ensures
            r == self@.contains_key(key@),
    {
        self.get(key).is_some()
    }

    /// Puts `value` at `key`, in place of what was there.
    pub fn insert(&mut self, key: &str, value: V)
        ensures
            final(self)@ == old(self)@.insert(key@, value),
    {
        let k: usize = self.place(key);
        proof {
            use_type_invariant(&*self);
        }
        let ghost before = self.entries@;
        let ghost ns = names(before);
        let mut entries: Vec<(String, V)> = Vec::new();
        std::mem::swap(&mut entries, &mut self.entries);
        let n: usize = entries.len();
        let hit: bool = k < n && same(&entries[k].0, key);
        if hit {
            entries.remove(k);
        }
        entries.insert(k, (owned(key), value));
        let ghost after = entries@;
        let ghost ms = names(after);
        proof {
            let shift: int = if hit {
                0
            } else {
                1
            };
            assert(ms[k as int] == key@);
            assert forall|i: int| 0 <= i < k implies after[i] == before[i] && ms[i] == ns[i] by {}
            assert forall|i: int| k < i < ms.len() implies after[i] == before[i - shift] && ms[i]
                == ns[i - shift] by {}
            assert forall|i: int| k < i < ms.len() implies text_lt(key@, #[trigger] ms[i]) by {
                assert(ms[i] == ns[i - shift]);
                if hit {
                    assert(text_lt(ns[k as int], ns[i]));
                    assert(ns[k as int] == before[k as int].0@);
                } else {
                    assert(text_le(key@, ns[i - 1]));
                    if ns[i - 1] == key@ {
                        if i - 1 > k {
                            assert(text_lt(ns[k as int], ns[i - 1]));
                            assert(text_le(key@, ns[k as int]));
                            lemma_le_antisymmetric(key@, ns[k as int]);
                        }
                        assert(ns[k as int] == before[k as int].0@);
                    }
                }
            }
            assert forall|i: int, j: int| 0 <= i < j < ms.len() implies text_lt(
                #[trigger] ms[i],
                #[trigger] ms[j],
            ) by {
                if i < k && j < k {
                    assert(text_lt(ns[i], ns[j]));
                } else if i < k && j == k {
                    assert(text_lt(ns[i], key@));
                } else if i < k {
                    assert(text_lt(ns[i], key@));
                    assert(text_lt(key@, ms[j]));
                    lemma_lt_transitive(ns[i], key@, ms[j]);
                } else if i > k {
                    assert(text_lt(ns[i - shift], ns[j - shift]));
                }
            }
        }
        self.entries = entries;
        proof {
            let old_map = mapped(before);
            let new_map = mapped(after);
            lemma_mapped(after, k as int);
            let shift: int = if hit {
                0
            } else {
                1
            };
            assert forall|x: Seq<char>| #[trigger]
                new_map.contains_key(x) == old_map.insert(key@, value).contains_key(x) && (
            new_map.contains_key(x) ==> new_map[x] == old_map.insert(key@, value)[x]) by {
                if new_map.contains_key(x) && x != key@ {
                    let i = choose|i: int| 0 <= i < ms.len() && ms[i] == x;
                    let j = if i < k {
                        i
                    } else {
                        i - shift
                    };
                    assert(ns[j] == ms[i]);
                    assert(after[i] == before[j]);
                    lemma_mapped(after, i);
                    lemma_mapped(before, j);
                }
                if old_map.contains_key(x) && x != key@ {
                    let j = choose|j: int| 0 <= j < ns.len() && ns[j] == x;
                    if hit && j == k {
                        assert(ns[j] == before[j].0@);
                    }
                    let i = if j < k {
                        j
                    } else {
                        j + shift
                    };
                    assert(ms[i] == x);
                }
            }
            assert(new_map == old_map.insert(key@, value));
        }
    }

    /// Takes out what is at `key`, and says whether there was something.
    pub fn remove(&mut self, key: &str) -> (r: bool)
        ensures
            r == old(self)@.contains_key(key@),
            final(self)@ == old(self)@.remove(key@),
    {
        let k: usize = self.place(key);
        proof {
            use_type_invariant(&*self);
        }
        let ghost before = self.entries@;
        let ghost ns = names(before);
        if k < self.entries.len() && same(&self.entries[k].0, key) {
            let mut entries: Vec<(String, V)> = Vec::new();
            std::mem::swap(&mut entries, &mut self.entries);
            entries.remove(k);
            let ghost after = entries@;
            let ghost ms = names(after);
            proof {
                assert(ns[k as int] == before[k as int].0@);
                lemma_mapped(before, k as int);
                assert forall|i: int, j: int| 0 <= i < j < ms.len() implies text_lt(
                    #[trigger] ms[i],
                    #[trigger] ms[j],
                ) by {
                    let a = if i < k {
                        i
                    } else {
                        i + 1
                    };
                    let b = if j < k {
                        j
                    } else {
                        j + 1
                    };
                    assert(ms[i] == ns[a] && ms[j] == ns[b]);
                    assert(text_lt(ns[a], ns[b]));
                }
            }
            self.entries = entries;
            proof {
                let old_map = mapped(before);
                let new_map = mapped(after);
                assert forall|x: Seq<char>| #[trigger]
                    new_map.contains_key(x) == old_map.remove(key@).contains_key(x) && (
                new_map.contains_key(x) ==> new_map[x] == old_map[x]) by {
                    if new_map.contains_key(x) {
                        let i = choose|i: int| 0 <= i < ms.len() && ms[i] == x;
                        let j = if i < k {
                            i
                        } else {
                            i + 1
                        };
                        assert(ns[j] == ms[i]);
                        assert(after[i] == before[j]);
                        lemma_mapped(after, i);
                        lemma_mapped(before, j);
                        if j < k {
                            assert(text_lt(ns[j], ns[k as int]));
                        } else {
                            assert(text_lt(ns[k as int], ns[j]));
                        }
                    }
                    if old_map.contains_key(x) && x != key@ {
                        let j = choose|j: int| 0 <= j < ns.len() && ns[j] == x;
                        let i = if j < k {
                            j
                        } else {
                            j - 1
                        };
                        assert(ms[i] == x);
                    }
                }
                assert(new_map =~= old_map.remove(key@));
            }
            true
        } else {
            proof {
                lemma_absent(before, key@, k as int);
                assert(mapped(before).remove(key@) =~= mapped(before));
            }
            false
        }
    }

    /// How many entries there are.
    pub fn len(&self) -> (r: usize)
        ensures
            r == self@.dom().len(),
            self@.dom().finite(),
    {
        proof {
            use_type_invariant(self);
            let ns = names(self.entries@);
            assert forall|i: int, j: int| 0 <= i < ns.len() && 0 <= j < ns.len() && i
                != j implies ns[i] != ns[j] by {
                if i < j {
                    assert(text_lt(ns[i], ns[j]));
                } else {
                    assert(text_lt(ns[j], ns[i]));
                }
            }
            ns.unique_seq_to_set();
            assert(self@.dom() =~= ns.to_set());
        }
        self.entries.len()
    }

    /// The texts at which the table holds something, in their order.
    pub fn keys(&self) -> (r: Vec<String>)
        ensures
            strictly_sorted(r.deep_view()),
            forall|k: Seq<char>| #[trigger] r.deep_view().contains(k) == self@.contains_key(k),
    {
        proof {
            use_type_invariant(self);
        }
        let mut out: Vec<String> = Vec::new();
        let mut i: usize = 0;
        while i < self.entries.len()
            invariant
                i <= self.entries@.len(),
                out.deep_view() == names(self.entries@).take(i as int),
            decreases self.entries@.len() - i,
        {
            let k: String = owned(&self.entries[i].0);
            let ghost before = out.deep_view();
            out.push(k);
            i = i + 1;
            proof {
                assert(out.deep_view() == before.push(k@));
                assert(names(self.entries@).take(i as int) == before.push(k@));
            }
        }
        assert(names(self.entries@).take(i as int) == names(self.entries@));
        out
    }
}

} // verus!
