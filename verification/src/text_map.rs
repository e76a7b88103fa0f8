//! A small map from texts to plain values.

use vstd::prelude::*;

use crate::text::str_eq;

verus! {

/// The map that a list of key-value pairs spells out.
pub open spec fn map_of<V>(entries: Seq<(String, V)>) -> Map<Seq<char>, V>
    decreases entries.len(),
{
    if entries.len() == 0 {
        Map::empty()
    } else {
        map_of(entries.drop_last()).insert(entries.last().0@, entries.last().1)
    }
}

/// No key occurs twice.
pub open spec fn distinct_keys<V>(entries: Seq<(String, V)>) -> bool {
    forall|i: int, j: int|
        0 <= i < j < entries.len() ==> (#[trigger] entries[i]).0@ != (#[trigger] entries[j]).0@
}

/// A map from texts to `V`. Entries stay in the order in which their keys were
/// first inserted.
#[derive(Debug)]
pub struct TextMap<V> {
    entries: Vec<(String, V)>,
}

impl<V> View for TextMap<V> {
    type V = Map<Seq<char>, V>;

    closed spec fn view(&self) -> Map<Seq<char>, V> {
        map_of(self.entries@)
    }
}

proof fn lemma_map_of<V>(entries: Seq<(String, V)>)
    requires
        distinct_keys(entries),
    ensures
        forall|k: Seq<char>| #[trigger]
            map_of(entries).dom().contains(k) <==> exists|i: int|
                0 <= i < entries.len() && (#[trigger] entries[i]).0@ == k,
        forall|i: int|
            0 <= i < entries.len() ==> map_of(entries)[(#[trigger] entries[i]).0@] == entries[i].1,
        map_of(entries).dom().finite(),
        map_of(entries).dom().len() == entries.len(),
    decreases entries.len(),
{
    if entries.len() > 0 {
        let d = entries.drop_last();
        assert(distinct_keys(d)) by {
            assert forall|i: int, j: int| 0 <= i < j < d.len() implies (#[trigger] d[i]).0@ != (
            #[trigger] d[j]).0@ by {
                assert(entries[i] == d[i] && entries[j] == d[j]);
            }
        }
        lemma_map_of(d);
        let last = entries.last();
        assert(entries[entries.len() - 1] == last);
        assert(!map_of(d).dom().contains(last.0@)) by {
            if map_of(d).dom().contains(last.0@) {
                let i = choose|i: int| 0 <= i < d.len() && (#[trigger] d[i]).0@ == last.0@;
                assert(entries[i] == d[i]);
            }
        }
        assert forall|k: Seq<char>| #[trigger]
            map_of(entries).dom().contains(k) <==> exists|i: int|
                0 <= i < entries.len() && (#[trigger] entries[i]).0@ == k by {
            if k == last.0@ {
                assert(entries[entries.len() - 1].0@ == k);
            } else {
                if map_of(d).dom().contains(k) {
                    let i = choose|i: int| 0 <= i < d.len() && (#[trigger] d[i]).0@ == k;
                    assert(entries[i].0@ == k);
                }
                if exists|i: int| 0 <= i < entries.len() && (#[trigger] entries[i]).0@ == k {
                    let i = choose|i: int| 0 <= i < entries.len() && (#[trigger] entries[i]).0@ == k;
                    assert(d[i].0@ == k);
                }
            }
        }
        assert forall|i: int| 0 <= i < entries.len() implies map_of(entries)[(
        #[trigger] entries[i]).0@] == entries[i].1 by {
            if i < d.len() {
                assert(d[i] == entries[i]);
            }
        }
    }
}

impl<V> TextMap<V> {
    #[verifier::type_invariant]
    closed spec fn inv(self) -> bool {
        distinct_keys(self.entries@)
    }
}

impl<V: Copy> TextMap<V> {
    /// The entries in their order.
    pub closed spec fn pairs(self) -> Seq<(Seq<char>, V)> {
        self.entries@.map_values(|e: (String, V)| (e.0@, e.1))
    }

    pub fn new() -> (r: Self)
        ensures
            r@ == Map::<Seq<char>, V>::empty(),
            r.pairs() == Seq::<(Seq<char>, V)>::empty(),
    {
        let r = TextMap { entries: Vec::new() };
        assert(r.pairs() =~= Seq::<(Seq<char>, V)>::empty());
        r
    }

    /// The number of entries. They are exactly the bindings of the map, each
    /// once.
    pub fn len(&self) -> (r: usize)
        ensures
            r == self.pairs().len(),
            r == self@.dom().len(),
            self@.dom().finite(),
            forall|i: int|
                0 <= i < self.pairs().len() ==> self@.dom().contains((#[trigger] self.pairs()[i]).0)
                    && self@[self.pairs()[i].0] == self.pairs()[i].1,
            forall|k: Seq<char>| #[trigger]
                self@.dom().contains(k) ==> exists|i: int|
                    0 <= i < self.pairs().len() && (#[trigger] self.pairs()[i]).0 == k,
    {
        proof {
            use_type_invariant(self);
            lemma_map_of(self.entries@);
            assert forall|i: int| 0 <= i < self.pairs().len() implies self@.dom().contains(
                (#[trigger] self.pairs()[i]).0,
            ) && self@[self.pairs()[i].0] == self.pairs()[i].1 by {
                assert(self.entries@[i].0@ == self.pairs()[i].0);
            }
            assert forall|k: Seq<char>| #[trigger] self@.dom().contains(k) implies exists|i: int|
                0 <= i < self.pairs().len() && (#[trigger] self.pairs()[i]).0 == k by {
                let i = choose|i: int|
                    0 <= i < self.entries@.len() && (#[trigger] self.entries@[i]).0@ == k;
                assert(self.pairs()[i].0 == k);
            }
        }
        self.entries.len()
    }

    pub fn key_at(&self, i: usize) -> (r: &str)
        requires
            i < self.pairs().len(),
        ensures
            r@ == self.pairs()[i as int].0,
    {
        self.entries[i].0.as_str()
    }

    pub fn value_at(&self, i: usize) -> (r: V)
        requires
            i < self.pairs().len(),
        ensures
            r == self.pairs()[i as int].1,
    {
        self.entries[i].1
    }

    fn position(&self, key: &str) -> (r: Option<usize>)
        ensures
            match r {
                Some(i) => i < self.entries@.len() && self.entries@[i as int].0@ == key@,
                None => forall|i: int|
                    0 <= i < self.entries@.len() ==> (#[trigger] self.entries@[i]).0@ != key@,
            },
    {
        let mut i: usize = 0;
        while i < self.entries.len()
            invariant
                i <= self.entries@.len(),
                forall|k: int| 0 <= k < i ==> (#[trigger] self.entries@[k]).0@ != key@,
            decreases self.entries@.len() - i,
        {
            if str_eq(self.entries[i].0.as_str(), key) {
                return Some(i);
            }
            i = i + 1;
        }
        None
    }

    pub fn get(&self, key: &str) -> (r: Option<V>)
        ensures
            r == (if self@.dom().contains(key@) {
                Some(self@[key@])
            } else {
                None
            }),
    {
        proof {
            use_type_invariant(self);
            lemma_map_of(self.entries@);
        }
        match self.position(key) {
            Some(i) => Some(self.entries[i].1),
            None => None,
        }
    }

    /// Binds `key` to `value`, in place of what it was bound to.
    pub fn insert(&mut self, key: &str, value: V)
        ensures
            final(self)@ == old(self)@.insert(key@, value),
    {
        proof {
            use_type_invariant(&*self);
            lemma_map_of(self.entries@);
        }
        let ghost before = self.entries@;
        let found = self.position(key);
        let mut entries: Vec<(String, V)> = Vec::new();
        std::mem::swap(&mut entries, &mut self.entries);
        match found {
            Some(p) => {
                entries.set(p, (key.to_owned(), value));
            },
            None => {
                entries.push((key.to_owned(), value));
            },
        }
        proof {
            let after = entries@;
            assert(distinct_keys(after)) by {
                assert forall|i: int, j: int| 0 <= i < j < after.len() implies (#[trigger] after[i]).0@
                    != (#[trigger] after[j]).0@ by {
                    if i < before.len() && j < before.len() {
                        assert(before[i].0@ == after[i].0@ && before[j].0@ == after[j].0@);
                    } else {
                        assert(before[i].0@ != key@);
                    }
                }
            }
            lemma_map_of(after);
            let want = map_of(before).insert(key@, value);
            let slot: int = match found {
                Some(p) => p as int,
                None => before.len() as int,
            };
            assert forall|k: Seq<char>| #[trigger]
                map_of(after).dom().contains(k) <==> want.dom().contains(k) by {
                if map_of(after).dom().contains(k) {
                    let i = choose|i: int| 0 <= i < after.len() && (#[trigger] after[i]).0@ == k;
                    if i != slot {
                        assert(before[i].0@ == k);
                    }
                }
                if want.dom().contains(k) {
                    if k == key@ {
                        assert(after[slot].0@ == k);
                    } else {
                        let i = choose|i: int| 0 <= i < before.len() && (#[trigger] before[i]).0@ == k;
                        assert(after[i].0@ == k);
                    }
                }
            }
            assert forall|k: Seq<char>| #[trigger]
                map_of(after).dom().contains(k) implies map_of(after)[k] == want[k] by {
                let i = choose|i: int| 0 <= i < after.len() && (#[trigger] after[i]).0@ == k;
                if i != slot {
                    assert(before[i].0@ == k);
                }
            }
            assert(map_of(after) =~= want);
        }
        self.entries = entries;
    }
}

impl<V: Copy> Clone for TextMap<V> {
    fn clone(&self) -> (r: Self)
        ensures
            r@ == self@,
            r.pairs() == self.pairs(),
    {
        proof {
            use_type_invariant(self);
        }
        let mut entries: Vec<(String, V)> = Vec::new();
        let mut i: usize = 0;
        while i < self.entries.len()
            invariant
                i <= self.entries@.len(),
                entries@.len() == i,
                forall|k: int|
                    0 <= k < i ==> (#[trigger] entries@[k]).0@ == self.entries@[k].0@
                        && entries@[k].1 == self.entries@[k].1,
            decreases self.entries@.len() - i,
        {
            entries.push((self.entries[i].0.clone(), self.entries[i].1));
            i = i + 1;
        }
        proof {
            assert forall|a: int, b: int| 0 <= a < b < entries@.len() implies (
            #[trigger] entries@[a]).0@ != (#[trigger] entries@[b]).0@ by {
                assert(self.entries@[a].0@ != self.entries@[b].0@);
            }
            lemma_map_of(entries@);
            lemma_map_of(self.entries@);
            let a = map_of(entries@);
            let b = map_of(self.entries@);
            assert forall|k: Seq<char>| #[trigger] a.dom().contains(k) <==> b.dom().contains(k) by {
                if a.dom().contains(k) {
                    let m = choose|m: int| 0 <= m < entries@.len() && (#[trigger] entries@[m]).0@ == k;
                    assert(self.entries@[m].0@ == k);
                }
                if b.dom().contains(k) {
                    let m = choose|m: int|
                        0 <= m < self.entries@.len() && (#[trigger] self.entries@[m]).0@ == k;
                    assert(entries@[m].0@ == k);
                }
            }
            assert forall|k: Seq<char>| #[trigger] a.dom().contains(k) implies a[k] == b[k] by {
                let m = choose|m: int| 0 <= m < entries@.len() && (#[trigger] entries@[m]).0@ == k;
                assert(self.entries@[m].0@ == k);
            }
            assert(a =~= b);
        }
        let r = TextMap { entries };
        assert(r.pairs() =~= self.pairs());
        r
    }
}

/// Whether two byte-valued maps bind the same keys to the same values.
pub fn same_map(a: &TextMap<u8>, b: &TextMap<u8>) -> (r: bool)
    ensures
        r == (a@ == b@),
{
    let n: usize = a.len();
    if n != b.len() {
        return false;
    }
    let mut i: usize = 0;
    while i < n
        invariant
            i <= n,
            n == a.pairs().len(),
            a.pairs().len() == b.pairs().len(),
            forall|k: int|
                0 <= k < a.pairs().len() ==> a@.dom().contains((#[trigger] a.pairs()[k]).0)
                    && a@[a.pairs()[k].0] == a.pairs()[k].1,
            forall|k: int|
                0 <= k < i ==> b@.dom().contains((#[trigger] a.pairs()[k]).0)
                    && b@[a.pairs()[k].0] == a.pairs()[k].1,
        decreases a.pairs().len() - i,
    {
        let ghost pair = a.pairs()[i as int];
        assert(a@.dom().contains(pair.0) && a@[pair.0] == pair.1);
        match b.get(a.key_at(i)) {
            None => {
                return false;
            },
            Some(v) => {
                if v != a.value_at(i) {
                    return false;
                }
            },
        }
        i = i + 1;
    }
    proof {
        assert(a@.dom().subset_of(b@.dom())) by {
            assert forall|k: Seq<char>| #[trigger] a@.dom().contains(k) implies b@.dom().contains(
                k,
            ) by {
                let i = choose|i: int| 0 <= i < a.pairs().len() && (#[trigger] a.pairs()[i]).0 == k;
            }
        }
        vstd::set_lib::lemma_subset_equality(a@.dom(), b@.dom());
        assert forall|k: Seq<char>| #[trigger] a@.dom().contains(k) implies a@[k] == b@[k] by {
            let i = choose|i: int| 0 <= i < a.pairs().len() && (#[trigger] a.pairs()[i]).0 == k;
        }
        assert(a@ =~= b@);
    }
    true
}

} // verus!
