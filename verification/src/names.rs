//! Names in order, and maps from names.

use vstd::prelude::*;
use vstd::string::*;
use vstd::utf8::*;

use crate::text::lemma_utf8_injective;

verus! {

/// How two names stand to each other.
#[derive(Clone, Copy, Debug, PartialEq, Eq, Structural)]
pub enum Place {
    Before,
    Same,
    Behind,
}

/// Byte strings in the order of their first difference.
pub open spec fn bytes_before(a: Seq<u8>, b: Seq<u8>) -> bool
    decreases a.len(),
{
    if b.len() == 0 {
        false
    } else if a.len() == 0 {
        true
    } else {
        a[0] < b[0] || (a[0] == b[0] && bytes_before(a.skip(1), b.skip(1)))
    }
}

/// Of two byte strings, the one that comes first is the one with the smaller byte where they first
/// differ, or the one that ends there.
pub proof fn first_difference_decides(a: Seq<u8>, b: Seq<u8>, k: int)
    requires
        0 <= k <= a.len(),
        k <= b.len(),
        forall|i: int| 0 <= i < k ==> a[i] == b[i],
    ensures
        k < a.len() && k < b.len() && a[k] != b[k] ==> bytes_before(a, b) == (a[k] < b[k]),
        k == a.len() ==> bytes_before(a, b) == (k < b.len()),
        k == b.len() ==> !bytes_before(a, b),
{
    lemma_common_prefix(a, b, k);
    if k < a.len() && k < b.len() {
        assert(a.skip(k)[0] == a[k] && b.skip(k)[0] == b[k]);
    }
}

/// Names in the order of their UTF-8 bytes.
pub open spec fn precedes(a: Seq<char>, b: Seq<char>) -> bool {
    bytes_before(encode_utf8(a), encode_utf8(b))
}

proof fn lemma_bytes_irreflexive(a: Seq<u8>)
    ensures
        !bytes_before(a, a),
    decreases a.len(),
{
    if a.len() > 0 {
        lemma_bytes_irreflexive(a.skip(1));
    }
}

proof fn lemma_bytes_transitive(a: Seq<u8>, b: Seq<u8>, c: Seq<u8>)
    requires
        bytes_before(a, b),
        bytes_before(b, c),
    ensures
        bytes_before(a, c),
    decreases a.len(),
{
    if a.len() > 0 && b.len() > 0 && c.len() > 0 && a[0] == b[0] && b[0] == c[0] {
        lemma_bytes_transitive(a.skip(1), b.skip(1), c.skip(1));
    }
}

/// Names are in a strict order.
pub proof fn lemma_precedes(a: Seq<char>, b: Seq<char>, c: Seq<char>)
    ensures
        !precedes(a, a),
        precedes(a, b) && precedes(b, c) ==> precedes(a, c),
{
    lemma_bytes_irreflexive(encode_utf8(a));
    if precedes(a, b) && precedes(b, c) {
        lemma_bytes_transitive(encode_utf8(a), encode_utf8(b), encode_utf8(c));
    }
}

proof fn lemma_common_prefix(a: Seq<u8>, b: Seq<u8>, n: int)
    requires
        0 <= n <= a.len(),
        n <= b.len(),
        forall|k: int| 0 <= k < n ==> a[k] == b[k],
    ensures
        bytes_before(a, b) == bytes_before(a.skip(n), b.skip(n)),
    decreases n,
{
    if n == 0 {
        assert(a.skip(0) =~= a);
        assert(b.skip(0) =~= b);
    } else {
        lemma_common_prefix(a.skip(1), b.skip(1), n - 1);
        assert(a.skip(1).skip(n - 1) =~= a.skip(n));
        assert(b.skip(1).skip(n - 1) =~= b.skip(n));
    }
}

/// How `a` stands to `b`.
pub fn place_of(a: &str, b: &str) -> (p: Place)
    ensures
        match p {
            Place::Before => precedes(a@, b@),
            Place::Same => a@ == b@,
            Place::Behind => precedes(b@, a@),
        },
{
    let x = a.as_bytes();
    let y = b.as_bytes();
    let mut i: usize = 0;
    while i < x.len() && i < y.len() && x[i] == y[i]
        invariant
            x@ == a.spec_bytes(),
            y@ == b.spec_bytes(),
            i <= x@.len(),
            i <= y@.len(),
            forall|k: int| 0 <= k < i ==> x@[k] == y@[k],
        decreases x@.len() - i,
    {
        i += 1;
    }
    proof {
        lemma_common_prefix(x@, y@, i as int);
        lemma_common_prefix(y@, x@, i as int);
    }
    if i < x.len() && i < y.len() {
        if x[i] < y[i] {
            Place::Before
        } else {
            Place::Behind
        }
    } else if i < y.len() {
        Place::Before
    } else if i < x.len() {
        Place::Behind
    } else {
        proof {
            assert(x@ =~= y@);
            lemma_utf8_injective(a@, b@);
        }
        Place::Same
    }
}

/// A map from names, kept in the order of the names.
#[derive(Debug, Clone)]
pub struct NameMap<V> {
    entries: Vec<(String, V)>,
}

/// The `i`th entry is that of `name`.
pub open spec fn entry_is<V>(entries: Seq<(String, V)>, name: Seq<char>, i: int) -> bool {
    0 <= i < entries.len() && entries[i].0@ == name
}

impl<V> NameMap<V> {
    pub closed spec fn entries(&self) -> Seq<(String, V)> {
        self.entries@
    }

    /// The names stand in order, each once.
    pub open spec fn wf(&self) -> bool {
        forall|i: int, j: int|
            0 <= i < j < self.entries().len() ==> precedes(
                #[trigger] self.entries()[i].0@,
                #[trigger] self.entries()[j].0@,
            )
    }

    pub open spec fn view(&self) -> Map<Seq<char>, V> {
        Map::new(
            |name: Seq<char>| exists|i: int| entry_is(self.entries(), name, i),
            |name: Seq<char>| self.entries()[choose|i: int| entry_is(self.entries(), name, i)].1,
        )
    }

    /// An entry holds what the map has under its name.
    pub proof fn lemma_entry(&self, i: int)
        requires
            self.wf(),
            0 <= i < self.entries().len(),
        ensures
            self@.dom().contains(self.entries()[i].0@),
            self@[self.entries()[i].0@] == self.entries()[i].1,
    {
        let name = self.entries()[i].0@;
        assert(entry_is(self.entries(), name, i));
        let k = choose|k: int| entry_is(self.entries(), name, k);
        lemma_precedes(name, name, name);
        assert(k == i);
    }

    pub fn new() -> (m: NameMap<V>)
        ensures
            m.wf(),
            m@ == Map::<Seq<char>, V>::empty(),
    {
        let m: NameMap<V> = NameMap { entries: Vec::new() };
        assert(m@ =~= Map::empty());
        m
    }

    pub fn len(&self) -> (n: usize)
        ensures
            n == self.entries().len(),
    {
        self.entries.len()
    }

    /// The `i`th name, in order.
    pub fn name(&self, i: usize) -> (s: &String)
        requires
            i < self.entries().len(),
        ensures
            *s == self.entries()[i as int].0,
    {
        &self.entries[i].0
    }

    /// What the map has under the `i`th name.
    pub fn value(&self, i: usize) -> (v: &V)
        requires
            i < self.entries().len(),
        ensures
            *v == self.entries()[i as int].1,
    {
        &self.entries[i].1
    }

    /// Where `name` stands, or belongs: the first entry that does not precede it, and whether it
    /// is its own.
    fn position(&self, name: &str) -> (r: (usize, bool))
        requires
            self.wf(),
        ensures
            r.0 <= self.entries().len(),
            forall|k: int| 0 <= k < r.0 ==> precedes(#[trigger] self.entries()[k].0@, name@),
            r.1 ==> r.0 < self.entries().len() && self.entries()[r.0 as int].0@ == name@,
            !r.1 ==> forall|k: int|
                r.0 <= k < self.entries().len() ==> precedes(
                    name@,
                    #[trigger] self.entries()[k].0@,
                ),
    {
        let mut i: usize = 0;
        while i < self.entries.len()
            invariant
                self.wf(),
                i <= self.entries().len(),
                forall|k: int| 0 <= k < i ==> precedes(#[trigger] self.entries()[k].0@, name@),
            decreases self.entries().len() - i,
        {
            match place_of(self.entries[i].0.as_str(), name) {
                Place::Before => {
                    i += 1;
                },
                Place::Same => {
                    return (i, true);
                },
                Place::Behind => {
                    proof {
                        assert forall|k: int| i <= k < self.entries().len() implies precedes(
                            name@,
                            #[trigger] self.entries()[k].0@,
                        ) by {
                            if k > i {
                                lemma_precedes(
                                    name@,
                                    self.entries()[i as int].0@,
                                    self.entries()[k].0@,
                                );
                            }
                        }
                    }
                    return (i, false);
                },
            }
        }
        (i, false)
    }

    proof fn lemma_absent(&self, name: Seq<char>, at: int)
        requires
            0 <= at <= self.entries().len(),
            forall|k: int| 0 <= k < at ==> precedes(#[trigger] self.entries()[k].0@, name),
            forall|k: int|
                at <= k < self.entries().len() ==> precedes(name, #[trigger] self.entries()[k].0@),
        ensures
            !self@.dom().contains(name),
    {
        lemma_precedes(name, name, name);
        if exists|i: int| entry_is(self.entries(), name, i) {
            let i = choose|i: int| entry_is(self.entries(), name, i);
            assert(self.entries()[i].0@ == name);
        }
    }

    /// What the map has under `name`.
    pub fn get(&self, name: &str) -> (r: Option<&V>)
        requires
            self.wf(),
        ensures
            match r {
                Some(v) => self@.dom().contains(name@) && self@[name@] == *v,
                None => !self@.dom().contains(name@),
            },
    {
        let (i, found) = self.position(name);
        if found {
            proof {
                self.lemma_entry(i as int);
            }
            Some(&self.entries[i].1)
        } else {
            proof {
                self.lemma_absent(name@, i as int);
            }
            None
        }
    }

    pub fn contains_key(&self, name: &str) -> (b: bool)
        requires
            self.wf(),
        ensures
            b == self@.dom().contains(name@),
    {
        self.get(name).is_some()
    }

    /// Puts `value` under `name`, in place of what was there.
    pub fn insert(&mut self, name: String, value: V)
        requires
            old(self).wf(),
        ensures
            final(self).wf(),
            final(self)@ == old(self)@.insert(name@, value),
    {
        let ghost key = name@;
        let (i, found) = self.position(name.as_str());
        let ghost was = self.entries();
        if found {
            self.entries.set(i, (name, value));
        } else {
            self.entries.insert(i, (name, value));
        }
        proof {
            let now = self.entries();
            assert forall|j: int, k: int| 0 <= j < k < now.len() implies precedes(
                #[trigger] now[j].0@,
                #[trigger] now[k].0@,
            ) by {
                if found {
                    assert(now[j].0@ == was[j].0@);
                    assert(now[k].0@ == was[k].0@);
                } else {
                    let a = if j < i {
                        j
                    } else {
                        j - 1
                    };
                    let b = if k < i {
                        k
                    } else {
                        k - 1
                    };
                    if j != i {
                        assert(now[j] == was[a]);
                    }
                    if k != i {
                        assert(now[k] == was[b]);
                    }
                }
            }
            lemma_inserted(*old(self), *self, key, value, i as int, found);
        }
    }
}

proof fn lemma_inserted<V>(
    old_map: NameMap<V>,
    new_map: NameMap<V>,
    key: Seq<char>,
    value: V,
    i: int,
    found: bool,
)
    requires
        old_map.wf(),
        new_map.wf(),
        0 <= i <= old_map.entries().len(),
        found ==> i < old_map.entries().len() && old_map.entries()[i].0@ == key,
        exists|name: String|
            name@ == key && new_map.entries() == if found {
                old_map.entries().update(i, (name, value))
            } else {
                old_map.entries().insert(i, (name, value))
            },
    ensures
        new_map@ == old_map@.insert(key, value),
{
    let was = old_map.entries();
    let now = new_map.entries();
    assert(now[i].0@ == key && now[i].1 == value);
    new_map.lemma_entry(i);
    assert forall|k: Seq<char>| #[trigger] new_map@.dom().contains(k) implies old_map@.insert(
        key,
        value,
    ).dom().contains(k) && new_map@[k] == old_map@.insert(key, value)[k] by {
        let j = choose|j: int| entry_is(now, k, j);
        new_map.lemma_entry(j);
        if k != key {
            let o = if found || j < i {
                j
            } else {
                j - 1
            };
            assert(was[o] == now[j]);
            old_map.lemma_entry(o);
        }
    }
    assert forall|k: Seq<char>|
        old_map@.insert(key, value).dom().contains(k) implies #[trigger] new_map@.dom().contains(
        k,
    ) by {
        if k != key {
            let o = choose|o: int| entry_is(was, k, o);
            assert(entry_is(was, k, o));
            let j = if found || o < i {
                o
            } else {
                o + 1
            };
            assert(now[j] == was[o]);
            new_map.lemma_entry(j);
        }
    }
    assert(new_map@ =~= old_map@.insert(key, value));
}

} // verus!
