//! A map from names to values that keeps its names in order.

use vstd::prelude::*;
use vstd::utf8::{encode_utf8, encode_utf8_decode_utf8};

verus! {

/// Whether two byte sequences agree on their first `n` bytes.
pub open spec fn agree(a: Seq<u8>, b: Seq<u8>, n: int) -> bool {
    &&& 0 <= n <= a.len()
    &&& n <= b.len()
    &&& forall|j: int| 0 <= j < n ==> a[j] == b[j]
}

/// Whether `n` is where `a` and `b` part, with `a` the smaller one.
pub open spec fn parts_below(a: Seq<u8>, b: Seq<u8>, n: int) -> bool {
    &&& agree(a, b, n)
    &&& n < b.len()
    &&& n == a.len() || a[n] < b[n]
}

/// The lexicographic order of byte sequences.
pub open spec fn bytes_before(a: Seq<u8>, b: Seq<u8>) -> bool {
    exists|n: int| parts_below(a, b, n)
}

/// The order of names: that of the bytes that encode them.
pub open spec fn name_before(a: Seq<char>, b: Seq<char>) -> bool {
    bytes_before(encode_utf8(a), encode_utf8(b))
}

/// Whether names stand in strictly increasing order.
pub open spec fn in_order(names: Seq<Seq<char>>) -> bool {
    forall|i: int, j: int| 0 <= i < j < names.len() ==> name_before(#[trigger] names[i], #[trigger] names[j])
}

/// The order of names is transitive.
pub proof fn lemma_name_before_transitive(a: Seq<char>, b: Seq<char>, c: Seq<char>)
    requires
        name_before(a, b),
        name_before(b, c),
    ensures
        name_before(a, c),
{
    let (x, y, z) = (encode_utf8(a), encode_utf8(b), encode_utf8(c));
    let m = choose|n: int| parts_below(x, y, n);
    let n = choose|n: int| parts_below(y, z, n);
    assert(parts_below(x, z, if m < n { m } else { n }));
}

/// No name comes before itself, nor do two names come before each other.
pub proof fn lemma_name_before_irreflexive(a: Seq<char>, b: Seq<char>)
    requires
        name_before(a, b),
    ensures
        a != b,
        !name_before(b, a),
{
    let (x, y) = (encode_utf8(a), encode_utf8(b));
    let m = choose|n: int| parts_below(x, y, n);
    assert forall|n: int| !parts_below(y, x, n) by {
        if parts_below(y, x, n) {
            if m < n {
                assert(y[m] == x[m]);
            }
            if n < m {
                assert(y[n] == x[n]);
            }
        }
    }
    assert(!name_before(b, a));
}

/// Two lists of names in order that hold the same names are the same list.
pub proof fn lemma_in_order_unique(a: Seq<Seq<char>>, b: Seq<Seq<char>>)
    requires
        in_order(a),
        in_order(b),
        forall|x: Seq<char>| a.contains(x) <==> b.contains(x),
    ensures
        a == b,
    decreases a.len(),
{
    if a.len() == 0 {
        if b.len() > 0 {
            assert(b.contains(b[0]));
        }
        assert(a == b);
    } else {
        assert(a.contains(a.last()));
        let i = choose|i: int| 0 <= i < b.len() && b[i] == a.last();
        assert(b.contains(b.last()));
        let k = choose|k: int| 0 <= k < a.len() && a[k] == b.last();
        if i < b.len() - 1 {
            assert(name_before(b[i], b[b.len() - 1]));
            if k < a.len() - 1 {
                assert(name_before(a[k], a[a.len() - 1]));
            }
            lemma_name_before_irreflexive(a.last(), b.last());
        }
        assert(a.last() == b.last());
        let (c, d) = (a.drop_last(), b.drop_last());
        assert forall|x: Seq<char>| c.contains(x) <==> d.contains(x) by {
            if c.contains(x) {
                let p = choose|p: int| 0 <= p < c.len() && c[p] == x;
                assert(name_before(a[p], a[a.len() - 1]));
                lemma_name_before_irreflexive(x, a.last());
                assert(a.contains(x));
                let q = choose|q: int| 0 <= q < b.len() && b[q] == x;
                assert(d[q] == x);
            }
            if d.contains(x) {
                let p = choose|p: int| 0 <= p < d.len() && d[p] == x;
                assert(name_before(b[p], b[b.len() - 1]));
                lemma_name_before_irreflexive(x, b.last());
                assert(b.contains(x));
                let q = choose|q: int| 0 <= q < a.len() && a[q] == x;
                assert(c[q] == x);
            }
        }
        lemma_in_order_unique(c, d);
        assert(a == c.push(a.last()));
        assert(b == d.push(b.last()));
    }
}

/// How one name stands to another.
#[derive(PartialEq, Eq, Structural, Clone, Copy, Debug)]
pub enum Relation {
    Before,
    Same,
    After,
}

/// Says how one name stands to another in the order of names.
pub fn relate(a: &str, b: &str) -> (relation: Relation)
    ensures
        relation is Before <==> name_before(a@, b@),
        relation is Same <==> a@ == b@,
        relation is After <==> name_before(b@, a@),
{
    let x = a.as_bytes();
    let y = b.as_bytes();
    let mut i: usize = 0;
    while i < x.len() && i < y.len() && x[i] == y[i]
        invariant
            agree(x@, y@, i as int),
        decreases x.len() - i,
    {
        i = i + 1;
    }
    assert(agree(y@, x@, i as int));
    proof {
        encode_utf8_decode_utf8(a@);
        encode_utf8_decode_utf8(b@);
    }
    if i == x.len() && i == y.len() {
        proof {
            assert(x@ == y@);
            if name_before(a@, b@) {
                lemma_name_before_irreflexive(a@, b@);
            }
        }
        Relation::Same
    } else if i == x.len() || (i < y.len() && x[i] < y[i]) {
        proof {
            assert(parts_below(x@, y@, i as int));
            lemma_name_before_irreflexive(a@, b@);
        }
        Relation::Before
    } else {
        proof {
            assert(parts_below(y@, x@, i as int));
            lemma_name_before_irreflexive(b@, a@);
        }
        Relation::After
    }
}

/// A map whose names stand in order, each once.
pub struct OrderedMap<V> {
    entries: Vec<(String, V)>,
}

/// Where `name` stands among `names`.
pub open spec fn place_of(names: Seq<Seq<char>>, name: Seq<char>) -> int {
    choose|i: int| 0 <= i < names.len() && names[i] == name
}

impl<V> OrderedMap<V> {
    /// The names, in order.
    pub closed spec fn names(self) -> Seq<Seq<char>> {
        self.entries@.map_values(|e: (String, V)| e.0@)
    }

    /// The values, in the order of their names.
    pub closed spec fn values(self) -> Seq<V> {
        self.entries@.map_values(|e: (String, V)| e.1)
    }

    /// The names stand in strictly increasing order.
    pub open spec fn wf(self) -> bool {
        in_order(self.names())
    }
}

impl<V> View for OrderedMap<V> {
    type V = Map<Seq<char>, V>;

    closed spec fn view(&self) -> Map<Seq<char>, V> {
        Map::new(
            |name: Seq<char>| self.names().contains(name),
            |name: Seq<char>| self.values()[place_of(self.names(), name)],
        )
    }
}

impl<V> OrderedMap<V> {
    /// The names of a map are those it has a value for, and the value that
    /// stands beside a name is that of the name.
    pub proof fn lemma_names(self)
        requires
            self.wf(),
        ensures
            self.values().len() == self.names().len(),
            forall|name: Seq<char>| #[trigger] self@.contains_key(name) <==> self.names().contains(name),
            forall|i: int|
                0 <= i < self.names().len() ==> self@.contains_key(#[trigger] self.names()[i])
                    && self@[self.names()[i]] == self.values()[i],
            forall|i: int, j: int|
                0 <= i < self.names().len() && 0 <= j < self.names().len() && self.names()[i]
                    == self.names()[j] ==> i == j,
            self.names().no_duplicates(),
            self.names().to_set() == self@.dom(),
    {
        let names = self.names();
        assert forall|i: int, j: int|
            0 <= i < names.len() && 0 <= j < names.len() && names[i] == names[j] implies i == j by {
            if i < j {
                lemma_name_before_irreflexive(names[i], names[j]);
            }
            if j < i {
                lemma_name_before_irreflexive(names[j], names[i]);
            }
        }
        assert forall|i: int| 0 <= i < names.len() implies self@.contains_key(#[trigger] names[i])
            && self@[names[i]] == self.values()[i] by {
            assert(names.contains(names[i]));
            assert(place_of(names, names[i]) == i);
        }
        assert(names.to_set() =~= self@.dom());
    }

    /// Changing the value at a place changes the value of the name there.
    proof fn lemma_replaced(before: Self, after: Self, place: int)
        requires
            before.wf(),
            0 <= place < before.entries@.len(),
            after.entries@.len() == before.entries@.len(),
            after.entries@[place].0@ == before.entries@[place].0@,
            forall|j: int| 0 <= j < before.entries@.len() && j != place ==> after.entries@[j] == before.entries@[j],
        ensures
            after.wf(),
            after@ == before@.insert(before.entries@[place].0@, after.entries@[place].1),
    {
        let name = before.entries@[place].0@;
        let value = after.entries@[place].1;
        before.lemma_names();
        assert(after.names() =~= before.names());
        assert(before.names()[place] == name);
        after.lemma_names();
        assert forall|other: Seq<char>| #[trigger] after@.contains_key(other) implies after@[other]
            == before@.insert(name, value)[other] by {
            let j = place_of(after.names(), other);
            assert(after.names()[j] == other);
            assert(before.names()[j] == other);
        }
        assert(after@ =~= before@.insert(name, value));
    }

    /// An empty map.
    pub fn new() -> (map: Self)
        ensures
            map.wf(),
            map@ == Map::<Seq<char>, V>::empty(),
            map.names() == Seq::<Seq<char>>::empty(),
    {
        let map = OrderedMap { entries: Vec::new() };
        assert(map.names() == Seq::<Seq<char>>::empty());
        assert(map@ =~= Map::<Seq<char>, V>::empty());
        map
    }

    /// How many names the map has.
    pub fn len(&self) -> (n: usize)
        requires
            self.wf(),
        ensures
            n == self.names().len(),
            self@.dom().finite(),
            n == self@.dom().len(),
    {
        proof {
            self.lemma_names();
            self.names().unique_seq_to_set();
        }
        self.entries.len()
    }

    /// The place of a name, or the place where it would stand.
    fn place(&self, name: &str) -> (place: Result<usize, usize>)
        requires
            self.wf(),
        ensures
            match place {
                Ok(i) => i < self.entries@.len() && self.entries@[i as int].0@ == name@,
                Err(i) => {
                    &&& i <= self.entries@.len()
                    &&& !self.names().contains(name@)
                    &&& forall|j: int| 0 <= j < i ==> name_before(#[trigger] self.names()[j], name@)
                    &&& forall|j: int| i <= j < self.names().len() ==> name_before(name@, #[trigger] self.names()[j])
                },
            },
    {
        let mut low: usize = 0;
        let mut high: usize = self.entries.len();
        let ghost names = self.names();
        while low < high
            invariant
                self.wf(),
                names == self.names(),
                names.len() == self.entries@.len(),
                low <= high <= names.len(),
                forall|j: int| 0 <= j < low ==> name_before(#[trigger] names[j], name@),
                forall|j: int| high <= j < names.len() ==> name_before(name@, #[trigger] names[j]),
            decreases high - low,
        {
            let middle: usize = low + (high - low) / 2;
            assert(names[middle as int] == self.entries@[middle as int].0@);
            match relate(self.entries[middle].0.as_str(), name) {
                Relation::Same => {
                    return Ok(middle);
                },
                Relation::Before => {
                    assert forall|j: int| 0 <= j < middle + 1 implies name_before(#[trigger] names[j], name@) by {
                        if low <= j < middle {
                            lemma_name_before_transitive(names[j], names[middle as int], name@);
                        }
                    }
                    low = middle + 1;
                },
                Relation::After => {
                    assert forall|j: int| middle <= j < names.len() implies name_before(name@, #[trigger] names[j]) by {
                        if middle < j < high {
                            lemma_name_before_transitive(name@, names[middle as int], names[j]);
                        }
                    }
                    high = middle;
                },
            }
        }
        proof {
            if names.contains(name@) {
                let j = choose|j: int| 0 <= j < names.len() && names[j] == name@;
                lemma_name_before_irreflexive(name@, name@);
            }
        }
        Err(low)
    }

    /// The value of a name.
    pub fn get(&self, name: &str) -> (value: Option<&V>)
        requires
            self.wf(),
        ensures
            match value {
                Some(v) => self@.contains_key(name@) && *v == self@[name@],
                None => !self@.contains_key(name@),
            },
    {
        proof {
            self.lemma_names();
        }
        match self.place(name) {
            Ok(i) => {
                assert(self.names()[i as int] == name@);
                Some(&self.entries[i].1)
            },
            Err(_) => None,
        }
    }

    /// Gives a name a value in place of the one it had.
    pub fn insert(&mut self, name: String, value: V) -> (previous: Option<V>)
        requires
            old(self).wf(),
        ensures
            final(self).wf(),
            final(self)@ == old(self)@.insert(name@, value),
            match previous {
                Some(v) => old(self)@.contains_key(name@) && v == old(self)@[name@],
                None => !old(self)@.contains_key(name@),
            },
    {
        let ghost before = *self;
        proof {
            before.lemma_names();
        }
        let place = self.place(name.as_str());
        let ghost read = name@;
        match place {
            Ok(i) => {
                let mut held = value;
                assert(before.names()[i as int] == read);
                std::mem::swap(&mut self.entries[i].1, &mut held);
                proof {
                    Self::lemma_replaced(before, *self, i as int);
                }
                Some(held)
            },
            Err(i) => {
                self.entries.insert(i, (name, value));
                proof {
                    let old_names = before.names();
                    let names = self.names();
                    assert(names =~= old_names.insert(i as int, read));
                    assert(self.values() =~= before.values().insert(i as int, value));
                    assert(in_order(names));
                    self.lemma_names();
                    assert forall|other: Seq<char>|
                        #[trigger] self@.contains_key(other) <==> before@.insert(read, value).contains_key(other) by {
                        if self@.contains_key(other) {
                            let j = place_of(names, other);
                            assert(names[j] == other);
                            if j < i {
                                assert(old_names[j] == other);
                            } else if j > i {
                                assert(old_names[j - 1] == other);
                            }
                        }
                        if before@.contains_key(other) {
                            let j = place_of(old_names, other);
                            assert(old_names[j] == other);
                            if j < i {
                                assert(names[j] == other);
                            } else {
                                assert(names[j + 1] == other);
                            }
                        }
                        assert(names[i as int] == read);
                    }
                    assert forall|other: Seq<char>| #[trigger] self@.contains_key(other) implies self@[other]
                        == before@.insert(read, value)[other] by {
                        let j = place_of(names, other);
                        assert(names[j] == other);
                        if j < i {
                            assert(old_names[j] == other);
                        } else if j > i {
                            assert(old_names[j - 1] == other);
                        }
                    }
                    assert(self@ =~= before@.insert(read, value));
                }
                None
            },
        }
    }

    /// The value of a name that has one, to be changed in place.
    pub fn get_mut(&mut self, name: &str) -> (value: Option<&mut V>)
        requires
            old(self).wf(),
        ensures
            match value {
                Some(v) => {
                    &&& old(self)@.contains_key(name@)
                    &&& *v == old(self)@[name@]
                    &&& final(self).wf()
                    &&& final(self)@ == old(self)@.insert(name@, *final(v))
                },
                None => !old(self)@.contains_key(name@) && *final(self) == *old(self),
            },
    {
        proof {
            self.lemma_names();
        }
        match self.place(name) {
            Ok(i) => {
                assert(self.names()[i as int] == name@);
                proof {
                    let before = *self;
                    assert forall|after: Self|
                        {
                            &&& after.entries@.len() == before.entries@.len()
                            &&& after.entries@[i as int].0 == before.entries@[i as int].0
                            &&& forall|j: int|
                                0 <= j < before.entries@.len() && j != i ==> after.entries@[j] == before.entries@[j]
                        } implies #[trigger] after.wf() && after@ == before@.insert(
                        name@,
                        after.entries@[i as int].1,
                    ) by {
                        Self::lemma_replaced(before, after, i as int);
                    }
                }
                Some(&mut self.entries[i].1)
            },
            Err(_) => None,
        }
    }

    /// The name and the value at a place in the order of names.
    pub fn at(&self, place: usize) -> (entry: (&String, &V))
        requires
            self.wf(),
            place < self.names().len(),
        ensures
            entry.0@ == self.names()[place as int],
            self@.contains_key(entry.0@),
            *entry.1 == self@[entry.0@],
    {
        proof {
            self.lemma_names();
        }
        assert(self.names()[place as int] == self.entries@[place as int].0@);
        (&self.entries[place].0, &self.entries[place].1)
    }

    /// Forgets every name.
    pub fn clear(&mut self)
        ensures
            final(self).wf(),
            final(self)@ == Map::<Seq<char>, V>::empty(),
            final(self).names() == Seq::<Seq<char>>::empty(),
    {
        self.entries.clear();
        assert(self.names() == Seq::<Seq<char>>::empty());
        assert(self@ =~= Map::<Seq<char>, V>::empty());
    }
}

/// The first byte in which two names differ decides which comes first, and a
/// name comes before those that go on where it ends.
pub proof fn lemma_first_difference_decides(a: Seq<char>, b: Seq<char>, n: int)
    requires
        0 <= n <= encode_utf8(a).len(),
        n < encode_utf8(b).len(),
        forall|j: int| 0 <= j < n ==> encode_utf8(a)[j] == encode_utf8(b)[j],
    ensures
        n == encode_utf8(a).len() ==> name_before(a, b) && !name_before(b, a),
        n < encode_utf8(a).len() && encode_utf8(a)[n] < encode_utf8(b)[n] ==> name_before(a, b) && !name_before(
            b,
            a,
        ),
{
    if n == encode_utf8(a).len() || encode_utf8(a)[n] < encode_utf8(b)[n] {
        assert(parts_below(encode_utf8(a), encode_utf8(b), n));
        lemma_name_before_irreflexive(a, b);
    }
}

/// Of two names one comes first, or they are the same.
pub proof fn lemma_name_before_total(a: Seq<char>, b: Seq<char>)
    ensures
        a == b || name_before(a, b) || name_before(b, a),
{
    encode_utf8_decode_utf8(a);
    encode_utf8_decode_utf8(b);
    let (x, y) = (encode_utf8(a), encode_utf8(b));
    let n = lemma_common_length(x, y, 0);
    if n == x.len() && n == y.len() {
        assert(x =~= y);
    } else if n == x.len() || (n < y.len() && x[n] < y[n]) {
        assert(parts_below(x, y, n));
    } else {
        assert(parts_below(y, x, n));
    }
}

/// How far two byte sequences agree.
proof fn lemma_common_length(a: Seq<u8>, b: Seq<u8>, from: int) -> (n: int)
    requires
        agree(a, b, from),
    ensures
        agree(a, b, n),
        n == a.len() || n == b.len() || a[n] != b[n],
    decreases a.len() - from,
{
    if from == a.len() || from == b.len() || a[from] != b[from] {
        from
    } else {
        lemma_common_length(a, b, from + 1)
    }
}

} // verus!
