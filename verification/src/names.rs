//! Identifiers, byte-string comparison and small association tables keyed by identifiers.
use vstd::prelude::*;

verus! {

/// An identifier of the language, as the bytes of its source text.
pub type Ident = Vec<u8>;

/// Whether two byte strings are equal.
pub fn bytes_eq(a: &[u8], b: &[u8]) -> (res: bool)
    ensures
        res == (a@ == b@),
{
    if a.len() != b.len() {
        return false;
    }
    let mut i: usize = 0;
    while i < a.len()
        invariant
            a@.len() == b@.len(),
            i <= a@.len(),
            forall|j: int| 0 <= j < i ==> a@[j] == b@[j],
        decreases a@.len() - i,
    {
        if a[i] != b[i] {
            return false;
        }
        i = i + 1;
    }
    assert(a@ =~= b@);
    true
}

/// A fresh copy of a byte string.
pub fn copy_bytes(a: &[u8]) -> (res: Vec<u8>)
    ensures
        res@ == a@,
{
    let mut res: Vec<u8> = Vec::new();
    let mut i: usize = 0;
    while i < a.len()
        invariant
            i <= a@.len(),
            res@ == a@.subrange(0, i as int),
        decreases a@.len() - i,
    {
        res.push(a[i]);
        i = i + 1;
        assert(res@ =~= a@.subrange(0, i as int));
    }
    assert(res@ =~= a@);
    res
}

/// The byte strings of a path of identifiers.
pub open spec fn path_view(p: Seq<Ident>) -> Seq<Seq<u8>> {
    p.map_values(|s: Ident| s@)
}

/// Whether two paths of identifiers are equal component by component.
pub fn path_eq(a: &[Ident], b: &[Ident]) -> (res: bool)
    ensures
        res == (path_view(a@) == path_view(b@)),
{
    if a.len() != b.len() {
        assert(path_view(a@).len() != path_view(b@).len());
        return false;
    }
    let mut i: usize = 0;
    while i < a.len()
        invariant
            a@.len() == b@.len(),
            i <= a@.len(),
            forall|j: int| 0 <= j < i ==> a@[j]@ == b@[j]@,
        decreases a@.len() - i,
    {
        if !bytes_eq(a[i].as_slice(), b[i].as_slice()) {
            assert(path_view(a@)[i as int] != path_view(b@)[i as int]);
            return false;
        }
        i = i + 1;
    }
    assert(path_view(a@) =~= path_view(b@));
    true
}

/// A fresh copy of a path of identifiers.
pub fn copy_path(a: &[Ident]) -> (res: Vec<Ident>)
    ensures
        path_view(res@) == path_view(a@),
{
    let mut res: Vec<Ident> = Vec::new();
    let mut i: usize = 0;
    while i < a.len()
        invariant
            i <= a@.len(),
            res@.len() == i,
            forall|j: int| 0 <= j < i ==> res@[j]@ == a@[j]@,
        decreases a@.len() - i,
    {
        res.push(copy_bytes(a[i].as_slice()));
        i = i + 1;
    }
    assert(path_view(res@) =~= path_view(a@));
    res
}

/// A fresh copy of the first `n` identifiers of a path.
pub fn copy_path_prefix(a: &[Ident], n: usize) -> (res: Vec<Ident>)
    requires
        n <= a@.len(),
    ensures
        path_view(res@) == path_view(a@).take(n as int),
        res@.len() == n,
{
    let mut res: Vec<Ident> = Vec::new();
    let mut i: usize = 0;
    while i < n
        invariant
            n <= a@.len(),
            i <= n,
            res@.len() == i,
            forall|j: int| 0 <= j < i ==> res@[j]@ == a@[j]@,
        decreases n - i,
    {
        res.push(copy_bytes(a[i].as_slice()));
        i = i + 1;
    }
    assert(path_view(res@) =~= path_view(a@).take(n as int));
    res
}

/// The components of a path joined by `.`.
pub open spec fn joined(p: Seq<Seq<u8>>) -> Seq<u8>
    decreases p.len(),
{
    if p.len() == 0 {
        Seq::<u8>::empty()
    } else if p.len() == 1 {
        p[0]
    } else {
        joined(p.drop_last()) + seq![46u8] + p.last()
    }
}

/// The components of a path joined by `.`.
pub fn join_path(a: &[Ident]) -> (res: Vec<u8>)
    ensures
        res@ == joined(path_view(a@)),
{
    let ghost p = path_view(a@);
    let mut res: Vec<u8> = Vec::new();
    let mut i: usize = 0;
    proof {
        assert(p.take(0) =~= Seq::<Seq<u8>>::empty());
    }
    while i < a.len()
        invariant
            i <= a@.len(),
            p == path_view(a@),
            res@ == joined(p.take(i as int)),
        decreases a@.len() - i,
    {
        let ghost before = res@;
        if i > 0 {
            res.push(46u8);
        }
        let ghost separated = res@;
        let mut j: usize = 0;
        while j < a[i].len()
            invariant
                i < a@.len(),
                j <= a@[i as int]@.len(),
                res@ == separated + a@[i as int]@.take(j as int),
            decreases a@[i as int]@.len() - j,
        {
            res.push(a[i][j]);
            proof {
                assert(res@ =~= separated + a@[i as int]@.take(j + 1));
            }
            j = j + 1;
        }
        proof {
            assert(a@[i as int]@.take(a@[i as int]@.len() as int) =~= a@[i as int]@);
            assert(p[i as int] == a@[i as int]@);
            let q = p.take(i + 1);
            assert(q.last() == p[i as int]);
            if i > 0 {
                assert(q.drop_last() =~= p.take(i as int));
                assert(res@ =~= joined(q));
            } else {
                assert(separated =~= Seq::<u8>::empty());
                assert(res@ =~= joined(q));
            }
        }
        i = i + 1;
    }
    proof {
        assert(p.take(a@.len() as int) =~= p);
    }
    res
}

/// A key of a table: its exec comparison agrees with equality of its spec value.
pub trait TableKey: Sized {
    type Spec;

    spec fn spec_key(&self) -> Self::Spec;

    fn same_key(&self, other: &Self) -> (res: bool)
        ensures
            res == (self.spec_key() == other.spec_key()),
    ;
}

impl TableKey for Vec<u8> {
    type Spec = Seq<u8>;

    open spec fn spec_key(&self) -> Seq<u8> {
        self@
    }

    fn same_key(&self, other: &Self) -> (res: bool) {
        bytes_eq(self.as_slice(), other.as_slice())
    }
}

impl TableKey for Vec<Ident> {
    type Spec = Seq<Seq<u8>>;

    open spec fn spec_key(&self) -> Seq<Seq<u8>> {
        path_view(self@)
    }

    fn same_key(&self, other: &Self) -> (res: bool) {
        path_eq(self.as_slice(), other.as_slice())
    }
}

/// The value that the first entry with key `k` holds, if any.
pub open spec fn lookup<S, V>(s: Seq<(S, V)>, k: S) -> Option<V>
    decreases s.len(),
{
    if s.len() == 0 {
        None
    } else if s[0].0 == k {
        Some(s[0].1)
    } else {
        lookup(s.drop_first(), k)
    }
}

/// The index of the first entry with key `k`, or the length when there is none.
pub open spec fn first_index<S, V>(s: Seq<(S, V)>, k: S) -> nat
    decreases s.len(),
{
    if s.len() == 0 {
        0
    } else if s[0].0 == k {
        0
    } else {
        1 + first_index(s.drop_first(), k)
    }
}

proof fn lemma_first_index<S, V>(s: Seq<(S, V)>, k: S)
    ensures
        first_index(s, k) <= s.len(),
        first_index(s, k) < s.len() ==> s[first_index(s, k) as int].0 == k && lookup(s, k)
            == Some(s[first_index(s, k) as int].1),
        first_index(s, k) == s.len() <==> lookup(s, k) is None,
        forall|j: int| 0 <= j < first_index(s, k) ==> s[j].0 != k,
    decreases s.len(),
{
    if s.len() > 0 && s[0].0 != k {
        lemma_first_index(s.drop_first(), k);
        assert forall|j: int| 0 <= j < first_index(s, k) implies s[j].0 != k by {
            if j > 0 {
                assert(s[j] == s.drop_first()[j - 1]);
            }
        }
    }
}

proof fn lemma_lookup_update<S, V>(s: Seq<(S, V)>, k: S, v: V, k2: S)
    requires
        first_index(s, k) < s.len(),
    ensures
        lookup(s.update(first_index(s, k) as int, (k, v)), k2) == if k2 == k {
            Some(v)
        } else {
            lookup(s, k2)
        },
    decreases s.len(),
{
    let i = first_index(s, k) as int;
    let t = s.update(i, (k, v));
    if i == 0 {
        assert(t.drop_first() =~= s.drop_first());
    } else {
        assert(t.drop_first() =~= s.drop_first().update(i - 1, (k, v)));
        lemma_lookup_update(s.drop_first(), k, v, k2);
    }
}

proof fn lemma_lookup_push<S, V>(s: Seq<(S, V)>, k: S, v: V, k2: S)
    requires
        lookup(s, k) is None,
    ensures
        lookup(s.push((k, v)), k2) == if k2 == k && lookup(s, k2) is None {
            Some(v)
        } else {
            lookup(s, k2)
        },
    decreases s.len(),
{
    let t = s.push((k, v));
    if s.len() > 0 {
        assert(t[0] == s[0]);
        assert(s[0].0 != k);
        assert(t.drop_first() =~= s.drop_first().push((k, v)));
        assert(lookup(s.drop_first(), k) is None);
        lemma_lookup_push(s.drop_first(), k, v, k2);
        if s[0].0 == k2 {
            assert(lookup(t, k2) == Some(s[0].1));
        } else {
            assert(lookup(t, k2) == lookup(t.drop_first(), k2));
            assert(lookup(s, k2) == lookup(s.drop_first(), k2));
        }
    } else {
        assert(t.drop_first() =~= Seq::<(S, V)>::empty());
    }
}

/// A table from keys to values, kept as a list of entries. The first entry with a key is
/// the one that counts.
pub struct Table<K, V> {
    pub entries: Vec<(K, V)>,
}

/// A table keyed by identifiers.
pub type NameTable<V> = Table<Ident, V>;

impl<K: TableKey, V> Table<K, V> {
    /// The entries, each key taken by its spec value.
    pub open spec fn entries_view(&self) -> Seq<(K::Spec, V)> {
        self.entries@.map_values(|e: (K, V)| (e.0.spec_key(), e.1))
    }

    /// What the table holds for a key.
    pub open spec fn get_spec(&self, k: K::Spec) -> Option<V> {
        lookup(self.entries_view(), k)
    }

    /// A value that the table holds for a key is the value of one of its entries.
    pub proof fn lemma_get_is_entry(&self, k: K::Spec)
        ensures
            self.get_spec(k) is Some ==> exists|j: int|
                0 <= j < self.entries@.len() && self.entries@[j].1 == self.get_spec(k)->0
                    && #[trigger] self.entries@[j].0.spec_key() == k,
    {
        lemma_first_index(self.entries_view(), k);
        if self.get_spec(k) is Some {
            let j = first_index(self.entries_view(), k) as int;
            assert(self.entries_view()[j] == (self.entries@[j].0.spec_key(), self.entries@[j].1));
        }
    }

    /// An empty table.
    pub fn new() -> (t: Self)
        ensures
            forall|k: K::Spec| #[trigger] t.get_spec(k) is None,
            t.entries@.len() == 0,
    {
        let t = Table { entries: Vec::new() };
        assert(t.entries_view() =~= Seq::<(K::Spec, V)>::empty());
        t
    }

    /// The index of the first entry with the key, or the number of entries.
    fn find(&self, k: &K) -> (i: usize)
        ensures
            i == first_index(self.entries_view(), k.spec_key()),
            i <= self.entries@.len(),
    {
        let ghost s = self.entries_view();
        let mut i: usize = 0;
        while i < self.entries.len()
            invariant
                s == self.entries_view(),
                s.len() == self.entries@.len(),
                i <= s.len(),
                forall|j: int| 0 <= j < i ==> s[j].0 != k.spec_key(),
                first_index(s, k.spec_key()) >= i,
            decreases self.entries@.len() - i,
        {
            proof {
                lemma_first_index(s, k.spec_key());
            }
            if self.entries[i].0.same_key(k) {
                assert(s[i as int].0 == k.spec_key());
                return i;
            }
            i = i + 1;
        }
        proof {
            lemma_first_index(s, k.spec_key());
        }
        i
    }

    /// What the table holds for a key.
    pub fn get(&self, k: &K) -> (res: Option<&V>)
        ensures
            match res {
                Some(r) => self.get_spec(k.spec_key()) == Some(*r),
                None => self.get_spec(k.spec_key()) is None,
            },
    {
        let i = self.find(k);
        proof {
            lemma_first_index(self.entries_view(), k.spec_key());
        }
        if i < self.entries.len() {
            Some(&self.entries[i].1)
        } else {
            None
        }
    }

    /// Whether the table holds a value for the key.
    pub fn contains_key(&self, k: &K) -> (res: bool)
        ensures
            res == self.get_spec(k.spec_key()) is Some,
    {
        self.get(k).is_some()
    }

    /// Sets the value of a key and returns the value it had before.
    pub fn insert(&mut self, k: K, v: V) -> (previous: Option<V>)
        ensures
            previous == old(self).get_spec(k.spec_key()),
            final(self).get_spec(k.spec_key()) == Some(v),
            forall|k2: K::Spec|
                k2 != k.spec_key() ==> #[trigger] final(self).get_spec(k2) == old(self).get_spec(k2),
            forall|j: int|
                0 <= j < final(self).entries@.len() ==> #[trigger] final(self).entries@[j].1 == v
                    || exists|m: int| 0 <= m < old(self).entries@.len() && old(self).entries@[m].1 == final(self).entries@[j].1,
    {
        let ghost s = self.entries_view();
        let ghost old_entries = self.entries@;
        let ghost kv = k.spec_key();
        let i = self.find(&k);
        proof {
            lemma_first_index(s, kv);
        }
        if i < self.entries.len() {
            let mut entry = (k, v);
            std::mem::swap(&mut entry, &mut self.entries[i]);
            let previous = entry.1;
            proof {
                assert forall|j: int| 0 <= j < self.entries@.len() implies #[trigger] self.entries@[j].1 == v
                    || exists|m: int| 0 <= m < old_entries.len() && old_entries[m].1 == self.entries@[j].1 by {
                    if j != i {
                        assert(old_entries[j].1 == self.entries@[j].1);
                    }
                }
                assert(self.entries_view() =~= s.update(i as int, (kv, v)));
                assert forall|k2: K::Spec| true implies #[trigger] self.get_spec(k2) == if k2 == kv {
                    Some(v)
                } else {
                    lookup(s, k2)
                } by {
                    lemma_lookup_update(s, kv, v, k2);
                }
            }
            Some(previous)
        } else {
            self.entries.push((k, v));
            proof {
                assert forall|j: int| 0 <= j < self.entries@.len() implies #[trigger] self.entries@[j].1 == v
                    || exists|m: int| 0 <= m < old_entries.len() && old_entries[m].1 == self.entries@[j].1 by {
                    if j < old_entries.len() {
                        assert(old_entries[j].1 == self.entries@[j].1);
                    }
                }
                assert(self.entries_view() =~= s.push((kv, v)));
                assert forall|k2: K::Spec| true implies #[trigger] self.get_spec(k2) == if k2 == kv {
                    Some(v)
                } else {
                    lookup(s, k2)
                } by {
                    lemma_lookup_push(s, kv, v, k2);
                }
            }
            None
        }
    }

    /// Sets the value of a key only where the table holds none yet.
    pub fn insert_if_absent(&mut self, k: K, v: V)
        ensures
            final(self).get_spec(k.spec_key()) == match old(self).get_spec(k.spec_key()) {
                Some(w) => Some(w),
                None => Some(v),
            },
            forall|k2: K::Spec|
                k2 != k.spec_key() ==> #[trigger] final(self).get_spec(k2) == old(self).get_spec(k2),
    {
        if !self.contains_key(&k) {
            self.insert(k, v);
        }
    }

    /// The number of entries.
    pub fn len(&self) -> (n: usize)
        ensures
            n == self.entries@.len(),
    {
        self.entries.len()
    }
}

} // verus!
