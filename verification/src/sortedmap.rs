//! An association container kept sorted by key, the ordered mapping every
//! part of the engine stores its data in.
use crate::text::{
    char_seq_lt, lemma_char_seq_lt_asymmetric, lemma_char_seq_lt_connected,
    lemma_char_seq_lt_irrefl, lemma_char_seq_lt_transitive, str_eq, str_lt,
};
use vstd::prelude::*;

verus! {

/// A key type with a strict total order on its view.
pub trait SortKey: View + Sized {
    /// The strict order the container keeps its keys in.
    spec fn lt_spec(a: Self::V, b: Self::V) -> bool;

    /// The order is a strict total order.
    proof fn lemma_lt_laws(a: Self::V, b: Self::V, c: Self::V)
        ensures
            !(Self::lt_spec(a, b) && Self::lt_spec(b, a)),
            Self::lt_spec(a, b) && Self::lt_spec(b, c) ==> Self::lt_spec(a, c),
            a != b ==> Self::lt_spec(a, b) || Self::lt_spec(b, a),
            !Self::lt_spec(a, a),
    ;

    fn lt_exec(&self, other: &Self) -> (r: bool)
        ensures
            r == Self::lt_spec(self@, other@),
    ;

    fn eq_exec(&self, other: &Self) -> (r: bool)
        ensures
            r == (self@ == other@),
    ;
}

impl SortKey for String {
    open spec fn lt_spec(a: Seq<char>, b: Seq<char>) -> bool {
        char_seq_lt(a, b)
    }

    proof fn lemma_lt_laws(a: Seq<char>, b: Seq<char>, c: Seq<char>) {
        lemma_char_seq_lt_asymmetric(a, b);
        lemma_char_seq_lt_transitive(a, b, c);
        lemma_char_seq_lt_connected(a, b);
        lemma_char_seq_lt_irrefl(a);
    }

    fn lt_exec(&self, other: &Self) -> (r: bool) {
        str_lt(self.as_str(), other.as_str())
    }

    fn eq_exec(&self, other: &Self) -> (r: bool) {
        str_eq(self, other)
    }
}

impl SortKey for u64 {
    open spec fn lt_spec(a: u64, b: u64) -> bool {
        a < b
    }

    proof fn lemma_lt_laws(a: u64, b: u64, c: u64) {
    }

    fn lt_exec(&self, other: &Self) -> (r: bool) {
        *self < *other
    }

    fn eq_exec(&self, other: &Self) -> (r: bool) {
        *self == *other
    }
}

/// The value bound to the first entry whose key views as `k`.
pub open spec fn seq_find<K: SortKey, V>(s: Seq<(K, V)>, k: K::V) -> Option<V>
    decreases s.len(),
{
    if s.len() == 0 {
        None
    } else if s[0].0@ == k {
        Some(s[0].1)
    } else {
        seq_find(s.skip(1), k)
    }
}

/// A mapping whose entries are kept in strictly increasing key order.
pub struct SortedMap<K, V> {
    entries: Vec<(K, V)>,
}

impl<K: SortKey, V> SortedMap<K, V> {
    /// The key views, in storage order.
    pub closed spec fn kseq(&self) -> Seq<K::V> {
        self.entries@.map_values(|e: (K, V)| e.0@)
    }

    /// The values, in storage order.
    pub closed spec fn vseq(&self) -> Seq<V> {
        self.entries@.map_values(|e: (K, V)| e.1)
    }

    /// The keys are strictly increasing, so each key occurs once.
    pub closed spec fn wf(&self) -> bool {
        forall|i: int, j: int|
            0 <= i < j < self.kseq().len() ==> K::lt_spec(self.kseq()[i], self.kseq()[j])
    }

    pub open spec fn spec_len(&self) -> nat {
        self.kseq().len()
    }

    /// The value bound to `k`, if any.
    pub closed spec fn spec_get(&self, k: K::V) -> Option<V> {
        seq_find(self.entries@, k)
    }

    pub open spec fn spec_contains(&self, k: K::V) -> bool {
        self.spec_get(k) is Some
    }

    /// Keys at distinct positions are ordered, hence distinct.
    pub proof fn lemma_sorted(&self, i: int, j: int)
        requires
            self.wf(),
            0 <= i < j < self.spec_len(),
        ensures
            K::lt_spec(self.kseq()[i], self.kseq()[j]),
            self.kseq()[i] != self.kseq()[j],
    {
        K::lemma_lt_laws(self.kseq()[i], self.kseq()[j], self.kseq()[j]);
    }

    /// Replacing the value at one position changes that key's binding and
    /// no other.
    pub proof fn lemma_update_get(m1: Self, m2: Self, i: int)
        requires
            m1.wf(),
            0 <= i < m1.spec_len(),
            m2.kseq() == m1.kseq(),
            m2.vseq() == m1.vseq().update(i, m2.vseq()[i]),
        ensures
            m2.spec_get(m1.kseq()[i]) == Some(m2.vseq()[i]),
            forall|k: K::V| k != m1.kseq()[i] ==> m2.spec_get(k) == m1.spec_get(k),
    {
        m1.lemma_len();
        assert(m2.wf());
        m2.lemma_get_is_keyed(m1.kseq()[i]);
        assert forall|k: K::V| k != m1.kseq()[i] implies m2.spec_get(k) == m1.spec_get(k) by {
            m1.lemma_get_is_keyed(k);
            m2.lemma_get_is_keyed(k);
            if exists|j: int| 0 <= j < m1.spec_len() && m1.kseq()[j] == k {
                let j = choose|j: int| 0 <= j < m1.spec_len() && #[trigger] m1.kseq()[j] == k;
                assert(j != i);
                assert(m1.spec_get(k) == Some(m1.vseq()[j]));
                assert(m2.spec_get(k) == Some(m2.vseq()[j]));
            }
        }
    }

    /// Keys and values line up one to one.
    pub proof fn lemma_len(&self)
        ensures
            self.vseq().len() == self.spec_len(),
            self.kseq().len() == self.spec_len(),
    {
    }

    proof fn lemma_find_at(s: Seq<(K, V)>, k: K::V, i: int)
        requires
            0 <= i < s.len(),
            s[i].0@ == k,
            forall|j: int| 0 <= j < i ==> s[j].0@ != k,
        ensures
            seq_find(s, k) == Some(s[i].1),
        decreases s.len(),
    {
        if i > 0 {
            Self::lemma_find_at(s.skip(1), k, i - 1);
        }
    }

    proof fn lemma_find_absent(s: Seq<(K, V)>, k: K::V)
        requires
            forall|j: int| 0 <= j < s.len() ==> s[j].0@ != k,
        ensures
            seq_find(s, k) == None::<V>,
        decreases s.len(),
    {
        if s.len() > 0 {
            Self::lemma_find_absent(s.skip(1), k);
        }
    }

    /// Membership agrees with the key sequence.
    pub proof fn lemma_get_is_keyed(&self, k: K::V)
        requires
            self.wf(),
        ensures
            self.spec_get(k) is Some <==> exists|i: int| 0 <= i < self.spec_len() && self.kseq()[i] == k,
            forall|i: int|
                0 <= i < self.spec_len() && self.kseq()[i] == k ==> self.spec_get(k) == Some(
                    self.vseq()[i],
                ),
    {
        if exists|i: int| 0 <= i < self.spec_len() && self.kseq()[i] == k {
            let i = choose|i: int| 0 <= i < self.spec_len() && self.kseq()[i] == k;
            assert forall|j: int|
                0 <= j < self.spec_len() && self.kseq()[j] == k implies self.spec_get(k) == Some(
                self.vseq()[j],
            ) by {
                assert forall|l: int| 0 <= l < j implies self.entries@[l].0@ != k by {
                    if self.kseq()[l] == k {
                        K::lemma_lt_laws(self.kseq()[l], self.kseq()[j], k);
                    }
                }
                Self::lemma_find_at(self.entries@, k, j);
            }
        } else {
            assert forall|j: int| 0 <= j < self.entries@.len() implies self.entries@[j].0@
                != k by {
                assert(self.kseq()[j] == self.entries@[j].0@);
            }
            Self::lemma_find_absent(self.entries@, k);
        }
    }

    pub fn new() -> (r: Self)
        ensures
            r.wf(),
            r.spec_len() == 0,
            forall|k: K::V| r.spec_get(k) == None::<V>,
    {
        let r = SortedMap { entries: Vec::new() };
        proof {
            assert forall|k: K::V| r.spec_get(k) == None::<V> by {
                Self::lemma_find_absent(r.entries@, k);
            }
        }
        r
    }

    pub fn len(&self) -> (r: usize)
        ensures
            r == self.spec_len(),
    {
        self.entries.len()
    }

    pub fn is_empty(&self) -> (r: bool)
        ensures
            r == (self.spec_len() == 0),
    {
        self.entries.len() == 0
    }

    pub fn key_at(&self, i: usize) -> (r: &K)
        requires
            i < self.spec_len(),
        ensures
            r@ == self.kseq()[i as int],
    {
        &self.entries[i].0
    }

    pub fn val_at(&self, i: usize) -> (r: &V)
        requires
            i < self.spec_len(),
        ensures
            *r == self.vseq()[i as int],
    {
        &self.entries[i].1
    }

    /// The index holding `k`, found by a scan.
    pub fn index_of(&self, k: &K) -> (r: Option<usize>)
        requires
            self.wf(),
        ensures
            match r {
                Some(i) => i < self.spec_len() && self.kseq()[i as int] == k@ && self.spec_get(k@)
                    == Some(self.vseq()[i as int]),
                None => self.spec_get(k@) == None::<V>,
            },
    {
        let n = self.entries.len();
        let mut i: usize = 0;
        while i < n
            invariant
                self.wf(),
                n == self.spec_len(),
                i <= n,
                forall|j: int| 0 <= j < i ==> self.kseq()[j] != k@,
            decreases n - i,
        {
            if self.entries[i].0.eq_exec(k) {
                proof {
                    self.lemma_get_is_keyed(k@);
                }
                return Some(i);
            }
            i = i + 1;
        }
        proof {
            self.lemma_get_is_keyed(k@);
        }
        None
    }

    pub fn get(&self, k: &K) -> (r: Option<&V>)
        requires
            self.wf(),
        ensures
            match r {
                Some(v) => self.spec_get(k@) == Some(*v),
                None => self.spec_get(k@) == None::<V>,
            },
    {
        match self.index_of(k) {
            Some(i) => Some(&self.entries[i].1),
            None => None,
        }
    }

    /// Replaces the value at position `i`, handing the previous value back.
    pub fn replace_at(&mut self, i: usize, v: V) -> (prev: V)
        requires
            i < old(self).spec_len(),
        ensures
            final(self).kseq() == old(self).kseq(),
            final(self).vseq() == old(self).vseq().update(i as int, v),
            prev == old(self).vseq()[i as int],
            final(self).wf() == old(self).wf(),
    {
        let (k, prev) = self.entries.remove(i);
        self.entries.insert(i, (k, v));
        proof {
            assert(self.kseq() =~= old(self).kseq());
            assert(self.vseq() =~= old(self).vseq().update(i as int, v));
        }
        prev
    }

    /// The first position whose key is not below `k`.
    fn lower_bound(&self, k: &K) -> (i: usize)
        requires
            self.wf(),
        ensures
            i <= self.spec_len(),
            forall|j: int| 0 <= j < i ==> K::lt_spec(self.kseq()[j], k@),
            i < self.spec_len() ==> !K::lt_spec(self.kseq()[i as int], k@),
    {
        let n = self.entries.len();
        let mut i: usize = 0;
        while i < n
            invariant
                n == self.spec_len(),
                i <= n,
                forall|j: int| 0 <= j < i ==> K::lt_spec(self.kseq()[j], k@),
            decreases n - i,
        {
            let cur = &self.entries[i];
            if !cur.0.lt_exec(k) {
                return i;
            }
            i = i + 1;
        }
        i
    }

    /// Binds `k` to `v`, keeping the order; an existing binding is replaced.
    pub fn insert(&mut self, k: K, v: V)
        requires
            old(self).wf(),
        ensures
            final(self).wf(),
            final(self).spec_get(k@) == Some(v),
            forall|k2: K::V| k2 != k@ ==> final(self).spec_get(k2) == old(self).spec_get(k2),
            old(self).spec_contains(k@) ==> final(self).kseq() == old(self).kseq(),
            !old(self).spec_contains(k@) ==> final(self).spec_len() == old(self).spec_len() + 1,
            forall|k2: K::V| #[trigger]
                final(self).spec_contains(k2) <==> (k2 == k@ || old(self).spec_contains(k2)),
    {
        proof {
            self.lemma_get_is_keyed(k@);
        }
        let ghost old_self = *self;
        let n = self.entries.len();
        let i = self.lower_bound(&k);
        if i < n && self.entries[i].0.eq_exec(&k) {
            let (old_k, _old_v) = self.entries.remove(i);
            self.entries.insert(i, (old_k, v));
            proof {
                assert(self.entries@ =~= old_self.entries@.update(
                    i as int,
                    (old_self.entries@[i as int].0, v),
                ));
                assert(self.kseq() =~= old_self.kseq());
                assert forall|j: int| 0 <= j < i implies old_self.entries@[j].0@ != k@ by {
                    if old_self.kseq()[j] == k@ {
                        K::lemma_lt_laws(old_self.kseq()[j], k@, k@);
                    }
                }
                lemma_after_update::<K, V>(old_self.entries@, self.entries@, i as int, k@, v);
                assert(self.wf());
            }
            return ;
        }
        proof {
            if i < n {
                if self.kseq()[i as int] != k@ {
                    K::lemma_lt_laws(self.kseq()[i as int], k@, k@);
                    K::lemma_lt_laws(k@, self.kseq()[i as int], k@);
                }
            }
            assert forall|j: int| 0 <= j < n implies old_self.entries@[j].0@ != k@ by {
                if old_self.kseq()[j] == k@ {
                    if j < i {
                        K::lemma_lt_laws(old_self.kseq()[j], k@, k@);
                    } else if j > i {
                        assert(K::lt_spec(k@, old_self.kseq()[i as int]));
                        assert(K::lt_spec(old_self.kseq()[i as int], old_self.kseq()[j]));
                        K::lemma_lt_laws(k@, old_self.kseq()[i as int], old_self.kseq()[j]);
                        K::lemma_lt_laws(old_self.kseq()[j], k@, k@);
                    }
                }
            }
        }
        self.entries.insert(i, (k, v));
        proof {
            let s0 = old_self.entries@;
            let s1 = self.entries@;
            let ks0 = old_self.kseq();
            let ks1 = self.kseq();
            assert(s1 =~= s0.insert(i as int, (k, v)));
            assert(ks1 =~= ks0.insert(i as int, k@));
            assert forall|a: int, b: int| 0 <= a < b < ks1.len() implies K::lt_spec(
                ks1[a],
                ks1[b],
            ) by {
                if a == i {
                    if b - 1 == i {
                        assert(ks1[b] == ks0[i as int]);
                        assert(K::lt_spec(k@, ks0[i as int]));
                    } else {
                        assert(ks1[b] == ks0[b - 1]);
                        assert(K::lt_spec(ks0[i as int], ks0[b - 1]));
                        K::lemma_lt_laws(k@, ks0[i as int], ks0[b - 1]);
                    }
                } else if b == i {
                    assert(ks1[a] == ks0[a]);
                    assert(K::lt_spec(ks0[a], k@));
                } else if a < i && b > i {
                    assert(ks1[a] == ks0[a] && ks1[b] == ks0[b - 1]);
                    if b - 1 == i {
                    } else {
                        assert(K::lt_spec(ks0[a], ks0[b - 1]));
                    }
                }
            }
            lemma_after_insert::<K, V>(s0, s1, i as int, (k, v));
        }
    }
}

/// After updating position `i` (same key, new value), lookups see the new
/// value at that key and the old values elsewhere.
proof fn lemma_after_update<K: SortKey, V>(s0: Seq<(K, V)>, s1: Seq<(K, V)>, i: int, k: K::V, v: V)
    requires
        0 <= i < s0.len(),
        s1 =~= s0.update(i, (s0[i].0, v)),
        s0[i].0@ == k,
        forall|j: int| 0 <= j < i ==> s0[j].0@ != k,
    ensures
        seq_find(s1, k) == Some(v),
        forall|k2: K::V| k2 != k ==> seq_find(s1, k2) == seq_find(s0, k2),
    decreases s0.len(),
{
    if i == 0 {
        assert(s1[0].0 == s0[0].0);
        assert forall|k2: K::V| k2 != k implies seq_find(s1, k2) == seq_find(s0, k2) by {
            assert(s1.skip(1) =~= s0.skip(1));
            assert(seq_find(s1, k2) == seq_find(s1.skip(1), k2));
            assert(seq_find(s0, k2) == seq_find(s0.skip(1), k2));
        }
    } else {
        assert(s1[0] == s0[0]);
        assert(s1.skip(1) =~= s0.skip(1).update(i - 1, (s0.skip(1)[i - 1].0, v)));
        lemma_after_update::<K, V>(s0.skip(1), s1.skip(1), i - 1, k, v);
        assert forall|k2: K::V| k2 != k implies seq_find(s1, k2) == seq_find(s0, k2) by {
            if s0[0].0@ == k2 {
                assert(seq_find(s1, k2) == Some(s1[0].1));
                assert(seq_find(s0, k2) == Some(s0[0].1));
            } else {
                assert(seq_find(s1, k2) == seq_find(s1.skip(1), k2));
                assert(seq_find(s0, k2) == seq_find(s0.skip(1), k2));
            }
        }
        assert(s0[0].0@ != k);
        assert(seq_find(s1, k) == seq_find(s1.skip(1), k));
    }
}

/// After inserting a fresh key at position `i`, lookups see the new binding
/// and the old bindings elsewhere.
proof fn lemma_after_insert<K: SortKey, V>(s0: Seq<(K, V)>, s1: Seq<(K, V)>, i: int, e: (K, V))
    requires
        0 <= i <= s0.len(),
        s1 =~= s0.insert(i, e),
        forall|j: int| 0 <= j < s0.len() ==> s0[j].0@ != e.0@,
    ensures
        seq_find(s1, e.0@) == Some(e.1),
        forall|k2: K::V| k2 != e.0@ ==> seq_find(s1, k2) == seq_find(s0, k2),
    decreases s0.len(),
{
    if i == 0 {
        assert(s1[0] == e);
        assert(s1.skip(1) =~= s0);
        assert forall|k2: K::V| k2 != e.0@ implies seq_find(s1, k2) == seq_find(s0, k2) by {
            assert(seq_find(s1, k2) == seq_find(s1.skip(1), k2));
        }
    } else {
        assert(s1[0] == s0[0]);
        assert(s1.skip(1) =~= s0.skip(1).insert(i - 1, e));
        lemma_after_insert::<K, V>(s0.skip(1), s1.skip(1), i - 1, e);
        assert(s0[0].0@ != e.0@);
        assert(seq_find(s1, e.0@) == seq_find(s1.skip(1), e.0@));
        assert forall|k2: K::V| k2 != e.0@ implies seq_find(s1, k2) == seq_find(s0, k2) by {
            if s0[0].0@ == k2 {
                assert(seq_find(s1, k2) == Some(s1[0].1));
                assert(seq_find(s0, k2) == Some(s0[0].1));
            } else {
                assert(seq_find(s1, k2) == seq_find(s1.skip(1), k2));
                assert(seq_find(s0, k2) == seq_find(s0.skip(1), k2));
            }
        }
    }
}

} // verus!
