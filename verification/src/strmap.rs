//! A map keyed by strings that keeps its keys in order — the order `String`'s
//! `Ord` gives, which is code point by code point.
use vstd::prelude::*;
use crate::text::{chars_of, same};

verus! {

/// `a` sorts before `b`: the first character where they differ is smaller,
/// or `a` is a proper prefix of `b`.
pub open spec fn str_lt(a: Seq<char>, b: Seq<char>) -> bool
    decreases a.len(),
{
    if b.len() == 0 {
        false
    } else if a.len() == 0 {
        true
    } else if a[0] != b[0] {
        (a[0] as int) < (b[0] as int)
    } else {
        str_lt(a.drop_first(), b.drop_first())
    }
}

pub proof fn lemma_lt_irreflexive(a: Seq<char>)
    ensures
        !str_lt(a, a),
    decreases a.len(),
{
    if a.len() > 0 {
        lemma_lt_irreflexive(a.drop_first());
    }
}

pub proof fn lemma_lt_transitive(a: Seq<char>, b: Seq<char>, c: Seq<char>)
    requires
        str_lt(a, b),
        str_lt(b, c),
    ensures
        str_lt(a, c),
    decreases a.len(),
{
    if a.len() > 0 && b.len() > 0 && c.len() > 0 && a[0] == b[0] && b[0] == c[0] {
        lemma_lt_transitive(a.drop_first(), b.drop_first(), c.drop_first());
    }
}

pub proof fn lemma_lt_total(a: Seq<char>, b: Seq<char>)
    requires
        a != b,
    ensures
        str_lt(a, b) || str_lt(b, a),
    decreases a.len(),
{
    if a.len() > 0 && b.len() > 0 && a[0] == b[0] {
        if a.drop_first() == b.drop_first() {
            assert(a == seq![a[0]] + a.drop_first());
            assert(b == seq![b[0]] + b.drop_first());
        }
        lemma_lt_total(a.drop_first(), b.drop_first());
    } else if a.len() > 0 && b.len() > 0 {
    } else if a.len() == 0 && b.len() == 0 {
        assert(a == b);
    }
}

/// Whether `a` sorts before `b`.
pub fn less(a: &Vec<char>, b: &Vec<char>) -> (r: bool)
    ensures
        r == str_lt(a@, b@),
{
    let mut i: usize = 0;
    assert(a@.subrange(0, a@.len() as int) == a@);
    assert(b@.subrange(0, b@.len() as int) == b@);
    loop
        invariant
            i <= a.len(),
            i <= b.len(),
            str_lt(a@, b@) == str_lt(a@.subrange(i as int, a@.len() as int), b@.subrange(i as int, b@.len() as int)),
        decreases a.len() - i,
    {
        let ghost sa = a@.subrange(i as int, a@.len() as int);
        let ghost sb = b@.subrange(i as int, b@.len() as int);
        if i == b.len() {
            return false;
        }
        if i == a.len() {
            return true;
        }
        if a[i] != b[i] {
            return a[i] < b[i];
        }
        assert(sa.drop_first() == a@.subrange(i + 1, a@.len() as int));
        assert(sb.drop_first() == b@.subrange(i + 1, b@.len() as int));
        i += 1;
    }
}

/// A map from strings to values, its entries held in key order.
pub struct StrMap<V: View> {
    entries: Vec<(String, V)>,
}

impl<V: View> View for StrMap<V> {
    type V = Map<Seq<char>, V::V>;

    /// The map the entries spell.
    closed spec fn view(&self) -> Map<Seq<char>, V::V> {
        Map::new(
            |k: Seq<char>| self.keys().contains(k),
            |k: Seq<char>| self.values()[self.index_of(k)],
        )
    }
}

impl<V: View> StrMap<V> {
    pub closed spec fn keys_of(e: Seq<(String, V)>) -> Seq<Seq<char>> {
        Seq::new(e.len(), |i: int| e[i].0@)
    }

    pub closed spec fn values_of(e: Seq<(String, V)>) -> Seq<V::V> {
        Seq::new(e.len(), |i: int| e[i].1@)
    }

    /// Keys strictly increasing, so each occurs once.
    pub closed spec fn sorted(e: Seq<(String, V)>) -> bool {
        forall|i: int, j: int|
            0 <= i < j < e.len() ==> str_lt(
                #[trigger] Self::keys_of(e)[i],
                #[trigger] Self::keys_of(e)[j],
            )
    }

    /// The keys, in the order they are held.
    pub closed spec fn keys(&self) -> Seq<Seq<char>> {
        Self::keys_of(self.entries@)
    }

    /// The values' views, in the order they are held.
    pub closed spec fn values(&self) -> Seq<V::V> {
        Self::values_of(self.entries@)
    }

    /// What every map holds to: keys in increasing order, so each occurs once.
    #[verifier::type_invariant]
    pub closed spec fn wf(&self) -> bool {
        Self::sorted(self.entries@)
    }


    /// Where `k` is held, for a key that is held.
    pub closed spec fn index_of(&self, k: Seq<char>) -> int {
        choose|i: int| 0 <= i < self.keys().len() && self.keys()[i] == k
    }

    pub closed spec fn spec_len(&self) -> nat {
        self.entries@.len()
    }

    pub proof fn lemma_keys_len(&self)
        ensures
            self.keys().len() == self.spec_len(),
            self.values().len() == self.spec_len(),
    {
    }

    /// In a well-formed map, the entry at `i` is what the map says of its key.
    pub proof fn lemma_at(&self, i: int)
        requires
            self.wf(),
            0 <= i < self.spec_len(),
        ensures
            self.view().contains_key(self.keys()[i]),
            self.view()[self.keys()[i]] == self.values()[i],
    {
        let k = self.keys()[i];
        assert(self.keys().contains(k));
        let j = self.index_of(k);
        if j != i {
            if j < i {
                assert(str_lt(self.keys()[j], self.keys()[i]));
            } else {
                assert(str_lt(self.keys()[i], self.keys()[j]));
            }
            lemma_lt_irreflexive(k);
        }
    }

    /// Well-formedness makes the key order the map's own: the key list is the
    /// map's domain, sorted.
    pub proof fn lemma_dom(&self, k: Seq<char>)
        ensures
            self.view().contains_key(k) <==> exists|i: int| 0 <= i < self.spec_len() && self.keys()[i] == k,
    {
        if self.view().contains_key(k) {
            let i = choose|i: int| 0 <= i < self.keys().len() && self.keys()[i] == k;
        }
    }

    /// An empty map.
    pub fn new() -> (m: Self)
        ensures
            m.wf(),
            m.view() == Map::<Seq<char>, V::V>::empty(),
            m.spec_len() == 0,
    {
        let m = StrMap { entries: Vec::new() };
        assert(m.view() =~= Map::<Seq<char>, V::V>::empty());
        m
    }

    /// How many keys the map holds.
    pub fn len(&self) -> (n: usize)
        ensures
            n == self.spec_len(),
    {
        self.entries.len()
    }

    /// Whether the map holds nothing.
    pub fn is_empty(&self) -> (b: bool)
        ensures
            b == (self.spec_len() == 0),
    {
        self.entries.len() == 0
    }

    /// The key of the `i`-th entry in key order.
    pub fn key_at(&self, i: usize) -> (k: &String)
        requires
            i < self.spec_len(),
        ensures
            k@ == self.keys()[i as int],
    {
        &self.entries[i].0
    }

    /// The value of the `i`-th entry in key order.
    pub fn value_at(&self, i: usize) -> (v: &V)
        requires
            i < self.spec_len(),
        ensures
            v@ == self.values()[i as int],
    {
        &self.entries[i].1
    }

    /// The values, in key order.
    pub fn into_values(self) -> (r: Vec<V>)
        ensures
            r@.map_values(|v: V| v@) == self.values(),
    {
        let mut out: Vec<V> = Vec::new();
        let mut entries = self.entries;
        let ghost all = Self::values_of(entries@);
        let ghost n = entries@.len();
        while entries.len() > 0
            invariant
                all.len() == n,
                entries@.len() + out@.len() == n,
                Self::values_of(entries@) == all.subrange(out@.len() as int, n as int),
                out@.map_values(|v: V| v@) == all.subrange(0, out@.len() as int),
            decreases entries.len(),
        {
            let ghost before = entries@;
            let ghost k = out@.len();
            assert(Self::values_of(before)[0] == before[0].1@);
            assert(all.subrange(k as int, n as int)[0] == all[k as int]);
            let (_, v) = entries.remove(0);
            assert(all[k as int] == v@);
            assert forall|j: int| 0 <= j < entries@.len() implies Self::values_of(entries@)[j] == all.subrange(k as int + 1, n as int)[j] by {
                assert(Self::values_of(before)[j + 1] == before[j + 1].1@);
                assert(all.subrange(k as int, n as int)[j + 1] == all[k + j + 1]);
            }
            out.push(v);
            assert(out@.map_values(|v: V| v@) =~= all.subrange(0, out@.len() as int));
            assert(Self::values_of(entries@) =~= all.subrange(out@.len() as int, n as int));
        }
        assert(all.subrange(0, n as int) == all);
        out
    }

    /// The keys, in order.
    pub fn key_list(&self) -> (r: Vec<String>)
        ensures
            r@.map_values(|k: String| k@) == self.keys(),
    {
        let mut out: Vec<String> = Vec::new();
        let mut i: usize = 0;
        while i < self.entries.len()
            invariant
                i <= self.entries.len(),
                out@.map_values(|k: String| k@) == self.keys().take(i as int),
            decreases self.entries.len() - i,
        {
            assert(self.keys()[i as int] == self.entries@[i as int].0@);
            let c = self.entries[i].0.clone();
            assert(c@ == self.keys()[i as int]);
            let ghost prev = out@;
            out.push(c);
            assert(out@.map_values(|k: String| k@) =~= prev.map_values(|k: String| k@).push(c@));
            assert(self.keys().take(i + 1) =~= self.keys().take(i as int).push(self.keys()[i as int]));
            i += 1;
        }
        assert(self.keys().take(i as int) == self.keys());
        out
    }

    /// Where `key` is held, if it is.
    fn position(&self, key: &Vec<char>) -> (r: Option<usize>)
        ensures
            match r {
                Some(i) => i < self.spec_len() && self.keys()[i as int] == key@,
                None => !self.view().contains_key(key@),
            },
    {
        let mut i: usize = 0;
        while i < self.entries.len()
            invariant
                i <= self.entries.len(),
                forall|j: int| 0 <= j < i ==> self.keys()[j] != key@,
            decreases self.entries.len() - i,
        {
            let k = chars_of(self.entries[i].0.as_str());
            if same(&k, key) {
                return Some(i);
            }
            i += 1;
        }
        proof {
            use_type_invariant(self);
            self.lemma_dom(key@);
        }
        None
    }

    /// The value held under `key`.
    pub fn get(&self, key: &str) -> (r: Option<&V>)
        ensures
            match r {
                Some(v) => self.view().contains_key(key@) && self.view()[key@] == v@,
                None => !self.view().contains_key(key@),
            },
    {
        let k = chars_of(key);
        match self.position(&k) {
            Some(i) => {
                proof {
                    use_type_invariant(self);
                    self.lemma_at(i as int);
                }
                Some(&self.entries[i].1)
            },
            None => None,
        }
    }

    /// Whether `key` is held.
    pub fn contains_key(&self, key: &str) -> (b: bool)
        ensures
            b == self.view().contains_key(key@),
    {
        let k = chars_of(key);
        self.position(&k).is_some()
    }

    /// Puts `value` under `key`, and gives back what was there before.
    pub fn insert(&mut self, key: String, value: V) -> (old_value: Option<V>)
        ensures
            final(self)@ == old(self)@.insert(key@, value@),
            match old_value {
                Some(v) => old(self)@.contains_key(key@) && old(self)@[key@] == v@,
                None => !old(self)@.contains_key(key@),
            },
    {
        proof {
            use_type_invariant(&*self);
        }
        let kc = chars_of(key.as_str());
        let mut entries: Vec<(String, V)> = Vec::new();
        std::mem::swap(&mut entries, &mut self.entries);
        let ghost old_keys = Self::keys_of(entries@);
        let ghost old_vals = Self::values_of(entries@);
        assert(old_keys == old(self).keys());
        let mut i: usize = 0;
        while i < entries.len()
            invariant
                i <= entries.len(),
                Self::keys_of(entries@) == old_keys,
                Self::values_of(entries@) == old_vals,
                Self::sorted(entries@),
                forall|j: int| 0 <= j < i ==> str_lt(#[trigger] old_keys[j], kc@),
            ensures
                i <= entries.len(),
                Self::keys_of(entries@) == old_keys,
                Self::values_of(entries@) == old_vals,
                forall|j: int| 0 <= j < i ==> str_lt(#[trigger] old_keys[j], kc@),
                i < entries.len() ==> !str_lt(old_keys[i as int], kc@),
            decreases entries.len() - i,
        {
            let ki = chars_of(entries[i].0.as_str());
            if !less(&ki, &kc) {
                break;
            }
            i += 1;
        }
        if i < entries.len() {
            let ki = chars_of(entries[i].0.as_str());
            if same(&ki, &kc) {
                proof {
                    old(self).lemma_at(i as int);
                }
                let (_, old_v) = entries.remove(i);
                entries.insert(i, (key, value));
                proof {
                    assert(Self::keys_of(entries@) =~= old_keys);
                    assert(Self::values_of(entries@) =~= old_vals.update(i as int, value@));
                    assert forall|a: int, b: int| 0 <= a < b < entries@.len() implies str_lt(
                        #[trigger] Self::keys_of(entries@)[a],
                        #[trigger] Self::keys_of(entries@)[b],
                    ) by {
                        assert(old(self).keys()[a] == old_keys[a]);
                        assert(old(self).keys()[b] == old_keys[b]);
                    }
                }
                self.entries = entries;
                proof {
                    self.lemma_view_after_insert(*old(self), i as int, key@, value@, true);
                }
                return Some(old_v);
            }
            proof {
                lemma_lt_total(ki@, kc@);
            }
        }
        proof {
            assert(!old(self)@.contains_key(key@)) by {
                old(self).lemma_dom(key@);
                if old(self)@.contains_key(key@) {
                    let j = choose|j: int| 0 <= j < old(self).spec_len() && old(self).keys()[j] == key@;
                    if j < i {
                        lemma_lt_irreflexive(key@);
                    } else {
                        if j > i {
                            assert(str_lt(old_keys[i as int], old_keys[j]));
                            lemma_lt_transitive(key@, old_keys[i as int], old_keys[j]);
                        }
                        lemma_lt_irreflexive(key@);
                    }
                }
            }
        }
        entries.insert(i, (key, value));
        proof {
            assert(Self::keys_of(entries@) =~= old_keys.insert(i as int, kc@));
            assert(Self::values_of(entries@) =~= old_vals.insert(i as int, value@));
            assert forall|a: int, b: int| 0 <= a < b < entries@.len() implies str_lt(
                #[trigger] Self::keys_of(entries@)[a],
                #[trigger] Self::keys_of(entries@)[b],
            ) by {
                if b < i {
                    assert(str_lt(old_keys[a], old_keys[b]));
                } else if b == i {
                } else if a < i {
                    assert(str_lt(old_keys[a], kc@));
                    if b - 1 > i {
                        assert(str_lt(old_keys[i as int], old_keys[b - 1]));
                        lemma_lt_transitive(kc@, old_keys[i as int], old_keys[b - 1]);
                    }
                    lemma_lt_transitive(old_keys[a], kc@, old_keys[b - 1]);
                } else if a == i {
                    if b - 1 > i {
                        assert(str_lt(old_keys[i as int], old_keys[b - 1]));
                        lemma_lt_transitive(kc@, old_keys[i as int], old_keys[b - 1]);
                    }
                } else {
                    assert(str_lt(old_keys[a - 1], old_keys[b - 1]));
                }
            }
        }
        self.entries = entries;
        proof {
            self.lemma_view_after_insert(*old(self), i as int, key@, value@, false);
        }
        None
    }

    proof fn lemma_view_after_insert(&self, o: Self, i: int, k: Seq<char>, v: V::V, replaced: bool)
        requires
            self.wf(),
            o.wf(),
            0 <= i <= o.spec_len(),
            replaced ==> i < o.spec_len() && o.keys()[i] == k && self.keys() == o.keys()
                && self.values() == o.values().update(i, v),
            !replaced ==> self.keys() == o.keys().insert(i, k) && self.values() == o.values().insert(i, v),
        ensures
            self.view() == o.view().insert(k, v),
    {
        let nk = self.keys();
        let ok = o.keys();
        assert forall|q: Seq<char>| #[trigger] self.view().contains_key(q) == o.view().insert(k, v).contains_key(q) by {
            if q == k {
                assert(nk[i] == k);
            } else if ok.contains(q) {
                let j = choose|j: int| 0 <= j < ok.len() && ok[j] == q;
                if replaced || j < i {
                    assert(nk[j] == q);
                } else {
                    assert(nk[j + 1] == q);
                }
            } else if nk.contains(q) {
                let j = choose|j: int| 0 <= j < nk.len() && nk[j] == q;
                if replaced || j < i {
                    assert(ok[j] == q);
                } else {
                    assert(ok[j - 1] == q);
                }
            }
        }
        assert forall|q: Seq<char>| #[trigger] self.view().contains_key(q) implies self.view()[q] == o.view().insert(k, v)[q] by {
            let j = choose|j: int| 0 <= j < nk.len() && nk[j] == q;
            self.lemma_at(j);
            if q == k {
                if j != i {
                    if j < i {
                        assert(str_lt(nk[j], nk[i]));
                    } else {
                        assert(str_lt(nk[i], nk[j]));
                    }
                    lemma_lt_irreflexive(k);
                }
            } else {
                let oj = if replaced || j < i { j } else { j - 1 };
                assert(ok[oj] == q);
                o.lemma_at(oj);
            }
        }
        assert(self.view() =~= o.view().insert(k, v));
    }
}

} // verus!
