//! An item: one row or object of the tracked file, a map from column
//! names to JSON values kept in key order.
use vstd::prelude::*;
use crate::json::JsonValue;
use crate::text::{str_lt, str_less, lemma_str_lt_order};

verus! {

/// Keys strictly increasing in Rust's string order (so also distinct).
pub open spec fn keys_sorted(e: Seq<(Seq<char>, Seq<char>)>) -> bool {
    forall|i: int, j: int| 0 <= i < j < e.len() ==> str_lt(#[trigger] e[i].0, #[trigger] e[j].0)
}

/// The map that a sequence of (key, value) entries with distinct keys stands for.
pub open spec fn map_of(e: Seq<(Seq<char>, Seq<char>)>) -> Map<Seq<char>, Seq<char>> {
    Map::new(
        |k: Seq<char>| exists|i: int| 0 <= i < e.len() && #[trigger] e[i].0 == k,
        |k: Seq<char>| e[key_index(e, k)].1,
    )
}

/// Where key `k` stands among the entries, if it does.
pub open spec fn key_index(e: Seq<(Seq<char>, Seq<char>)>, k: Seq<char>) -> int {
    choose|i: int| 0 <= i < e.len() && #[trigger] e[i].0 == k
}

/// Sorted entries have distinct keys, and each entry is what the map holds at its key.
pub proof fn lemma_map_of_sorted(e: Seq<(Seq<char>, Seq<char>)>, i: int)
    requires
        keys_sorted(e),
        0 <= i < e.len(),
    ensures
        map_of(e).contains_key(e[i].0),
        map_of(e)[e[i].0] == e[i].1,
{
    let k = e[i].0;
    assert(exists|j: int| 0 <= j < e.len() && #[trigger] e[j].0 == k);
    let j = key_index(e, k);
    if j != i {
        lemma_str_lt_order(k, k, k);
        if j < i {
            assert(str_lt(e[j].0, e[i].0));
        } else {
            assert(str_lt(e[i].0, e[j].0));
        }
    }
    assert(map_of(e).contains_key(k));
    assert(map_of(e)[k] == e[j].1);
}

/// Two key-sorted entry sequences that stand for the same map are equal:
/// the sorted entries are determined by the map.
pub proof fn lemma_sorted_entries_unique(a: Seq<(Seq<char>, Seq<char>)>, b: Seq<(Seq<char>, Seq<char>)>)
    requires
        keys_sorted(a),
        keys_sorted(b),
        map_of(a) == map_of(b),
    ensures
        a == b,
    decreases a.len() + b.len(),
{
    if a.len() == 0 {
        if b.len() > 0 {
            lemma_map_of_sorted(b, 0);
            assert(map_of(a).contains_key(b[0].0));
        }
        assert(a =~= b);
    } else if b.len() == 0 {
        lemma_map_of_sorted(a, 0);
        assert(map_of(b).contains_key(a[0].0));
    } else {
        let ka = a[0].0;
        let kb = b[0].0;
        lemma_map_of_sorted(a, 0);
        lemma_map_of_sorted(b, 0);
        assert(map_of(b).contains_key(ka));
        assert(map_of(a).contains_key(kb));
        let jb = choose|j: int| 0 <= j < b.len() && #[trigger] b[j].0 == ka;
        let ja = choose|j: int| 0 <= j < a.len() && #[trigger] a[j].0 == kb;
        if ka != kb {
            lemma_str_lt_order(ka, kb, ka);
            assert(jb != 0);
            assert(ja != 0);
            assert(str_lt(b[0].0, b[jb].0));
            assert(str_lt(a[0].0, a[ja].0));
        }
        assert(a[0] == b[0]);
        let ta = a.drop_first();
        let tb = b.drop_first();
        assert(keys_sorted(ta)) by {
            assert forall|i: int, j: int| 0 <= i < j < ta.len() implies str_lt(#[trigger] ta[i].0, #[trigger] ta[j].0) by {
                assert(ta[i] == a[i + 1]);
                assert(ta[j] == a[j + 1]);
            }
        }
        assert(keys_sorted(tb)) by {
            assert forall|i: int, j: int| 0 <= i < j < tb.len() implies str_lt(#[trigger] tb[i].0, #[trigger] tb[j].0) by {
                assert(tb[i] == b[i + 1]);
                assert(tb[j] == b[j + 1]);
            }
        }
        assert(map_of(ta) =~= map_of(tb)) by {
            assert forall|k: Seq<char>| #[trigger] map_of(ta).contains_key(k) implies map_of(tb).contains_key(k) && map_of(ta)[k] == map_of(tb)[k] by {
                let i = choose|i: int| 0 <= i < ta.len() && #[trigger] ta[i].0 == k;
                lemma_map_of_sorted(ta, i);
                assert(a[i + 1] == ta[i]);
                lemma_map_of_sorted(a, i + 1);
                assert(k != ka) by {
                    lemma_str_lt_order(ka, k, k);
                    assert(str_lt(a[0].0, a[i + 1].0));
                }
                assert(map_of(b).contains_key(k));
                let m = choose|m: int| 0 <= m < b.len() && #[trigger] b[m].0 == k;
                assert(m != 0);
                assert(tb[m - 1] == b[m]);
                lemma_map_of_sorted(b, m);
                lemma_map_of_sorted(tb, m - 1);
            }
            assert forall|k: Seq<char>| #[trigger] map_of(tb).contains_key(k) implies map_of(ta).contains_key(k) by {
                let i = choose|i: int| 0 <= i < tb.len() && #[trigger] tb[i].0 == k;
                assert(b[i + 1] == tb[i]);
                lemma_map_of_sorted(b, i + 1);
                assert(k != kb) by {
                    lemma_str_lt_order(kb, k, k);
                    assert(str_lt(b[0].0, b[i + 1].0));
                }
                assert(map_of(a).contains_key(k));
                let m = choose|m: int| 0 <= m < a.len() && #[trigger] a[m].0 == k;
                assert(m != 0);
                assert(ta[m - 1] == a[m]);
            }
        }
        lemma_sorted_entries_unique(ta, tb);
        assert(a =~= seq![a[0]] + ta);
        assert(b =~= seq![b[0]] + tb);
    }
}

/// Inserting a new key at the position that keeps the keys sorted.
proof fn lemma_insert_at(e: Seq<(Seq<char>, Seq<char>)>, p: int, k: Seq<char>, v: Seq<char>)
    requires
        keys_sorted(e),
        0 <= p <= e.len(),
        forall|i: int| 0 <= i < p ==> str_lt(#[trigger] e[i].0, k),
        p < e.len() ==> str_lt(k, e[p].0),
    ensures
        keys_sorted(e.insert(p, (k, v))),
        map_of(e.insert(p, (k, v))) == map_of(e).insert(k, v),
{
    let n = e.insert(p, (k, v));
    assert forall|i: int, j: int| 0 <= i < j < n.len() implies str_lt(#[trigger] n[i].0, #[trigger] n[j].0) by {
        if j < p {
            assert(n[i] == e[i] && n[j] == e[j]);
        } else if j == p {
            assert(n[i] == e[i]);
        } else if i < p {
            assert(n[i] == e[i] && n[j] == e[j - 1]);
            lemma_str_lt_order(e[i].0, k, e[p].0);
            if j - 1 > p {
                lemma_str_lt_order(e[i].0, e[p].0, e[j - 1].0);
            }
        } else if i == p {
            assert(n[j] == e[j - 1]);
            if j - 1 > p {
                lemma_str_lt_order(k, e[p].0, e[j - 1].0);
            }
        } else {
            assert(n[i] == e[i - 1] && n[j] == e[j - 1]);
        }
    }
    assert(map_of(n) =~= map_of(e).insert(k, v)) by {
        assert forall|k2: Seq<char>| #[trigger] map_of(n).contains_key(k2) implies map_of(e).insert(k, v).contains_key(k2) && map_of(n)[k2] == map_of(e).insert(k, v)[k2] by {
            let i = key_index(n, k2);
            lemma_map_of_sorted(n, i);
            if i < p {
                assert(n[i] == e[i]);
                lemma_map_of_sorted(e, i);
                lemma_str_lt_order(k2, k, k);
            } else if i > p {
                assert(n[i] == e[i - 1]);
                lemma_map_of_sorted(e, i - 1);
                lemma_str_lt_order(k, k2, k);
                if i - 1 > p {
                    lemma_str_lt_order(k, e[p].0, k2);
                }
            }
        }
        assert forall|k2: Seq<char>| #[trigger] map_of(e).insert(k, v).contains_key(k2) implies map_of(n).contains_key(k2) by {
            if k2 == k {
                assert(n[p].0 == k);
            } else {
                let j = key_index(e, k2);
                if j < p {
                    assert(n[j] == e[j]);
                } else {
                    assert(n[j + 1] == e[j]);
                }
            }
        }
    }
}

/// Replacing the value of a key that is present.
proof fn lemma_update_at(e: Seq<(Seq<char>, Seq<char>)>, p: int, k: Seq<char>, v: Seq<char>)
    requires
        keys_sorted(e),
        0 <= p < e.len(),
        e[p].0 == k,
    ensures
        keys_sorted(e.update(p, (k, v))),
        map_of(e.update(p, (k, v))) == map_of(e).insert(k, v),
{
    let n = e.update(p, (k, v));
    assert forall|i: int, j: int| 0 <= i < j < n.len() implies str_lt(#[trigger] n[i].0, #[trigger] n[j].0) by {
        assert(n[i].0 == e[i].0 && n[j].0 == e[j].0);
    }
    assert(map_of(n) =~= map_of(e).insert(k, v)) by {
        assert forall|k2: Seq<char>| #[trigger] map_of(n).contains_key(k2) implies map_of(e).insert(k, v).contains_key(k2) && map_of(n)[k2] == map_of(e).insert(k, v)[k2] by {
            let i = key_index(n, k2);
            lemma_map_of_sorted(n, i);
            if i != p {
                assert(n[i] == e[i]);
                lemma_map_of_sorted(e, i);
                lemma_str_lt_order(k2, k2, k2);
                if i < p {
                    assert(str_lt(e[i].0, e[p].0));
                } else {
                    assert(str_lt(e[p].0, e[i].0));
                }
                assert(k2 != k);
            }
        }
        assert forall|k2: Seq<char>| #[trigger] map_of(e).insert(k, v).contains_key(k2) implies map_of(n).contains_key(k2) by {
            if k2 == k {
                assert(n[p].0 == k);
            } else {
                let j = key_index(e, k2);
                assert(n[j].0 == e[j].0);
            }
        }
    }
}

/// Whether two strings are equal.
pub fn str_eq(a: &str, b: &str) -> (r: bool)
    ensures
        r == (a@ == b@),
{
    proof {
        lemma_str_lt_order(a@, b@, a@);
    }
    !str_less(a, b) && !str_less(b, a)
}

/// The map that results from inserting the entries in order: a later entry
/// replaces an earlier one with the same key.
pub open spec fn map_from_entries(e: Seq<(Seq<char>, Seq<char>)>) -> Map<Seq<char>, Seq<char>>
    decreases e.len(),
{
    if e.len() == 0 {
        Map::empty()
    } else {
        map_from_entries(e.drop_last()).insert(e.last().0, e.last().1)
    }
}

/// The views of a sequence of items.
pub open spec fn item_views(v: Seq<Item>) -> Seq<Map<Seq<char>, Seq<char>>> {
    v.map_values(|i: Item| i@)
}

/// Every item is well-formed.
pub open spec fn all_wf(v: Seq<Item>) -> bool {
    forall|i: int| 0 <= i < v.len() ==> #[trigger] v[i].wf()
}

/// The key-sorted entries of a map (meaningful for finite maps).
pub open spec fn canonical_entries(m: Map<Seq<char>, Seq<char>>) -> Seq<(Seq<char>, Seq<char>)> {
    choose|e: Seq<(Seq<char>, Seq<char>)>| keys_sorted(e) && map_of(e) == m
}

/// A well-formed item holds exactly the key-sorted entries of its map.
pub proof fn lemma_entries_canonical(item: &Item)
    requires
        item.wf(),
    ensures
        item.entries() == canonical_entries(item@),
{
    let e = item.entries();
    assert(keys_sorted(e) && map_of(e) == item@);
    let c = canonical_entries(item@);
    lemma_sorted_entries_unique(e, c);
}

/// A map from column names to JSON values, iterated in key order.
#[derive(Debug, Clone, PartialEq, Eq)]
pub struct Item {
    fields: Vec<(String, JsonValue)>,
}

impl Item {
    /// The entries, in the order the item holds them.
    pub closed spec fn entries(&self) -> Seq<(Seq<char>, Seq<char>)> {
        self.fields@.map_values(|p: (String, JsonValue)| (p.0@, p.1@))
    }

    /// Well-formed: keys strictly increasing.
    pub open spec fn wf(&self) -> bool {
        keys_sorted(self.entries())
    }
}

impl Item {
    /// The empty item.
    pub fn new() -> (r: Item)
        ensures
            r.wf(),
            r@ == Map::<Seq<char>, Seq<char>>::empty(),
            r.entries().len() == 0,
    {
        let r = Item { fields: Vec::new() };
        assert(r@ =~= Map::<Seq<char>, Seq<char>>::empty());
        r
    }

    /// Number of entries.
    pub fn len(&self) -> (n: usize)
        ensures
            n == self.entries().len(),
    {
        self.fields.len()
    }

    /// The key of the `i`-th entry in key order.
    pub fn key_at(&self, i: usize) -> (k: &String)
        requires
            i < self.entries().len(),
        ensures
            k@ == self.entries()[i as int].0,
    {
        &self.fields[i].0
    }

    /// The value of the `i`-th entry in key order.
    pub fn value_at(&self, i: usize) -> (v: &JsonValue)
        requires
            i < self.entries().len(),
        ensures
            v@ == self.entries()[i as int].1,
    {
        &self.fields[i].1
    }

    /// The value under `key`, if there is one.
    pub fn get(&self, key: &str) -> (r: Option<&JsonValue>)
        requires
            self.wf(),
        ensures
            match r {
                Some(v) => self@.contains_key(key@) && v@ == self@[key@],
                None => !self@.contains_key(key@),
            },
    {
        let mut i: usize = 0;
        while i < self.fields.len()
            invariant
                self.wf(),
                i <= self.entries().len(),
                forall|j: int| 0 <= j < i ==> #[trigger] self.entries()[j].0 != key@,
            decreases self.entries().len() - i,
        {
            if str_eq(self.fields[i].0.as_str(), key) {
                proof {
                    lemma_map_of_sorted(self.entries(), i as int);
                }
                return Some(&self.fields[i].1);
            }
            i = i + 1;
        }
        None
    }

    /// Sets the value under `key`, replacing any earlier one.
    pub fn insert(&mut self, key: String, value: JsonValue)
        requires
            old(self).wf(),
        ensures
            final(self).wf(),
            final(self)@ == old(self)@.insert(key@, value@),
    {
        let ghost e = self.entries();
        let mut p: usize = 0;
        while p < self.fields.len() && str_less(self.fields[p].0.as_str(), key.as_str())
            invariant
                self.entries() == e,
                keys_sorted(e),
                p <= e.len(),
                forall|i: int| 0 <= i < p ==> str_lt(#[trigger] e[i].0, key@),
            decreases e.len() - p,
        {
            p = p + 1;
        }
        let ghost kv = (key@, value@);
        if p < self.fields.len() && str_eq(self.fields[p].0.as_str(), key.as_str()) {
            self.fields.set(p, (key, value));
            proof {
                lemma_update_at(e, p as int, kv.0, kv.1);
                assert(self.entries() =~= e.update(p as int, kv));
            }
        } else {
            proof {
                if p < e.len() {
                    lemma_str_lt_order(e[p as int].0, kv.0, kv.0);
                }
                lemma_insert_at(e, p as int, kv.0, kv.1);
            }
            self.fields.insert(p, (key, value));
            assert(self.entries() =~= e.insert(p as int, kv));
        }
    }

    /// The item holding the given entries, a later entry replacing an
    /// earlier one with the same key.
    pub fn from_entries(entries: &Vec<(String, JsonValue)>) -> (r: Item)
        ensures
            r.wf(),
            r@ == map_from_entries(entries@.map_values(|p: (String, JsonValue)| (p.0@, p.1@))),
    {
        let ghost ev = entries@.map_values(|p: (String, JsonValue)| (p.0@, p.1@));
        let mut r = Item::new();
        assert(r@ =~= map_from_entries(ev.take(0)));
        let mut i: usize = 0;
        while i < entries.len()
            invariant
                i <= entries@.len(),
                ev == entries@.map_values(|p: (String, JsonValue)| (p.0@, p.1@)),
                r.wf(),
                r@ == map_from_entries(ev.take(i as int)),
            decreases entries@.len() - i,
        {
            let k = entries[i].0.clone();
            let v = entries[i].1.duplicate();
            assert((k@, v@) == ev[i as int]);
            assert(ev.take(i + 1).drop_last() =~= ev.take(i as int));
            r.insert(k, v);
            i = i + 1;
        }
        assert(ev.take(entries@.len() as int) =~= ev);
        r
    }

    /// A copy of the item.
    pub fn duplicate(&self) -> (r: Item)
        ensures
            r.entries() == self.entries(),
            r@ == self@,
    {
        let mut fields: Vec<(String, JsonValue)> = Vec::new();
        let mut i: usize = 0;
        while i < self.fields.len()
            invariant
                i <= self.fields@.len(),
                fields@.map_values(|p: (String, JsonValue)| (p.0@, p.1@)) == self.entries().take(i as int),
            decreases self.fields@.len() - i,
        {
            let ghost before = fields@;
            let k = self.fields[i].0.clone();
            let v = self.fields[i].1.duplicate();
            let ghost kv = (k@, v@);
            fields.push((k, v));
            assert(fields@.map_values(|p: (String, JsonValue)| (p.0@, p.1@))
                =~= before.map_values(|p: (String, JsonValue)| (p.0@, p.1@)).push(kv));
            assert(self.entries().take(i + 1) =~= self.entries().take(i as int).push(kv));
            i = i + 1;
        }
        assert(self.entries().take(self.fields@.len() as int) =~= self.entries());
        Item { fields }
    }

    /// The keys, in key order.
    pub fn keys(&self) -> (ks: Vec<String>)
        ensures
            ks@.len() == self.entries().len(),
            forall|i: int| 0 <= i < ks@.len() ==> #[trigger] ks@[i]@ == self.entries()[i].0,
    {
        let mut ks: Vec<String> = Vec::new();
        let mut i: usize = 0;
        while i < self.fields.len()
            invariant
                i <= self.entries().len(),
                ks@.len() == i,
                forall|j: int| 0 <= j < i ==> #[trigger] ks@[j]@ == self.entries()[j].0,
            decreases self.entries().len() - i,
        {
            ks.push(self.fields[i].0.clone());
            i = i + 1;
        }
        ks
    }
}

impl View for Item {
    type V = Map<Seq<char>, Seq<char>>;

    open spec fn view(&self) -> Map<Seq<char>, Seq<char>> {
        map_of(self.entries())
    }
}

} // verus!
