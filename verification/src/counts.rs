//! A table from item names to counts, kept as an association list whose
//! names are pairwise distinct.

use vstd::prelude::*;
use crate::text::{owned, str_eq};

verus! {

/// The map that a sequence of `(name, count)` entries stands for.
pub open spec fn entries_map(s: Seq<(String, u32)>) -> Map<Seq<char>, u32>
    decreases s.len(),
{
    if s.len() == 0 {
        Map::empty()
    } else {
        entries_map(s.drop_last()).insert(s.last().0@, s.last().1)
    }
}

/// No two entries carry the same name.
pub open spec fn distinct_names(s: Seq<(String, u32)>) -> bool {
    forall|i: int, j: int| 0 <= i < j < s.len() ==> s[i].0@ != s[j].0@
}

/// The entry at `i` is what the map holds under its name.
pub proof fn lemma_entries_map_index(s: Seq<(String, u32)>, i: int)
    requires
        distinct_names(s),
        0 <= i < s.len(),
    ensures
        entries_map(s).contains_key(s[i].0@),
        entries_map(s)[s[i].0@] == s[i].1,
    decreases s.len(),
{
    if i < s.len() - 1 {
        lemma_entries_map_index(s.drop_last(), i);
    }
}

/// A name that no entry carries is absent from the map.
pub proof fn lemma_entries_map_absent(s: Seq<(String, u32)>, k: Seq<char>)
    requires
        forall|i: int| 0 <= i < s.len() ==> s[i].0@ != k,
    ensures
        !entries_map(s).contains_key(k),
    decreases s.len(),
{
    if s.len() > 0 {
        lemma_entries_map_absent(s.drop_last(), k);
    }
}

/// The map's keys are exactly the entries' names.
pub proof fn lemma_entries_map_dom(s: Seq<(String, u32)>, k: Seq<char>)
    ensures
        entries_map(s).contains_key(k) <==> exists|i: int| 0 <= i < s.len() && s[i].0@ == k,
    decreases s.len(),
{
    if s.len() > 0 {
        lemma_entries_map_dom(s.drop_last(), k);
        if entries_map(s).contains_key(k) && s.last().0@ != k {
            let i = choose|i: int| 0 <= i < s.len() - 1 && s.drop_last()[i].0@ == k;
            assert(s[i].0@ == k);
        }
        if exists|i: int| 0 <= i < s.len() && s[i].0@ == k {
            let i = choose|i: int| 0 <= i < s.len() && s[i].0@ == k;
            if i < s.len() - 1 {
                assert(s.drop_last()[i].0@ == k);
            }
        }
    }
}

/// With distinct names, the map has as many keys as there are entries.
pub proof fn lemma_entries_map_len(s: Seq<(String, u32)>)
    requires
        distinct_names(s),
    ensures
        entries_map(s).dom().finite(),
        entries_map(s).len() == s.len(),
    decreases s.len(),
{
    if s.len() > 0 {
        lemma_entries_map_len(s.drop_last());
        lemma_entries_map_absent(s.drop_last(), s.last().0@);
    }
}

/// Two entry sequences with distinct names that agree entry by entry on the
/// map give the same map.
pub proof fn lemma_entries_map_update(s: Seq<(String, u32)>, i: int, v: u32)
    requires
        distinct_names(s),
        0 <= i < s.len(),
    ensures
        distinct_names(s.update(i, (s[i].0, v))),
        entries_map(s.update(i, (s[i].0, v))) == entries_map(s).insert(s[i].0@, v),
    decreases s.len(),
{
    let t = s.update(i, (s[i].0, v));
    if i < s.len() - 1 {
        lemma_entries_map_update(s.drop_last(), i, v);
        assert(t.drop_last() =~= s.drop_last().update(i, (s[i].0, v)));
        assert(entries_map(t) =~= entries_map(s).insert(s[i].0@, v));
    } else {
        assert(t.drop_last() =~= s.drop_last());
        lemma_entries_map_absent(s.drop_last(), s[i].0@);
        assert(entries_map(t) =~= entries_map(s).insert(s[i].0@, v));
    }
}

/// Removing the entry at `i` removes its name from the map.
pub proof fn lemma_entries_map_remove(s: Seq<(String, u32)>, i: int)
    requires
        distinct_names(s),
        0 <= i < s.len(),
    ensures
        distinct_names(s.remove(i)),
        entries_map(s.remove(i)) == entries_map(s).remove(s[i].0@),
    decreases s.len(),
{
    let t = s.remove(i);
    if i < s.len() - 1 {
        lemma_entries_map_remove(s.drop_last(), i);
        assert(t.drop_last() =~= s.drop_last().remove(i));
        assert(t.last() == s.last());
        assert(entries_map(t) =~= entries_map(s).remove(s[i].0@));
    } else {
        assert(t =~= s.drop_last());
        lemma_entries_map_absent(s.drop_last(), s[i].0@);
        assert(entries_map(t) =~= entries_map(s).remove(s[i].0@));
    }
}

/// A table from item names to counts.
pub struct ItemCounts {
    entries: Vec<(String, u32)>,
}

impl View for ItemCounts {
    type V = Map<Seq<char>, u32>;

    closed spec fn view(&self) -> Map<Seq<char>, u32> {
        entries_map(self.entries@)
    }
}

impl ItemCounts {
    /// The names of the entries are pairwise distinct.
    #[verifier::type_invariant]
    pub closed spec fn inv(self) -> bool {
        distinct_names(self.entries@)
    }

    /// The entries in their stored order.
    pub closed spec fn seq(self) -> Seq<(String, u32)> {
        self.entries@
    }

    /// The stored order lists each key of the map once.
    pub proof fn lemma_seq(self)
        requires
            self.inv(),
        ensures
            distinct_names(self.seq()),
            self@ == entries_map(self.seq()),
            self@.dom().finite(),
            self@.len() == self.seq().len(),
            forall|i: int|
                0 <= i < self.seq().len() ==> #[trigger] self@.contains_key(self.seq()[i].0@)
                    && self@[self.seq()[i].0@] == self.seq()[i].1,
            forall|k: Seq<char>|
                #[trigger] self@.contains_key(k) ==> exists|i: int|
                    0 <= i < self.seq().len() && self.seq()[i].0@ == k,
    {
        lemma_entries_map_len(self.entries@);
        assert forall|i: int| 0 <= i < self.seq().len() implies #[trigger] self@.contains_key(
            self.seq()[i].0@,
        ) && self@[self.seq()[i].0@] == self.seq()[i].1 by {
            lemma_entries_map_index(self.entries@, i);
        }
        assert forall|k: Seq<char>| #[trigger] self@.contains_key(k) implies exists|i: int|
            0 <= i < self.seq().len() && self.seq()[i].0@ == k by {
            lemma_entries_map_dom(self.entries@, k);
            let i = choose|i: int| 0 <= i < self.entries@.len() && self.entries@[i].0@ == k;
            assert(self.seq()[i].0@ == k);
        }
    }

    /// An empty table.
    pub fn new() -> (r: Self)
        ensures
            r@ == Map::<Seq<char>, u32>::empty(),
            r.seq().len() == 0,
    {
        ItemCounts { entries: Vec::new() }
    }

    /// The number of names in the table.
    pub fn len(&self) -> (r: usize)
        ensures
            r == self@.len(),
            r == self.seq().len(),
    {
        proof {
            use_type_invariant(self);
            self.lemma_seq();
        }
        self.entries.len()
    }

    /// The name stored at position `i` of the stored order.
    pub fn name_at(&self, i: usize) -> (r: &String)
        requires
            i < self.seq().len(),
        ensures
            *r == self.seq()[i as int].0,
    {
        &self.entries[i].0
    }

    /// The count stored at position `i` of the stored order.
    pub fn count_at(&self, i: usize) -> (r: u32)
        requires
            i < self.seq().len(),
        ensures
            r == self.seq()[i as int].1,
    {
        self.entries[i].1
    }

    /// The position of `name` in the stored order, if the table holds it.
    pub fn position(&self, name: &str) -> (r: Option<usize>)
        ensures
            match r {
                Some(i) => i < self.seq().len() && self.seq()[i as int].0@ == name@,
                None => !self@.contains_key(name@),
            },
    {
        proof {
            use_type_invariant(self);
        }
        let mut i: usize = 0;
        while i < self.entries.len()
            invariant
                i <= self.entries@.len(),
                forall|j: int| 0 <= j < i ==> self.entries@[j].0@ != name@,
            decreases self.entries@.len() - i,
        {
            if str_eq(self.entries[i].0.as_str(), name) {
                return Some(i);
            }
            i = i + 1;
        }
        proof {
            lemma_entries_map_absent(self.entries@, name@);
        }
        None
    }

    /// The count stored for `name`, if any.
    pub fn get(&self, name: &str) -> (r: Option<u32>)
        ensures
            match r {
                Some(v) => self@.contains_key(name@) && self@[name@] == v,
                None => !self@.contains_key(name@),
            },
    {
        proof {
            use_type_invariant(self);
        }
        match self.position(name) {
            Some(i) => {
                proof {
                    lemma_entries_map_index(self.entries@, i as int);
                }
                Some(self.entries[i].1)
            },
            None => None,
        }
    }

    /// Stores `value` under `name`, replacing any earlier count.
    pub fn insert(&mut self, name: &str, value: u32)
        ensures
            final(self)@ == old(self)@.insert(name@, value),
    {
        proof {
            use_type_invariant(&*self);
        }
        match self.position(name) {
            Some(i) => {
                let ghost s = self.entries@;
                let key = self.entries[i].0.clone();
                proof {
                    lemma_entries_map_update(s, i as int, value);
                }
                let mut e: Vec<(String, u32)> = Vec::new();
                std::mem::swap(&mut e, &mut self.entries);
                e.set(i, (key, value));
                assert(e@ =~= s.update(i as int, (s[i as int].0, value)));
                self.entries = e;
            },
            None => {
                let ghost s = self.entries@;
                let mut e: Vec<(String, u32)> = Vec::new();
                std::mem::swap(&mut e, &mut self.entries);
                e.push((owned(name), value));
                proof {
                    assert(e@.drop_last() =~= s);
                    lemma_entries_map_dom(s, name@);
                }
                self.entries = e;
            },
        }
    }

    /// Removes `name` from the table, if present.
    pub fn remove(&mut self, name: &str)
        ensures
            final(self)@ == old(self)@.remove(name@),
    {
        proof {
            use_type_invariant(&*self);
        }
        match self.position(name) {
            Some(i) => {
                let ghost s = self.entries@;
                proof {
                    lemma_entries_map_remove(s, i as int);
                }
                let mut e: Vec<(String, u32)> = Vec::new();
                std::mem::swap(&mut e, &mut self.entries);
                e.remove(i);
                self.entries = e;
            },
            None => {
                assert(old(self)@.remove(name@) =~= old(self)@);
            },
        }
    }
}

/// A count table read as a map to integers.
pub open spec fn as_ints(m: Map<Seq<char>, u32>) -> Map<Seq<char>, int> {
    Map::new(|k: Seq<char>| m.contains_key(k), |k: Seq<char>| m[k] as int)
}

/// The count of `k` in an integer table; an absent name counts zero.
pub open spec fn count_of(m: Map<Seq<char>, int>, k: Seq<char>) -> int {
    if m.contains_key(k) {
        m[k]
    } else {
        0
    }
}

/// The pointwise sum of two integer tables; a name held by either is held by the sum.
pub open spec fn sum_maps(a: Map<Seq<char>, int>, b: Map<Seq<char>, int>) -> Map<Seq<char>, int> {
    Map::new(
        |k: Seq<char>| a.contains_key(k) || b.contains_key(k),
        |k: Seq<char>| count_of(a, k) + count_of(b, k),
    )
}

/// Every count of the table times `n`; times zero leaves no names at all.
pub open spec fn scale_map(n: nat, a: Map<Seq<char>, int>) -> Map<Seq<char>, int> {
    if n == 0 {
        Map::empty()
    } else {
        Map::new(|k: Seq<char>| a.contains_key(k), |k: Seq<char>| n * a[k])
    }
}

/// Every count of the table fits in a `u32`.
pub open spec fn fits_u32(m: Map<Seq<char>, int>) -> bool {
    forall|k: Seq<char>| #[trigger] m.contains_key(k) ==> 0 <= m[k] <= u32::MAX
}

proof fn lemma_sum_insert(
    start: Map<Seq<char>, int>,
    e: Map<Seq<char>, u32>,
    k: Seq<char>,
    v: u32,
    before: Map<Seq<char>, u32>,
)
    requires
        as_ints(before) == sum_maps(start, as_ints(e)),
        !e.contains_key(k),
        0 <= count_of(start, k) + v <= u32::MAX,
    ensures
        as_ints(before.insert(k, (count_of(start, k) + v) as u32)) == sum_maps(
            start,
            as_ints(e.insert(k, v)),
        ),
{
    let b2 = before.insert(k, (count_of(start, k) + v) as u32);
    let e2 = e.insert(k, v);
    let l = as_ints(b2);
    let r = sum_maps(start, as_ints(e2));
    assert forall|q: Seq<char>| #[trigger] l.contains_key(q) == r.contains_key(q) by {
        assert(l.contains_key(q) == b2.contains_key(q));
        assert(as_ints(e2).contains_key(q) == e2.contains_key(q));
        assert(r.contains_key(q) == (start.contains_key(q) || as_ints(e2).contains_key(q)));
        if q != k {
            assert(as_ints(before).contains_key(q) == before.contains_key(q));
            assert(as_ints(e).contains_key(q) == e.contains_key(q));
            assert(as_ints(before).contains_key(q) == sum_maps(start, as_ints(e)).contains_key(q));
        }
    }
    assert forall|q: Seq<char>| #[trigger] l.contains_key(q) implies l[q] == r[q] by {
        assert(l[q] == b2[q] as int);
        assert(r[q] == count_of(start, q) + count_of(as_ints(e2), q));
        if q != k {
            assert(as_ints(e).contains_key(q) == e.contains_key(q));
            assert(as_ints(before).contains_key(q) == sum_maps(start, as_ints(e)).contains_key(q));
            assert(as_ints(before)[q] == sum_maps(start, as_ints(e))[q]);
            assert(b2[q] == before[q]);
            assert(as_ints(before)[q] == before[q] as int);
            assert(sum_maps(start, as_ints(e))[q] == count_of(start, q) + count_of(as_ints(e), q));
            assert(count_of(as_ints(e2), q) == count_of(as_ints(e), q));
        } else {
            assert(as_ints(e2).contains_key(k));
            assert(count_of(as_ints(e2), q) == v);
            assert(b2[k] == (count_of(start, k) + v) as u32);
        }
    }
    assert(l =~= r);
}

proof fn lemma_scale_insert(
    n: nat,
    e: Map<Seq<char>, u32>,
    k: Seq<char>,
    v: u32,
    out: Map<Seq<char>, u32>,
)
    requires
        n > 0,
        as_ints(out) == scale_map(n, as_ints(e)),
        !e.contains_key(k),
        0 <= n * v <= u32::MAX,
    ensures
        as_ints(out.insert(k, (n * v) as u32)) == scale_map(n, as_ints(e.insert(k, v))),
{
    let o2 = out.insert(k, (n * v) as u32);
    let e2 = e.insert(k, v);
    let l = as_ints(o2);
    let r = scale_map(n, as_ints(e2));
    assert forall|q: Seq<char>| #[trigger] l.contains_key(q) == r.contains_key(q) by {
        assert(l.contains_key(q) == o2.contains_key(q));
        assert(as_ints(e2).contains_key(q) == e2.contains_key(q));
        if q != k {
            assert(as_ints(out).contains_key(q) == out.contains_key(q));
            assert(as_ints(e).contains_key(q) == e.contains_key(q));
            assert(as_ints(out).contains_key(q) == scale_map(n, as_ints(e)).contains_key(q));
        }
    }
    assert forall|q: Seq<char>| #[trigger] l.contains_key(q) implies l[q] == r[q] by {
        assert(l[q] == o2[q] as int);
        if q != k {
            assert(as_ints(e).contains_key(q) == e.contains_key(q));
            assert(as_ints(out).contains_key(q) == scale_map(n, as_ints(e)).contains_key(q));
            assert(as_ints(out)[q] == scale_map(n, as_ints(e))[q]);
            assert(o2[q] == out[q]);
            assert(as_ints(out)[q] == out[q] as int);
            assert(as_ints(e2)[q] == as_ints(e)[q]);
        } else {
            assert(as_ints(e2)[k] == v);
        }
    }
    assert(l =~= r);
}

impl ItemCounts {
    /// Adds every count of `other` to this table.
    pub fn add_all(&mut self, other: &ItemCounts)
        requires
            fits_u32(sum_maps(as_ints(old(self)@), as_ints(other@))),
        ensures
            as_ints(final(self)@) == sum_maps(as_ints(old(self)@), as_ints(other@)),
    {
        proof {
            use_type_invariant(other);
        }
        let ghost start = as_ints(self@);
        let ghost os = other.entries@;
        let n = other.entries.len();
        let mut i: usize = 0;
        while i < n
            invariant
                n == os.len(),
                i <= n,
                os == other.entries@,
                distinct_names(os),
                fits_u32(sum_maps(start, as_ints(entries_map(os)))),
                as_ints(self@) == sum_maps(start, as_ints(entries_map(os.take(i as int)))),
            decreases n - i,
        {
            let name = &other.entries[i].0;
            let v = other.entries[i].1;
            let ghost k = name@;
            let ghost before = self@;
            proof {
                assert(os.take(i as int + 1).drop_last() =~= os.take(i as int));
                assert forall|j: int| 0 <= j < os.take(i as int).len() implies os.take(
                    i as int,
                )[j].0@ != k by {}
                lemma_entries_map_absent(os.take(i as int), k);
                lemma_entries_map_index(os, i as int);
                assert(sum_maps(start, as_ints(entries_map(os))).contains_key(k));
                assert(entries_map(os.take(i as int + 1)) == entries_map(os.take(i as int)).insert(k, v));
                assert(!as_ints(entries_map(os.take(i as int))).contains_key(k));
                assert(as_ints(before).contains_key(k) == before.contains_key(k));
                if before.contains_key(k) {
                    assert(as_ints(before)[k] == before[k] as int);
                }
            }
            let cur = match self.get(name.as_str()) {
                Some(c) => c,
                None => 0,
            };
            proof {
                assert(cur as int == count_of(start, k));
                assert(cur + v <= u32::MAX);
            }
            self.insert(name.as_str(), cur + v);
            proof {
                lemma_sum_insert(start, entries_map(os.take(i as int)), k, v, before);
                assert(self@ == before.insert(k, (count_of(start, k) + v) as u32));
            }
            i = i + 1;
        }
        proof {
            assert(os.take(n as int) =~= os);
        }
    }

    /// Whether adding `other` to this table keeps every count within a `u32`.
    pub fn sum_fits(&self, other: &ItemCounts) -> (r: bool)
        ensures
            r == fits_u32(sum_maps(as_ints(self@), as_ints(other@))),
    {
        proof {
            use_type_invariant(other);
        }
        let ghost a = as_ints(self@);
        let ghost b = as_ints(other@);
        let ghost os = other.entries@;
        let n = other.entries.len();
        let mut i: usize = 0;
        while i < n
            invariant
                n == os.len(),
                i <= n,
                os == other.entries@,
                distinct_names(os),
                a == as_ints(self@),
                b == as_ints(other@),
                other@ == entries_map(os),
                forall|j: int| 0 <= j < i ==> count_of(a, #[trigger] os[j].0@) + os[j].1 <= u32::MAX,
            decreases n - i,
        {
            let cur = match self.get(other.entries[i].0.as_str()) {
                Some(c) => c,
                None => 0,
            };
            let v = other.entries[i].1;
            proof {
                assert(cur as int == count_of(a, os[i as int].0@));
            }
            if cur as u64 + v as u64 > 0xffff_ffffu64 {
                proof {
                    let k = os[i as int].0@;
                    lemma_entries_map_index(os, i as int);
                    assert(sum_maps(a, b).contains_key(k));
                    assert(count_of(b, k) == v);
                }
                return false;
            }
            i = i + 1;
        }
        proof {
            assert forall|k: Seq<char>| #[trigger] sum_maps(a, b).contains_key(k) implies 0 <= sum_maps(a, b)[k] <= u32::MAX by {
                if b.contains_key(k) {
                    lemma_entries_map_dom(os, k);
                    let j = choose|j: int| 0 <= j < os.len() && os[j].0@ == k;
                    lemma_entries_map_index(os, j);
                    assert(count_of(a, os[j].0@) + os[j].1 <= u32::MAX);
                }
            }
        }
        true
    }

    /// Whether `n` times every count of this table stays within a `u32`.
    pub fn scale_fits(&self, n: u32) -> (r: bool)
        ensures
            r == fits_u32(scale_map(n as nat, as_ints(self@))),
    {
        proof {
            use_type_invariant(self);
        }
        let ghost a = as_ints(self@);
        if n == 0 {
            return true;
        }
        let ghost os = self.entries@;
        let len = self.entries.len();
        let mut i: usize = 0;
        while i < len
            invariant
                len == os.len(),
                i <= len,
                n > 0,
                os == self.entries@,
                distinct_names(os),
                a == as_ints(self@),
                self@ == entries_map(os),
                forall|j: int| 0 <= j < i ==> n * (#[trigger] os[j]).1 <= u32::MAX,
            decreases len - i,
        {
            let c = self.entries[i].1;
            assert(c as u64 * n as u64 <= 0xffff_ffffu64 * 0xffff_ffffu64) by (nonlinear_arith)
                requires
                    c <= 0xffff_ffffu32,
                    n <= 0xffff_ffffu32,
            ;
            if c as u64 * n as u64 > 0xffff_ffffu64 {
                proof {
                    let k = os[i as int].0@;
                    lemma_entries_map_index(os, i as int);
                    assert(scale_map(n as nat, a).contains_key(k));
                    assert(scale_map(n as nat, a)[k] == n * c);
                }
                return false;
            }
            assert(n * os[i as int].1 <= u32::MAX);
            i = i + 1;
        }
        proof {
            assert forall|k: Seq<char>| #[trigger] scale_map(n as nat, a).contains_key(k) implies 0 <= scale_map(n as nat, a)[k] <= u32::MAX by {
                lemma_entries_map_dom(os, k);
                let j = choose|j: int| 0 <= j < os.len() && os[j].0@ == k;
                lemma_entries_map_index(os, j);
                assert(n * os[j].1 <= u32::MAX);
                let x = os[j].1;
                assert(0 <= n * x) by (nonlinear_arith)
                    requires
                        n >= 0,
                        x >= 0,
                ;
            }
        }
        true
    }

    /// A table with the same counts as this one.
    pub fn copy(&self) -> (r: ItemCounts)
        ensures
            r@ == self@,
    {
        proof {
            let m = as_ints(self@);
            assert(scale_map(1, m) =~= m);
        }
        let r = self.scaled(1);
        proof {
            assert(as_ints(r@) == as_ints(self@));
            assert forall|k: Seq<char>| #[trigger] r@.contains_key(k) == self@.contains_key(k) by {
                assert(as_ints(r@).contains_key(k) == r@.contains_key(k));
                assert(as_ints(self@).contains_key(k) == self@.contains_key(k));
            }
            assert forall|k: Seq<char>| #[trigger] r@.contains_key(k) implies r@[k] == self@[k] by {
                assert(as_ints(r@)[k] == r@[k] as int);
                assert(as_ints(self@)[k] == self@[k] as int);
            }
            assert(r@ =~= self@);
        }
        r
    }

    /// A table holding `n` times each count of this one; `n == 0` gives the empty table.
    pub fn scaled(&self, n: u32) -> (r: ItemCounts)
        requires
            fits_u32(scale_map(n as nat, as_ints(self@))),
        ensures
            as_ints(r@) == scale_map(n as nat, as_ints(self@)),
    {
        proof {
            use_type_invariant(self);
        }
        if n == 0 {
            let out = ItemCounts::new();
            assert(as_ints(out@) =~= scale_map(0, as_ints(self@)));
            return out;
        }
        let mut outv: Vec<(String, u32)> = Vec::new();
        let ghost es = self.entries@;
        let len = self.entries.len();
        let mut i: usize = 0;
        while i < len
            invariant
                len == es.len(),
                i <= len,
                es == self.entries@,
                n > 0,
                distinct_names(es),
                fits_u32(scale_map(n as nat, as_ints(entries_map(es)))),
                outv@.len() == i,
                forall|j: int| 0 <= j < i ==> (#[trigger] outv@[j]).0@ == es[j].0@,
                as_ints(entries_map(outv@)) == scale_map(n as nat, as_ints(entries_map(es.take(i as int)))),
            decreases len - i,
        {
            let name = self.entries[i].0.clone();
            let v = self.entries[i].1;
            proof {
                assert(es.take(i as int + 1).drop_last() =~= es.take(i as int));
                assert(entries_map(es.take(i as int + 1)) == entries_map(es.take(i as int)).insert(es[i as int].0@, es[i as int].1));
                lemma_entries_map_index(es, i as int);
                assert(scale_map(n as nat, as_ints(entries_map(es))).contains_key(es[i as int].0@));
                assert(0 <= n * v <= u32::MAX);
            }
            let ghost before = outv@;
            outv.push((name, n * v));
            proof {
                assert(outv@.drop_last() =~= before);
                assert(entries_map(outv@) == entries_map(before).insert(es[i as int].0@, (n * v) as u32));
                assert(es.take(i as int + 1).drop_last() =~= es.take(i as int));
                assert(outv@.drop_last() =~= before);
                assert forall|j: int| 0 <= j < es.take(i as int).len() implies es.take(
                    i as int,
                )[j].0@ != es[i as int].0@ by {}
                lemma_entries_map_absent(es.take(i as int), es[i as int].0@);
                lemma_scale_insert(n as nat, entries_map(es.take(i as int)), es[i as int].0@, v, entries_map(before));
            }
            i = i + 1;
        }
        proof {
            assert(es.take(len as int) =~= es);
            assert(distinct_names(outv@));
        }
        ItemCounts { entries: outv }
    }

    /// A table holding `name` alone, with count `value`.
    pub fn single(name: &str, value: u32) -> (r: ItemCounts)
        ensures
            r@ == Map::<Seq<char>, u32>::empty().insert(name@, value),
    {
        let mut out = ItemCounts::new();
        out.insert(name, value);
        out
    }
}

} // verus!
