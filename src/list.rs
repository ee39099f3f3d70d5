//! A keyed store of lists of strings, with list commands that resolve
//! negative indices and ranges against the list's current length.

use vstd::prelude::*;
use crate::text::str_eq;

verus! {

/// The characters of each string of a list, in order.
pub open spec fn items_of(v: Seq<String>) -> Seq<Seq<char>> {
    v.map_values(|s: String| s@)
}

/// The list held under `k`; a missing key reads as the empty list.
pub open spec fn list_at(m: Map<Seq<char>, Seq<Seq<char>>>, k: Seq<char>) -> Seq<Seq<char>> {
    if m.contains_key(k) {
        m[k]
    } else {
        Seq::empty()
    }
}

/// Where `lindex` reads: a negative index counts back from the tail, so -1
/// is the last element.
pub open spec fn index_position(index: int, len: int) -> int {
    if index < 0 {
        index + len
    } else {
        index
    }
}

/// Where `lset` writes: a negative index is offset by the length plus one,
/// so -1 resolves to the length itself and -2 to the last element.
pub open spec fn set_position(index: int, len: int) -> int {
    if index < 0 {
        index + len + 1
    } else {
        index
    }
}

/// The window `[s, e)` that `lrange` and `ltrim` act on. A negative `start`
/// sets the upper bound to `len + start + 1`; a negative `end` sets the lower
/// bound to `len + end`. The window is invalid where the lower bound is
/// negative, exceeds the upper bound, or the upper bound exceeds `len`.
pub open spec fn fixed_range(start: int, end: int, len: int) -> Option<(int, int)> {
    let e = if start < 0 {
        len + start + 1
    } else {
        end
    };
    let s = if end < 0 {
        len + end
    } else {
        start
    };
    if s < 0 || s > e || e > len {
        None
    } else {
        Some((s, e))
    }
}

/// `l` with its first `n` elements equal to `v` taken out, scanning from the
/// head; the other elements keep their order.
pub open spec fn remove_first(l: Seq<Seq<char>>, v: Seq<char>, n: nat) -> Seq<Seq<char>>
    decreases l.len(),
{
    if l.len() == 0 {
        l
    } else if n > 0 && l[0] == v {
        remove_first(l.drop_first(), v, (n - 1) as nat)
    } else {
        seq![l[0]] + remove_first(l.drop_first(), v, n)
    }
}

/// How many matches `lrem` takes out: all of them for a count of 0, else up
/// to the count's absolute value.
pub open spec fn removal_limit(count: int, len: int) -> nat {
    if count == 0 {
        len as nat
    } else if count < 0 {
        (-count) as nat
    } else {
        count as nat
    }
}

/// Where `linsert` places the new value, given the position of the pivot:
/// just after it, or for "BEFORE" one position before it (the head where the
/// pivot is the head).
pub open spec fn insert_position(before: bool, found: int) -> int {
    if before {
        if found == 0 {
            0
        } else {
            found - 1
        }
    } else {
        found + 1
    }
}

/// Pushing `[x, y]` at the head of `[a, b, c]` gives `[y, x, a, b, c]`.
pub proof fn lemma_lpush_order(
    store: Map<Seq<char>, Seq<Seq<char>>>,
    key: Seq<char>,
    a: Seq<char>,
    b: Seq<char>,
    c: Seq<char>,
    x: Seq<char>,
    y: Seq<char>,
)
    requires
        list_at(store, key) == seq![a, b, c],
    ensures
        list_at(store.insert(key, seq![x, y].reverse() + list_at(store, key)), key) == seq![y, x, a, b, c],
{
    assert(seq![x, y].reverse() + list_at(store, key) =~= seq![y, x, a, b, c]);
}

/// Pushing `[x, y]` at the tail of `[a, b, c]` gives `[a, b, c, x, y]`.
pub proof fn lemma_rpush_order(
    store: Map<Seq<char>, Seq<Seq<char>>>,
    key: Seq<char>,
    a: Seq<char>,
    b: Seq<char>,
    c: Seq<char>,
    x: Seq<char>,
    y: Seq<char>,
)
    requires
        list_at(store, key) == seq![a, b, c],
    ensures
        list_at(store.insert(key, list_at(store, key) + seq![x, y]), key) == seq![a, b, c, x, y],
{
    assert(list_at(store, key) + seq![x, y] =~= seq![a, b, c, x, y]);
}

/// Index -1 reads the tail of a non-empty list, and nothing of an empty one.
pub proof fn lemma_lindex_last(l: Seq<Seq<char>>)
    ensures
        l.len() > 0 ==> {
            let p = index_position(-1, l.len() as int);
            0 <= p < l.len() && l[p] == l.last()
        },
        l.len() == 0 ==> !(0 <= index_position(-1, l.len() as int) < l.len()),
{
}

proof fn lemma_remove_all(l: Seq<Seq<char>>, v: Seq<char>, n: nat)
    requires
        n >= l.len(),
    ensures
        remove_first(l, v, n) == l.filter(|x: Seq<char>| x != v),
        l.len() - remove_first(l, v, n).len() == l.filter(|x: Seq<char>| x == v).len(),
    decreases l.len(),
{
    reveal(Seq::filter);
    if l.len() > 0 {
        let rest = l.drop_first();
        assert(l =~= seq![l[0]] + rest);
        Seq::filter_distributes_over_add(seq![l[0]], rest, |x: Seq<char>| x != v);
        Seq::filter_distributes_over_add(seq![l[0]], rest, |x: Seq<char>| x == v);
        let one = seq![l[0]];
        assert(one.drop_last() =~= Seq::<Seq<char>>::empty());
        assert(Seq::<Seq<char>>::empty().filter(|x: Seq<char>| x != v) =~= Seq::<Seq<char>>::empty());
        assert(Seq::<Seq<char>>::empty().filter(|x: Seq<char>| x == v) =~= Seq::<Seq<char>>::empty());
        if l[0] == v {
            assert(one.filter(|x: Seq<char>| x != v) =~= Seq::<Seq<char>>::empty());
            assert(one.filter(|x: Seq<char>| x == v) =~= one);
        } else {
            assert(one.filter(|x: Seq<char>| x != v) =~= one);
            assert(one.filter(|x: Seq<char>| x == v) =~= Seq::<Seq<char>>::empty());
        }
        if l[0] == v {
            lemma_remove_all(rest, v, (n - 1) as nat);
        } else {
            lemma_remove_all(rest, v, n);
        }
    }
}

/// With a count of 0, `lrem` takes out every element equal to `v` and no
/// other, so the list shrinks by the number of times `v` occurred.
pub proof fn lemma_lrem_all(l: Seq<Seq<char>>, v: Seq<char>)
    ensures
        remove_first(l, v, removal_limit(0, l.len() as int)) == l.filter(|x: Seq<char>| x != v),
        l.len() - remove_first(l, v, removal_limit(0, l.len() as int)).len() == l.filter(
            |x: Seq<char>| x == v,
        ).len(),
{
    lemma_remove_all(l, v, l.len());
}

/// After `ltrim`, `llen` reads the old length less the width of the window
/// that `fixed_range` resolves; without a valid window on a non-empty list
/// the length is unchanged.
pub proof fn lemma_ltrim_len(
    store: Map<Seq<char>, Seq<Seq<char>>>,
    key: Seq<char>,
    start: int,
    end: int,
)
    ensures
        ({
            let l = list_at(store, key);
            match fixed_range(start, end, l.len() as int) {
                Some((s, e)) if l.len() > 0 => list_at(
                    store.insert(key, l.subrange(0, s) + l.subrange(e, l.len() as int)),
                    key,
                ).len() == l.len() - (e - s),
                _ => list_at(store, key).len() == l.len(),
            }
        }),
{
}

/// Errors of the list commands.
#[derive(Debug, Clone, Copy, PartialEq, Eq, Structural)]
pub enum ListError {
    /// The key holds no list.
    KeyNotFound,
    /// The resolved index lies outside the list.
    IndexOutOfRange,
    /// One of the keys named holds no list.
    InvalidList,
    /// The source list has no element to move.
    InvalidSourceList,
}

/// A mapping from keys to lists, kept as parallel vectors of keys and lists.
pub struct List {
    keys: Vec<String>,
    lists: Vec<Vec<String>>,
}

impl View for List {
    type V = Map<Seq<char>, Seq<Seq<char>>>;

    closed spec fn view(&self) -> Map<Seq<char>, Seq<Seq<char>>> {
        Map::new(
            |k: Seq<char>| exists|i: int| 0 <= i < self.keys@.len() && #[trigger] self.keys@[i]@ == k,
            |k: Seq<char>| items_of(self.lists@[self.slot(k)]@),
        )
    }
}

impl List {
    /// Keys and lists pair up one for one, and no key occurs twice.
    pub closed spec fn wf(&self) -> bool {
        &&& self.keys@.len() == self.lists@.len()
        &&& forall|i: int, j: int|
            0 <= i < self.keys@.len() && 0 <= j < self.keys@.len() && i != j
                ==> #[trigger] self.keys@[i]@ != #[trigger] self.keys@[j]@
    }

    closed spec fn slot(&self, k: Seq<char>) -> int {
        choose|i: int| 0 <= i < self.keys@.len() && #[trigger] self.keys@[i]@ == k
    }

    proof fn lemma_slot(&self, i: int)
        requires
            self.wf(),
            0 <= i < self.keys@.len(),
        ensures
            self@.contains_key(self.keys@[i]@),
            self@[self.keys@[i]@] == items_of(self.lists@[i]@),
    {
        let k = self.keys@[i]@;
        assert(self@.contains_key(k));
        let j = self.slot(k);
        assert(self.keys@[j]@ == k);
    }

    proof fn lemma_update(old_store: &List, new_store: &List, i: int)
        requires
            old_store.wf(),
            0 <= i < old_store.keys@.len(),
            new_store.keys@ == old_store.keys@,
            new_store.lists@ == old_store.lists@.update(i, new_store.lists@[i]),
        ensures
            new_store.wf(),
            new_store@ == old_store@.insert(
                old_store.keys@[i]@,
                items_of(new_store.lists@[i]@),
            ),
    {
        let k = old_store.keys@[i]@;
        let target = old_store@.insert(k, items_of(new_store.lists@[i]@));
        assert forall|x: Seq<char>| #[trigger] new_store@.contains_key(x) <==> target.contains_key(x) by {
            if target.contains_key(x) && x != k {
                let j = old_store.slot(x);
                assert(new_store.keys@[j]@ == x);
            }
        }
        assert forall|x: Seq<char>| #[trigger] new_store@.contains_key(x) implies new_store@[x] == target[x] by {
            let j = new_store.slot(x);
            new_store.lemma_slot(j);
            if j != i {
                old_store.lemma_slot(j);
            }
        }
        assert(new_store@ =~= target);
    }

    proof fn lemma_push(old_store: &List, new_store: &List)
        requires
            old_store.wf(),
            new_store.keys@.len() == old_store.keys@.len() + 1,
            new_store.lists@.len() == old_store.lists@.len() + 1,
            new_store.keys@.drop_last() == old_store.keys@,
            new_store.lists@.drop_last() == old_store.lists@,
            !old_store@.contains_key(new_store.keys@.last()@),
        ensures
            new_store.wf(),
            new_store@ == old_store@.insert(
                new_store.keys@.last()@,
                items_of(new_store.lists@.last()@),
            ),
    {
        let n = old_store.keys@.len();
        let k = new_store.keys@.last()@;
        assert forall|i: int| 0 <= i < n implies new_store.keys@[i] == old_store.keys@[i] && new_store.lists@[i] == old_store.lists@[i] by {
            assert(new_store.keys@.drop_last()[i] == new_store.keys@[i]);
            assert(new_store.lists@.drop_last()[i] == new_store.lists@[i]);
        }
        assert forall|i: int| 0 <= i < n implies #[trigger] old_store.keys@[i]@ != k by {
            old_store.lemma_slot(i);
        }
        assert(new_store.wf());
        let target = old_store@.insert(k, items_of(new_store.lists@.last()@));
        assert forall|x: Seq<char>| #[trigger] new_store@.contains_key(x) <==> target.contains_key(x) by {
            if new_store@.contains_key(x) {
                let j = new_store.slot(x);
                if j < n {
                    assert(old_store.keys@[j]@ == x);
                }
            }
            if target.contains_key(x) && x != k {
                let j = old_store.slot(x);
                assert(new_store.keys@[j]@ == x);
            }
            if x == k {
                assert(new_store.keys@[n as int]@ == x);
            }
        }
        assert forall|x: Seq<char>| #[trigger] new_store@.contains_key(x) implies new_store@[x] == target[x] by {
            let j = new_store.slot(x);
            new_store.lemma_slot(j);
            if j < n {
                old_store.lemma_slot(j);
            }
        }
        assert(new_store@ =~= target);
    }

    /// An empty store.
    pub fn new() -> (r: List)
        ensures
            r.wf(),
            r@ == Map::<Seq<char>, Seq<Seq<char>>>::empty(),
    {
        let r = List { keys: Vec::new(), lists: Vec::new() };
        assert(r@ =~= Map::<Seq<char>, Seq<Seq<char>>>::empty());
        r
    }

    /// The position of `key` among the keys, if it holds a list.
    fn find(&self, key: &str) -> (r: Option<usize>)
        requires
            self.wf(),
        ensures
            match r {
                Some(i) => i < self.keys@.len() && self.keys@[i as int]@ == key@
                    && self@.contains_key(key@)
                    && self@[key@] == items_of(self.lists@[i as int]@),
                None => !self@.contains_key(key@),
            },
    {
        let mut i: usize = 0;
        while i < self.keys.len()
            invariant
                self.wf(),
                i <= self.keys@.len(),
                forall|j: int| 0 <= j < i ==> #[trigger] self.keys@[j]@ != key@,
            decreases self.keys@.len() - i,
        {
            if str_eq(self.keys[i].as_str(), key) {
                proof {
                    self.lemma_slot(i as int);
                }
                return Some(i);
            }
            i = i + 1;
        }
        proof {
            if self@.contains_key(key@) {
                let j = self.slot(key@);
                assert(self.keys@[j]@ == key@);
            }
        }
        None
    }

    /// The number of elements under `key`; 0 where the key is missing.
    pub fn llen(&self, key: String) -> (r: usize)
        requires
            self.wf(),
        ensures
            r == list_at(self@, key@).len(),
    {
        match self.find(key.as_str()) {
            Some(i) => self.lists[i].len(),
            None => 0,
        }
    }

    /// The position of `key`, with an empty list placed under it first where
    /// it held none.
    fn slot_or_insert(&mut self, key: String) -> (r: usize)
        requires
            old(self).wf(),
        ensures
            final(self).wf(),
            r < final(self).keys@.len(),
            final(self).keys@[r as int]@ == key@,
            final(self)@ == old(self)@.insert(key@, list_at(old(self)@, key@)),
            final(self)@[key@] == items_of(final(self).lists@[r as int]@),
    {
        match self.find(key.as_str()) {
            Some(i) => {
                proof {
                    assert(self@.insert(key@, list_at(self@, key@)) =~= self@);
                }
                i
            },
            None => {
                let ghost prior = *self;
                self.keys.push(key);
                self.lists.push(Vec::new());
                proof {
                    assert(self.keys@.drop_last() =~= prior.keys@);
                    assert(self.lists@.drop_last() =~= prior.lists@);
                    List::lemma_push(&prior, self);
                    assert(items_of(self.lists@.last()@) =~= Seq::<Seq<char>>::empty());
                    self.lemma_slot(self.keys@.len() - 1);
                }
                self.keys.len() - 1
            },
        }
    }

    /// Inserts each value at the head, in the order given, so that the last
    /// value ends up first; creates the list where the key holds none.
    /// Returns the new length.
    pub fn lpush(&mut self, key: String, vals: Vec<String>) -> (r: usize)
        requires
            old(self).wf(),
        ensures
            final(self).wf(),
            final(self)@ == old(self)@.insert(
                key@,
                items_of(vals@).reverse() + list_at(old(self)@, key@),
            ),
            r == list_at(final(self)@, key@).len(),
    {
        let ghost given = vals@;
        let mut vals = vals;
        let mut front: Vec<String> = Vec::new();
        while vals.len() > 0
            invariant
                items_of(front@) + items_of(vals@).reverse() == items_of(given).reverse(),
            decreases vals@.len(),
        {
            let ghost before = vals@;
            let v = vals.pop().unwrap();
            front.push(v);
            proof {
                assert(items_of(before).reverse() =~= seq![v@] + items_of(vals@).reverse());
                assert(items_of(front@) =~= items_of(front@.drop_last()).push(v@));
            }
        }
        assert(items_of(vals@).reverse() =~= Seq::<Seq<char>>::empty());
        let i = self.slot_or_insert(key);
        let ghost mid = *self;
        let list = &mut self.lists[i];
        front.append(list);
        std::mem::swap(list, &mut front);
        proof {
            assert(items_of(self.lists@[i as int]@) =~= items_of(given).reverse() + items_of(mid.lists@[i as int]@));
            List::lemma_update(&mid, self, i as int);
        }
        self.lists[i].len()
    }

    /// Appends each value at the tail, in the order given; creates the list
    /// where the key holds none. Returns the new length.
    pub fn rpush(&mut self, key: String, vals: Vec<String>) -> (r: Option<usize>)
        requires
            old(self).wf(),
        ensures
            final(self).wf(),
            final(self)@ == old(self)@.insert(key@, list_at(old(self)@, key@) + items_of(vals@)),
            r == Some(list_at(final(self)@, key@).len() as usize),
    {
        let mut vals = vals;
        let i = self.slot_or_insert(key);
        let ghost mid = *self;
        let ghost given = vals@;
        let list = &mut self.lists[i];
        list.append(&mut vals);
        proof {
            assert(items_of(self.lists@[i as int]@) =~= items_of(mid.lists@[i as int]@) + items_of(given));
            List::lemma_update(&mid, self, i as int);
        }
        Some(self.lists[i].len())
    }

    /// As `rpush`, but only where the key already holds a list; otherwise
    /// nothing changes and `None` comes back.
    pub fn rpushx(&mut self, key: String, vals: Vec<String>) -> (r: Option<usize>)
        requires
            old(self).wf(),
        ensures
            final(self).wf(),
            old(self)@.contains_key(key@) ==> {
                &&& final(self)@ == old(self)@.insert(key@, old(self)@[key@] + items_of(vals@))
                &&& r == Some(final(self)@[key@].len() as usize)
            },
            !old(self)@.contains_key(key@) ==> final(self)@ == old(self)@ && r.is_none(),
    {
        if self.find(key.as_str()).is_some() {
            return self.rpush(key, vals);
        }
        None
    }

    /// Removes and returns the head element; `None` where the key is missing
    /// or its list is empty.
    pub fn lpop(&mut self, key: String) -> (r: Option<String>)
        requires
            old(self).wf(),
        ensures
            final(self).wf(),
            list_at(old(self)@, key@).len() > 0 ==> {
                &&& r matches Some(s) && s@ == list_at(old(self)@, key@)[0]
                &&& final(self)@ == old(self)@.insert(key@, list_at(old(self)@, key@).drop_first())
            },
            list_at(old(self)@, key@).len() == 0 ==> r.is_none() && final(self)@ == old(self)@,
    {
        match self.find(key.as_str()) {
            None => None,
            Some(i) => {
                if self.lists[i].len() == 0 {
                    return None;
                }
                let ghost mid = *self;
                let list = &mut self.lists[i];
                let head = list.remove(0);
                proof {
                    assert(items_of(self.lists@[i as int]@) =~= items_of(mid.lists@[i as int]@).drop_first());
                    List::lemma_update(&mid, self, i as int);
                }
                Some(head)
            },
        }
    }

    /// Removes and returns the tail element; `None` where the key is missing
    /// or its list is empty.
    pub fn rpop(&mut self, key: String) -> (r: Option<String>)
        requires
            old(self).wf(),
        ensures
            final(self).wf(),
            list_at(old(self)@, key@).len() > 0 ==> {
                &&& r matches Some(s) && s@ == list_at(old(self)@, key@).last()
                &&& final(self)@ == old(self)@.insert(key@, list_at(old(self)@, key@).drop_last())
            },
            list_at(old(self)@, key@).len() == 0 ==> r.is_none() && final(self)@ == old(self)@,
    {
        match self.find(key.as_str()) {
            None => None,
            Some(i) => {
                if self.lists[i].len() == 0 {
                    return None;
                }
                let ghost mid = *self;
                let list = &mut self.lists[i];
                let tail = list.pop();
                proof {
                    assert(items_of(self.lists@[i as int]@) =~= items_of(mid.lists@[i as int]@).drop_last());
                    List::lemma_update(&mid, self, i as int);
                }
                tail
            },
        }
    }

    /// The element at `index`, a negative index counting back from the tail;
    /// `None` where it falls outside the list or the key is missing.
    pub fn lindex(&self, key: String, index: isize) -> (r: Option<&String>)
        requires
            self.wf(),
        ensures
            ({
                let l = list_at(self@, key@);
                let p = index_position(index as int, l.len() as int);
                &&& r.is_some() <==> 0 <= p < l.len()
                &&& r matches Some(s) ==> s@ == l[p]
            }),
    {
        match self.find(key.as_str()) {
            None => None,
            Some(i) => {
                let len = self.lists[i].len();
                let mut p: i128 = index as i128;
                if index < 0 {
                    p = p + len as i128;
                }
                if p < 0 || p >= len as i128 {
                    return None;
                }
                Some(&self.lists[i][p as usize])
            },
        }
    }

    /// Resolves `start` and `end` against `len` into a window `[s, e)`, by
    /// the rule of `fixed_range`.
    pub fn fix_range(start: isize, end: isize, len: usize) -> (r: Option<(usize, usize)>)
        ensures
            match fixed_range(start as int, end as int, len as int) {
                Some((s, e)) => r == Some((s as usize, e as usize)),
                None => r.is_none(),
            },
    {
        let l: i128 = len as i128;
        let mut e: i128 = end as i128;
        let mut s: i128 = start as i128;
        if start < 0 {
            e = l + start as i128 + 1;
        }
        if end < 0 {
            s = l + end as i128;
        }
        if s < 0 || s > e || e > l {
            return None;
        }
        Some((s as usize, e as usize))
    }

    /// The elements of the window that `fix_range` resolves; `None` where the
    /// key is missing, its list is empty, or the window is invalid.
    pub fn lrange(&self, key: String, start: isize, end: isize) -> (r: Option<&[String]>)
        requires
            self.wf(),
        ensures
            ({
                let l = list_at(self@, key@);
                if l.len() == 0 {
                    r.is_none()
                } else {
                    match fixed_range(start as int, end as int, l.len() as int) {
                        Some((s, e)) => r matches Some(w) && items_of(w@) == l.subrange(s, e),
                        None => r.is_none(),
                    }
                }
            }),
    {
        match self.find(key.as_str()) {
            None => None,
            Some(i) => {
                let len = self.lists[i].len();
                if len == 0 {
                    return None;
                }
                match List::fix_range(start, end, len) {
                    Some((s, e)) => {
                        let w = vstd::slice::slice_subrange(self.lists[i].as_slice(), s, e);
                        assert(items_of(w@) =~= items_of(self.lists@[i as int]@).subrange(s as int, e as int));
                        Some(w)
                    },
                    None => None,
                }
            },
        }
    }

    /// Overwrites the element at `index`, a negative index resolving by
    /// `set_position`. The position is checked before anything is written.
    pub fn lset(&mut self, key: String, index: isize, value: String) -> (r: Result<(), ListError>)
        requires
            old(self).wf(),
        ensures
            final(self).wf(),
            ({
                let l = list_at(old(self)@, key@);
                let p = set_position(index as int, l.len() as int);
                if !old(self)@.contains_key(key@) {
                    r == Err::<(), ListError>(ListError::KeyNotFound) && final(self)@ == old(self)@
                } else if p < 0 || p >= l.len() {
                    r == Err::<(), ListError>(ListError::IndexOutOfRange) && final(self)@ == old(self)@
                } else {
                    r == Ok::<(), ListError>(()) && final(self)@ == old(self)@.insert(key@, l.update(p, value@))
                }
            }),
    {
        match self.find(key.as_str()) {
            None => Err(ListError::KeyNotFound),
            Some(i) => {
                let len = self.lists[i].len();
                let mut p: i128 = index as i128;
                if index < 0 {
                    p = p + len as i128 + 1;
                }
                if p < 0 || p >= len as i128 {
                    return Err(ListError::IndexOutOfRange);
                }
                let ghost mid = *self;
                let ghost v = value@;
                let list = &mut self.lists[i];
                list[p as usize] = value;
                proof {
                    assert(items_of(self.lists@[i as int]@) =~= items_of(mid.lists@[i as int]@).update(p as int, v));
                    List::lemma_update(&mid, self, i as int);
                }
                Ok(())
            },
        }
    }

    /// Deletes the elements inside the window that `fix_range` resolves,
    /// keeping those outside it; `None` with nothing changed where the key is
    /// missing, its list is empty, or the window is invalid.
    pub fn ltrim(&mut self, key: String, start: isize, end: isize) -> (r: Option<()>)
        requires
            old(self).wf(),
        ensures
            final(self).wf(),
            ({
                let l = list_at(old(self)@, key@);
                match fixed_range(start as int, end as int, l.len() as int) {
                    Some((s, e)) if l.len() > 0 => {
                        &&& r == Some(())
                        &&& final(self)@ == old(self)@.insert(key@, l.subrange(0, s) + l.subrange(e, l.len() as int))
                    },
                    _ => r.is_none() && final(self)@ == old(self)@,
                }
            }),
    {
        match self.find(key.as_str()) {
            None => None,
            Some(i) => {
                let len = self.lists[i].len();
                if len == 0 {
                    return None;
                }
                match List::fix_range(start, end, len) {
                    Some((s, e)) => {
                        let ghost mid = *self;
                        let list = &mut self.lists[i];
                        let mut tail = list.split_off(e);
                        list.truncate(s);
                        list.append(&mut tail);
                        proof {
                            let old_items = items_of(mid.lists@[i as int]@);
                            assert(items_of(self.lists@[i as int]@) =~= old_items.subrange(0, s as int) + old_items.subrange(e as int, len as int));
                            List::lemma_update(&mid, self, i as int);
                        }
                        Some(())
                    },
                    None => None,
                }
            },
        }
    }

    /// Scans from the head and takes out the elements equal to `value`: all of
    /// them for a `count` of 0, else at most `count`'s absolute value of them
    /// (the scan runs from the head whatever the sign). Returns how many were
    /// taken out; a missing key changes nothing.
    pub fn lrem(&mut self, key: String, count: isize, value: &str) -> (r: usize)
        requires
            old(self).wf(),
        ensures
            final(self).wf(),
            ({
                let l = list_at(old(self)@, key@);
                let kept = remove_first(l, value@, removal_limit(count as int, l.len() as int));
                if old(self)@.contains_key(key@) {
                    &&& final(self)@ == old(self)@.insert(key@, kept)
                    &&& r == l.len() - kept.len()
                } else {
                    r == 0 && final(self)@ == old(self)@
                }
            }),
    {
        let k = match self.find(key.as_str()) {
            None => {
                return 0;
            },
            Some(k) => k,
        };
        let ghost mid = *self;
        let ghost orig = mid.lists@[k as int]@;
        let ghost v = value@;
        let mut items: Vec<String> = Vec::new();
        std::mem::swap(&mut self.lists[k], &mut items);
        let n0: usize = items.len();
        let limit: i128 = if count == 0 {
            items.len() as i128
        } else if count < 0 {
            -(count as i128)
        } else {
            count as i128
        };
        let ghost lim = removal_limit(count as int, orig.len() as int);
        let ghost cleared = *self;
        proof {
            assert(items@ == orig);
            assert(orig.len() == n0);
            assert(items@.subrange(0, 0) =~= Seq::<String>::empty());
            assert(items@.subrange(0, items@.len() as int) =~= items@);
            assert(items_of(Seq::<String>::empty()) + remove_first(items_of(orig), v, lim) =~= remove_first(items_of(orig), v, lim));
        }
        let mut j: usize = 0;
        let mut removed: usize = 0;
        while j < items.len()
            invariant
                *self == cleared,
                v == value@,
                orig.len() <= usize::MAX,
                limit == lim,
                removed <= lim,
                j <= items@.len(),
                orig.len() == items@.len() + removed,
                items_of(items@.subrange(0, j as int)) + remove_first(
                    items_of(items@.subrange(j as int, items@.len() as int)),
                    v,
                    (lim - removed) as nat,
                ) == remove_first(items_of(orig), v, lim),
            decreases items@.len() - j,
        {
            let ghost before = items@;
            let ghost rest = items_of(before.subrange(j as int, before.len() as int));
            assert(rest.drop_first() =~= items_of(before.subrange(j + 1, before.len() as int)));
            if (removed as i128) < limit && str_eq(items[j].as_str(), value) {
                items.remove(j);
                removed = removed + 1;
                proof {
                    assert(items@.subrange(0, j as int) =~= before.subrange(0, j as int));
                    assert(items@.subrange(j as int, items@.len() as int) =~= before.subrange(j + 1, before.len() as int));
                }
            } else {
                j = j + 1;
                proof {
                    assert(items_of(items@.subrange(0, j as int)) =~= items_of(before.subrange(0, j - 1)) + seq![rest[0]]);
                }
            }
        }
        proof {
            assert(items_of(items@.subrange(j as int, items@.len() as int)) =~= Seq::<Seq<char>>::empty());
            assert(items@.subrange(0, j as int) =~= items@);
        }
        std::mem::swap(&mut self.lists[k], &mut items);
        proof {
            assert(self.lists@ =~= mid.lists@.update(k as int, self.lists@[k as int]));
            List::lemma_update(&mid, self, k as int);
        }
        removed
    }

    /// Finds the first element equal to `pivot` and inserts `value` by
    /// `insert_position`: a `gap` of "BEFORE" places it before the pivot,
    /// anything else after. Returns the new length, `Some(-1)` where no
    /// element matches, and `None` where the key is missing.
    pub fn linsert(&mut self, key: String, gap: &str, pivot: &str, value: &str) -> (r: Option<isize>)
        requires
            old(self).wf(),
            list_at(old(self)@, key@).len() < isize::MAX,
        ensures
            final(self).wf(),
            ({
                let l = list_at(old(self)@, key@);
                if !old(self)@.contains_key(key@) {
                    r.is_none() && final(self)@ == old(self)@
                } else {
                    match l.index_of_first(pivot@) {
                        None => r == Some(-1isize) && final(self)@ == old(self)@,
                        Some(p) => {
                            &&& final(self)@ == old(self)@.insert(
                                key@,
                                l.insert(insert_position(gap@ == "BEFORE"@, p), value@),
                            )
                            &&& r == Some((l.len() + 1) as isize)
                        },
                    }
                }
            }),
    {
        let k = match self.find(key.as_str()) {
            None => {
                return None;
            },
            Some(k) => k,
        };
        let ghost l = items_of(self.lists@[k as int]@);
        let len = self.lists[k].len();
        let mut j: usize = 0;
        while j < len
            invariant
                *self == *old(self),
                self.wf(),
                k < self.keys@.len(),
                self.keys@[k as int]@ == key@,
                self@.contains_key(key@),
                self@[key@] == l,
                len == self.lists@[k as int]@.len(),
                k < self.lists@.len(),
                l == items_of(self.lists@[k as int]@),
                j <= len,
                forall|m: int| 0 <= m < j ==> l[m] != pivot@,
            ensures
                *self == *old(self),
                self.wf(),
                k < self.keys@.len(),
                self.keys@[k as int]@ == key@,
                self@.contains_key(key@),
                self@[key@] == l,
                len == self.lists@[k as int]@.len(),
                l == items_of(self.lists@[k as int]@),
                j <= len,
                forall|m: int| 0 <= m < j ==> l[m] != pivot@,
                j < len ==> l[j as int] == pivot@,
            decreases len - j,
        {
            if str_eq(self.lists[k][j].as_str(), pivot) {
                break;
            }
            j = j + 1;
        }
        proof {
            l.index_of_first_ensures(pivot@);
        }
        if j == len {
            proof {
                assert(!l.contains(pivot@));
            }
            return Some(-1);
        }
        let before = str_eq(gap, "BEFORE");
        let at = if before {
            if j == 0 {
                0
            } else {
                j - 1
            }
        } else {
            j + 1
        };
        let ghost mid = *self;
        let list = &mut self.lists[k];
        list.insert(at, value.to_owned());
        proof {
            assert(items_of(self.lists@[k as int]@) =~= l.insert(at as int, value@));
            List::lemma_update(&mid, self, k as int);
        }
        Some(self.lists[k].len() as isize)
    }

    /// Moves the head element of `source` to the head of `dest`. Both keys
    /// must already hold lists; `dest` is never created.
    pub fn rpoplpush(&mut self, source: String, dest: String) -> (r: Result<(), ListError>)
        requires
            old(self).wf(),
        ensures
            final(self).wf(),
            ({
                let src = list_at(old(self)@, source@);
                if !old(self)@.contains_key(source@) || !old(self)@.contains_key(dest@) {
                    r == Err::<(), ListError>(ListError::InvalidList) && final(self)@ == old(self)@
                } else if src.len() == 0 {
                    r == Err::<(), ListError>(ListError::InvalidSourceList) && final(self)@ == old(self)@
                } else {
                    let popped = old(self)@.insert(source@, src.drop_first());
                    &&& r == Ok::<(), ListError>(())
                    &&& final(self)@ == popped.insert(dest@, seq![src[0]] + popped[dest@])
                }
            }),
    {
        if self.find(source.as_str()).is_none() || self.find(dest.as_str()).is_none() {
            return Err(ListError::InvalidList);
        }
        match self.lpop(source) {
            None => Err(ListError::InvalidSourceList),
            Some(item) => {
                let ghost x = item@;
                let ghost mid = *self;
                let single = vec![item];
                assert(single@ == seq![item]);
                self.lpush(dest, single);
                proof {
                    assert(items_of(seq![item]) =~= seq![x]);
                    assert(items_of(seq![item]).reverse() =~= seq![x]);
                    assert(mid@.contains_key(dest@));
                }
                Ok(())
            },
        }
    }
}

} // verus!
