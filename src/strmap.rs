use vstd::prelude::*;

use std::cmp::Ordering;
use vstd::slice::slice_to_vec;

verus! {

/// The first index at or after `i` where `a` and `b` differ, or where the shorter ends.
pub open spec fn first_diff(a: Seq<char>, b: Seq<char>, i: int) -> int
    decreases a.len() - i,
{
    if i < 0 || i >= a.len() || i >= b.len() || a[i] != b[i] {
        i
    } else {
        first_diff(a, b, i + 1)
    }
}

/// Lexicographic order on character sequences, by code point: the order in which
/// their UTF-8 encodings compare as bytes.
pub open spec fn lex_lt(a: Seq<char>, b: Seq<char>) -> bool {
    let d = first_diff(a, b, 0);
    if d < a.len() && d < b.len() {
        (a[d] as int) < (b[d] as int)
    } else {
        a.len() < b.len()
    }
}

proof fn lemma_first_diff(a: Seq<char>, b: Seq<char>, i: int)
    requires
        0 <= i <= a.len(),
        i <= b.len(),
        forall|k: int| 0 <= k < i ==> a[k] == b[k],
    ensures
        i <= first_diff(a, b, i) <= a.len(),
        first_diff(a, b, i) <= b.len(),
        forall|k: int| 0 <= k < first_diff(a, b, i) ==> a[k] == b[k],
        first_diff(a, b, i) < a.len() && first_diff(a, b, i) < b.len() ==> a[first_diff(
            a,
            b,
            i,
        )] != b[first_diff(a, b, i)],
    decreases a.len() - i,
{
    if i < a.len() && i < b.len() && a[i] == b[i] {
        lemma_first_diff(a, b, i + 1);
    }
}

proof fn lemma_first_diff_symmetric(a: Seq<char>, b: Seq<char>, i: int)
    requires
        0 <= i,
    ensures
        first_diff(a, b, i) == first_diff(b, a, i),
    decreases a.len() - i,
{
    if i < a.len() && i < b.len() && a[i] == b[i] {
        lemma_first_diff_symmetric(a, b, i + 1);
    }
}

/// `lex_lt` is a strict total order.
pub proof fn lemma_lex_order(a: Seq<char>, b: Seq<char>, c: Seq<char>)
    ensures
        !lex_lt(a, a),
        a != b ==> lex_lt(a, b) || lex_lt(b, a),
        !(lex_lt(a, b) && lex_lt(b, a)),
        lex_lt(a, b) && lex_lt(b, c) ==> lex_lt(a, c),
{
    lemma_first_diff(a, a, 0);
    lemma_first_diff(a, b, 0);
    lemma_first_diff(b, c, 0);
    lemma_first_diff(a, c, 0);
    lemma_first_diff_symmetric(a, b, 0);
    lemma_first_diff(b, a, 0);
    let d = first_diff(a, b, 0);
    if a != b && d >= a.len() && d >= b.len() {
        assert(a =~= b);
    }
    if d < a.len() && d < b.len() {
        assert(a[d] != b[d]);
        assert((a[d] as int) != (b[d] as int));
    }
}

/// A map from character sequences to values, kept as two parallel arrays sorted by key.
#[derive(Debug)]
pub struct StrMap<T> {
    keys: Vec<Vec<char>>,
    values: Vec<T>,
}

impl<T> StrMap<T> {
    /// The keys, in the order in which they are stored.
    pub closed spec fn spec_keys(&self) -> Seq<Seq<char>> {
        self.keys@.map_values(|k: Vec<char>| k@)
    }

    /// The values, parallel to `spec_keys`.
    pub closed spec fn spec_values(&self) -> Seq<T> {
        self.values@
    }

    /// Keys strictly ascending, one value per key.
    pub open spec fn wf(&self) -> bool {
        &&& self.spec_keys().len() == self.spec_values().len()
        &&& forall|i: int, j: int|
            0 <= i < j < self.spec_keys().len() ==> lex_lt(
                #[trigger] self.spec_keys()[i],
                #[trigger] self.spec_keys()[j],
            )
    }

    /// The mapping from each key to its value.
    pub open spec fn view(&self) -> Map<Seq<char>, T> {
        Map::new(
            |k: Seq<char>| self.spec_keys().contains(k),
            |k: Seq<char>|
                self.spec_values()[choose|i: int|
                    0 <= i < self.spec_keys().len() && self.spec_keys()[i] == k],
        )
    }

    proof fn lemma_view_at(&self, i: int)
        requires
            self.wf(),
            0 <= i < self.spec_keys().len(),
        ensures
            self.view().contains_key(self.spec_keys()[i]),
            self.view()[self.spec_keys()[i]] == self.spec_values()[i],
    {
        let k = self.spec_keys()[i];
        assert(self.spec_keys()[i] == k);
        let j = choose|j: int| 0 <= j < self.spec_keys().len() && self.spec_keys()[j] == k;
        if i < j {
            lemma_lex_order(k, k, k);
        } else if j < i {
            lemma_lex_order(k, k, k);
        }
    }

    /// An empty map.
    pub fn new() -> (r: StrMap<T>)
        ensures
            r.wf(),
            r.view() == Map::<Seq<char>, T>::empty(),
    {
        let r = StrMap { keys: Vec::new(), values: Vec::new() };
        assert(r.spec_keys() =~= Seq::<Seq<char>>::empty());
        assert(r.view() =~= Map::<Seq<char>, T>::empty());
        r
    }

    /// The number of keys.
    pub fn len(&self) -> (r: usize)
        requires
            self.wf(),
        ensures
            r == self.spec_keys().len(),
            r == self.view().dom().len(),
    {
        proof {
            self.lemma_dom_len();
        }
        self.keys.len()
    }

    proof fn lemma_dom_len(&self)
        requires
            self.wf(),
        ensures
            self.view().dom().len() == self.spec_keys().len(),
    {
        let ks = self.spec_keys();
        assert forall|i: int, j: int| 0 <= i < ks.len() && 0 <= j < ks.len() && i != j implies ks[i]
            != ks[j] by {
            lemma_lex_order(ks[i], ks[j], ks[i]);
        }
        ks.unique_seq_to_set();
        assert(self.view().dom() =~= ks.to_set());
    }

    /// Binary search for `key`: `Ok` with its index, or `Err` with the index at which
    /// it would be inserted to keep the keys sorted.
    fn find_index(&self, key: &[char]) -> (r: Result<usize, usize>)
        requires
            self.wf(),
        ensures
            match r {
                Ok(i) => i < self.spec_keys().len() && self.spec_keys()[i as int] == key@,
                Err(i) => {
                    &&& i <= self.spec_keys().len()
                    &&& forall|j: int| 0 <= j < i ==> lex_lt(#[trigger] self.spec_keys()[j], key@)
                    &&& forall|j: int|
                        i <= j < self.spec_keys().len() ==> lex_lt(
                            key@,
                            #[trigger] self.spec_keys()[j],
                        )
                },
            },
    {
        let mut l: usize = 0;
        let mut r: usize = self.keys.len();
        while l < r
            invariant
                self.wf(),
                l <= r <= self.spec_keys().len(),
                forall|j: int| 0 <= j < l ==> lex_lt(#[trigger] self.spec_keys()[j], key@),
                forall|j: int|
                    r <= j < self.spec_keys().len() ==> lex_lt(key@, #[trigger] self.spec_keys()[j]),
            decreases r - l,
        {
            let mid = l + (r - l) / 2;
            let m: &[char] = self.keys[mid].as_slice();
            assert(m@ == self.spec_keys()[mid as int]);
            match compare(m, key) {
                Ordering::Less => {
                    proof {
                        assert forall|j: int| 0 <= j < mid + 1 implies lex_lt(
                            #[trigger] self.spec_keys()[j],
                            key@,
                        ) by {
                            if j < mid {
                                lemma_lex_order(self.spec_keys()[j], m@, key@);
                            }
                        }
                    }
                    l = mid + 1;
                },
                Ordering::Equal => {
                    return Ok(mid);
                },
                Ordering::Greater => {
                    proof {
                        assert forall|j: int| mid <= j < self.spec_keys().len() implies lex_lt(
                            key@,
                            #[trigger] self.spec_keys()[j],
                        ) by {
                            if j > mid {
                                lemma_lex_order(key@, m@, self.spec_keys()[j]);
                            }
                        }
                    }
                    r = mid;
                },
            }
        }
        Err(l)
    }

    proof fn lemma_absent(&self, key: Seq<char>, i: int)
        requires
            self.wf(),
            0 <= i <= self.spec_keys().len(),
            forall|j: int| 0 <= j < i ==> lex_lt(#[trigger] self.spec_keys()[j], key),
            forall|j: int| i <= j < self.spec_keys().len() ==> lex_lt(key, #[trigger] self.spec_keys()[j]),
        ensures
            !self.view().contains_key(key),
    {
        if self.spec_keys().contains(key) {
            let j = choose|j: int| 0 <= j < self.spec_keys().len() && self.spec_keys()[j] == key;
            lemma_lex_order(key, key, key);
        }
    }

    /// The value stored under `key`, if any.
    pub fn find(&self, key: &[char]) -> (r: Option<&T>)
        requires
            self.wf(),
        ensures
            match r {
                Some(v) => self.view().contains_key(key@) && *v == self.view()[key@],
                None => !self.view().contains_key(key@),
            },
    {
        match self.find_index(key) {
            Ok(i) => {
                proof {
                    self.lemma_view_at(i as int);
                }
                Some(&self.values[i])
            },
            Err(i) => {
                proof {
                    self.lemma_absent(key@, i as int);
                }
                None
            },
        }
    }

    /// The value stored under `key`; when there is none, what `f` builds is inserted under
    /// it first, at the place that keeps the keys sorted.
    pub fn find_mut_with<F: FnOnce() -> T>(&mut self, key: &[char], f: F) -> (r: &mut T)
        requires
            old(self).wf(),
            f.requires(()),
        ensures
            old(self).view().contains_key(key@) ==> *r == old(self).view()[key@],
            !old(self).view().contains_key(key@) ==> f.ensures((), *r),
            final(self).wf(),
            final(self).view() == old(self).view().insert(key@, *final(r)),
    {
        let i = match self.find_index(key) {
            Ok(i) => {
                proof {
                    self.lemma_view_at(i as int);
                }
                i
            },
            Err(i) => {
                proof {
                    self.lemma_absent(key@, i as int);
                }
                let ghost before = *self;
                let default = f();
                self.values.insert(i, default);
                self.keys.insert(i, slice_to_vec(key));
                proof {
                    assert(self.spec_keys() =~= before.spec_keys().insert(i as int, key@));
                    assert forall|a: int, b: int|
                        0 <= a < b < self.spec_keys().len() implies lex_lt(
                        #[trigger] self.spec_keys()[a],
                        #[trigger] self.spec_keys()[b],
                    ) by {
                        if a < i && b > i {
                            lemma_lex_order(self.spec_keys()[a], key@, self.spec_keys()[b]);
                        }
                    }
                    self.lemma_view_at(i as int);
                    assert forall|k: Seq<char>| k != key@ implies (#[trigger] self.view().contains_key(k)
                        == before.view().contains_key(k)) && (before.view().contains_key(k)
                        ==> self.view()[k] == before.view()[k]) by {
                        if before.view().contains_key(k) {
                            let j = choose|j: int|
                                0 <= j < before.spec_keys().len() && before.spec_keys()[j] == k;
                            before.lemma_view_at(j);
                            let j2 = if j < i { j } else { j + 1 };
                            assert(self.spec_keys()[j2] == k);
                            self.lemma_view_at(j2);
                        }
                        if self.view().contains_key(k) {
                            let j = choose|j: int|
                                0 <= j < self.spec_keys().len() && self.spec_keys()[j] == k;
                            let j2 = if j < i { j } else { j - 1 };
                            assert(before.spec_keys()[j2] == k);
                        }
                    }
                }
                i
            },
        };
        let ghost mid = *self;
        let r = &mut self.values[i];
        proof {
            assert(mid.view() =~= old(self).view().insert(key@, *r));
        }
        r
    }
}

/// Compares two character sequences in the order of `lex_lt`.
pub fn compare(a: &[char], b: &[char]) -> (r: Ordering)
    ensures
        r == Ordering::Less <==> lex_lt(a@, b@),
        r == Ordering::Equal <==> a@ == b@,
        r == Ordering::Greater <==> lex_lt(b@, a@),
{
    let mut i: usize = 0;
    while i < a.len() && i < b.len() && a[i] == b[i]
        invariant
            i <= a@.len(),
            i <= b@.len(),
            forall|k: int| 0 <= k < i ==> a@[k] == b@[k],
        decreases a@.len() - i,
    {
        i = i + 1;
    }
    proof {
        lemma_first_diff(a@, b@, 0);
        lemma_first_diff_symmetric(a@, b@, 0);
        lemma_lex_order(a@, b@, a@);
        let d = first_diff(a@, b@, 0);
        assert(d == i as int) by {
            if d < i {
                assert(a@[d] == b@[d]);
            } else if i < d {
                assert(a@[i as int] == b@[i as int]);
            }
        }
        if i == a.len() && i == b.len() {
            assert(a@ =~= b@);
        }
    }
    if i < a.len() && i < b.len() {
        if a[i] < b[i] {
            Ordering::Less
        } else {
            Ordering::Greater
        }
    } else if a.len() < b.len() {
        Ordering::Less
    } else if a.len() == b.len() {
        Ordering::Equal
    } else {
        Ordering::Greater
    }
}

} // verus!
