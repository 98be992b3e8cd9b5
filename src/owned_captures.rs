use vstd::prelude::*;

use crate::captures::{first_named, str_eq, Captures};
use crate::router::caps_in;

verus! {

/// Names with offsets held as strings and `usize`, seen as sequences and integers.
pub open spec fn owned_view(v: Seq<(String, usize, usize)>) -> Seq<(Seq<char>, int, int)> {
    v.map_values(|c: (String, usize, usize)| (c.0@, c.1 as int, c.2 as int))
}

/// Captures that own a copy of the path, for keeping them after the lookup's path is
/// gone: each name with the offsets of its text in that copy.
pub struct OwnedCaptures {
    path: Option<String>,
    offset: Vec<(String, usize, usize)>,
}

impl OwnedCaptures {
    #[verifier::type_invariant]
    closed spec fn inv(&self) -> bool {
        match self.path {
            None => self.offset@.len() == 0,
            Some(p) => caps_in(owned_view(self.offset@), p@.len() as int),
        }
    }

    /// The copy of the path; empty when nothing was captured.
    pub closed spec fn spec_path(&self) -> Seq<char> {
        match self.path {
            Some(p) => p@,
            None => Seq::empty(),
        }
    }

    /// Each capture as its name and the offsets of its text in the path.
    pub closed spec fn entries(&self) -> Seq<(Seq<char>, int, int)> {
        owned_view(self.offset@)
    }

    /// No captures.
    pub fn empty() -> (r: OwnedCaptures)
        ensures
            r.entries() == Seq::<(Seq<char>, int, int)>::empty(),
    {
        let r = OwnedCaptures { path: None, offset: Vec::new() };
        assert(r.entries() =~= Seq::<(Seq<char>, int, int)>::empty());
        r
    }

    /// Copies `caps`: its names, its offsets and, when it holds any capture, its path.
    pub fn new(caps: &Captures<'_>) -> (r: OwnedCaptures)
        ensures
            r.entries() == caps.entries(),
            caps.entries().len() > 0 ==> r.spec_path() == caps.spec_path(),
    {
        let mut offset: Vec<(String, usize, usize)> = Vec::new();
        let mut k: usize = 0;
        while k < caps.len()
            invariant
                k <= caps.entries().len(),
                owned_view(offset@) == caps.entries().take(k as int),
                forall|j: int|
                    0 <= j < k ==> 0 <= #[trigger] caps.entries()[j].1 <= caps.entries()[j].2
                        <= caps.spec_path().len(),
            decreases caps.entries().len() - k,
        {
            let name = caps.name_at(k).to_owned();
            let (s, e) = caps.offsets_at(k);
            let ghost before = offset@;
            let ghost nv = name@;
            offset.push((name, s, e));
            assert(owned_view(offset@) == owned_view(before).push((nv, s as int, e as int)));
            assert(caps.entries().take(k + 1) =~= caps.entries().take(k as int).push(
                caps.entries()[k as int],
            ));
            assert(owned_view(offset@) =~= caps.entries().take(k + 1));
            k = k + 1;
        }
        assert(caps.entries().take(k as int) =~= caps.entries());
        if offset.len() == 0 {
            OwnedCaptures { path: None, offset }
        } else {
            let path = caps.path().to_owned();
            OwnedCaptures { path: Some(path), offset }
        }
    }

    /// The number of captures.
    pub fn len(&self) -> (r: usize)
        ensures
            r == self.entries().len(),
    {
        self.offset.len()
    }

    /// The name of capture `k`.
    pub fn name_at(&self, k: usize) -> (r: &str)
        requires
            k < self.entries().len(),
        ensures
            r@ == self.entries()[k as int].0,
    {
        self.offset[k].0.as_str()
    }

    /// The text of capture `k`.
    pub fn value_at(&self, k: usize) -> (r: &str)
        requires
            k < self.entries().len(),
        ensures
            r@ == self.spec_path().subrange(self.entries()[k as int].1, self.entries()[k as int].2),
    {
        proof {
            use_type_invariant(self);
        }
        let (_, s, e) = (&self.offset[k].0, self.offset[k].1, self.offset[k].2);
        assert(self.entries()[k as int] == (self.offset@[k as int].0@, s as int, e as int));
        match &self.path {
            Some(p) => {
                assert(0 <= self.entries()[k as int].1 <= self.entries()[k as int].2 <= p@.len());
                p.as_str().substring_char(s, e)
            },
            None => {
                // Without a path there are no captures, so `k` cannot be in range.
                assert(self.offset@.len() == 0);
                ""
            },
        }
    }

    /// The text captured under `name`; the first one where several share the name.
    pub fn get(&self, name: &str) -> (r: Option<&str>)
        ensures
            match first_named(self.entries(), name@) {
                Some(k) => r matches Some(v) && v@ == self.spec_path().subrange(
                    self.entries()[k].1,
                    self.entries()[k].2,
                ),
                None => r is None,
            },
    {
        let mut k: usize = 0;
        while k < self.offset.len()
            invariant
                k <= self.entries().len(),
                forall|j: int| 0 <= j < k ==> #[trigger] self.entries()[j].0 != name@,
            decreases self.entries().len() - k,
        {
            assert(self.entries()[k as int].0 == self.offset@[k as int].0@);
            if str_eq(self.offset[k].0.as_str(), name) {
                proof {
                    let f = first_named(self.entries(), name@);
                    assert(self.entries()[k as int].0 == name@);
                    let c = f->0;
                    assert(c == k) by {
                        if c < k {
                        } else if k < c {
                        }
                    }
                }
                return Some(self.value_at(k));
            }
            k = k + 1;
        }
        None
    }

    /// Walks the captures in order, each as its name and its text.
    pub fn iter(&self) -> (r: Iter<'_>)
        ensures
            r.spec_pos() == 0,
            r.spec_back() == self.entries().len(),
            r.spec_entries() == self.entries(),
            r.spec_path() == self.spec_path(),
    {
        Iter { caps: self, pos: 0, back: self.offset.len() }
    }

    /// Each capture as its name and its text, copied.
    pub fn into_vec(self) -> (r: Vec<(String, String)>)
        ensures
            r@.len() == self.entries().len(),
            forall|k: int|
                0 <= k < r@.len() ==> (#[trigger] r@[k]).0@ == self.entries()[k].0 && r@[k].1@
                    == self.spec_path().subrange(self.entries()[k].1, self.entries()[k].2),
    {
        let mut r: Vec<(String, String)> = Vec::new();
        let mut k: usize = 0;
        while k < self.offset.len()
            invariant
                k <= self.entries().len(),
                r@.len() == k,
                forall|j: int|
                    0 <= j < k ==> (#[trigger] r@[j]).0@ == self.entries()[j].0 && r@[j].1@
                        == self.spec_path().subrange(self.entries()[j].1, self.entries()[j].2),
            decreases self.entries().len() - k,
        {
            let n = self.name_at(k).to_owned();
            let v = self.value_at(k).to_owned();
            r.push((n, v));
            k = k + 1;
        }
        r
    }

    /// Walks the captures in order, each as its name and its text, copied.
    pub fn into_iter(self) -> (r: IntoIter)
        ensures
            r.spec_items().len() == self.entries().len(),
            forall|k: int|
                0 <= k < r.spec_items().len() ==> (#[trigger] r.spec_items()[k]).0 == self.entries()[k].0
                    && r.spec_items()[k].1 == self.spec_path().subrange(
                    self.entries()[k].1,
                    self.entries()[k].2,
                ),
            r.spec_pos() == 0,
            r.spec_back() == r.spec_items().len(),
    {
        let items = self.into_vec();
        let back = items.len();
        IntoIter { items, pos: 0, back }
    }
}

/// A walk over the captures of an `OwnedCaptures`, from both ends.
pub struct Iter<'a> {
    caps: &'a OwnedCaptures,
    pos: usize,
    back: usize,
}

impl<'a> Iter<'a> {
    #[verifier::type_invariant]
    closed spec fn inv(&self) -> bool {
        self.pos <= self.back <= self.caps.entries().len()
    }

    /// The next capture from the front.
    pub closed spec fn spec_pos(&self) -> int {
        self.pos as int
    }

    /// One past the next capture from the back.
    pub closed spec fn spec_back(&self) -> int {
        self.back as int
    }

    pub closed spec fn spec_entries(&self) -> Seq<(Seq<char>, int, int)> {
        self.caps.entries()
    }

    pub closed spec fn spec_path(&self) -> Seq<char> {
        self.caps.spec_path()
    }

    /// The number of captures left.
    pub fn len(&self) -> (r: usize)
        ensures
            r == self.spec_back() - self.spec_pos(),
    {
        proof {
            use_type_invariant(self);
        }
        self.back - self.pos
    }

    /// The next capture from the front, as its name and its text.
    pub fn next(&mut self) -> (r: Option<(&'a str, &'a str)>)
        ensures
            final(self).spec_entries() == old(self).spec_entries(),
            final(self).spec_path() == old(self).spec_path(),
            final(self).spec_back() == old(self).spec_back(),
            old(self).spec_pos() < old(self).spec_back() ==> {
                let k = old(self).spec_pos();
                &&& final(self).spec_pos() == k + 1
                &&& r matches Some(item) && item.0@ == old(self).spec_entries()[k].0 && item.1@
                    == old(self).spec_path().subrange(
                    old(self).spec_entries()[k].1,
                    old(self).spec_entries()[k].2,
                )
            },
            old(self).spec_pos() >= old(self).spec_back() ==> r is None && final(self).spec_pos()
                == old(self).spec_pos(),
    {
        proof {
            use_type_invariant(&*self);
        }
        if self.pos < self.back {
            let k = self.pos;
            let caps = self.caps;
            let item = (caps.name_at(k), caps.value_at(k));
            self.pos = k + 1;
            Some(item)
        } else {
            None
        }
    }

    /// The next capture from the back, as its name and its text.
    pub fn next_back(&mut self) -> (r: Option<(&'a str, &'a str)>)
        ensures
            final(self).spec_entries() == old(self).spec_entries(),
            final(self).spec_path() == old(self).spec_path(),
            final(self).spec_pos() == old(self).spec_pos(),
            old(self).spec_pos() < old(self).spec_back() ==> {
                let k = old(self).spec_back() - 1;
                &&& final(self).spec_back() == k
                &&& r matches Some(item) && item.0@ == old(self).spec_entries()[k].0 && item.1@
                    == old(self).spec_path().subrange(
                    old(self).spec_entries()[k].1,
                    old(self).spec_entries()[k].2,
                )
            },
            old(self).spec_pos() >= old(self).spec_back() ==> r is None && final(self).spec_back()
                == old(self).spec_back(),
    {
        proof {
            use_type_invariant(&*self);
        }
        if self.pos < self.back {
            let k = self.back - 1;
            let caps = self.caps;
            let item = (caps.name_at(k), caps.value_at(k));
            self.back = k;
            Some(item)
        } else {
            None
        }
    }
}

/// A walk over owned copies of the captures, from both ends.
pub struct IntoIter {
    items: Vec<(String, String)>,
    pos: usize,
    back: usize,
}

/// Pairs of strings seen as pairs of sequences.
pub open spec fn pairs_view(v: Seq<(String, String)>) -> Seq<(Seq<char>, Seq<char>)> {
    v.map_values(|c: (String, String)| (c.0@, c.1@))
}

impl IntoIter {
    #[verifier::type_invariant]
    closed spec fn inv(&self) -> bool {
        self.pos <= self.back <= self.items@.len()
    }

    /// Every capture as its name and its text, including those already walked over.
    pub closed spec fn spec_items(&self) -> Seq<(Seq<char>, Seq<char>)> {
        pairs_view(self.items@)
    }

    pub closed spec fn spec_pos(&self) -> int {
        self.pos as int
    }

    pub closed spec fn spec_back(&self) -> int {
        self.back as int
    }

    /// The number of captures left.
    pub fn len(&self) -> (r: usize)
        ensures
            r == self.spec_back() - self.spec_pos(),
    {
        proof {
            use_type_invariant(self);
        }
        self.back - self.pos
    }

    /// The next capture from the front.
    pub fn next(&mut self) -> (r: Option<(String, String)>)
        ensures
            final(self).spec_items() == old(self).spec_items(),
            final(self).spec_back() == old(self).spec_back(),
            old(self).spec_pos() < old(self).spec_back() ==> {
                &&& final(self).spec_pos() == old(self).spec_pos() + 1
                &&& r matches Some(item) && (item.0@, item.1@) == old(self).spec_items()[old(
                    self,
                ).spec_pos()]
            },
            old(self).spec_pos() >= old(self).spec_back() ==> r is None && final(self).spec_pos()
                == old(self).spec_pos(),
    {
        proof {
            use_type_invariant(&*self);
        }
        if self.pos < self.back {
            let k = self.pos;
            let item = (self.items[k].0.clone(), self.items[k].1.clone());
            self.pos = k + 1;
            Some(item)
        } else {
            None
        }
    }

    /// The next capture from the back.
    pub fn next_back(&mut self) -> (r: Option<(String, String)>)
        ensures
            final(self).spec_items() == old(self).spec_items(),
            final(self).spec_pos() == old(self).spec_pos(),
            old(self).spec_pos() < old(self).spec_back() ==> {
                &&& final(self).spec_back() == old(self).spec_back() - 1
                &&& r matches Some(item) && (item.0@, item.1@) == old(self).spec_items()[old(
                    self,
                ).spec_back() - 1]
            },
            old(self).spec_pos() >= old(self).spec_back() ==> r is None && final(self).spec_back()
                == old(self).spec_back(),
    {
        proof {
            use_type_invariant(&*self);
        }
        if self.pos < self.back {
            let k = self.back - 1;
            let item = (self.items[k].0.clone(), self.items[k].1.clone());
            self.back = k;
            Some(item)
        } else {
            None
        }
    }
}

} // verus!
