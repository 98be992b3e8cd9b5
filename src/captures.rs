use vstd::prelude::*;

use crate::router::{caps_in, caps_view};
use crate::strmap::compare;
use std::cmp::Ordering;

verus! {

/// The characters of `s`.
pub fn chars_of(s: &str) -> (r: Vec<char>)
    ensures
        r@ == s@,
{
    broadcast use vstd::string::axiom_spec_iter;

    let mut v: Vec<char> = Vec::new();
    for c in it: s.chars()
        invariant
            it.seq() == s@,
            v@ == s@.take(it.index() as int),
    {
        v.push(c);
    }
    assert(v@ =~= s@);
    v
}

/// Whether two strings hold the same characters.
pub fn str_eq(a: &str, b: &str) -> (r: bool)
    ensures
        r == (a@ == b@),
{
    let x = chars_of(a);
    let y = chars_of(b);
    match compare(x.as_slice(), y.as_slice()) {
        Ordering::Equal => true,
        _ => false,
    }
}

/// The index of the first entry named `name`, if any.
pub open spec fn first_named(entries: Seq<(Seq<char>, int, int)>, name: Seq<char>) -> Option<int> {
    if exists|k: int| 0 <= k < entries.len() && #[trigger] entries[k].0 == name {
        Some(
            choose|k: int|
                0 <= k < entries.len() && #[trigger] entries[k].0 == name && forall|j: int|
                    0 <= j < k ==> #[trigger] entries[j].0 != name,
        )
    } else {
        None
    }
}

/// What a lookup captured: each name with a piece of the path, held as offsets into
/// the path so that nothing is copied.
pub struct Captures<'a> {
    path: &'a str,
    buf: Vec<(&'a str, usize, usize)>,
}

impl<'a> Captures<'a> {
    #[verifier::type_invariant]
    closed spec fn inv(&self) -> bool {
        caps_in(caps_view(self.buf@), self.path@.len() as int)
    }

    /// The path that the captures point into.
    pub closed spec fn spec_path(&self) -> Seq<char> {
        self.path@
    }

    /// Each capture as its name and the offsets of its text in the path.
    pub closed spec fn entries(&self) -> Seq<(Seq<char>, int, int)> {
        caps_view(self.buf@)
    }

    /// Captures `buf` taken from `path`.
    pub fn new(path: &'a str, buf: Vec<(&'a str, usize, usize)>) -> (r: Captures<'a>)
        requires
            caps_in(caps_view(buf@), path@.len() as int),
        ensures
            r.spec_path() == path@,
            r.entries() == caps_view(buf@),
    {
        Captures { path, buf }
    }

    /// The path that the captures point into.
    pub fn path(&self) -> (r: &'a str)
        ensures
            r@ == self.spec_path(),
    {
        self.path
    }

    /// The number of captures.
    pub fn len(&self) -> (r: usize)
        ensures
            r == self.entries().len(),
    {
        self.buf.len()
    }

    /// Whether nothing was captured.
    pub fn is_empty(&self) -> (r: bool)
        ensures
            r == (self.entries().len() == 0),
    {
        self.buf.len() == 0
    }

    /// The name of capture `k`.
    pub fn name_at(&self, k: usize) -> (r: &'a str)
        requires
            k < self.entries().len(),
        ensures
            r@ == self.entries()[k as int].0,
    {
        self.buf[k].0
    }

    /// Where the text of capture `k` begins and ends in the path.
    pub fn offsets_at(&self, k: usize) -> (r: (usize, usize))
        requires
            k < self.entries().len(),
        ensures
            r.0 == self.entries()[k as int].1,
            r.1 == self.entries()[k as int].2,
            r.0 <= r.1 <= self.spec_path().len(),
    {
        proof {
            use_type_invariant(self);
            assert(0 <= self.entries()[k as int].1 <= self.entries()[k as int].2);
        }
        (self.buf[k].1, self.buf[k].2)
    }

    /// The text of capture `k`: a piece of the path, not a copy.
    pub fn value_at(&self, k: usize) -> (r: &'a str)
        requires
            k < self.entries().len(),
        ensures
            r@ == self.spec_path().subrange(self.entries()[k as int].1, self.entries()[k as int].2),
    {
        proof {
            use_type_invariant(self);
        }
        let (_, s, e) = self.buf[k];
        assert(self.entries()[k as int] == (self.buf@[k as int].0@, s as int, e as int));
        assert(0 <= self.entries()[k as int].1 <= self.entries()[k as int].2 <= self.path@.len());
        self.path.substring_char(s, e)
    }

    /// The text captured under `name`; the first one where several share the name.
    pub fn get(&self, name: &str) -> (r: Option<&'a str>)
        ensures
            match first_named(self.entries(), name@) {
                Some(k) => r matches Some(v) && v@ == self.spec_path().subrange(
                    self.entries()[k].1,
                    self.entries()[k].2,
                ),
                None => r is None,
            },
    {
        let mut k: usize = 0;
        while k < self.buf.len()
            invariant
                k <= self.entries().len(),
                forall|j: int| 0 <= j < k ==> #[trigger] self.entries()[j].0 != name@,
            decreases self.entries().len() - k,
        {
            assert(self.entries()[k as int].0 == self.buf@[k as int].0@);
            if str_eq(self.buf[k].0, name) {
                proof {
                    let f = first_named(self.entries(), name@);
                    assert(self.entries()[k as int].0 == name@);
                    let c = f->0;
                    assert(c == k) by {
                        if c < k {
                        } else if k < c {
                        }
                    }
                }
                return Some(self.value_at(k));
            }
            k = k + 1;
        }
        None
    }

    /// Each capture as its name and its text.
    pub fn to_vec(&self) -> (r: Vec<(&'a str, &'a str)>)
        ensures
            r@.len() == self.entries().len(),
            forall|k: int|
                0 <= k < r@.len() ==> (#[trigger] r@[k]).0@ == self.entries()[k].0 && r@[k].1@
                    == self.spec_path().subrange(self.entries()[k].1, self.entries()[k].2),
    {
        let mut r: Vec<(&'a str, &'a str)> = Vec::new();
        let mut k: usize = 0;
        while k < self.buf.len()
            invariant
                k <= self.entries().len(),
                r@.len() == k,
                forall|j: int|
                    0 <= j < k ==> (#[trigger] r@[j]).0@ == self.entries()[j].0 && r@[j].1@
                        == self.spec_path().subrange(self.entries()[j].1, self.entries()[j].2),
            decreases self.entries().len() - k,
        {
            let v = self.value_at(k);
            let n = self.name_at(k);
            r.push((n, v));
            k = k + 1;
        }
        r
    }
}

} // verus!
