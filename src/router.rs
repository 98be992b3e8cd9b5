use vstd::prelude::*;

use crate::bitset::{FixedBitSet, BIT_SIZE};
use crate::captures::{chars_of, Captures};
use crate::owned_captures::OwnedCaptures;
use crate::spanbuf::{span_buf_new, span_buf_pop, span_buf_push, span_buf_slice, span_items, SpanBuf, MAX_TEXT_LEN};
use crate::error::{ErrorKind, RouterError};
use crate::strmap::StrMap;
use vstd::arithmetic::power2::{pow2, lemma2_to64, lemma2_to64_rest, lemma_pow2_unfold};

verus! {

broadcast use vstd::std_specs::vec::axiom_vec_index_decreases;

/// Most routes that one router holds; route ids are bit positions of `FixedBitSet`.
pub const MAX_ROUTES: usize = 128;

/// Most `/`-separated segments in one pattern.
pub const MAX_SEGMENTS: usize = 64;

// ---------------------------------------------------------------------------
// Splitting text at `/`.
// ---------------------------------------------------------------------------

/// The segments of `s[start..]` as `(begin, end)` offsets, as `str::split('/')`
/// gives them, where the segment under way began at `start` and the scan is at `i`.
pub open spec fn spans_at(s: Seq<char>, start: int, i: int) -> Seq<(int, int)>
    decreases s.len() - i,
{
    if i >= s.len() {
        seq![(start, s.len() as int)]
    } else if s[i] == '/' {
        seq![(start, i)] + spans_at(s, i + 1, i + 1)
    } else {
        spans_at(s, start, i + 1)
    }
}

/// Where the segments of a path begin: after one leading `/`, if there is one.
pub open spec fn path_base(s: Seq<char>) -> int {
    if s.len() > 0 && s[0] == '/' {
        1
    } else {
        0
    }
}

/// The segments of a path, as offsets into it: a single leading `/` is dropped and
/// the rest is split at every `/`.
pub open spec fn path_spans(s: Seq<char>) -> Seq<(int, int)> {
    spans_at(s, path_base(s), path_base(s))
}

/// The text of each span.
pub open spec fn span_texts(s: Seq<char>, spans: Seq<(int, int)>) -> Seq<Seq<char>> {
    spans.map_values(|sp: (int, int)| s.subrange(sp.0, sp.1))
}

/// The segments of a path as text.
pub open spec fn path_segments(s: Seq<char>) -> Seq<Seq<char>> {
    span_texts(s, path_spans(s))
}

/// Every span lies inside `s`, at or after `start`, begins no later than it ends, and
/// the spans follow each other with one separator between them.
pub open spec fn spans_well_placed(s: Seq<char>, spans: Seq<(int, int)>, start: int) -> bool {
    &&& spans.len() >= 1
    &&& spans[0].0 == start
    &&& forall|j: int|
        0 <= j < spans.len() ==> start <= #[trigger] spans[j].0 <= spans[j].1 <= s.len()
    &&& forall|j: int| 0 <= j < spans.len() - 1 ==> #[trigger] spans[j + 1].0 == spans[j].1 + 1
}

proof fn lemma_spans_at(s: Seq<char>, start: int, i: int)
    requires
        0 <= start <= i <= s.len(),
    ensures
        spans_well_placed(s, spans_at(s, start, i), start),
    decreases s.len() - i,
{
    if i < s.len() {
        if s[i] == '/' {
            lemma_spans_at(s, i + 1, i + 1);
            let rest = spans_at(s, i + 1, i + 1);
            let all = spans_at(s, start, i);
            assert(all == seq![(start, i)] + rest);
            assert(all[0] == (start, i));
            assert forall|j: int| 0 <= j < all.len() - 1 implies #[trigger] all[j + 1].0 == all[j].1
                + 1 by {
                assert(all[j + 1] == rest[j]);
                if j > 0 {
                    assert(all[j] == rest[j - 1]);
                    assert(rest[(j - 1) + 1].0 == rest[j - 1].1 + 1);
                } else {
                    assert(rest[0].0 == i + 1);
                }
            }
            assert forall|j: int| 0 <= j < all.len() implies start <= #[trigger] all[j].0
                <= all[j].1 <= s.len() by {
                if j > 0 {
                    assert(all[j] == rest[j - 1]);
                }
            }
        } else {
            lemma_spans_at(s, start, i + 1);
        }
    }
}

/// Splits `s[base..]` at every `/`, giving each segment as `(begin, end)` offsets.
fn split_spans(s: &Vec<char>, base: usize) -> (r: SpanBuf)
    requires
        base <= s@.len() < MAX_TEXT_LEN,
    ensures
        spans_of(span_items(r)) == spans_at(s@, base as int, base as int),
{
    let mut r = span_buf_new();
    let mut start: usize = base;
    let mut i: usize = base;
    while i < s.len()
        invariant
            base <= start <= i <= s@.len() < MAX_TEXT_LEN,
            span_items(r).len() <= i - base,
            spans_of(span_items(r)) + spans_at(s@, start as int, i as int) == spans_at(
                s@,
                base as int,
                base as int,
            ),
        decreases s@.len() - i,
    {
        if s[i] == '/' {
            let ghost before = span_items(r);
            span_buf_push(&mut r, (start, i));
            assert(spans_of(span_items(r)) == spans_of(before) + seq![(start as int, i as int)]);
            assert(spans_of(span_items(r)) + spans_at(s@, i + 1, i + 1) =~= spans_of(before)
                + spans_at(s@, start as int, i as int));
            start = i + 1;
        }
        i = i + 1;
    }
    let ghost before = span_items(r);
    span_buf_push(&mut r, (start, s.len()));
    assert(spans_of(span_items(r)) =~= spans_of(before) + spans_at(s@, start as int, i as int));
    r
}

/// Offsets held as `usize`, seen as integers.
pub open spec fn spans_of(v: Seq<(usize, usize)>) -> Seq<(int, int)> {
    v.map_values(|p: (usize, usize)| (p.0 as int, p.1 as int))
}

// ---------------------------------------------------------------------------
// Patterns.
// ---------------------------------------------------------------------------

/// A capture segment: `:name`.
pub open spec fn is_capture(p: Seq<char>) -> bool {
    p.len() > 0 && p[0] == ':'
}

/// A segment that starts a wildcard: `*name`.
pub open spec fn is_star(p: Seq<char>) -> bool {
    p.len() > 0 && p[0] == '*'
}

/// The literal/capture shape of a pattern read as a binary number, most significant
/// segment first: 1 for a literal segment, 0 for a capture.
pub open spec fn rank_of(parts: Seq<Seq<char>>) -> int
    decreases parts.len(),
{
    if parts.len() == 0 {
        0
    } else {
        rank_of(parts.drop_last()) * 2 + if is_capture(parts.last()) {
            0int
        } else {
            1int
        }
    }
}

/// The captures of a pattern in declaration order: each name with its position.
pub open spec fn caps_of(parts: Seq<Seq<char>>) -> Seq<(Seq<char>, int)>
    decreases parts.len(),
{
    if parts.len() == 0 {
        seq![]
    } else if is_capture(parts.last()) {
        caps_of(parts.drop_last()).push((parts.last().drop_first(), parts.len() - 1))
    } else {
        caps_of(parts.drop_last())
    }
}

proof fn lemma_rank_bound(parts: Seq<Seq<char>>)
    ensures
        0 <= rank_of(parts) < pow2(parts.len()),
    decreases parts.len(),
{
    if parts.len() == 0 {
        lemma2_to64();
    } else {
        let r = rank_of(parts.drop_last());
        let e = pow2((parts.len() - 1) as nat);
        lemma_rank_bound(parts.drop_last());
        lemma_pow2_unfold(parts.len());
        assert(parts.drop_last().len() == parts.len() - 1);
        assert(0 <= r < e);
        assert(pow2(parts.len()) == 2 * e);
        assert(r * 2 + 1 < e * 2) by (nonlinear_arith)
            requires
                0 <= r < e,
        ;
        assert(rank_of(parts) <= r * 2 + 1);
    }
}

proof fn lemma_caps_positions(parts: Seq<Seq<char>>)
    ensures
        forall|k: int|
            0 <= k < caps_of(parts).len() ==> 0 <= #[trigger] caps_of(parts)[k].1 < parts.len()
                && is_capture(parts[caps_of(parts)[k].1]),
    decreases parts.len(),
{
    if parts.len() > 0 {
        let prev = parts.drop_last();
        lemma_caps_positions(prev);
        assert forall|k: int| 0 <= k < caps_of(prev).len() implies caps_of(prev)[k].1 < parts.len()
            && parts[caps_of(prev)[k].1] == prev[caps_of(prev)[k].1] by {
            assert(0 <= #[trigger] caps_of(prev)[k].1 < prev.len());
        }
    }
}

/// What a pattern registers: its segments before any wildcard, the wildcard's name,
/// and whether it leads to a nested router.
pub struct Shape {
    pub parts: Seq<Seq<char>>,
    pub wildcard: Option<Seq<char>>,
    pub nested: bool,
}

impl Shape {
    /// Whether the route reaches past its last segment: a wildcard or a nested router.
    pub open spec fn open_end(self) -> bool {
        self.nested || self.wildcard is Some
    }

    /// The number of path positions the route occupies.
    pub open spec fn segment_num(self) -> int {
        self.parts.len() + if self.open_end() {
            1int
        } else {
            0int
        }
    }

    /// The kind of each of the route's `segment_num` positions: its pattern segments,
    /// then, for an open end, a position that takes any text, which ranks as a capture.
    pub open spec fn kind_parts(self) -> Seq<Seq<char>> {
        if self.open_end() {
            self.parts.push(seq![':'])
        } else {
            self.parts
        }
    }

    /// The literal/capture shape over all `segment_num` positions, read as a binary
    /// number: literal positions earlier rank higher.
    pub open spec fn rank(self) -> int {
        rank_of(self.kind_parts())
    }

    /// Whether a path whose segments are `segs` has this shape: a literal segment
    /// where the pattern has one, anything where it captures, and further segments
    /// only where the route reaches past its end.
    pub open spec fn accepts(self, segs: Seq<Seq<char>>) -> bool {
        &&& segs.len() >= self.segment_num()
        &&& !self.open_end() ==> segs.len() == self.parts.len()
        &&& forall|q: int|
            0 <= q < self.parts.len() ==> is_capture(#[trigger] self.parts[q]) || self.parts[q]
                == segs[q]
    }

    /// The route is in a position mask that holds the captures and the open ends.
    pub open spec fn dyn_bit(self, q: int) -> bool {
        (q < self.parts.len() && is_capture(self.parts[q])) || (q >= self.parts.len()
            && self.open_end())
    }

    /// The route is in the mask of literal `k` at position `q`.
    pub open spec fn lit_bit(self, q: int, k: Seq<char>) -> bool {
        0 <= q < self.parts.len() && !is_capture(self.parts[q]) && self.parts[q] == k
    }

    /// The route is in the mask of routes that reach past position `q`.
    pub open spec fn wild_bit(self, q: int) -> bool {
        q >= self.parts.len() && self.open_end()
    }

    /// Ranking of two routes that both match: more segments first, then the higher rank.
    pub open spec fn beats(self, other: Shape) -> bool {
        self.segment_num() > other.segment_num() || (self.segment_num() == other.segment_num()
            && self.rank() > other.rank())
    }
}

/// The segments of a pattern that precede its wildcard, if it ends in one.
pub open spec fn pattern_parts(segs: Seq<Seq<char>>) -> Seq<Seq<char>> {
    if is_star(segs.last()) {
        segs.drop_last()
    } else {
        segs
    }
}

/// A segment before the last one may be a literal or a capture with a name.
pub open spec fn segment_ok(p: Seq<char>) -> bool {
    !is_star(p) && !(is_capture(p) && p.len() == 1)
}

/// The outcome of checking a pattern's syntax and size: the shape it registers, or
/// the kind of error, in the order in which the checks run.
pub open spec fn parse_pattern(p: Seq<char>, nested: bool, n_routes: int) -> Result<
    Shape,
    ErrorKind,
> {
    if !(p.len() > 0 && p[0] == '/') {
        Err(ErrorKind::MalformedPattern)
    } else if n_routes >= MAX_ROUTES {
        Err(ErrorKind::CapacityExceeded)
    } else {
        let segs = span_texts(p, spans_at(p, 1, 1));
        if segs.len() > MAX_SEGMENTS {
            Err(ErrorKind::CapacityExceeded)
        } else if is_star(segs.last()) && segs.last().len() == 1 {
            Err(ErrorKind::MalformedPattern)
        } else if is_star(segs.last()) && nested {
            Err(ErrorKind::MalformedPattern)
        } else {
            let parts = pattern_parts(segs);
            if !(forall|q: int| 0 <= q < parts.len() ==> segment_ok(#[trigger] parts[q])) {
                Err(ErrorKind::MalformedPattern)
            } else {
                Ok(
                    Shape {
                        parts,
                        wildcard: if is_star(segs.last()) {
                            Some(segs.last().drop_first())
                        } else {
                            None
                        },
                        nested,
                    },
                )
            }
        }
    }
}

} // verus!

verus! {

// ---------------------------------------------------------------------------
// Parsing a pattern.
// ---------------------------------------------------------------------------

/// A pattern after its checks: the spans of its segments before any wildcard, the
/// wildcard's name, its captures with their positions, and its rank.
struct Parsed {
    spans: SpanBuf,
    wildcard: Option<String>,
    captures: Vec<(String, usize)>,
    rank: u128,
    segment_num: usize,
}

/// Names with positions, seen as character sequences and integers.
pub open spec fn named_positions(v: Seq<(String, usize)>) -> Seq<(Seq<char>, int)> {
    v.map_values(|c: (String, usize)| (c.0@, c.1 as int))
}

pub open spec fn name_view(w: Option<String>) -> Option<Seq<char>> {
    match w {
        Some(s) => Some(s@),
        None => None,
    }
}

impl Parsed {
    spec fn shape(&self, text: Seq<char>, nested: bool) -> Shape {
        Shape {
            parts: span_texts(text, spans_of(span_items(self.spans))),
            wildcard: name_view(self.wildcard),
            nested,
        }
    }

    spec fn wf(&self, text: Seq<char>, nested: bool) -> bool {
        let sh = self.shape(text, nested);
        &&& self.segment_num == sh.segment_num()
        &&& self.segment_num >= 1
        &&& self.rank == sh.rank()
        &&& named_positions(self.captures@) == caps_of(sh.parts)
        &&& sh.parts.len() <= MAX_SEGMENTS
        &&& forall|q: int|
            0 <= q < span_items(self.spans).len() ==> (#[trigger] span_items(self.spans)[q]).0
                <= span_items(self.spans)[q].1 <= text.len()
    }
}

/// Whether `text[s..e]` is a capture segment.
fn span_is_capture(text: &Vec<char>, s: usize, e: usize) -> (r: bool)
    requires
        s <= e <= text@.len(),
    ensures
        r == is_capture(text@.subrange(s as int, e as int)),
{
    s < e && text[s] == ':'
}

/// Whether `text[s..e]` starts with `*`.
fn span_is_star(text: &Vec<char>, s: usize, e: usize) -> (r: bool)
    requires
        s <= e <= text@.len(),
    ensures
        r == is_star(text@.subrange(s as int, e as int)),
{
    s < e && text[s] == '*'
}

/// Checks a pattern's syntax and size, in this order: the leading `/`, room for one
/// more route, the number of segments, the wildcard, then each remaining segment.
fn parse(pattern: &str, text: &Vec<char>, nested: bool, n_routes: usize) -> (r: Result<
    Parsed,
    RouterError,
>)
    requires
        text@ == pattern@,
        text@.len() < MAX_TEXT_LEN,
    ensures
        match parse_pattern(text@, nested, n_routes as int) {
            Ok(sh) => r matches Ok(p) && p.wf(text@, nested) && p.shape(text@, nested) == sh,
            Err(k) => r matches Err(e) && e.spec_kind() == k,
        },
{
    if !(text.len() > 0 && text[0] == '/') {
        return Err(RouterError::new(ErrorKind::MalformedPattern, "pattern must start with '/'"));
    }
    if n_routes >= MAX_ROUTES {
        return Err(
            RouterError::new(
                ErrorKind::CapacityExceeded,
                "a single router can not hold more than 128 routes",
            ),
        );
    }
    let mut buf = split_spans(text, 1);
    let spans = span_buf_slice(&buf);
    proof {
        lemma_spans_at(text@, 1, 1);
    }
    let ghost segs = span_texts(text@, spans_of(spans@));
    let ghost full = spans@;
    assert(segs.len() == spans@.len());
    if spans.len() > MAX_SEGMENTS {
        return Err(
            RouterError::new(
                ErrorKind::CapacityExceeded,
                "a single router can not hold more than 64 segments",
            ),
        );
    }
    let (ls, le) = spans[spans.len() - 1];
    assert(spans_of(spans@)[spans@.len() - 1] == (ls as int, le as int));
    assert(segs.last() == text@.subrange(ls as int, le as int));
    let wildcard: Option<String> = if span_is_star(text, ls, le) {
        if le - ls == 1 {
            return Err(RouterError::new(ErrorKind::MalformedPattern, "capture name can not be empty"));
        }
        if nested {
            return Err(
                RouterError::new(
                    ErrorKind::MalformedPattern,
                    "wildcard pattern can not be used for router prefix",
                ),
            );
        }
        let name = pattern.substring_char(ls + 1, le).to_owned();
        assert(name@ =~= segs.last().drop_first());
        span_buf_pop(&mut buf);
        assert(span_texts(text@, spans_of(span_items(buf))) =~= segs.drop_last());
        Some(name)
    } else {
        None
    };
    let spans = span_buf_slice(&buf);
    let ghost parts = pattern_parts(segs);
    assert(parts == span_texts(text@, spans_of(spans@)));
    assert(spans@ =~= full.take(spans@.len() as int));
    assert forall|q: int| 0 <= q < spans@.len() implies (#[trigger] spans@[q]).0 <= spans@[q].1
        <= text@.len() by {
        assert(spans@[q] == full[q]);
        assert(spans_of(full)[q] == (full[q].0 as int, full[q].1 as int));
    }
    let mut captures: Vec<(String, usize)> = Vec::new();
    let mut rank: u64 = 0;
    let mut i: usize = 0;
    while i < spans.len()
        invariant
            i <= spans@.len() <= MAX_SEGMENTS,
            parts == span_texts(text@, spans_of(spans@)),
            text@ == pattern@,
            1 <= segs.len() <= MAX_SEGMENTS,
            segs == span_texts(text@, spans_at(text@, 1, 1)),
            parts == pattern_parts(segs),
            !(is_star(segs.last()) && segs.last().len() == 1),
            !(is_star(segs.last()) && nested),
            name_view(wildcard) == (if is_star(segs.last()) {
                Some(segs.last().drop_first())
            } else {
                None
            }),
            text@.len() > 0 && text@[0] == '/',
            n_routes < MAX_ROUTES,
            forall|q: int|
                0 <= q < spans@.len() ==> (#[trigger] spans@[q]).0 <= spans@[q].1 <= text@.len(),
            forall|q: int|
                0 <= q < i ==> segment_ok(#[trigger] parts[q]),
            rank == rank_of(parts.take(i as int)),
            named_positions(captures@) == caps_of(parts.take(i as int)),
        decreases spans@.len() - i,
    {
        let (s, e) = spans[i];
        assert(spans_of(spans@)[i as int] == (s as int, e as int));
        assert(parts[i as int] == text@.subrange(s as int, e as int));
        if span_is_star(text, s, e) {
            assert(!segment_ok(parts[i as int]));
            return Err(
                RouterError::new(
                    ErrorKind::MalformedPattern,
                    "wildcard pattern can only appear at end",
                ),
            );
        }
        let cap = span_is_capture(text, s, e);
        if cap && e - s == 1 {
            assert(is_capture(parts[i as int]) && parts[i as int].len() == 1);
            return Err(RouterError::new(ErrorKind::MalformedPattern, "capture name can not be empty"));
        }
        proof {
            assert(parts.take(i + 1).drop_last() =~= parts.take(i as int));
            lemma_rank_bound(parts.take(i as int));
            lemma2_to64();
            lemma2_to64_rest();
            assert(pow2(i as nat) <= pow2(63)) by {
                if i < 63 {
                    vstd::arithmetic::power2::lemma_pow2_strictly_increases(i as nat, 63);
                }
            }
        }
        if cap {
            let name = pattern.substring_char(s + 1, e).to_owned();
            assert(name@ =~= parts[i as int].drop_first());
            let ghost before = captures@;
            captures.push((name, i));
            assert(named_positions(captures@) =~= named_positions(before).push((
                parts[i as int].drop_first(),
                i as int,
            )));
            rank = rank * 2;
        } else {
            rank = rank * 2 + 1;
        }
        i = i + 1;
    }
    assert(parts.take(i as int) =~= parts);
    let open_end = nested || wildcard.is_some();
    let segment_num = if open_end {
        spans.len() + 1
    } else {
        spans.len()
    };
    let rank: u128 = if open_end {
        (rank as u128) * 2
    } else {
        rank as u128
    };
    proof {
        let sh = Shape { parts, wildcard: name_view(wildcard), nested };
        if open_end {
            assert(sh.kind_parts().drop_last() =~= parts);
            assert(is_capture(sh.kind_parts().last()));
        }
    }
    assert(segs.len() >= 1);
    Ok(Parsed { spans: buf, wildcard, captures, rank, segment_num })
}

} // verus!

verus! {

// ---------------------------------------------------------------------------
// The router and its index.
// ---------------------------------------------------------------------------

/// One path position of the index: which routes accept which text there.
#[derive(Debug)]
pub struct Segment {
    static_map: StrMap<FixedBitSet>,
    dynamic: FixedBitSet,
    wildcard: FixedBitSet,
    num_mask: FixedBitSet,
}

/// What the index records of one registered pattern.
pub struct Route {
    segment_num: usize,
    rank: u128,
    wildcard: Option<String>,
    captures: Vec<(String, usize)>,
    nested: bool,
    parts: Ghost<Seq<Seq<char>>>,
}

/// Where a route leads: a value, or a router that matches the rest of the path.
pub enum Endpoint<T> {
    Data(T),
    Router(Router<T>),
}

impl<T> Endpoint<T> {
    /// Whether this endpoint is a nested router.
    pub fn is_router(&self) -> (r: bool)
        ensures
            r == self is Router,
    {
        match self {
            Endpoint::Data(_) => false,
            Endpoint::Router(_) => true,
        }
    }
}

impl Route {
    pub closed spec fn shape(&self) -> Shape {
        Shape { parts: self.parts@, wildcard: name_view(self.wildcard), nested: self.nested }
    }

    closed spec fn wf(&self) -> bool {
        &&& self.segment_num == self.shape().segment_num()
        &&& self.segment_num >= 1
        &&& self.rank == self.shape().rank()
        &&& named_positions(self.captures@) == caps_of(self.parts@)
        &&& self.parts@.len() <= MAX_SEGMENTS
    }
}

impl Segment {
    /// The masks at position `q` agree with the shapes of the routes.
    closed spec fn wf_at(&self, q: int, shapes: Seq<Shape>) -> bool {
        &&& self.static_map.wf()
        &&& forall|id: nat|
            #[trigger] self.dynamic@.contains(id) <==> id < shapes.len() && shapes[id as int].dyn_bit(
                q,
            )
        &&& forall|id: nat|
            #[trigger] self.wildcard@.contains(id) <==> id < shapes.len() && shapes[id as int].wild_bit(
                q,
            )
        &&& forall|id: nat|
            #[trigger] self.num_mask@.contains(id) <==> id < shapes.len() && q + 1
                >= shapes[id as int].segment_num()
        &&& forall|k: Seq<char>, id: nat|
            #![trigger self.static_map.view()[k].view().contains(id)]
            self.static_map.view().contains_key(k) && self.static_map.view()[k].view().contains(id)
                ==> id < shapes.len() && shapes[id as int].lit_bit(q, k)
        &&& forall|id: nat|
            #![trigger shapes[id as int].lit_bit(q, shapes[id as int].parts[q])]
            id < shapes.len() && shapes[id as int].lit_bit(q, shapes[id as int].parts[q])
                ==> self.static_map.view().contains_key(shapes[id as int].parts[q])
                && self.static_map.view()[shapes[id as int].parts[q]].view().contains(id)
    }
}

/// A set of patterns, each leading to a value or to a nested router, and the index
/// that finds the one that best matches a path.
pub struct Router<T> {
    segments: Vec<Segment>,
    routes: Vec<Route>,
    endpoints: Vec<Endpoint<T>>,
}

impl<T> Router<T> {
    /// The shapes of the registered patterns; a route's id is its index here.
    pub closed spec fn shapes(&self) -> Seq<Shape> {
        self.routes@.map_values(|r: Route| r.shape())
    }

    /// Where the registered patterns lead, by route id.
    pub closed spec fn spec_endpoints(&self) -> Seq<Endpoint<T>> {
        self.endpoints@
    }

    /// How many path positions the index covers: the most that any route occupies.
    pub closed spec fn depth(&self) -> int {
        self.segments@.len() as int
    }

    #[verifier::type_invariant]
    closed spec fn inv(&self) -> bool {
        &&& self.routes@.len() == self.endpoints@.len()
        &&& self.routes@.len() <= MAX_ROUTES
        &&& forall|id: int|
            0 <= id < self.routes@.len() ==> {
                &&& (#[trigger] self.routes@[id]).wf()
                &&& self.routes@[id].segment_num <= self.segments@.len()
            }
        &&& forall|q: int|
            0 <= q < self.segments@.len() ==> (#[trigger] self.segments@[q]).wf_at(q, self.shapes())
    }

    /// The router holds no routes.
    pub open spec fn is_empty(&self) -> bool {
        &&& self.shapes().len() == 0
        &&& self.spec_endpoints().len() == 0
        &&& self.depth() == 0
    }

    /// A router without routes.
    pub fn new() -> (r: Router<T>)
        ensures
            r.shapes() == Seq::<Shape>::empty(),
            r.spec_endpoints() == Seq::<Endpoint<T>>::empty(),
            r.depth() == 0,
    {
        let r = Router { segments: Vec::new(), routes: Vec::new(), endpoints: Vec::new() };
        assert(r.shapes() =~= Seq::<Shape>::empty());
        r
    }

    /// Removes every route.
    pub fn clear(&mut self)
        ensures
            final(self).shapes() == Seq::<Shape>::empty(),
            final(self).spec_endpoints() == Seq::<Endpoint<T>>::empty(),
            final(self).depth() == 0,
    {
        *self = Router::new();
    }

    /// The number of registered routes.
    pub fn len(&self) -> (r: usize)
        ensures
            r == self.shapes().len(),
    {
        self.routes.len()
    }
}

} // verus!

verus! {

// ---------------------------------------------------------------------------
// Registering a pattern.
// ---------------------------------------------------------------------------

/// A registered route `old` is still a candidate against a new pattern `new` after
/// every position of the new pattern: the old route captures or reaches past its end
/// there, or both have the same literal text.
pub open spec fn survives(old: Shape, new: Shape) -> bool {
    forall|q: int| 0 <= q < new.parts.len() ==> #[trigger] passes_at(old, new, q)
}

/// At position `q`, the index cannot tell the new pattern's segment from the old route.
pub open spec fn passes_at(old: Shape, new: Shape, q: int) -> bool {
    old.dyn_bit(q) || (!is_capture(new.parts[q]) && old.lit_bit(q, new.parts[q]))
}

proof fn lemma_passes_beyond(old: Shape, new: Shape, depth: int, q: int)
    requires
        1 <= old.segment_num() <= depth <= q < new.parts.len(),
    ensures
        passes_at(old, new, q) == old.wild_bit(depth - 1),
{
}

/// `passes_at` holds at every position below `n`.
pub open spec fn passes_upto(old: Shape, new: Shape, n: int) -> bool {
    forall|q: int| 0 <= q < n ==> #[trigger] passes_at(old, new, q)
}

/// Whether a new pattern that shares its prefix with a registered one must be
/// refused: a nested router conflicts with every other nested router and with a
/// plain route that is at least as long; two plain routes conflict only when they
/// cannot be told apart: as many positions, a literal and a capture at the same
/// positions, and both or neither ending in a wildcard.
pub open spec fn conflicts(old: Shape, new: Shape) -> bool {
    if old.nested {
        new.nested || new.segment_num() >= old.segment_num()
    } else if new.nested {
        old.segment_num() >= new.segment_num()
    } else {
        (old.wildcard is Some) == (new.wildcard is Some) && same_kinds(
            old.kind_parts(),
            new.kind_parts(),
        )
    }
}

impl<T> Router<T> {
    /// Whether registering `sh` must fail with a collision.
    pub open spec fn collides(&self, sh: Shape) -> bool {
        exists|id: int|
            0 <= id < self.shapes().len() && survives(self.shapes()[id], sh) && #[trigger] conflicts(
                self.shapes()[id],
                sh,
            )
    }

    /// What registering pattern `p` does: the shape it adds, or the kind of error.
    pub open spec fn insert_result(&self, p: Seq<char>, nested: bool) -> Result<Shape, ErrorKind> {
        match parse_pattern(p, nested, self.shapes().len() as int) {
            Err(k) => Err(k),
            Ok(sh) => if self.collides(sh) {
                Err(ErrorKind::Collision)
            } else {
                Ok(sh)
            },
        }
    }

    /// The router after registering `sh` leading to `e`.
    pub open spec fn inserted(&self, after: &Router<T>, sh: Shape, e: Endpoint<T>) -> bool {
        &&& after.shapes() == self.shapes().push(sh)
        &&& after.spec_endpoints() == self.spec_endpoints().push(e)
        &&& after.depth() == if sh.segment_num() > self.depth() {
            sh.segment_num()
        } else {
            self.depth()
        }
    }

    fn conflicts_with(&self, id: usize, parsed: &Parsed, text: &Vec<char>, nested: bool) -> (r:
        bool)
        requires
            id < self.shapes().len(),
            parsed.wf(text@, nested),
        ensures
            r == conflicts(self.shapes()[id as int], parsed.shape(text@, nested)),
    {
        proof {
            use_type_invariant(self);
        }
        let rt = &self.routes[id];
        assert(self.shapes()[id as int] == rt.shape());
        if rt.nested {
            nested || parsed.segment_num >= rt.segment_num
        } else if nested {
            rt.segment_num >= parsed.segment_num
        } else {
            proof {
                let (o, n) = (rt.shape(), parsed.shape(text@, nested));
                if o.segment_num() == n.segment_num() {
                    lemma_rank_same_kinds(o.kind_parts(), n.kind_parts());
                }
            }
            rt.wildcard.is_some() == parsed.wildcard.is_some() && rt.segment_num
                == parsed.segment_num && rt.rank == parsed.rank
        }
    }

    /// Whether the parsed pattern collides with a registered route.
    fn check_collision(&self, text: &Vec<char>, parsed: &Parsed, nested: bool) -> (r: bool)
        requires
            parsed.wf(text@, nested),
        ensures
            r == self.collides(parsed.shape(text@, nested)),
    {
        proof {
            use_type_invariant(self);
        }
        let ghost sh = parsed.shape(text@, nested);
        let ghost shapes = self.shapes();
        let pspans = span_buf_slice(&parsed.spans);
        let mut mask = FixedBitSet::one();
        let n = if pspans.len() < self.segments.len() {
            pspans.len()
        } else {
            self.segments.len()
        };
        let mut q: usize = 0;
        while q < n
            invariant
                self.inv(),
                shapes == self.shapes(),
                sh == parsed.shape(text@, nested),
                parsed.wf(text@, nested),
                pspans@ == span_items(parsed.spans),
                n <= pspans@.len(),
                n <= self.segments@.len(),
                q <= n,
                forall|id: nat|
                    #[trigger] mask@.contains(id) <==> (id < BIT_SIZE && (q == 0 || (id
                        < shapes.len() && passes_upto(shapes[id as int], sh, q as int)))),
            decreases n - q,
        {
            let seg = &self.segments[q];
            assert(seg.wf_at(q as int, shapes));
            let mut e = seg.dynamic;
            let (s, t) = pspans[q];
            assert(spans_of(pspans@)[q as int] == (s as int, t as int));
            assert(sh.parts[q as int] == text@.subrange(s as int, t as int));
            let cap = span_is_capture(text, s, t);
            if !cap {
                let key: &[char] = &text.as_slice()[s..t];
                match seg.static_map.find(key) {
                    Some(m) => {
                        e.union_with(m);
                    },
                    None => {},
                }
            }
            let ghost before = mask@;
            mask.intersect_with(&e);
            proof {
                assert forall|id: nat| #[trigger] e@.contains(id) <==> (id < shapes.len()
                    && passes_at(shapes[id as int], sh, q as int)) by {
                    if id < shapes.len() && !cap && shapes[id as int].lit_bit(
                        q as int,
                        sh.parts[q as int],
                    ) {
                        assert(shapes[id as int].parts[q as int] == sh.parts[q as int]);
                        assert(shapes[id as int].lit_bit(
                            q as int,
                            shapes[id as int].parts[q as int],
                        ));
                    }
                }
                assert forall|id: nat| #[trigger] mask@.contains(id) <==> (id < BIT_SIZE && (q + 1
                    == 0 || (id < shapes.len() && passes_upto(shapes[id as int], sh, q + 1)))) by {
                    assert(mask@.contains(id) == (before.contains(id) && e@.contains(id)));
                    if id < shapes.len() {
                        if passes_upto(shapes[id as int], sh, q + 1) {
                            assert(passes_at(shapes[id as int], sh, q as int));
                        }
                        if passes_upto(shapes[id as int], sh, q as int) && passes_at(
                            shapes[id as int],
                            sh,
                            q as int,
                        ) {
                            assert forall|q2: int| 0 <= q2 < q + 1 implies #[trigger] passes_at(
                                shapes[id as int],
                                sh,
                                q2,
                            ) by {
                                if q2 < q {
                                    assert(passes_at(shapes[id as int], sh, q2));
                                }
                            }
                        }
                    }
                }
            }
            q = q + 1;
        }
        let depth = self.segments.len();
        if n < pspans.len() && depth > 0 {
            let ghost before = mask@;
            mask.intersect_with(&self.segments[depth - 1].wildcard);
            proof {
                let last = self.segments@[depth - 1];
                assert(last.wf_at(depth - 1, shapes));
                assert forall|i: nat| i < shapes.len() implies (#[trigger] mask@.contains(i)
                    <==> survives(shapes[i as int], sh)) by {
                    let o = shapes[i as int];
                    assert(o == self.routes@[i as int].shape());
                    assert(self.routes@[i as int].wf());
                    assert(mask@.contains(i) == (before.contains(i) && last.wildcard@.contains(i)));
                    if mask@.contains(i) {
                        assert forall|q2: int| 0 <= q2 < sh.parts.len() implies #[trigger] passes_at(
                            o,
                            sh,
                            q2,
                        ) by {
                            if q2 >= n {
                                lemma_passes_beyond(o, sh, depth as int, q2);
                            }
                        }
                    }
                    if survives(o, sh) {
                        assert(passes_at(o, sh, n as int));
                        lemma_passes_beyond(o, sh, depth as int, n as int);
                        assert forall|q2: int| 0 <= q2 < n implies #[trigger] passes_at(o, sh, q2) by {}
                    }
                }
            }
        } else {
            proof {
                assert forall|i: nat| i < shapes.len() implies (#[trigger] mask@.contains(i)
                    <==> survives(shapes[i as int], sh)) by {
                    let o = shapes[i as int];
                    assert(o == self.routes@[i as int].shape());
                    assert(self.routes@[i as int].wf());
                    if survives(o, sh) {
                        assert forall|q2: int| 0 <= q2 < n implies #[trigger] passes_at(o, sh, q2) by {}
                    }
                    if n > 0 && mask@.contains(i) {
                        assert forall|q2: int| 0 <= q2 < sh.parts.len() implies #[trigger] passes_at(
                            o,
                            sh,
                            q2,
                        ) by {}
                    }
                }
            }
        }
        let mut id: usize = 0;
        while id < self.routes.len()
            invariant
                self.inv(),
                shapes == self.shapes(),
                sh == parsed.shape(text@, nested),
                parsed.wf(text@, nested),
                forall|i: nat|
                    i < shapes.len() ==> (#[trigger] mask@.contains(i) <==> survives(
                        shapes[i as int],
                        sh,
                    )),
                forall|j: int|
                    0 <= j < id ==> !(survives(shapes[j], sh) && #[trigger] conflicts(shapes[j], sh)),
            decreases self.routes@.len() - id,
        {
            assert(mask@.contains(id as nat) == survives(shapes[id as int], sh));
            if mask.contains(id) && self.conflicts_with(id, parsed, text, nested) {
                return true;
            }
            id = id + 1;
        }
        false
    }
}

} // verus!

verus! {

/// Positions `0..segs.len()` of the index agree with `shapes`.
closed spec fn segments_wf(segs: Seq<Segment>, shapes: Seq<Shape>) -> bool {
    forall|q: int| 0 <= q < segs.len() ==> (#[trigger] segs[q]).wf_at(q, shapes)
}

/// Grows the index to `num` positions; a new position starts from the open-ended
/// routes of the last one, which reach it too.
fn extend_segments(segments: &mut Vec<Segment>, num: usize, Ghost(shapes): Ghost<Seq<Shape>>)
    requires
        segments_wf(old(segments)@, shapes),
        old(segments)@.len() <= num,
        forall|id: int|
            0 <= id < shapes.len() ==> 1 <= (#[trigger] shapes[id]).segment_num() <= old(
                segments,
            )@.len(),
    ensures
        segments_wf(final(segments)@, shapes),
        final(segments)@.len() == num,
        forall|q: int| 0 <= q < old(segments)@.len() ==> final(segments)@[q] == old(segments)@[q],
        forall|q: int|
            old(segments)@.len() <= q < num ==> {
                let s = #[trigger] final(segments)@[q];
                let l = old(segments)@.len() as int;
                &&& s.static_map.view() == Map::<Seq<char>, FixedBitSet>::empty()
                &&& s.dynamic@ == (if l > 0 {
                    old(segments)@[l - 1].wildcard@
                } else {
                    Set::<nat>::empty()
                })
                &&& s.wildcard@ == s.dynamic@
                &&& s.num_mask@ == (if l > 0 {
                    old(segments)@[l - 1].num_mask@
                } else {
                    Set::<nat>::empty()
                })
            },
{
    let len = segments.len();
    let (wildcard_base, num_base) = if len > 0 {
        (segments[len - 1].wildcard, segments[len - 1].num_mask)
    } else {
        (FixedBitSet::zero(), FixedBitSet::zero())
    };
    proof {
        if len > 0 {
            assert(segments@[len - 1].wf_at(len - 1, shapes));
            assert forall|id: nat| #[trigger] num_base@.contains(id) <==> id < shapes.len() by {
                if id < shapes.len() {
                    assert(1 <= shapes[id as int].segment_num() <= len);
                }
            }
            assert forall|id: nat| #[trigger] wildcard_base@.contains(id) <==> id < shapes.len()
                && shapes[id as int].open_end() by {
                if id < shapes.len() {
                    assert(1 <= shapes[id as int].segment_num() <= len);
                }
            }
        } else if shapes.len() > 0 {
            assert(1 <= shapes[0].segment_num() <= len);
        }
    }
    while segments.len() < num
        invariant
            segments_wf(segments@, shapes),
            len <= segments@.len() <= num,
            forall|q: int| 0 <= q < len ==> segments@[q] == old(segments)@[q],
            forall|id: int|
                0 <= id < shapes.len() ==> 1 <= (#[trigger] shapes[id]).segment_num() <= len,
            forall|id: nat|
                #[trigger] wildcard_base@.contains(id) <==> id < shapes.len() && shapes[id as int].open_end(),
            forall|id: nat| #[trigger] num_base@.contains(id) <==> id < shapes.len(),
            wildcard_base@ == (if len > 0 {
                old(segments)@[len - 1].wildcard@
            } else {
                Set::<nat>::empty()
            }),
            num_base@ == (if len > 0 {
                old(segments)@[len - 1].num_mask@
            } else {
                Set::<nat>::empty()
            }),
            forall|q: int|
                len <= q < segments@.len() ==> {
                    let s = #[trigger] segments@[q];
                    &&& s.static_map.view() == Map::<Seq<char>, FixedBitSet>::empty()
                    &&& s.dynamic@ == wildcard_base@
                    &&& s.wildcard@ == wildcard_base@
                    &&& s.num_mask@ == num_base@
                },
        decreases num - segments@.len(),
    {
        let seg = Segment {
            static_map: StrMap::new(),
            dynamic: wildcard_base,
            wildcard: wildcard_base,
            num_mask: num_base,
        };
        let ghost q = segments@.len() as int;
        assert(seg.wf_at(q, shapes)) by {
            assert forall|k: Seq<char>, id: nat|
                seg.static_map.view().contains_key(k) && #[trigger] seg.static_map.view()[k].view().contains(id)
                implies id < shapes.len() && shapes[id as int].lit_bit(q, k) by {}
        }
        let ghost before = segments@;
        segments.push(seg);
        assert forall|q2: int| 0 <= q2 < segments@.len() implies (#[trigger] segments@[q2]).wf_at(
            q2,
            shapes,
        ) by {
            if q2 < before.len() {
                assert(segments@[q2] == before[q2]);
            }
        }
    }
}

/// Records route `shapes.len()`, of shape `sh`, at position `q` of the index.
fn add_route_at(
    seg: &mut Segment,
    q: usize,
    id: usize,
    text: &Vec<char>,
    parsed: &Parsed,
    nested: bool,
    Ghost(shapes): Ghost<Seq<Shape>>,
)
    requires
        old(seg).wf_at(q as int, shapes),
        shapes.len() < MAX_ROUTES,
        id == shapes.len(),
        parsed.wf(text@, nested),
    ensures
        final(seg).wf_at(q as int, shapes.push(parsed.shape(text@, nested))),
{
    let ghost sh = parsed.shape(text@, nested);
    let ghost all = shapes.push(sh);
    let ghost old_map = seg.static_map.view();
    let open_end = nested || parsed.wildcard.is_some();
    let pspans = span_buf_slice(&parsed.spans);
    if q < pspans.len() {
        let (s, t) = pspans[q];
        assert(spans_of(pspans@)[q as int] == (s as int, t as int));
        assert(sh.parts[q as int] == text@.subrange(s as int, t as int));
        if span_is_capture(text, s, t) {
            seg.dynamic.set(id, true);
        } else {
            let key: &[char] = &text.as_slice()[s..t];
            let m = seg.static_map.find_mut_with(
                key,
                (|| -> (z: FixedBitSet)
                    ensures
                        z@ == Set::<nat>::empty(),
                    { FixedBitSet::zero() }),
            );
            m.set(id, true);
        }
    } else if open_end {
        seg.dynamic.set(id, true);
        seg.wildcard.set(id, true);
    }
    if q >= parsed.segment_num - 1 {
        seg.num_mask.set(id, true);
    }
    proof {
        assert forall|i: nat| i < shapes.len() implies #[trigger] all[i as int] == shapes[i as int] by {}
        assert(all[id as int] == sh);
        assert forall|k: Seq<char>, i: nat|
            seg.static_map.view().contains_key(k) && #[trigger] seg.static_map.view()[k].view().contains(i)
            implies i < all.len() && all[i as int].lit_bit(q as int, k) by {
            if i != id || k != sh.parts[q as int] {
                if i < shapes.len() {
                    assert(all[i as int] == shapes[i as int]);
                }
                assert(old_map.contains_key(k) && old_map[k].view().contains(i));
            }
        }
        assert forall|i: nat|
            i < all.len() && #[trigger] all[i as int].lit_bit(q as int, all[i as int].parts[q as int])
            implies seg.static_map.view().contains_key(all[i as int].parts[q as int])
            && seg.static_map.view()[all[i as int].parts[q as int]].view().contains(i) by {
            if i < shapes.len() {
                assert(all[i as int] == shapes[i as int]);
                assert(shapes[i as int].lit_bit(q as int, shapes[i as int].parts[q as int]));
            }
        }
    }
}

impl<T> Router<T> {
    /// Registers `pattern`, leading to `endpoint`, after its syntax, size and
    /// collision checks; on any failure the router is left as it was.
    fn insert_endpoint(&mut self, pattern: &str, endpoint: Endpoint<T>) -> (r: Result<
        (),
        RouterError,
    >)
        requires
            pattern@.len() < MAX_TEXT_LEN,
        ensures
            match old(self).insert_result(pattern@, endpoint is Router) {
                Ok(sh) => r is Ok && old(self).inserted(final(self), sh, endpoint),
                Err(k) => r matches Err(e) && e.spec_kind() == k && *final(self) == *old(self),
            },
    {
        proof {
            use_type_invariant(&*self);
        }
        let text = chars_of(pattern);
        let nested = endpoint.is_router();
        let parsed = match parse(pattern, &text, nested, self.routes.len()) {
            Ok(p) => p,
            Err(e) => {
                return Err(e);
            },
        };
        if self.check_collision(&text, &parsed, nested) {
            return Err(RouterError::new(ErrorKind::Collision, "pattern collision occured"));
        }
        let ghost sh = parsed.shape(text@, nested);
        let ghost shapes = self.shapes();
        let ghost old_eps = self.endpoints@;
        let mut tmp = Router::new();
        std::mem::swap(self, &mut tmp);
        proof {
            use_type_invariant(&tmp);
        }
        let Router { mut segments, mut routes, mut endpoints } = tmp;
        assert(segments_wf(segments@, shapes));
        if parsed.segment_num > segments.len() {
            extend_segments(&mut segments, parsed.segment_num, Ghost(shapes));
        }
        let len = segments.len();
        let mut q: usize = 0;
        while q < len
            invariant
                len == segments@.len(),
                routes@.len() == shapes.len(),
                parsed.wf(text@, nested),
                sh == parsed.shape(text@, nested),
                shapes.len() < MAX_ROUTES,
                forall|q2: int| 0 <= q2 < q ==> (#[trigger] segments@[q2]).wf_at(q2, shapes.push(sh)),
                forall|q2: int|
                    q <= q2 < segments@.len() ==> (#[trigger] segments@[q2]).wf_at(q2, shapes),
            decreases len - q,
        {
            let ghost before = segments@;
            add_route_at(&mut segments[q], q, routes.len(), &text, &parsed, nested, Ghost(shapes));
            assert forall|q2: int| 0 <= q2 < segments@.len() && q2 != q implies segments@[q2]
                == before[q2] by {}
            q = q + 1;
        }
        let Parsed { spans, wildcard, captures, rank, segment_num } = parsed;
        let route = Route {
            segment_num,
            rank,
            wildcard,
            captures,
            nested,
            parts: Ghost(sh.parts),
        };
        assert(route.shape() == sh);
        routes.push(route);
        endpoints.push(endpoint);
        assert(routes@.map_values(|r: Route| r.shape()) =~= shapes.push(sh));
        *self = Router { segments, routes, endpoints };
        Ok(())
    }
}

} // verus!

verus! {

// ---------------------------------------------------------------------------
// Looking a path up.
// ---------------------------------------------------------------------------

/// Route `w` is the one a lookup picks for the path segments `segs`: it accepts them,
/// no accepting route beats it, and it beats every accepting route with a smaller id.
pub open spec fn is_winner(shapes: Seq<Shape>, segs: Seq<Seq<char>>, w: int) -> bool {
    &&& 0 <= w < shapes.len()
    &&& shapes[w].accepts(segs)
    &&& forall|j: int|
        0 <= j < shapes.len() && #[trigger] shapes[j].accepts(segs) ==> !shapes[j].beats(shapes[w])
    &&& forall|j: int| 0 <= j < w && #[trigger] shapes[j].accepts(segs) ==> shapes[w].beats(shapes[j])
}

/// Where a wildcard's text begins: at the `/` before the segment at `start`, but not
/// before `base`, where the text that this router sees begins.
pub open spec fn tail_start(start: int, base: int) -> int {
    if start > base {
        start - 1
    } else {
        base
    }
}

/// What route `sh` captures from the path `s` split into `spans`: each capture with
/// the offsets of its segment, in declaration order, then the wildcard with the rest
/// of the text.
pub open spec fn route_captures(sh: Shape, s: Seq<char>, spans: Seq<(int, int)>, base: int) -> Seq<
    (Seq<char>, int, int),
> {
    caps_of(sh.parts).map_values(|c: (Seq<char>, int)| (c.0, spans[c.1].0, spans[c.1].1))
        + match sh.wildcard {
        Some(name) => seq![(name, tail_start(spans[sh.segment_num() - 1].0, base), s.len() as int)],
        None => seq![],
    }
}

/// Captures held as name, begin and end, seen as a sequence and integers.
pub open spec fn caps_view(v: Seq<(&str, usize, usize)>) -> Seq<(Seq<char>, int, int)> {
    v.map_values(|c: (&str, usize, usize)| (c.0@, c.1 as int, c.2 as int))
}

/// The spans are at least one, and each lies inside `s` and begins at or after `base`.
pub open spec fn spans_in(s: Seq<char>, spans: Seq<(int, int)>, base: int) -> bool {
    &&& spans.len() >= 1
    &&& 0 <= base
    &&& forall|j: int| 0 <= j < spans.len() ==> base <= #[trigger] spans[j].0 <= spans[j].1 <= s.len()
    &&& forall|j: int| 0 <= j < spans.len() - 1 ==> #[trigger] spans[j + 1].0 == spans[j].1 + 1
}

proof fn lemma_spans_ascend(s: Seq<char>, spans: Seq<(int, int)>, base: int, i: int, j: int)
    requires
        spans_in(s, spans, base),
        0 <= i <= j < spans.len(),
    ensures
        spans[i].0 <= spans[j].0,
    decreases j - i,
{
    if i < j {
        lemma_spans_ascend(s, spans, base, i, j - 1);
        assert(spans[(j - 1) + 1].0 == spans[j - 1].1 + 1);
    }
}

/// Every capture is a piece `begin..end` of a text of length `len`.
pub open spec fn caps_in(c: Seq<(Seq<char>, int, int)>, len: int) -> bool {
    forall|k: int| 0 <= k < c.len() ==> 0 <= #[trigger] c[k].1 <= c[k].2 <= len
}

/// Position `q` of the index lets route `sh` through for path segments `segs`.
pub open spec fn lets_through(sh: Shape, segs: Seq<Seq<char>>, q: int) -> bool {
    sh.dyn_bit(q) || sh.lit_bit(q, segs[q])
}

proof fn lemma_mask_accepts(sh: Shape, segs: Seq<Seq<char>>, depth: int)
    requires
        1 <= sh.segment_num() <= depth,
        segs.len() >= 1,
    ensures
        ((forall|q: int|
            0 <= q < segs.len() && q < depth ==> #[trigger] lets_through(sh, segs, q)) && (segs.len()
            > depth ==> sh.wild_bit(depth - 1)) && (segs.len() <= depth ==> segs.len()
            >= sh.segment_num())) <==> sh.accepts(segs),
{
    let n = segs.len();
    let p = sh.parts.len();
    if sh.accepts(segs) {
        assert forall|q: int| 0 <= q < n && q < depth implies #[trigger] lets_through(sh, segs, q) by {
            if q < p {
                assert(is_capture(sh.parts[q]) || sh.parts[q] == segs[q]);
            }
        }
    }
    if (forall|q: int| 0 <= q < n && q < depth ==> #[trigger] lets_through(sh, segs, q)) && (n
        > depth ==> sh.wild_bit(depth - 1)) && (n <= depth ==> n >= sh.segment_num()) {
        if !sh.open_end() && n > p {
            assert(lets_through(sh, segs, p as int));
        }
        assert forall|q: int| 0 <= q < p implies is_capture(#[trigger] sh.parts[q]) || sh.parts[q]
            == segs[q] by {
            assert(lets_through(sh, segs, q));
        }
    }
}

impl<T> Router<T> {
    /// What a lookup of the text `s`, split into `spans`, finds in this router: the
    /// value and the captures, each as a name with the offsets of its text in `s`.
    /// `base` is where the text that this router sees begins.
    pub closed spec fn lookup_at(&self, s: Seq<char>, spans: Seq<(int, int)>, base: int) -> Option<
        (T, Seq<(Seq<char>, int, int)>),
    >
        decreases self,
    {
        let segs = span_texts(s, spans);
        if exists|w: int| is_winner(self.shapes(), segs, w) {
            let w = choose|w: int| is_winner(self.shapes(), segs, w);
            let sh = self.shapes()[w];
            let caps = route_captures(sh, s, spans, base);
            if 0 <= w < self.endpoints@.len() {
                match self.endpoints@[w] {
                    Endpoint::Data(t) => Some((t, caps)),
                    Endpoint::Router(inner) => match inner.lookup_at(
                        s,
                        spans.subrange(sh.segment_num() - 1, spans.len() as int),
                        tail_start(spans[sh.segment_num() - 1].0, base),
                    ) {
                        Some((t, c)) => Some((t, caps + c)),
                        None => None,
                    },
                }
            } else {
                None
            }
        } else {
            None
        }
    }

    /// The route ids that a lookup of `s` follows, from this router through nested
    /// ones, to the value it finds.
    pub closed spec fn lookup_chain_at(&self, s: Seq<char>, spans: Seq<(int, int)>, base: int) -> Option<
        Seq<usize>,
    >
        decreases self,
    {
        let segs = span_texts(s, spans);
        if exists|w: int| is_winner(self.shapes(), segs, w) {
            let w = choose|w: int| is_winner(self.shapes(), segs, w);
            let sh = self.shapes()[w];
            if 0 <= w < self.endpoints@.len() {
                match self.endpoints@[w] {
                    Endpoint::Data(t) => Some(seq![w as usize]),
                    Endpoint::Router(inner) => match inner.lookup_chain_at(
                        s,
                        spans.subrange(sh.segment_num() - 1, spans.len() as int),
                        tail_start(spans[sh.segment_num() - 1].0, base),
                    ) {
                        Some(c) => Some(seq![w as usize] + c),
                        None => None,
                    },
                }
            } else {
                None
            }
        } else {
            None
        }
    }

    /// The route ids that a lookup of `path` follows to the value it finds.
    pub closed spec fn lookup_chain(&self, path: Seq<char>) -> Option<Seq<usize>> {
        self.lookup_chain_at(path, path_spans(path), 0)
    }

    /// What a lookup of `path` finds: the value and the captures, each as a name with
    /// the offsets of its text in `path`.
    pub open spec fn lookup(&self, path: Seq<char>) -> Option<(T, Seq<(Seq<char>, int, int)>)> {
        self.lookup_at(path, path_spans(path), 0)
    }
}

} // verus!

verus! {

impl<T> Router<T> {
    /// Whether route `a` beats route `b`.
    fn route_beats(&self, a: usize, b: usize) -> (r: bool)
        requires
            a < self.shapes().len(),
            b < self.shapes().len(),
        ensures
            r == self.shapes()[a as int].beats(self.shapes()[b as int]),
    {
        proof {
            use_type_invariant(self);
        }
        let ra = &self.routes[a];
        let rb = &self.routes[b];
        assert(self.shapes()[a as int] == ra.shape());
        assert(self.shapes()[b as int] == rb.shape());
        ra.segment_num > rb.segment_num || (ra.segment_num == rb.segment_num && ra.rank > rb.rank)
    }

    /// The routes that accept the path segments, as the index computes them.
    fn candidates(&self, text: &Vec<char>, spans: &[(usize, usize)]) -> (mask: FixedBitSet)
        requires
            self.shapes().len() > 0,
            spans_in(text@, spans_of(spans@), 0),
        ensures
            forall|id: nat|
                #[trigger] mask@.contains(id) <==> id < self.shapes().len() && self.shapes()[id as int].accepts(
                    span_texts(text@, spans_of(spans@)),
                ),
    {
        proof {
            use_type_invariant(self);
        }
        let ghost shapes = self.shapes();
        let ghost segs = span_texts(text@, spans_of(spans@));
        let n = spans.len();
        let depth = self.segments.len();
        assert(shapes[0] == self.routes@[0].shape());
        assert(depth >= 1);
        let lim = if n < depth {
            n
        } else {
            depth
        };
        let mut mask = FixedBitSet::one();
        let mut q: usize = 0;
        while q < lim
            invariant
                self.inv(),
                shapes == self.shapes(),
                segs == span_texts(text@, spans_of(spans@)),
                spans_in(text@, spans_of(spans@), 0),
                n == spans@.len(),
                depth == self.segments@.len(),
                lim <= n,
                lim <= depth,
                1 <= lim,
                q <= lim,
                forall|id: nat|
                    #[trigger] mask@.contains(id) <==> (id < BIT_SIZE && (q == 0 || (id
                        < shapes.len() && forall|q2: int|
                        0 <= q2 < q ==> #[trigger] lets_through(shapes[id as int], segs, q2)))),
            decreases lim - q,
        {
            let seg = &self.segments[q];
            assert(seg.wf_at(q as int, shapes));
            let mut e = seg.dynamic;
            let (s, t) = spans[q];
            assert(spans_of(spans@)[q as int] == (s as int, t as int));
            assert(segs[q as int] == text@.subrange(s as int, t as int));
            let key: &[char] = &text.as_slice()[s..t];
            match seg.static_map.find(key) {
                Some(m) => {
                    e.union_with(m);
                },
                None => {},
            }
            let ghost before = mask@;
            mask.intersect_with(&e);
            proof {
                assert forall|id: nat| #[trigger] e@.contains(id) <==> (id < shapes.len()
                    && lets_through(shapes[id as int], segs, q as int)) by {
                    if id < shapes.len() && shapes[id as int].lit_bit(q as int, segs[q as int]) {
                        assert(shapes[id as int].lit_bit(
                            q as int,
                            shapes[id as int].parts[q as int],
                        ));
                    }
                }
                assert forall|id: nat| #[trigger] mask@.contains(id) <==> (id < BIT_SIZE && (q + 1
                    == 0 || (id < shapes.len() && forall|q2: int|
                    0 <= q2 < q + 1 ==> #[trigger] lets_through(shapes[id as int], segs, q2)))) by {
                    assert(mask@.contains(id) == (before.contains(id) && e@.contains(id)));
                }
            }
            q = q + 1;
        }
        if n > depth {
            mask.intersect_with(&self.segments[depth - 1].wildcard);
            assert(self.segments@[depth - 1].wf_at(depth - 1, shapes));
        } else {
            mask.intersect_with(&self.segments[n - 1].num_mask);
            assert(self.segments@[n - 1].wf_at(n - 1, shapes));
        }
        proof {
            assert forall|id: nat| #[trigger] mask@.contains(id) <==> id < shapes.len()
                && shapes[id as int].accepts(segs) by {
                if id < shapes.len() {
                    assert(shapes[id as int] == self.routes@[id as int].shape());
                    assert(self.routes@[id as int].wf());
                    lemma_mask_accepts(shapes[id as int], segs, depth as int);
                }
            }
        }
        mask
    }

    /// Picks the winning route among the candidates in `mask`.
    fn pick(&self, mask: &FixedBitSet, Ghost(segs): Ghost<Seq<Seq<char>>>) -> (r: Option<usize>)
        requires
            forall|id: nat|
                #[trigger] mask@.contains(id) <==> id < self.shapes().len() && self.shapes()[id as int].accepts(
                    segs,
                ),
        ensures
            match r {
                Some(w) => is_winner(self.shapes(), segs, w as int),
                None => !exists|w: int| is_winner(self.shapes(), segs, w),
            },
    {
        proof {
            use_type_invariant(self);
        }
        let ghost shapes = self.shapes();
        let mut best: Option<usize> = None;
        let mut id: usize = 0;
        while id < self.routes.len()
            invariant
                shapes == self.shapes(),
                shapes.len() == self.routes@.len(),
                id <= shapes.len(),
                forall|i: nat|
                    #[trigger] mask@.contains(i) <==> i < shapes.len() && shapes[i as int].accepts(
                        segs,
                    ),
                match best {
                    None => forall|j: int| 0 <= j < id ==> !(#[trigger] shapes[j]).accepts(segs),
                    Some(b) => {
                        &&& b < id
                        &&& shapes[b as int].accepts(segs)
                        &&& forall|j: int|
                            0 <= j < id && #[trigger] shapes[j].accepts(segs) ==> !shapes[j].beats(
                                shapes[b as int],
                            )
                        &&& forall|j: int|
                            0 <= j < b && #[trigger] shapes[j].accepts(segs) ==> shapes[b as int].beats(
                                shapes[j],
                            )
                    },
                },
            decreases shapes.len() - id,
        {
            if mask.contains(id) {
                match best {
                    None => {
                        best = Some(id);
                    },
                    Some(b) => {
                        if self.route_beats(id, b) {
                            best = Some(id);
                        }
                    },
                }
            }
            id = id + 1;
        }
        proof {
            if best is None {
                assert forall|w: int| !is_winner(shapes, segs, w) by {}
            }
        }
        best
    }

    /// Looks up the path text `text` (the characters of `path`) split into `spans`,
    /// appending to `caps` what the routes on the way capture.
    #[verifier::rlimit(40)]
    fn find_with_parts<'a>(
        &'a self,
        text: &Vec<char>,
        spans: &[(usize, usize)],
        base: usize,
        caps: &mut Vec<(&'a str, usize, usize)>,
        record: bool,
        chain: &mut Vec<usize>,
    ) -> (r: Option<&'a T>)
        requires
            spans_in(text@, spans_of(spans@), base as int),
        ensures
            match self.lookup_at(text@, spans_of(spans@), base as int) {
                Some((t, c)) => {
                    &&& r matches Some(v) && *v == t
                    &&& caps_view(final(caps)@) == caps_view(old(caps)@) + c
                    &&& caps_in(c, text@.len() as int)
                    &&& record ==> final(chain)@.len() > old(chain)@.len() && final(chain)@.take(
                        old(chain)@.len() as int,
                    ) == old(chain)@ && self.lookup_chain_at(text@, spans_of(spans@), base as int)
                        == Some(final(chain)@.skip(old(chain)@.len() as int))
                        && self.value_at(final(chain)@.skip(old(chain)@.len() as int)) == Some(t)
                },
                None => r is None,
            },
        decreases self,
    {
        proof {
            use_type_invariant(self);
        }
        let ghost segs = span_texts(text@, spans_of(spans@));
        let ghost sp = spans_of(spans@);
        if self.routes.len() == 0 {
            assert(!exists|w: int| is_winner(self.shapes(), segs, w));
            return None;
        }
        assert(spans_in(text@, sp, 0));
        let mask = self.candidates(text, spans);
        let w = match self.pick(&mask, Ghost(segs)) {
            Some(w) => w,
            None => {
                return None;
            },
        };
        let ghost sh = self.shapes()[w as int];
        assert(is_winner(self.shapes(), segs, w as int));
        assert forall|w2: int| is_winner(self.shapes(), segs, w2) implies w2 == w by {
            if w2 < w {
                assert(sh.beats(self.shapes()[w2]));
            } else if w < w2 {
                assert(self.shapes()[w2].beats(sh));
            }
        }
        let route = &self.routes[w];
        assert(route.shape() == sh);
        assert(route.wf());
        let ghost own = route_captures(sh, text@, sp, base as int);
        proof {
            lemma_caps_positions(sh.parts);
        }
        let ghost start_len = caps@.len();
        let mut k: usize = 0;
        while k < route.captures.len()
            invariant
                route.wf(),
                route.shape() == sh,
                sh.accepts(segs),
                segs == span_texts(text@, sp),
                segs.len() == spans@.len(),
                sp == spans_of(spans@),
                spans_in(text@, sp, base as int),
                k <= route.captures@.len(),
                start_len == old(caps)@.len(),
                caps_view(caps@) == caps_view(old(caps)@) + own.take(k as int),
                own == route_captures(sh, text@, sp, base as int),
                forall|j: int|
                    0 <= j < caps_of(sh.parts).len() ==> 0 <= #[trigger] caps_of(sh.parts)[j].1
                        < sh.parts.len(),
            decreases route.captures@.len() - k,
        {
            let (name, pos) = (&route.captures[k].0, route.captures[k].1);
            assert(named_positions(route.captures@)[k as int] == (name@, pos as int));
            assert(caps_of(sh.parts)[k as int] == (name@, pos as int));
            assert(0 <= caps_of(sh.parts)[k as int].1 < sh.parts.len());
            assert(sh.segment_num() <= segs.len());
            assert(pos < spans@.len());
            let (s, e) = spans[pos];
            assert(sp[pos as int] == (s as int, e as int));
            let ghost before = caps@;
            let nm = name.as_str();
            caps.push((nm, s, e));
            assert(caps_of(sh.parts).len() == route.captures@.len());
            assert(own[k as int] == (name@, s as int, e as int));
            assert(caps_view(caps@) == caps_view(before).push((nm@, s as int, e as int)));
            assert(own.take(k + 1) =~= own.take(k as int).push(own[k as int]));
            assert(caps_view(caps@) =~= caps_view(old(caps)@) + own.take(k + 1));
            k = k + 1;
        }
        let tail = {
            let (st, _) = spans[route.segment_num - 1];
            assert(sp[route.segment_num - 1] == (st as int, spans@[route.segment_num - 1].1 as int));
            if st > base {
                st - 1
            } else {
                base
            }
        };
        assert(tail == tail_start(sp[sh.segment_num() - 1].0, base as int));
        let ghost mid = caps@;
        let ghost head = caps_of(sh.parts).map_values(
            |c: (Seq<char>, int)| (c.0, sp[c.1].0, sp[c.1].1),
        );
        assert(caps_of(sh.parts).len() == route.captures@.len());
        assert(own.take(k as int) =~= head);
        match &route.wildcard {
            Some(name) => {
                let nm = name.as_str();
                caps.push((nm, tail, text.len()));
                assert(caps_view(caps@) == caps_view(mid).push((nm@, tail as int, text@.len() as int)));
                assert(own =~= head + seq![(name@, tail as int, text@.len() as int)]);
            },
            None => {
                assert(own =~= head);
            },
        }
        assert(caps_view(caps@) =~= caps_view(old(caps)@) + own);
        assert(caps_in(own, text@.len() as int)) by {
            assert forall|j: int| 0 <= j < own.len() implies 0 <= #[trigger] own[j].1 <= own[j].2
                <= text@.len() by {
                if j < caps_of(sh.parts).len() {
                    let pos = caps_of(sh.parts)[j].1;
                    assert(own[j] == (caps_of(sh.parts)[j].0, sp[pos].0, sp[pos].1));
                }
            }
        }
        let ghost chain0 = chain@;
        if record {
            chain.push(w);
        }
        proof {
            if record {
                assert(chain@.skip(chain0.len() as int) =~= seq![w]);
                assert(chain@.take(chain0.len() as int) =~= chain0);
            }
        }
        match &self.endpoints[w] {
            Endpoint::Data(t) => Some(t),
            Endpoint::Router(inner) => {
                let from = route.segment_num - 1;
                let sub = &spans[from..spans.len()];
                assert(spans_of(sub@) =~= sp.subrange(from as int, sp.len() as int));
                assert(spans_in(text@, spans_of(sub@), tail as int)) by {
                    assert forall|j: int| 0 <= j < spans_of(sub@).len() implies tail
                        <= #[trigger] spans_of(sub@)[j].0 <= spans_of(sub@)[j].1 <= text@.len() by {
                        lemma_spans_ascend(text@, sp, base as int, from as int, from + j);
                        assert(spans_of(sub@)[j] == sp[from + j]);
                    }
                    assert forall|j: int| 0 <= j < spans_of(sub@).len() - 1 implies #[trigger] spans_of(
                        sub@,
                    )[j + 1].0 == spans_of(sub@)[j].1 + 1 by {
                        assert(spans_of(sub@)[j] == sp[from + j]);
                        assert(spans_of(sub@)[j + 1] == sp[from + j + 1]);
                    }
                }
                let ghost c0 = caps@;
                let ghost chain1 = chain@;
                assert(record ==> chain1 == chain0.push(w));
                assert(!record ==> chain1 == chain0);
                let r = inner.find_with_parts(text, sub, tail, caps, record, chain);
                proof {
                    match inner.lookup_at(text@, spans_of(sub@), tail as int) {
                        Some((t, c)) => {
                            assert(caps_in(own + c, text@.len() as int)) by {
                                assert forall|j: int| 0 <= j < (own + c).len() implies 0
                                    <= #[trigger] (own + c)[j].1 <= (own + c)[j].2 <= text@.len() by {
                                    if j >= own.len() {
                                        assert((own + c)[j] == c[j - own.len()]);
                                        assert(0 <= c[j - own.len()].1);
                                    } else {
                                        assert((own + c)[j] == own[j]);
                                        assert(0 <= own[j].1);
                                    }
                                }
                            }
                            assert(caps_view(caps@) =~= caps_view(old(caps)@) + (own + c));
                            if record {
                                let rest = chain@.skip(chain1.len() as int);
                                assert(chain@.take(chain1.len() as int) == chain1);
                                assert forall|j: int| 0 <= j < chain0.len() implies chain@[j]
                                    == chain0[j] by {
                                    assert(chain@.take(chain1.len() as int)[j] == chain1[j]);
                                }
                                assert(chain@.take(chain0.len() as int) =~= chain0);
                                assert(chain@[chain0.len() as int] == w) by {
                                    assert(chain@.take(chain1.len() as int)[chain0.len() as int]
                                        == chain1[chain0.len() as int]);
                                }
                                assert forall|j: int| 0 <= j < rest.len() implies chain@.skip(
                                    chain0.len() as int,
                                )[j + 1] == rest[j] by {}
                                assert(chain@.skip(chain0.len() as int) =~= seq![w] + rest);
                                assert((seq![w] + rest).drop_first() =~= rest);
                            }
                        },
                        None => {},
                    }
                }
                r
            },
        }
    }
}

} // verus!

verus! {

impl<T> Router<T> {
    /// Finds the route that best matches `path` and what it captures. A single
    /// leading `/` is dropped and the rest is split at every `/`; among the routes
    /// whose shape the segments have, the one with the most segments wins, then the
    /// one with the highest rank, then the one registered first. A nested router
    /// gets the rest of the path, and its answer is the answer.
    pub fn find<'a>(&'a self, path: &'a str) -> (r: Option<(&'a T, Captures<'a>)>)
        requires
            path@.len() < MAX_TEXT_LEN,
        ensures
            match self.lookup(path@) {
                Some((t, c)) => r matches Some((v, caps)) && *v == t && caps.entries() == c
                    && caps.spec_path() == path@ && caps_in(c, path@.len() as int),
                None => r is None,
            },
    {
        let text = chars_of(path);
        let b: usize = if text.len() > 0 && text[0] == '/' {
            1
        } else {
            0
        };
        let spans = split_spans(&text, b);
        let spans = span_buf_slice(&spans);
        proof {
            lemma_spans_at(text@, b as int, b as int);
            assert(spans_of(spans@) == path_spans(path@));
        }
        let mut buf: Vec<(&'a str, usize, usize)> = Vec::new();
        let mut chain: Vec<usize> = Vec::new();
        match self.find_with_parts(&text, spans, 0, &mut buf, false, &mut chain) {
            Some(v) => {
                proof {
                    let found = self.lookup(path@)->Some_0;
                    assert(caps_view(buf@) =~= caps_view(Seq::<(&str, usize, usize)>::empty())
                        + found.1);
                }
                Some((v, Captures::new(path, buf)))
            },
            None => None,
        }
    }

    /// Registers `pattern` leading to `data`; on failure the router is left as it was.
    pub fn try_insert(&mut self, pattern: &str, data: T) -> (r: Result<&mut Self, RouterError>)
        requires
            pattern@.len() < MAX_TEXT_LEN,
        ensures
            match old(self).insert_result(pattern@, false) {
                Ok(sh) => r matches Ok(me) && old(self).inserted(&*me, sh, Endpoint::Data(data))
                    && *final(self) == *final(me),
                Err(k) => r matches Err(e) && e.spec_kind() == k && *final(self) == *old(self),
            },
    {
        match self.insert_endpoint(pattern, Endpoint::Data(data)) {
            Ok(()) => Ok(self),
            Err(e) => Err(e),
        }
    }

    /// Registers `pattern` leading to `data`. The pattern must be accepted: this is
    /// for route tables written into a program, where a bad pattern is a bug.
    pub fn insert(&mut self, pattern: &str, data: T) -> (r: &mut Self)
        requires
            pattern@.len() < MAX_TEXT_LEN,
            old(self).insert_result(pattern@, false) is Ok,
        ensures
            old(self).inserted(&*r, old(self).insert_result(pattern@, false)->Ok_0, Endpoint::Data(data)),
            *final(self) == *final(r),
    {
        match self.insert_endpoint(pattern, Endpoint::Data(data)) {
            Ok(()) => self,
            Err(_) => self,
        }
    }

    /// Registers `prefix` leading to the nested `router`, which matches what follows
    /// the prefix; on failure this router is left as it was.
    pub fn try_insert_router(&mut self, prefix: &str, router: Router<T>) -> (r: Result<
        &mut Self,
        RouterError,
    >)
        requires
            prefix@.len() < MAX_TEXT_LEN,
        ensures
            match old(self).insert_result(prefix@, true) {
                Ok(sh) => r matches Ok(me) && old(self).inserted(&*me, sh, Endpoint::Router(router))
                    && *final(self) == *final(me),
                Err(k) => r matches Err(e) && e.spec_kind() == k && *final(self) == *old(self),
            },
    {
        match self.insert_endpoint(prefix, Endpoint::Router(router)) {
            Ok(()) => Ok(self),
            Err(e) => Err(e),
        }
    }

    /// Registers `prefix` leading to the nested `router`. The prefix must be accepted.
    pub fn insert_router(&mut self, prefix: &str, router: Router<T>) -> (r: &mut Self)
        requires
            prefix@.len() < MAX_TEXT_LEN,
            old(self).insert_result(prefix@, true) is Ok,
        ensures
            old(self).inserted(&*r, old(self).insert_result(prefix@, true)->Ok_0, Endpoint::Router(router)),
            *final(self) == *final(r),
    {
        match self.insert_endpoint(prefix, Endpoint::Router(router)) {
            Ok(()) => self,
            Err(_) => self,
        }
    }

    /// Builds a nested router with `f` and registers it under `prefix`; on failure
    /// this router is left as it was.
    pub fn try_nest<F: FnOnce(&mut Router<T>)>(&mut self, prefix: &str, f: F) -> (r: Result<
        &mut Self,
        RouterError,
    >)
        requires
            prefix@.len() < MAX_TEXT_LEN,
            forall|x: &mut Router<T>| (*x).is_empty() ==> #[trigger] f.requires((x,)),
        ensures
            match old(self).insert_result(prefix@, true) {
                Ok(sh) => r matches Ok(me) && (exists|x: &mut Router<T>|
                    (*x).is_empty() && #[trigger] f.ensures((x,), ()) && old(self).inserted(
                        &*me,
                        sh,
                        Endpoint::Router(*final(x)),
                    )) && *final(self) == *final(me),
                Err(k) => r matches Err(e) && e.spec_kind() == k && *final(self) == *old(self),
            },
    {
        let mut router = Router::new();
        f(&mut router);
        self.try_insert_router(prefix, router)
    }

    /// Builds a nested router with `f` and registers it under `prefix`. The prefix
    /// must be accepted.
    pub fn nest<F: FnOnce(&mut Router<T>)>(&mut self, prefix: &str, f: F) -> (r: &mut Self)
        requires
            prefix@.len() < MAX_TEXT_LEN,
            forall|x: &mut Router<T>| (*x).is_empty() ==> #[trigger] f.requires((x,)),
            old(self).insert_result(prefix@, true) is Ok,
        ensures
            exists|x: &mut Router<T>|
                (*x).is_empty() && #[trigger] f.ensures((x,), ()) && old(self).inserted(
                    &*r,
                    old(self).insert_result(prefix@, true)->Ok_0,
                    Endpoint::Router(*final(x)),
                ),
            *final(self) == *final(r),
    {
        let mut router = Router::new();
        f(&mut router);
        self.insert_router(prefix, router)
    }
}

} // verus!

verus! {

// ---------------------------------------------------------------------------
// Laws.
// ---------------------------------------------------------------------------

/// Whether two patterns have a literal and a capture at the same positions.
pub open spec fn same_kinds(a: Seq<Seq<char>>, b: Seq<Seq<char>>) -> bool {
    &&& a.len() == b.len()
    &&& forall|k: int| 0 <= k < a.len() ==> is_capture(#[trigger] a[k]) == is_capture(b[k])
}

proof fn lemma_rank_same_kinds(a: Seq<Seq<char>>, b: Seq<Seq<char>>)
    requires
        a.len() == b.len(),
    ensures
        same_kinds(a, b) <==> rank_of(a) == rank_of(b),
    decreases a.len(),
{
    if a.len() > 0 {
        let (x, y) = (a.drop_last(), b.drop_last());
        lemma_rank_same_kinds(x, y);
        lemma_rank_bound(x);
        lemma_rank_bound(y);
        if same_kinds(a, b) {
            assert(same_kinds(x, y)) by {
                assert forall|k: int| 0 <= k < x.len() implies is_capture(#[trigger] x[k])
                    == is_capture(y[k]) by {
                    assert(x[k] == a[k] && y[k] == b[k]);
                }
            }
        }
        if rank_of(a) == rank_of(b) {
            assert(is_capture(a.last()) == is_capture(b.last()));
            assert(rank_of(x) == rank_of(y));
            assert forall|k: int| 0 <= k < a.len() implies is_capture(#[trigger] a[k]) == is_capture(
                b[k],
            ) by {
                if k < x.len() {
                    assert(x[k] == a[k] && y[k] == b[k]);
                }
            }
        }
    }
}

proof fn lemma_rank_first_literal(a: Seq<Seq<char>>, b: Seq<Seq<char>>, q: int)
    requires
        a.len() == b.len(),
        0 <= q < a.len(),
        forall|k: int| 0 <= k < q ==> is_capture(#[trigger] a[k]) == is_capture(b[k]),
        !is_capture(a[q]),
        is_capture(b[q]),
    ensures
        rank_of(a) > rank_of(b),
    decreases a.len(),
{
    let (x, y) = (a.drop_last(), b.drop_last());
    lemma_rank_bound(x);
    lemma_rank_bound(y);
    if q < a.len() - 1 {
        assert forall|k: int| 0 <= k < q implies is_capture(#[trigger] x[k]) == is_capture(y[k]) by {
            assert(x[k] == a[k] && y[k] == b[k]);
        }
        assert(x[q] == a[q] && y[q] == b[q]);
        lemma_rank_first_literal(x, y, q);
    } else {
        assert(same_kinds(x, y)) by {
            assert forall|k: int| 0 <= k < x.len() implies is_capture(#[trigger] x[k])
                == is_capture(y[k]) by {
                assert(x[k] == a[k] && y[k] == b[k]);
            }
        }
        lemma_rank_same_kinds(x, y);
    }
}

impl<T> Router<T> {
    /// The router holds its own invariant; every `Router` value does.
    pub closed spec fn well_formed(&self) -> bool {
        self.inv()
    }

    /// A value route that is the only one to accept the segments of `path` is what a
    /// lookup of `path` finds, with the segments at its capture positions and, for a
    /// wildcard, the rest of the path from the `/` before the wildcard's position.
    pub proof fn lemma_sole_match(&self, path: Seq<char>, id: int)
        requires
            self.well_formed(),
            0 <= id < self.shapes().len(),
            self.shapes()[id].accepts(path_segments(path)),
            forall|j: int|
                0 <= j < self.shapes().len() && j != id ==> !(#[trigger] self.shapes()[j]).accepts(
                    path_segments(path),
                ),
            self.spec_endpoints()[id] is Data,
        ensures
            self.lookup(path) == Some(
                (
                    self.spec_endpoints()[id]->Data_0,
                    route_captures(self.shapes()[id], path, path_spans(path), 0),
                ),
            ),
    {
        let segs = path_segments(path);
        assert(is_winner(self.shapes(), segs, id));
        assert forall|w: int| is_winner(self.shapes(), segs, w) implies w == id by {}
    }

    /// A pattern just registered with `try_insert` is found for every path that has
    /// its shape and that no route registered before accepts: its value, with the
    /// path segments that stand where the pattern captures.
    pub proof fn lemma_insert_then_find(
        &self,
        after: &Router<T>,
        pattern: Seq<char>,
        data: T,
        path: Seq<char>,
    )
        requires
            after.well_formed(),
            self.insert_result(pattern, false) is Ok,
            self.inserted(after, self.insert_result(pattern, false)->Ok_0, Endpoint::Data(data)),
            self.insert_result(pattern, false)->Ok_0.accepts(path_segments(path)),
            forall|j: int|
                0 <= j < self.shapes().len() ==> !(#[trigger] self.shapes()[j]).accepts(
                    path_segments(path),
                ),
        ensures
            after.lookup(path) == Some(
                (
                    data,
                    route_captures(
                        self.insert_result(pattern, false)->Ok_0,
                        path,
                        path_spans(path),
                        0,
                    ),
                ),
            ),
    {
        let id = self.shapes().len() as int;
        assert(after.shapes()[id] == self.insert_result(pattern, false)->Ok_0);
        assert forall|j: int|
            0 <= j < after.shapes().len() && j != id implies !(#[trigger] after.shapes()[j]).accepts(
            path_segments(path),
        ) by {
            assert(after.shapes()[j] == self.shapes()[j]);
        }
        assert(after.spec_endpoints()[id] == Endpoint::Data(data));
        after.lemma_sole_match(path, id);
    }

    /// A lookup in which no route wins finds nothing.
    pub proof fn lemma_lookup_at_none(&self, s: Seq<char>, spans: Seq<(int, int)>, base: int)
        requires
            !exists|w: int| is_winner(self.shapes(), span_texts(s, spans), w),
        ensures
            self.lookup_at(s, spans, base) is None,
    {
    }

    /// A lookup in which route `w` wins gives `w`'s value with `w`'s captures; for a
    /// nested router, `w`'s captures followed by what the nested router finds in the
    /// rest of the segments, or nothing when it finds nothing.
    pub proof fn lemma_lookup_at_winner(
        &self,
        s: Seq<char>,
        spans: Seq<(int, int)>,
        base: int,
        w: int,
    )
        requires
            self.well_formed(),
            is_winner(self.shapes(), span_texts(s, spans), w),
        ensures
            self.lookup_at(s, spans, base) == match self.spec_endpoints()[w] {
                Endpoint::Data(t) => Some((t, route_captures(self.shapes()[w], s, spans, base))),
                Endpoint::Router(inner) => match inner.lookup_at(
                    s,
                    spans.subrange(self.shapes()[w].segment_num() - 1, spans.len() as int),
                    tail_start(spans[self.shapes()[w].segment_num() - 1].0, base),
                ) {
                    Some((t, c)) => Some(
                        (t, route_captures(self.shapes()[w], s, spans, base) + c),
                    ),
                    None => None,
                },
            },
    {
        let segs = span_texts(s, spans);
        assert forall|w2: int| is_winner(self.shapes(), segs, w2) implies w2 == w by {
            if w2 < w {
                assert(self.shapes()[w].beats(self.shapes()[w2]));
            } else if w < w2 {
                assert(self.shapes()[w2].beats(self.shapes()[w]));
            }
        }
    }

    /// A nested route that is the only one to accept the segments of `path` hands the
    /// rest of the path to its router: the lookup gives the route's captures followed
    /// by what the nested router finds, or nothing when it finds nothing.
    pub proof fn lemma_sole_nested_match(&self, path: Seq<char>, id: int)
        requires
            self.well_formed(),
            0 <= id < self.shapes().len(),
            self.shapes()[id].accepts(path_segments(path)),
            forall|j: int|
                0 <= j < self.shapes().len() && j != id ==> !(#[trigger] self.shapes()[j]).accepts(
                    path_segments(path),
                ),
            self.spec_endpoints()[id] is Router,
        ensures
            self.lookup(path) == match self.spec_endpoints()[id]->Router_0.lookup_at(
                path,
                path_spans(path).subrange(
                    self.shapes()[id].segment_num() - 1,
                    path_spans(path).len() as int,
                ),
                tail_start(path_spans(path)[self.shapes()[id].segment_num() - 1].0, 0),
            ) {
                Some((t, c)) => Some(
                    (t, route_captures(self.shapes()[id], path, path_spans(path), 0) + c),
                ),
                None => None,
            },
    {
        assert(is_winner(self.shapes(), path_segments(path), id));
        self.lemma_lookup_at_winner(path, path_spans(path), 0, id);
    }

    /// Of two routes that both accept a path and occupy as many positions, the one
    /// with a literal at the first position where their kinds differ (the other has
    /// a capture there, or its wildcard or nested router begins there) beats the
    /// other, so the latter is never the route that a lookup picks.
    pub proof fn lemma_literal_first_wins(&self, path: Seq<char>, i: int, j: int, q: int)
        requires
            0 <= i < self.shapes().len(),
            0 <= j < self.shapes().len(),
            self.shapes()[i].accepts(path_segments(path)),
            self.shapes()[j].accepts(path_segments(path)),
            self.shapes()[i].segment_num() == self.shapes()[j].segment_num(),
            0 <= q < self.shapes()[i].segment_num(),
            forall|k: int|
                0 <= k < q ==> is_capture(#[trigger] self.shapes()[i].kind_parts()[k]) == is_capture(
                    self.shapes()[j].kind_parts()[k],
                ),
            !is_capture(self.shapes()[i].kind_parts()[q]),
            is_capture(self.shapes()[j].kind_parts()[q]),
        ensures
            self.shapes()[i].beats(self.shapes()[j]),
            !is_winner(self.shapes(), path_segments(path), j),
    {
        lemma_rank_first_literal(self.shapes()[i].kind_parts(), self.shapes()[j].kind_parts(), q);
    }
}

proof fn lemma_collides_after<T>(r: Router<T>, after: Router<T>, s0: Shape, e: Endpoint<T>, sh: Shape)
    requires
        r.inserted(&after, s0, e),
    ensures
        after.collides(sh) == (r.collides(sh) || (survives(s0, sh) && conflicts(s0, sh))),
{
    let n = r.shapes().len() as int;
    assert(after.shapes()[n] == s0);
    if after.collides(sh) {
        let id = choose|id: int|
            0 <= id < after.shapes().len() && survives(after.shapes()[id], sh) && #[trigger] conflicts(
                after.shapes()[id],
                sh,
            );
        if id < n {
            assert(after.shapes()[id] == r.shapes()[id]);
        }
    }
    if r.collides(sh) {
        let id = choose|id: int|
            0 <= id < r.shapes().len() && survives(r.shapes()[id], sh) && #[trigger] conflicts(
                r.shapes()[id],
                sh,
            );
        assert(after.shapes()[id] == r.shapes()[id]);
    }
}

/// Two plain patterns that a router accepts one at a time fare the same in either
/// order of registration: registering `a` then `b` accepts `b` exactly when
/// registering `b` then `a` accepts `a`, and refuses it with the same kind of error.
pub proof fn lemma_collision_order_free<T>(
    r: Router<T>,
    with_a: Router<T>,
    with_b: Router<T>,
    a: Seq<char>,
    b: Seq<char>,
    va: T,
    vb: T,
)
    requires
        r.insert_result(a, false) is Ok,
        r.insert_result(b, false) is Ok,
        r.inserted(&with_a, r.insert_result(a, false)->Ok_0, Endpoint::Data(va)),
        r.inserted(&with_b, r.insert_result(b, false)->Ok_0, Endpoint::Data(vb)),
    ensures
        with_a.insert_result(b, false) is Ok <==> with_b.insert_result(a, false) is Ok,
        with_a.insert_result(b, false) is Err ==> with_a.insert_result(b, false)
            == with_b.insert_result(a, false),
{
    let sa = r.insert_result(a, false)->Ok_0;
    let sb = r.insert_result(b, false)->Ok_0;
    let n = r.shapes().len() as int;
    assert(with_a.shapes().len() == n + 1);
    assert(with_b.shapes().len() == n + 1);
    if n + 1 < MAX_ROUTES {
        assert(parse_pattern(a, false, n + 1) == parse_pattern(a, false, n));
        assert(parse_pattern(b, false, n + 1) == parse_pattern(b, false, n));
        lemma_collides_after(r, with_a, sa, Endpoint::Data(va), sb);
        lemma_collides_after(r, with_b, sb, Endpoint::Data(vb), sa);
        if conflicts(sa, sb) || conflicts(sb, sa) {
            let (ka, kb) = (sa.kind_parts(), sb.kind_parts());
            assert(sa.parts.len() == sb.parts.len());
            assert forall|q: int| 0 <= q < sa.parts.len() implies is_capture(sa.parts[q])
                == is_capture(sb.parts[q]) by {
                assert(ka[q] == sa.parts[q] && kb[q] == sb.parts[q]);
            }
            assert(conflicts(sa, sb) == conflicts(sb, sa));
            assert(survives(sa, sb) <==> survives(sb, sa)) by {
                if survives(sa, sb) {
                    assert forall|q: int| 0 <= q < sa.parts.len() implies #[trigger] passes_at(
                        sb,
                        sa,
                        q,
                    ) by {
                        assert(passes_at(sa, sb, q));
                    }
                }
                if survives(sb, sa) {
                    assert forall|q: int| 0 <= q < sb.parts.len() implies #[trigger] passes_at(
                        sa,
                        sb,
                        q,
                    ) by {
                        assert(passes_at(sb, sa, q));
                    }
                }
            }
        }
    }
}

} // verus!

verus! {

impl<T> Router<T> {
    /// The value reached by following the route ids of `chain` from this router
    /// through nested routers, if they lead to one.
    pub closed spec fn value_at(&self, chain: Seq<usize>) -> Option<T>
        decreases self, chain.len(),
    {
        if chain.len() == 0 || chain[0] >= self.endpoints@.len() {
            None
        } else {
            match self.endpoints@[chain[0] as int] {
                Endpoint::Data(t) => if chain.len() == 1 {
                    Some(t)
                } else {
                    None
                },
                Endpoint::Router(inner) => inner.value_at(chain.drop_first()),
            }
        }
    }

    /// `after` differs from `self` at most in the value that `chain` leads to: every
    /// other endpoint on the way, and every router, is as it was.
    pub closed spec fn same_but(&self, after: &Router<T>, chain: Seq<usize>) -> bool
        decreases self, chain.len(),
    {
        &&& after.segments == self.segments
        &&& after.routes == self.routes
        &&& after.endpoints@.len() == self.endpoints@.len()
        &&& chain.len() > 0
        &&& forall|j: int|
            0 <= j < self.endpoints@.len() && j != chain[0] ==> after.endpoints@[j]
                == self.endpoints@[j]
        &&& 0 <= chain[0] < self.endpoints@.len()
        &&& match (self.endpoints@[chain[0] as int], after.endpoints@[chain[0] as int]) {
            (Endpoint::Data(_), Endpoint::Data(_)) => chain.len() == 1,
            (Endpoint::Router(a), Endpoint::Router(b)) => a.same_but(&b, chain.drop_first()),
            _ => false,
        }
    }

    /// Where `after` differs from `self` at most in the value that `chain` leads to,
    /// every other chain of route ids leads to the same value in both.
    pub proof fn lemma_same_but_values(&self, after: &Router<T>, chain: Seq<usize>, c: Seq<usize>)
        requires
            self.same_but(after, chain),
            c != chain,
        ensures
            after.value_at(c) == self.value_at(c),
        decreases self, chain.len(),
    {
        if c.len() > 0 && c[0] == chain[0] {
            match (self.endpoints@[chain[0] as int], after.endpoints@[chain[0] as int]) {
                (Endpoint::Data(_), Endpoint::Data(_)) => {
                    if c.len() == 1 {
                        assert(c =~= chain);
                    }
                },
                (Endpoint::Router(a), Endpoint::Router(b)) => {
                    if c.drop_first() == chain.drop_first() {
                        assert(c.drop_first().len() == chain.drop_first().len());
                        assert(c.len() == chain.len());
                        assert forall|k: int| 0 <= k < c.len() implies c[k] == chain[k] by {
                            if k > 0 {
                                assert(c[k] == c.drop_first()[k - 1]);
                                assert(chain[k] == chain.drop_first()[k - 1]);
                            }
                        }
                        assert(c =~= chain);
                    }
                    a.lemma_same_but_values(&b, chain.drop_first(), c.drop_first());
                },
                _ => {},
            }
        }
    }

    /// A mutable reference to the value that `chain[pos..]` leads to.
    fn value_mut(&mut self, chain: &Vec<usize>, pos: usize) -> (r: &mut T)
        requires
            pos <= chain@.len(),
            old(self).value_at(chain@.skip(pos as int)) is Some,
        ensures
            *r == old(self).value_at(chain@.skip(pos as int))->Some_0,
            final(self).value_at(chain@.skip(pos as int)) == Some(*final(r)),
            final(self).spec_endpoints().len() == old(self).spec_endpoints().len(),
            forall|j: int|
                0 <= j < old(self).spec_endpoints().len() && j != chain@[pos as int]
                    ==> final(self).spec_endpoints()[j] == old(self).spec_endpoints()[j],
            old(self).same_but(&*final(self), chain@.skip(pos as int)),
            final(self).shapes() == old(self).shapes(),
            final(self).depth() == old(self).depth(),
        decreases chain@.len() - pos,
        no_unwind
    {
        proof {
            use_type_invariant(&*self);
        }
        assert(chain@.skip(pos as int).len() > 0);
        let n = chain.len();
        assert(pos < n);
        let id = chain[pos];
        let next = pos + 1;
        assert(chain@.skip(pos as int)[0] == id);
        match &mut self.endpoints[id] {
            Endpoint::Data(t) => t,
            Endpoint::Router(inner) => {
                assert(chain@.skip(pos as int).drop_first() =~= chain@.skip(next as int));
                proof {
                    assert forall|c: Seq<usize>| c.len() > 0 && c[0] == id && c != chain@.skip(
                        pos as int,
                    ) implies c.drop_first() != chain@.skip(next as int) by {
                        if c.drop_first() == chain@.skip(next as int) {
                            let d = chain@.skip(pos as int);
                            assert(d.drop_first() =~= chain@.skip(next as int));
                            assert forall|k: int| 0 <= k < c.len() implies c[k] == d[k] by {
                                if k > 0 {
                                    assert(c[k] == c.drop_first()[k - 1]);
                                    assert(d[k] == d.drop_first()[k - 1]);
                                }
                            }
                            assert(c =~= d);
                        }
                    }
                }
                inner.value_mut(chain, next)
            },
        }
    }

    /// Finds the route that best matches `path`, as `find` does, and gives mutable
    /// access to its value, with a copy of what it captures. Only that value can
    /// change through the reference; the routes stay as they are.
    pub fn find_mut<'a>(&'a mut self, path: &str) -> (r: Option<(&'a mut T, OwnedCaptures)>)
        requires
            path@.len() < MAX_TEXT_LEN,
        ensures
            match old(self).lookup(path@) {
                Some((t, c)) => {
                    &&& old(self).lookup_chain(path@) is Some
                    &&& old(self).value_at(old(self).lookup_chain(path@)->Some_0) == Some(t)
                    &&& r matches Some((v, caps)) && *v == t && caps.entries() == c && (c.len() > 0
                        ==> caps.spec_path() == path@) && final(self).value_at(
                        old(self).lookup_chain(path@)->Some_0,
                    ) == Some(*final(v))
                    &&& old(self).same_but(&*final(self), old(self).lookup_chain(path@)->Some_0)
                    &&& final(self).shapes() == old(self).shapes()
                    &&& final(self).depth() == old(self).depth()
                },
                None => r is None && *final(self) == *old(self),
            },
    {
        let text = chars_of(path);
        let b: usize = if text.len() > 0 && text[0] == '/' {
            1
        } else {
            0
        };
        let spans = split_spans(&text, b);
        let spans = span_buf_slice(&spans);
        proof {
            lemma_spans_at(text@, b as int, b as int);
            assert(spans_of(spans@) == path_spans(path@));
        }
        let mut chain: Vec<usize> = Vec::new();
        let owned = {
            let mut buf: Vec<(&str, usize, usize)> = Vec::new();
            match self.find_with_parts(&text, spans, 0, &mut buf, true, &mut chain) {
                Some(_) => {
                    proof {
                        let found = self.lookup(path@)->Some_0;
                        assert(caps_view(buf@) =~= caps_view(Seq::<(&str, usize, usize)>::empty())
                            + found.1);
                        assert(chain@.skip(0) =~= chain@);
                    }
                    let caps = Captures::new(path, buf);
                    OwnedCaptures::new(&caps)
                },
                None => {
                    return None;
                },
            }
        };
        let v = self.value_mut(&chain, 0);
        assert(chain@.skip(0) =~= chain@);
        Some((v, owned))
    }
}

} // verus!
