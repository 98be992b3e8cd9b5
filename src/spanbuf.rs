use vstd::prelude::*;

use smallvec::SmallVec;

verus! {

/// A buffer of segment spans that keeps its first eight entries inline, so that
/// splitting a short path allocates nothing.
#[verifier::external_body]
pub struct SpanBuf {
    inner: SmallVec<[(usize, usize); 8]>,
}

/// The spans that a buffer holds, in order.
pub uninterp spec fn span_items(b: SpanBuf) -> Seq<(usize, usize)>;

/// Bound on the length of a text that is split into spans, and so on the number of
/// spans in a buffer: `SmallVec::push` panics with "capacity overflow" once the
/// grown capacity's size in bytes no longer fits in `isize`, which no buffer below
/// this length reaches.
pub const MAX_TEXT_LEN: usize = usize::MAX / 64;

/// Relies on `SmallVec::new`: an empty vector.
#[verifier::external_body]
pub(crate) fn span_buf_new() -> (r: SpanBuf)
    ensures
        span_items(r) == Seq::<(usize, usize)>::empty(),
{
    SpanBuf { inner: SmallVec::new() }
}

/// Relies on `SmallVec::push`: appends one item.
#[verifier::external_body]
pub(crate) fn span_buf_push(b: &mut SpanBuf, x: (usize, usize))
    requires
        span_items(*old(b)).len() < MAX_TEXT_LEN,
    ensures
        span_items(*final(b)) == span_items(*old(b)).push(x),
{
    b.inner.push(x)
}

/// Relies on `SmallVec::pop`: removes and returns the last item, if any.
#[verifier::external_body]
pub(crate) fn span_buf_pop(b: &mut SpanBuf) -> (r: Option<(usize, usize)>)
    ensures
        span_items(*old(b)).len() == 0 ==> r is None && span_items(*final(b)) == span_items(
            *old(b),
        ),
        span_items(*old(b)).len() > 0 ==> r == Some(span_items(*old(b)).last()) && span_items(
            *final(b),
        ) == span_items(*old(b)).drop_last(),
{
    b.inner.pop()
}

/// Relies on `SmallVec::as_slice`: the items, in order.
#[verifier::external_body]
pub(crate) fn span_buf_slice(b: &SpanBuf) -> (r: &[(usize, usize)])
    ensures
        r@ == span_items(*b),
{
    b.inner.as_slice()
}

} // verus!
