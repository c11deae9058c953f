//! A delay line of fixed length.

use vstd::prelude::*;
use crate::numbers::ZERO;
use crate::single::Single;

verus! {

/// Hands every sample back after as many others as it is long.
pub struct DelayLine {
    buf: Vec<Single>,
    /// Where the oldest sample stands, and the next one goes.
    pos: usize,
}

/// Silence of the given length.
pub open spec fn silence(len: nat) -> Seq<Single> {
    Seq::new(len, |i: int| Single(ZERO))
}

impl View for DelayLine {
    type V = Seq<Single>;

    /// The samples in the line, the oldest first.
    closed spec fn view(&self) -> Seq<Single> {
        self.buf@.subrange(self.pos as int, self.buf@.len() as int) + self.buf@.subrange(
            0,
            self.pos as int,
        )
    }
}

impl DelayLine {
    /// The oldest sample stands in the buffer.
    pub closed spec fn wf(&self) -> bool {
        self.pos < self.buf@.len()
    }

    /// A line of `len` silent samples, at least one.
    pub fn new(len: usize) -> (d: Self)
        ensures
            d.wf(),
            d@ == silence(if len == 0 { 1 } else { len as nat }),
    {
        let n: usize = if len == 0 {
            1
        } else {
            len
        };
        let mut buf: Vec<Single> = Vec::with_capacity(n);
        for i in 0..n
            invariant
                buf@ == silence(i as nat),
        {
            buf.push(Single(ZERO));
            assert(buf@ =~= silence((i + 1) as nat));
        }
        let d = DelayLine { buf, pos: 0 };
        assert(d@ =~= silence(n as nat));
        d
    }

    /// How many samples the line holds.
    pub fn len(&self) -> (n: usize)
        requires
            self.wf(),
        ensures
            n == self@.len(),
    {
        assert(self@.len() == self.buf@.len());
        self.buf.len()
    }

    /// Takes in a sample and hands out the oldest one.
    pub fn push_pop(&mut self, x: Single) -> (out: Single)
        requires
            old(self).wf(),
        ensures
            final(self).wf(),
            final(self)@ == old(self)@.drop_first().push(x),
            out == old(self)@[0],
    {
        let out = self.buf[self.pos];
        self.buf.set(self.pos, x);
        let n: usize = self.buf.len();
        self.pos = self.pos + 1;
        if self.pos >= n {
            self.pos = 0;
        }
        assert(self@ =~= old(self)@.drop_first().push(x));
        out
    }

    /// Sample `i` of the line, counted from the oldest.
    pub fn get(&self, i: usize) -> (x: Single)
        requires
            self.wf(),
            i < self@.len(),
        ensures
            x == self@[i as int],
    {
        let tail: usize = self.buf.len() - self.pos;
        if i < tail {
            self.buf[self.pos + i]
        } else {
            self.buf[i - tail]
        }
    }

    /// Fills the line with silence.
    pub fn reset(&mut self)
        requires
            old(self).wf(),
        ensures
            final(self).wf(),
            final(self)@ == silence(old(self)@.len()),
    {
        let n: usize = self.buf.len();
        for i in 0..n
            invariant
                n == self.buf@.len(),
                self.pos < n,
                forall|m: int| 0 <= m < i ==> self.buf@[m] == Single(ZERO),
        {
            self.buf.set(i, Single(ZERO));
        }
        self.pos = 0;
        assert(self@ =~= silence(n as nat));
    }
}

/// Line `k` of `lines` takes in `xs[k]`, hands out `outs[k]` and becomes the next.
pub open spec fn fed(lines: Seq<Seq<Single>>, xs: Seq<Single>, outs: Seq<Single>) -> bool {
    &&& lines.len() == xs.len() + 1
    &&& outs.len() == xs.len()
    &&& forall|k: int|
        0 <= k < xs.len() ==> #[trigger] outs[k] == lines[k][0] && lines[k + 1]
            == lines[k].drop_first().push(xs[k])
}

/// What a line hands out is what it held at first, and then what it was fed,
/// exactly its length later.
pub proof fn lemma_exact_delay(lines: Seq<Seq<Single>>, xs: Seq<Single>, outs: Seq<Single>, k: int)
    requires
        fed(lines, xs, outs),
        lines[0].len() > 0,
        0 <= k < xs.len(),
    ensures
        outs[k] == if k < lines[0].len() {
            lines[0][k]
        } else {
            xs[k - lines[0].len()]
        },
{
    lemma_line_holds_last_samples(lines, xs, outs, k);
    assert(outs[k] == lines[k][0]);
}

/// A line holds the last samples of all it ever held, in order.
pub proof fn lemma_line_holds_last_samples(
    lines: Seq<Seq<Single>>,
    xs: Seq<Single>,
    outs: Seq<Single>,
    k: int,
)
    requires
        fed(lines, xs, outs),
        lines[0].len() > 0,
        0 <= k <= xs.len(),
    ensures
        lines[k] == (lines[0] + xs).subrange(k, k + lines[0].len()),
    decreases k,
{
    if k == 0 {
        assert(lines[0] =~= (lines[0] + xs).subrange(0, lines[0].len() as int));
    } else {
        lemma_line_holds_last_samples(lines, xs, outs, k - 1);
        assert(outs[k - 1] == lines[k - 1][0]);
        assert(lines[k] =~= (lines[0] + xs).subrange(k, k + lines[0].len()));
    }
}

} // verus!
