use vstd::prelude::*;
use crate::chunk::{Chunk, ChunkKind, ClusterHead};

verus! {

/// `x` capped at the largest timecode.
pub open spec fn capped(x: int) -> int {
    if x > u64::MAX {
        u64::MAX as int
    } else {
        x
    }
}

/// Rewrites cluster timecodes so that the clusters of a stream that restarts
/// keep moving forward.
pub struct ChunkTimecodeFixer {
    /// the end of the last cluster passed on
    pub last_observed_out: u64,
    /// what is added to each incoming cluster start
    pub offset: u64,
}

/// The start that the fixer gives a cluster that starts at `start`: shifted by
/// `offset`, or, where that falls before `last`, just after `last`.
pub open spec fn fixed_start(last: u64, offset: u64, start: u64) -> int {
    if start + offset < last {
        capped(last + 1)
    } else {
        capped(start + offset)
    }
}

/// The offset that the fixer holds after a cluster that starts at `start`.
pub open spec fn fixed_offset(last: u64, offset: u64, start: u64) -> int {
    if start + offset < last {
        capped(last - start + 1)
    } else {
        offset as int
    }
}

/// Whether `after` and `out` are what the fixer in state `before` becomes and
/// passes on for `chunk`: a header passes unchanged and restarts the count; a
/// cluster body passes unchanged; a cluster head is moved to `fixed_start`,
/// keeps its duration (capped), and its end becomes the last one seen.
pub open spec fn fixes(
    before: ChunkTimecodeFixer,
    chunk: Chunk,
    after: ChunkTimecodeFixer,
    out: Chunk,
) -> bool {
    match chunk {
        Chunk::Headers { .. } => out == chunk && after.last_observed_out == 0 && after.offset
            == before.offset,
        Chunk::ClusterBody { .. } => out == chunk && after == before,
        Chunk::ClusterHead(h) => {
            let start = fixed_start(before.last_observed_out, before.offset, h.start);
            &&& out matches Chunk::ClusterHead(n) && n.start == start && n.end == capped(
                start + (h.end - h.start),
            )
            &&& after.offset == fixed_offset(before.last_observed_out, before.offset, h.start)
            &&& after.last_observed_out == out->ClusterHead_0.end
        },
    }
}

impl ChunkTimecodeFixer {
    pub fn new() -> (r: ChunkTimecodeFixer)
        ensures
            r.last_observed_out == 0,
            r.offset == 0,
    {
        ChunkTimecodeFixer { last_observed_out: 0, offset: 0 }
    }

    /// Passes a chunk on, shifting a cluster head so that it starts no earlier
    /// than the end of the last one; a header starts the count afresh.
    pub fn process(&mut self, chunk: Chunk) -> (r: Chunk)
        requires
            chunk.wf(),
        ensures
            r.wf(),
            fixes(*old(self), chunk, *final(self), r),
            r matches Chunk::ClusterHead(n) ==> old(self).last_observed_out <= n.start
                && n.start <= n.end && final(self).last_observed_out == n.end,
            chunk matches Chunk::ClusterHead(h) ==> forall|rest: Seq<(u64, u64)>|
                #[trigger] fixed_heads(
                    old(self).last_observed_out,
                    old(self).offset,
                    seq![(h.start, h.end)] + rest,
                ) == seq![(r->ClusterHead_0.start as int, r->ClusterHead_0.end as int)]
                    + fixed_heads(final(self).last_observed_out, final(self).offset, rest),
    {
        match chunk {
            Chunk::Headers { bytes } => {
                self.last_observed_out = 0;
                Chunk::Headers { bytes }
            },
            Chunk::ClusterHead(mut head) => {
                let ghost before = *self;
                let ghost original = head;
                let start = head.start;
                if self.offset > u64::MAX - start || start + self.offset >= self.last_observed_out {
                    let new_start = if self.offset > u64::MAX - start {
                        u64::MAX
                    } else {
                        start + self.offset
                    };
                    head.update_timecode(new_start);
                } else {
                    let gap = self.last_observed_out - start;
                    self.offset = if gap == u64::MAX {
                        u64::MAX
                    } else {
                        gap + 1
                    };
                    let new_start = if self.last_observed_out == u64::MAX {
                        u64::MAX
                    } else {
                        self.last_observed_out + 1
                    };
                    head.update_timecode(new_start);
                }
                self.last_observed_out = head.end;
                proof {
                    assert forall|rest: Seq<(u64, u64)>|
                        #[trigger] fixed_heads(
                            before.last_observed_out,
                            before.offset,
                            seq![(original.start, original.end)] + rest,
                        ) == seq![(head.start as int, head.end as int)] + fixed_heads(
                            self.last_observed_out,
                            self.offset,
                            rest,
                        ) by {
                        lemma_fixed_heads_first(
                            before.last_observed_out,
                            before.offset,
                            (original.start, original.end),
                            rest,
                        );
                    }
                }
                Chunk::ClusterHead(head)
            },
            Chunk::ClusterBody { bytes } => Chunk::ClusterBody { bytes },
        }
    }
}

/// The (start, end) pairs that the fixer gives a run of cluster heads, given as
/// (start, end) pairs with no header between them; cluster bodies, which leave
/// the fixer as it is, may stand anywhere among them.
pub open spec fn fixed_heads(last: u64, offset: u64, heads: Seq<(u64, u64)>) -> Seq<(int, int)>
    decreases heads.len(),
{
    if heads.len() == 0 {
        Seq::empty()
    } else {
        let (start, end) = heads[0];
        let new_start = fixed_start(last, offset, start);
        let new_end = capped(new_start + (end - start));
        seq![(new_start, new_end)] + fixed_heads(
            new_end as u64,
            fixed_offset(last, offset, start) as u64,
            heads.drop_first(),
        )
    }
}

/// The first cluster head of a run is fixed as one step of the fixer, and the
/// rest of the run from the state that step leaves.
pub proof fn lemma_fixed_heads_first(
    last: u64,
    offset: u64,
    head: (u64, u64),
    rest: Seq<(u64, u64)>,
)
    ensures
        ({
            let new_start = fixed_start(last, offset, head.0);
            let new_end = capped(new_start + (head.1 - head.0));
            fixed_heads(last, offset, seq![head] + rest) == seq![(new_start, new_end)]
                + fixed_heads(new_end as u64, fixed_offset(last, offset, head.0) as u64, rest)
        }),
{
    let s = seq![head] + rest;
    assert(s[0] == head);
    assert(s.drop_first() =~= rest);
}

proof fn lemma_fixed_heads_after(last: u64, offset: u64, heads: Seq<(u64, u64)>)
    requires
        forall|i: int| 0 <= i < heads.len() ==> #[trigger] heads[i].0 <= heads[i].1,
    ensures
        fixed_heads(last, offset, heads).len() == heads.len(),
        forall|i: int|
            0 <= i < heads.len() ==> last <= #[trigger] fixed_heads(last, offset, heads)[i].0
                <= fixed_heads(last, offset, heads)[i].1 <= u64::MAX,
    decreases heads.len(),
{
    if heads.len() > 0 {
        let (start, end) = heads[0];
        let new_start = fixed_start(last, offset, start);
        let new_end = capped(new_start + (end - start));
        let rest = heads.drop_first();
        assert forall|i: int| 0 <= i < rest.len() implies #[trigger] rest[i].0 <= rest[i].1 by {
            assert(rest[i] == heads[i + 1]);
        }
        lemma_fixed_heads_after(new_end as u64, fixed_offset(last, offset, start) as u64, rest);
        let out = fixed_heads(last, offset, heads);
        let tail = fixed_heads(new_end as u64, fixed_offset(last, offset, start) as u64, rest);
        assert forall|i: int| 0 <= i < heads.len() implies last <= #[trigger] out[i].0 <= out[i].1
            <= u64::MAX by {
            if i > 0 {
                assert(out[i] == tail[i - 1]);
            }
        }
    }
}

/// Across a run of cluster heads with no header between them, the starts that
/// the fixer gives never go down, whatever the incoming starts are (a source
/// that restarts from zero included).
pub proof fn lemma_fixed_starts_monotonic(last: u64, offset: u64, heads: Seq<(u64, u64)>)
    requires
        forall|i: int| 0 <= i < heads.len() ==> #[trigger] heads[i].0 <= heads[i].1,
    ensures
        forall|i: int, j: int|
            0 <= i <= j < heads.len() ==> #[trigger] fixed_heads(last, offset, heads)[i].0
                <= #[trigger] fixed_heads(last, offset, heads)[j].0,
    decreases heads.len(),
{
    if heads.len() > 0 {
        let (start, end) = heads[0];
        let new_start = fixed_start(last, offset, start);
        let new_end = capped(new_start + (end - start));
        let rest = heads.drop_first();
        let next_offset = fixed_offset(last, offset, start) as u64;
        assert forall|i: int| 0 <= i < rest.len() implies #[trigger] rest[i].0 <= rest[i].1 by {
            assert(rest[i] == heads[i + 1]);
        }
        lemma_fixed_heads_after(last, offset, heads);
        lemma_fixed_heads_after(new_end as u64, next_offset, rest);
        lemma_fixed_starts_monotonic(new_end as u64, next_offset, rest);
        let out = fixed_heads(last, offset, heads);
        let tail = fixed_heads(new_end as u64, next_offset, rest);
        assert forall|i: int, j: int| 0 <= i <= j < heads.len() implies #[trigger] out[i].0
            <= #[trigger] out[j].0 by {
            if i == 0 {
                if j > 0 {
                    assert(out[j] == tail[j - 1]);
                }
            } else {
                assert(out[i] == tail[i - 1]);
                assert(out[j] == tail[j - 1]);
            }
        }
    }
}

/// Drops chunks until the first header or cluster head, where a listener can
/// start playing, and passes everything on from there.
pub struct StartingPointFilter {
    /// no starting point has been seen yet
    pub seeking: bool,
}

/// What the filter passes on of `s` when it starts in the given state.
pub open spec fn starting_point(seeking: bool, s: Seq<ChunkKind>) -> Seq<ChunkKind>
    decreases s.len(),
{
    if !seeking {
        s
    } else if s.len() == 0 {
        s
    } else if s[0] != ChunkKind::ClusterBody {
        s
    } else {
        starting_point(true, s.drop_first())
    }
}

impl StartingPointFilter {
    pub fn new() -> (r: StartingPointFilter)
        ensures
            r.seeking,
    {
        StartingPointFilter { seeking: true }
    }

    /// Passes the chunk on unless no starting point has been seen yet and it is
    /// a cluster body.
    pub fn process(&mut self, chunk: Chunk) -> (r: Option<Chunk>)
        ensures
            old(self).seeking && chunk is ClusterBody ==> r is None && final(self).seeking,
            !(old(self).seeking && chunk is ClusterBody) ==> r == Some(chunk)
                && !final(self).seeking,
    {
        if self.seeking && !chunk.is_starting_point() {
            None
        } else {
            self.seeking = false;
            Some(chunk)
        }
    }

    /// Starts seeking again, for a listener that has missed chunks.
    pub fn reset(&mut self)
        ensures
            final(self).seeking,
    {
        self.seeking = true;
    }
}

/// A filter that sees the chunks one by one passes on what `starting_point` says.
pub proof fn lemma_starting_point_step(seeking: bool, c: ChunkKind, s: Seq<ChunkKind>)
    ensures
        starting_point(seeking, seq![c] + s) == if seeking && c == ChunkKind::ClusterBody {
            starting_point(true, s)
        } else {
            seq![c] + s
        },
{
    assert((seq![c] + s).drop_first() =~= s);
}

/// Filtering a stream that already starts with a header changes nothing.
pub proof fn lemma_starting_point_of_aligned(s: Seq<ChunkKind>)
    requires
        s.len() > 0,
        s[0] == ChunkKind::Headers,
    ensures
        starting_point(true, s) == s,
{
}

/// Filtering twice is filtering once.
pub proof fn lemma_starting_point_idempotent(s: Seq<ChunkKind>)
    ensures
        starting_point(true, starting_point(true, s)) == starting_point(true, s),
    decreases s.len(),
{
    if s.len() > 0 && s[0] == ChunkKind::ClusterBody {
        lemma_starting_point_idempotent(s.drop_first());
    }
}

} // verus!
