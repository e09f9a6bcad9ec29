use vstd::prelude::*;
use crate::chunk::Chunk;

verus! {

/// How far ahead of the clock a cluster may be passed on, in milliseconds.
pub const SLACK_MS: u64 = 500;

/// How far behind the clock the stream may fall before the pacing starts over,
/// in milliseconds.
pub const CATCH_UP_MS: u64 = 30_000;

/// Paces a chunk stream by its cluster timecodes against a monotonic clock.
pub struct Throttle {
    /// the clock reading at which the stream's timecode zero falls
    pub epoch: Option<i128>,
}

/// How long to wait, in milliseconds, before passing on a chunk that is due at
/// `due` when the clock reads `now`; none where it is due already.
pub open spec fn delay_until(due: int, now: int) -> Option<u64> {
    if now < due {
        Some(if due - now > u64::MAX { u64::MAX } else { (due - now) as u64 })
    } else {
        None
    }
}

impl Throttle {
    /// The epoch is a clock reading less a timecode.
    pub open spec fn wf(&self) -> bool {
        self.epoch matches Some(e) ==> -(u64::MAX as int) <= e <= u64::MAX
    }

    pub fn new() -> (r: Throttle)
        ensures
            r.wf(),
            r.epoch is None,
    {
        Throttle { epoch: None }
    }

    /// Decides, with the clock reading `now` (in milliseconds), how long to
    /// hold the chunk back. The first cluster head fixes the epoch and passes at
    /// once; a later one is held until its end time, less the slack; where the
    /// stream has fallen more than the catch-up margin behind, the epoch moves up
    /// and the chunk passes. Other chunks pass at once.
    pub fn delay(&mut self, now: u64, chunk: &Chunk) -> (r: Option<u64>)
        requires
            old(self).wf(),
        ensures
            final(self).wf(),
            !(chunk is ClusterHead) ==> r is None && final(self).epoch == old(self).epoch,
            chunk matches Chunk::ClusterHead(head) ==> match old(self).epoch {
                None => r is None && final(self).epoch == Some((now - head.start) as i128),
                Some(epoch) => if now > epoch + head.end + CATCH_UP_MS {
                    r is None && final(self).epoch == Some((now - head.end) as i128)
                } else {
                    r == delay_until(epoch + head.end - SLACK_MS, now as int)
                        && final(self).epoch == old(self).epoch
                },
            },
    {
        match chunk {
            Chunk::ClusterHead(head) => match self.epoch {
                None => {
                    self.epoch = Some(now as i128 - head.start as i128);
                    None
                },
                Some(epoch) => {
                    if now as i128 > epoch + head.end as i128 + CATCH_UP_MS as i128 {
                        self.epoch = Some(now as i128 - head.end as i128);
                        None
                    } else {
                        let due = epoch + head.end as i128 - SLACK_MS as i128;
                        if (now as i128) < due {
                            let wait = due - now as i128;
                            Some(if wait > u64::MAX as i128 { u64::MAX } else { wait as u64 })
                        } else {
                            None
                        }
                    }
                },
            },
            _ => None,
        }
    }
}

} // verus!
