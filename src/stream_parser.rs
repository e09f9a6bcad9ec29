use vstd::prelude::*;
use crate::ebml::{EbmlError, EbmlEventSource, FromEbml, push_all, slice_from, slice_range, space_result, tag_result};
use crate::error::WebmetroError;

verus! {

/// A rolling buffer of bytes that arrive in pieces, read out as EBML events.
pub struct EbmlStreamingParser {
    /// the bytes received and not yet thrown away
    pub buffer: Vec<u8>,
    /// how much of `buffer` has been read out as events
    pub consumed: usize,
    /// the number of unread bytes past which an incomplete element is an error
    pub hard_limit: Option<usize>,
}

impl EbmlStreamingParser {
    /// The bytes received and not yet read out as events.
    pub open spec fn pending(&self) -> Seq<u8> {
        self.buffer@.subrange(self.consumed as int, self.buffer@.len() as int)
    }

    pub open spec fn wf(&self) -> bool {
        self.consumed <= self.buffer@.len()
    }

    /// A parser with nothing received and no limit.
    pub fn new() -> (r: EbmlStreamingParser)
        ensures
            r.wf(),
            r.pending() == Seq::<u8>::empty(),
            r.hard_limit is None,
    {
        EbmlStreamingParser { buffer: Vec::new(), consumed: 0, hard_limit: None }
    }

    /// Caps the unread bytes at twice `limit` (or the largest length, where that
    /// does not fit) while an element is incomplete.
    pub fn with_soft_limit(self, limit: usize) -> (r: EbmlStreamingParser)
        ensures
            r.buffer@ == self.buffer@,
            r.consumed == self.consumed,
            r.hard_limit == Some(
                if 2 * limit > usize::MAX {
                    usize::MAX
                } else {
                    (2 * limit) as usize
                },
            ),
    {
        let hard = if limit > usize::MAX / 2 {
            usize::MAX
        } else {
            2 * limit
        };
        EbmlStreamingParser { buffer: self.buffer, consumed: self.consumed, hard_limit: Some(hard) }
    }

    /// Appends bytes that arrived.
    pub fn feed(&mut self, bytes: &[u8])
        requires
            old(self).wf(),
        ensures
            final(self).wf(),
            final(self).pending() == old(self).pending() + bytes@,
            final(self).hard_limit == old(self).hard_limit,
    {
        let mut fresh = crate::ebml::to_vec(slice_from(self.buffer.as_slice(), self.consumed));
        push_all(bytes, &mut fresh);
        self.buffer = fresh;
        self.consumed = 0;
        proof {
            assert(final(self).pending() =~= old(self).pending() + bytes@);
        }
    }

    /// Reads the next event out of the unread bytes.
    ///
    /// `Ok(Some(e))` where a whole element (or, for an unwrapped container, its
    /// header) is there: it is read past. `Ok(None)` where more bytes are
    /// needed, or `ResourcesExceeded` where the unread bytes are more than the
    /// hard limit. A malformed element is an `EbmlError`.
    pub fn next_event<T: FromEbml>(&mut self) -> (r: Result<Option<T>, WebmetroError>)
        requires
            old(self).wf(),
        ensures
            final(self).wf(),
            final(self).hard_limit == old(self).hard_limit,
            match space_result(old(self).pending(), |id: u64| T::unwraps(id)) {
                Err(e) => r == Err::<Option<T>, WebmetroError>(
                    WebmetroError::EbmlError { source: e },
                ) && final(self).pending() == old(self).pending(),
                Ok(None) => final(self).pending() == old(self).pending() && if old(
                    self,
                ).hard_limit matches Some(limit) && old(self).pending().len() > limit {
                    r == Err::<Option<T>, WebmetroError>(WebmetroError::ResourcesExceeded)
                } else {
                    r == Ok::<Option<T>, WebmetroError>(None)
                },
                Ok(Some(n)) => {
                    let (id, _, tag_size) = tag_result(old(self).pending())->Ok_0->Some_0;
                    let payload = old(self).pending().subrange(tag_size as int, n as int);
                    match r {
                        Ok(Some(e)) => T::decodes_as(id, payload, Ok(e)) && final(self).pending()
                            == old(self).pending().subrange(n as int, old(self).pending().len() as int),
                        Err(WebmetroError::EbmlError { source: e }) => T::decodes_as(
                            id,
                            payload,
                            Err(e),
                        ) && final(self).pending() == old(self).pending(),
                        _ => false,
                    }
                },
            },
    {
        let unread = slice_from(self.buffer.as_slice(), self.consumed);
        match T::decode_element(unread) {
            Err(e) => Err(WebmetroError::EbmlError { source: e }),
            Ok(Some((element, size))) => {
                let ghost before = self.pending();
                let total = self.buffer.len();
                assert(size <= unread@.len());
                assert(unread@.len() == total - self.consumed);
                self.consumed = self.consumed + size;
                proof {
                    assert(self.pending() =~= before.subrange(size as int, before.len() as int));
                }
                Ok(Some(element))
            },
            Ok(None) => {
                if let Some(limit) = self.hard_limit {
                    if unread.len() > limit {
                        return Err(WebmetroError::ResourcesExceeded);
                    }
                }
                Ok(None)
            },
        }
    }

    /// What the end of the input means: a clean end where every byte was read
    /// out, `CorruptPayload` where a partial element is left.
    pub fn finish(&self) -> (r: Result<(), EbmlError>)
        requires
            self.wf(),
        ensures
            r is Ok <==> self.pending().len() == 0,
            r is Err ==> r == Err::<(), EbmlError>(EbmlError::CorruptPayload),
    {
        if self.consumed == self.buffer.len() {
            Ok(())
        } else {
            Err(EbmlError::CorruptPayload)
        }
    }
}

impl EbmlEventSource for EbmlStreamingParser {
    type Error = WebmetroError;

    open spec fn source_wf(&self) -> bool {
        self.wf()
    }

    /// Reads the next event out of the unread bytes, as `next_event` does.
    fn poll_event<T: FromEbml>(&mut self) -> (r: Result<Option<T>, WebmetroError>)
        ensures
            final(self).wf(),
            final(self).hard_limit == old(self).hard_limit,
            match space_result(old(self).pending(), |id: u64| T::unwraps(id)) {
                Err(e) => r == Err::<Option<T>, WebmetroError>(
                    WebmetroError::EbmlError { source: e },
                ) && final(self).pending() == old(self).pending(),
                Ok(None) => final(self).pending() == old(self).pending() && if old(
                    self,
                ).hard_limit matches Some(limit) && old(self).pending().len() > limit {
                    r == Err::<Option<T>, WebmetroError>(WebmetroError::ResourcesExceeded)
                } else {
                    r == Ok::<Option<T>, WebmetroError>(None)
                },
                Ok(Some(n)) => {
                    let (id, _, tag_size) = tag_result(old(self).pending())->Ok_0->Some_0;
                    let payload = old(self).pending().subrange(tag_size as int, n as int);
                    match r {
                        Ok(Some(e)) => T::decodes_as(id, payload, Ok(e)) && final(self).pending()
                            == old(self).pending().subrange(n as int, old(self).pending().len() as int),
                        Err(WebmetroError::EbmlError { source: e }) => T::decodes_as(
                            id,
                            payload,
                            Err(e),
                        ) && final(self).pending() == old(self).pending(),
                        _ => false,
                    }
                },
            },
    {
        self.next_event()
    }
}

} // verus!
