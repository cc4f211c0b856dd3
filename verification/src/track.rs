use vstd::prelude::*;

use crate::cursor::ByteCursor;
use crate::errors::DecodeError;
use crate::event::lemma_event_local;
use crate::event::lemma_event_suffix;
use crate::event::lemma_event_truncate;
use crate::event::spec_event;
use crate::event::Event;
use crate::event::EventView;
use crate::utils::lemma_varlen_extend;
use crate::utils::lemma_varlen_local;
use crate::utils::lemma_varlen_suffix;
use crate::utils::spec_varlen;
use crate::utils::try_read_varlen;

verus! {

/// A decoded track: timed events in decode (= playback) order, each a
/// delta-time in ticks since the previous event paired with the event.
pub struct Track {
    pub events: Vec<(u32, Event)>,
}

impl View for Track {
    type V = Seq<(u32, EventView)>;

    open spec fn view(&self) -> Seq<(u32, EventView)> {
        self.events@.map_values(|p: (u32, Event)| (p.0, p.1@))
    }
}

/// Decodes a whole track payload: alternately a delta-time and an event,
/// until the bytes end exactly where a delta-time would begin. Bytes that
/// end anywhere else (inside a delta-time or an event) decode to `None`.
pub open spec fn spec_track(s: Seq<u8>) -> Option<Seq<(u32, EventView)>>
    decreases s.len(),
{
    if s.len() == 0 {
        Some(Seq::empty())
    } else {
        match spec_varlen(s) {
            Some((dt, s1)) => match spec_event(s1) {
                Some((e, s2)) => {
                    proof {
                        lemma_varlen_suffix(s, 0);
                        lemma_event_suffix(s1);
                    }
                    match spec_track(s2) {
                        Some(rest) => Some(seq![(dt, e)] + rest),
                        None => None,
                    }
                },
                None => None,
            },
            None => None,
        }
    }
}

/// The track decode of `s` appended to events already decoded.
pub open spec fn spec_track_from(pre: Seq<(u32, EventView)>, s: Seq<u8>) -> Option<
    Seq<(u32, EventView)>,
> {
    match spec_track(s) {
        Some(rest) => Some(pre + rest),
        None => None,
    }
}

impl Track {
    /// Decodes timed events until the cursor is cleanly exhausted; a
    /// delta-time not followed by a complete event is a hard error
    /// (a truncated track).
    #[verifier::loop_isolation(false)]
    pub fn new(input: &mut ByteCursor) -> (r: Result<Track, DecodeError>)
        requires
            old(input).wf(),
        ensures
            final(input).wf(),
            match r {
                Ok(t) => spec_track(old(input).remaining()) == Some(t@)
                    && final(input).remaining().len() == 0,
                Err(e) => e == DecodeError::BrokenFileFormat && spec_track(
                    old(input).remaining(),
                ) is None,
            },
    {
        let ghost s0 = input.remaining();
        let mut events: Vec<(u32, Event)> = Vec::new();
        loop
            invariant
                input.wf(),
                spec_track(s0) == spec_track_from(
                    events@.map_values(|p: (u32, Event)| (p.0, p.1@)),
                    input.remaining(),
                ),
            decreases input.remaining().len(),
        {
            let ghost rem0 = input.remaining();
            let ghost pre = events@.map_values(|p: (u32, Event)| (p.0, p.1@));
            match try_read_varlen(input) {
                Ok(Some(dt)) => {
                    let ghost s1 = input.remaining();
                    match Event::parse(input) {
                        Ok(e) => {
                            proof {
                                lemma_varlen_suffix(rem0, 0);
                                lemma_event_suffix(s1);
                            }
                            events.push((dt, e));
                            proof {
                                assert(events@.map_values(|p: (u32, Event)| (p.0, p.1@)) =~= pre
                                    .push((dt, e@)));
                                if let Some(rest) = spec_track(input.remaining()) {
                                    assert(pre + (seq![(dt, e@)] + rest) =~= pre.push((dt, e@))
                                        + rest);
                                }
                            }
                        },
                        Err(er) => {
                            return Err(er);
                        },
                    }
                },
                Ok(None) => {
                    proof {
                        assert(pre + Seq::<(u32, EventView)>::empty() =~= pre);
                    }
                    return Ok(Track { events });
                },
                Err(er) => {
                    return Err(er);
                },
            }
        }
    }
}

/// Law: truncation of a track. Deleting the final byte of any nonempty
/// decodable track payload makes track decoding fail; it never silently
/// succeeds with a shorter result.
pub proof fn lemma_track_truncate(s: Seq<u8>)
    ensures
        spec_track(s) is Some && s.len() > 0 ==> spec_track(s.take(s.len() - 1)) is None,
    decreases s.len(),
{
    if spec_track(s) is Some && s.len() > 0 {
        let t = s.take(s.len() - 1);
        if let Some((dt, s1)) = spec_varlen(s) {
            if let Some((e, s2)) = spec_event(s1) {
                lemma_varlen_suffix(s, 0);
                lemma_event_suffix(s1);
                lemma_varlen_local(s, 0);
                lemma_event_local(s1);
                let k1 = s.len() - s1.len();
                let k2 = s1.len() - s2.len();
                if s2.len() > 0 {
                    // the deleted byte lies past the first record: that
                    // record still decodes, and the tail fails by induction
                    lemma_varlen_extend(s.take(k1), 0, s1.take(s1.len() - 1));
                    assert(s.take(k1) + s1.take(s1.len() - 1) =~= t);
                    assert(Seq::<u8>::empty() + s1.take(s1.len() - 1) =~= s1.take(s1.len() - 1));
                    lemma_event_extend_first(s1, k2, s2);
                    lemma_track_truncate(s2);
                } else {
                    // the deleted byte was the last byte of the first
                    // record's event, which therefore no longer decodes
                    lemma_varlen_extend(s.take(k1), 0, s1.take(k2 - 1));
                    assert(s.take(k1) + s1.take(k2 - 1) =~= t);
                    assert(Seq::<u8>::empty() + s1.take(k2 - 1) =~= s1.take(k2 - 1));
                    lemma_event_truncate(s1, k2 - 1);
                }
            }
        }
    }
}

/// Helper for the track truncation law: with one byte taken off the bytes
/// after a complete event, the event itself still decodes in front of them.
proof fn lemma_event_extend_first(s1: Seq<u8>, k2: int, s2: Seq<u8>)
    requires
        spec_event(s1) matches Some((e, r)) && r == s2,
        k2 == s1.len() - s2.len(),
        s2.len() > 0,
    ensures
        spec_event(s1.take(s1.len() - 1)) matches Some((e2, r2)) && spec_event(s1) matches Some(
            (e, r),
        ) && e2 == e && r2 == s2.take(s2.len() - 1),
{
    lemma_event_suffix(s1);
    lemma_event_local(s1);
    if let Some((e, r)) = spec_event(s1) {
        crate::event::lemma_event_extend(s1.take(k2), s2.take(s2.len() - 1));
        assert(s1.take(k2) + s2.take(s2.len() - 1) =~= s1.take(s1.len() - 1));
        assert(Seq::<u8>::empty() + s2.take(s2.len() - 1) =~= s2.take(s2.len() - 1));
    }
}

} // verus!
