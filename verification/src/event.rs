use vstd::prelude::*;

use crate::cursor::ByteCursor;
use crate::errors::DecodeError;
use crate::utils::lemma_varlen_extend;
use crate::utils::lemma_varlen_local;
use crate::utils::lemma_varlen_suffix;
use crate::utils::next_byte;
use crate::utils::read_varlen;
use crate::utils::spec_varlen;

verus! {

/// One structural MIDI event, as decoded from a track's byte stream.
#[derive(Debug, PartialEq)]
pub enum Event {
    /// A channel voice or mode message: the status byte's high nibble is the
    /// message type, its low nibble the channel, followed by two data bytes.
    Basic { typ: u8, channel: u8, data1: u8, data2: u8 },
    /// A system-exclusive message (status `0xF0`) or its continuation
    /// (status `0xF7`), with its length-prefixed payload.
    Sysex { typ: u8, data: Vec<u8> },
    /// A meta event (status `0xFF`): a type byte, then a length-prefixed
    /// payload.
    Meta { typ: u8, data: Vec<u8> },
}

/// The mathematical shape of an `Event`: the same three variants with the
/// payload as a byte sequence.
pub enum EventView {
    Basic { typ: u8, channel: u8, data1: u8, data2: u8 },
    Sysex { typ: u8, data: Seq<u8> },
    Meta { typ: u8, data: Seq<u8> },
}

impl View for Event {
    type V = EventView;

    open spec fn view(&self) -> EventView {
        match self {
            Event::Basic { typ, channel, data1, data2 } => EventView::Basic {
                typ: *typ,
                channel: *channel,
                data1: *data1,
                data2: *data2,
            },
            Event::Sysex { typ, data } => EventView::Sysex { typ: *typ, data: data@ },
            Event::Meta { typ, data } => EventView::Meta { typ: *typ, data: data@ },
        }
    }
}

/// Decodes one event from the front of `s`: a dispatch on the status byte.
/// `0xF0`/`0xF7` introduce a sysex event (length, then payload), `0xFF` a
/// meta event (type byte, length, then payload), and every other status
/// byte a basic channel event with two data bytes. `None` when `s` ends
/// before the event is complete.
pub open spec fn spec_event(s: Seq<u8>) -> Option<(EventView, Seq<u8>)> {
    if s.len() == 0 {
        None
    } else {
        let b1 = s[0];
        let s1 = s.skip(1);
        if b1 == 0xF0 || b1 == 0xF7 {
            match spec_varlen(s1) {
                Some((length, s2)) => if s2.len() >= length {
                    Some(
                        (
                            EventView::Sysex { typ: b1, data: s2.take(length as int) },
                            s2.skip(length as int),
                        ),
                    )
                } else {
                    None
                },
                None => None,
            }
        } else if b1 == 0xFF {
            if s1.len() == 0 {
                None
            } else {
                let typ = s1[0];
                let s2 = s1.skip(1);
                match spec_varlen(s2) {
                    Some((length, s3)) => if s3.len() >= length {
                        Some(
                            (
                                EventView::Meta { typ, data: s3.take(length as int) },
                                s3.skip(length as int),
                            ),
                        )
                    } else {
                        None
                    },
                    None => None,
                }
            }
        } else {
            if s1.len() >= 2 {
                Some(
                    (
                        EventView::Basic {
                            typ: b1 & 0xF0,
                            channel: b1 & 0x0F,
                            data1: s1[0],
                            data2: s1[1],
                        },
                        s1.skip(2),
                    ),
                )
            } else {
                None
            }
        }
    }
}

/// A successful event decode consumes at least two bytes, and leaves
/// exactly the suffix of `s` past the consumed bytes.
pub proof fn lemma_event_suffix(s: Seq<u8>)
    ensures
        spec_event(s) matches Some((e, r)) ==> r.len() + 2 <= s.len() && r == s.skip(
            s.len() - r.len(),
        ),
{
    if let Some((e, r)) = spec_event(s) {
        let b1 = s[0];
        let s1 = s.skip(1);
        if b1 == 0xF0 || b1 == 0xF7 {
            lemma_varlen_suffix(s1, 0);
            if let Some((length, s2)) = spec_varlen(s1) {
                let r2 = s2.skip(length as int);
                assert(r2 =~= s.skip(s.len() - r2.len()));
            }
        } else if b1 == 0xFF {
            let s2 = s1.skip(1);
            lemma_varlen_suffix(s2, 0);
            if s1.len() > 0 {
                if let Some((length, s3)) = spec_varlen(s2) {
                    let r2 = s3.skip(length as int);
                    assert(r2 =~= s.skip(s.len() - r2.len()));
                }
            }
        } else {
            assert(s1.skip(2) =~= s.skip(3));
        }
    }
}

/// An event decode reads only the bytes it consumes: appending `t` leaves a
/// successful decode unchanged, except that `t` trails the rest.
pub proof fn lemma_event_extend(s: Seq<u8>, t: Seq<u8>)
    ensures
        spec_event(s) matches Some((e, r)) ==> spec_event(s + t) == Some((e, r + t)),
{
    if let Some((e, r)) = spec_event(s) {
        assert((s + t)[0] == s[0]);
        assert((s + t).skip(1) =~= s.skip(1) + t);
        let b1 = s[0];
        let s1 = s.skip(1);
        if b1 == 0xF0 || b1 == 0xF7 {
            lemma_varlen_extend(s1, 0, t);
            if let Some((length, s2)) = spec_varlen(s1) {
                let ll = length as int;
                assert((s2 + t).take(ll) =~= s2.take(ll));
                assert((s2 + t).skip(ll) =~= s2.skip(ll) + t);
            }
        } else if b1 == 0xFF {
            if s1.len() > 0 {
                assert((s1 + t)[0] == s1[0]);
                assert((s1 + t).skip(1) =~= s1.skip(1) + t);
                lemma_varlen_extend(s1.skip(1), 0, t);
                if let Some((length, s3)) = spec_varlen(s1.skip(1)) {
                    let ll = length as int;
                    assert((s3 + t).take(ll) =~= s3.take(ll));
                    assert((s3 + t).skip(ll) =~= s3.skip(ll) + t);
                }
            }
        } else {
            if s1.len() >= 2 {
                assert((s1 + t)[0] == s1[0]);
                assert((s1 + t)[1] == s1[1]);
                assert((s1 + t).skip(2) =~= s1.skip(2) + t);
            }
        }
    }
}

/// Law: truncation of an event. Any strict prefix of the bytes a
/// successful event decode consumed fails to decode; in particular,
/// deleting the final byte of a complete event makes decoding fail.
pub proof fn lemma_event_truncate(s: Seq<u8>, j: int)
    ensures
        spec_event(s) matches Some((e, r)) && 0 <= j < s.len() - r.len() ==> spec_event(
            s.take(j),
        ) is None,
{
    if let Some((e, r)) = spec_event(s) {
        if 0 <= j < s.len() - r.len() {
            match spec_event(s.take(j)) {
                Some((e2, r2)) => {
                    lemma_event_extend(s.take(j), s.skip(j));
                    assert(s.take(j) + s.skip(j) =~= s);
                    assert((r2 + s.skip(j)).len() == r2.len() + s.len() - j);
                    assert(false);
                },
                None => {},
            }
        }
    }
}

/// A successful event decode is determined by the consumed prefix alone:
/// run on exactly those bytes, it yields the same event and nothing left.
pub proof fn lemma_event_local(s: Seq<u8>)
    ensures
        spec_event(s) matches Some((e, r)) ==> spec_event(s.take(s.len() - r.len())) == Some(
            (e, Seq::<u8>::empty()),
        ),
{
    if let Some((e, r)) = spec_event(s) {
        lemma_event_suffix(s);
        let k = s.len() - r.len();
        let p = s.take(k);
        assert(p[0] == s[0]);
        assert(p.skip(1) =~= s.skip(1).take(k - 1));
        let b1 = s[0];
        let s1 = s.skip(1);
        if b1 == 0xF0 || b1 == 0xF7 {
            lemma_varlen_suffix(s1, 0);
            lemma_varlen_local(s1, 0);
            if let Some((length, s2)) = spec_varlen(s1) {
                let ll = length as int;
                let k2 = s1.len() - s2.len();
                lemma_varlen_extend(s1.take(k2), 0, s2.take(ll));
                assert(s1.take(k2) + s2.take(ll) =~= s1.take(k - 1));
                assert(Seq::<u8>::empty() + s2.take(ll) =~= s2.take(ll));
                assert(s2.take(ll).take(ll) =~= s2.take(ll));
                assert(s2.take(ll).skip(ll) =~= Seq::<u8>::empty());
            }
        } else if b1 == 0xFF {
            if s1.len() > 0 {
                let s2 = s1.skip(1);
                assert(p.skip(1)[0] == s1[0]);
                assert(p.skip(1).skip(1) =~= s2.take(k - 2));
                lemma_varlen_suffix(s2, 0);
                lemma_varlen_local(s2, 0);
                if let Some((length, s3)) = spec_varlen(s2) {
                    let ll = length as int;
                    let k2 = s2.len() - s3.len();
                    lemma_varlen_extend(s2.take(k2), 0, s3.take(ll));
                    assert(s2.take(k2) + s3.take(ll) =~= s2.take(k - 2));
                    assert(Seq::<u8>::empty() + s3.take(ll) =~= s3.take(ll));
                    assert(s3.take(ll).take(ll) =~= s3.take(ll));
                    assert(s3.take(ll).skip(ll) =~= Seq::<u8>::empty());
                }
            }
        } else {
            assert(p.skip(1)[0] == s1[0]);
            assert(p.skip(1)[1] == s1[1]);
            assert(p.skip(1).skip(2) =~= Seq::<u8>::empty());
        }
    }
}

impl Event {
    /// Decodes exactly one event, leaving the cursor just past its last
    /// byte; any premature end of input is a `BrokenFileFormat` error.
    #[verifier::loop_isolation(false)]
    pub fn parse(input: &mut ByteCursor) -> (r: Result<Event, DecodeError>)
        requires
            old(input).wf(),
        ensures
            final(input).wf(),
            match r {
                Ok(evt) => spec_event(old(input).remaining()) == Some(
                    (evt@, final(input).remaining()),
                ),
                Err(e) => e == DecodeError::BrokenFileFormat && spec_event(
                    old(input).remaining(),
                ) is None,
            },
    {
        let ghost s0 = input.remaining();
        let b1 = match next_byte(input) {
            Ok(b) => b,
            Err(e) => {
                return Err(e);
            },
        };
        let evt = if b1 == 0xF0 || b1 == 0xF7 {
            let ghost s1 = input.remaining();
            let length = match read_varlen(input) {
                Ok(v) => v,
                Err(e) => {
                    return Err(e);
                },
            };
            let ghost s2 = input.remaining();
            let mut data: Vec<u8> = Vec::new();
            let mut i: u32 = 0;
            while i < length
                invariant
                    input.wf(),
                    i <= length,
                    i <= s2.len(),
                    input.remaining() == s2.skip(i as int),
                    data@ =~= s2.take(i as int),
                decreases length - i,
            {
                let b = match next_byte(input) {
                    Ok(b) => b,
                    Err(e) => {
                        return Err(e);
                    },
                };
                data.push(b);
                i = i + 1;
                proof {
                    assert(input.remaining() =~= s2.skip(i as int));
                    assert(data@ =~= s2.take(i as int));
                }
            }
            Event::Sysex { typ: b1, data }
        } else if b1 == 0xFF {
            let typ = match next_byte(input) {
                Ok(b) => b,
                Err(e) => {
                    return Err(e);
                },
            };
            let ghost s2m = input.remaining();
            let length = match read_varlen(input) {
                Ok(v) => v,
                Err(e) => {
                    return Err(e);
                },
            };
            let ghost s3 = input.remaining();
            let mut data: Vec<u8> = Vec::new();
            let mut i: u32 = 0;
            while i < length
                invariant
                    input.wf(),
                    i <= length,
                    i <= s3.len(),
                    input.remaining() == s3.skip(i as int),
                    data@ =~= s3.take(i as int),
                decreases length - i,
            {
                let b = match next_byte(input) {
                    Ok(b) => b,
                    Err(e) => {
                        return Err(e);
                    },
                };
                data.push(b);
                i = i + 1;
                proof {
                    assert(input.remaining() =~= s3.skip(i as int));
                    assert(data@ =~= s3.take(i as int));
                }
            }
            Event::Meta { typ, data }
        } else {
            let data1 = match next_byte(input) {
                Ok(b) => b,
                Err(e) => {
                    return Err(e);
                },
            };
            let data2 = match next_byte(input) {
                Ok(b) => b,
                Err(e) => {
                    return Err(e);
                },
            };
            proof {
                assert(s0.skip(1).skip(1).skip(1) =~= s0.skip(1).skip(2));
            }
            Event::Basic { typ: b1 & 0xF0, channel: b1 & 0x0F, data1, data2 }
        };
        Ok(evt)
    }
}

} // verus!
