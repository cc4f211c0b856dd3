use vstd::prelude::*;

use crate::cursor::ByteCursor;
use crate::errors::DecodeError;
use crate::event::EventView;
use crate::track::spec_track;
use crate::track::Track;
use crate::utils::check_header;
use crate::utils::next_byte;
use crate::utils::next_u16;
use crate::utils::next_u32;
use crate::utils::spec_u16;
use crate::utils::spec_u32;
use vstd::string::StringSliceAdditionalSpecFns;

verus! {

/// A decoded Standard MIDI File: the header's format and division fields
/// and the decoded tracks in file order.
pub struct MidiFile {
    pub format: u16,
    pub division: u16,
    pub tracks: Vec<Track>,
}

/// The mathematical shape of a `MidiFile`: each track as its sequence of
/// timed events.
pub struct MidiFileView {
    pub format: u16,
    pub division: u16,
    pub tracks: Seq<Seq<(u32, EventView)>>,
}

impl View for MidiFile {
    type V = MidiFileView;

    open spec fn view(&self) -> MidiFileView {
        MidiFileView {
            format: self.format,
            division: self.division,
            tracks: self.tracks@.map_values(|t: Track| t@),
        }
    }
}

/// Decodes `n` chunks from the front of `s`: each a four-byte tag and a
/// 32-bit big-endian length, then that many payload bytes. An `"MTrk"`
/// chunk's payload must decode as a track and is kept; any other chunk is
/// skipped verbatim (forward compatibility with unknown chunk types).
pub open spec fn spec_chunks(s: Seq<u8>, n: nat) -> Option<
    (Seq<Seq<(u32, EventView)>>, Seq<u8>),
>
    decreases n,
{
    if n == 0 {
        Some((Seq::empty(), s))
    } else if s.len() < 4 {
        None
    } else {
        let tag = s.take(4);
        match spec_u32(s.skip(4)) {
            Some((length, s2)) => {
                if s2.len() < length {
                    None
                } else {
                    let payload = s2.take(length as int);
                    let s3 = s2.skip(length as int);
                    if tag == "MTrk".spec_bytes() {
                        match spec_track(payload) {
                            Some(evs) => match spec_chunks(s3, (n - 1) as nat) {
                                Some((rest, sf)) => Some((seq![evs] + rest, sf)),
                                None => None,
                            },
                            None => None,
                        }
                    } else {
                        spec_chunks(s3, (n - 1) as nat)
                    }
                }
            },
            None => None,
        }
    }
}

/// The chunk decode of `s` for `n` more chunks, appended to tracks already
/// decoded.
pub open spec fn spec_chunks_from(pre: Seq<Seq<(u32, EventView)>>, s: Seq<u8>, n: nat) -> Option<
    (Seq<Seq<(u32, EventView)>>, Seq<u8>),
> {
    match spec_chunks(s, n) {
        Some((rest, sf)) => Some((pre + rest, sf)),
        None => None,
    }
}

/// Decodes a whole file from the front of `s`: the `"MThd"` tag, the
/// 32-bit header length (at least 6; any bytes beyond the first 6 are
/// skipped), the format, track-count and division fields, then that many
/// chunks. Bytes past the last chunk are left untouched.
pub open spec fn spec_file(s: Seq<u8>) -> Option<(MidiFileView, Seq<u8>)> {
    if s.len() < 4 || s.take(4) != "MThd".spec_bytes() {
        None
    } else {
        match spec_u32(s.skip(4)) {
            Some((hlen, s1)) => match spec_u16(s1) {
                Some((format, s2)) => match spec_u16(s2) {
                    Some((ntrks, s3)) => match spec_u16(s3) {
                        Some((division, s4)) => {
                            if hlen < 6 {
                                None
                            } else if s4.len() < hlen - 6 {
                                None
                            } else {
                                match spec_chunks(s4.skip(hlen - 6), ntrks as nat) {
                                    Some((tracks, sf)) => Some(
                                        (MidiFileView { format, division, tracks }, sf),
                                    ),
                                    None => None,
                                }
                            }
                        },
                        None => None,
                    },
                    None => None,
                },
                None => None,
            },
            None => None,
        }
    }
}

/// Law: truncation of a chunk sequence. If `n` chunks decode and consume
/// all of `s`, deleting the final byte makes the decode fail.
pub proof fn lemma_chunks_truncate(s: Seq<u8>, n: nat)
    ensures
        spec_chunks(s, n) matches Some((tr, rest)) && rest.len() == 0 && s.len() > 0
            ==> spec_chunks(s.take(s.len() - 1), n) is None,
    decreases n,
{
    if let Some((tr, rest)) = spec_chunks(s, n) {
        if rest.len() == 0 && s.len() > 0 {
            let t = s.take(s.len() - 1);
            assert(n > 0);
            let tag = s.take(4);
            if let Some((length, s2)) = spec_u32(s.skip(4)) {
                let ll = length as int;
                let payload = s2.take(ll);
                let s3 = s2.skip(ll);
                assert(s2 =~= s.skip(8));
                if s3.len() > 0 {
                    // the deleted byte lies past the first chunk, which
                    // still decodes; the remaining chunks fail by induction
                    assert(t.len() >= 8 + ll);
                    assert(t.take(4) =~= tag);
                    assert(t.skip(4)[0] == s.skip(4)[0]);
                    assert(t.skip(4)[1] == s.skip(4)[1]);
                    assert(t.skip(4)[2] == s.skip(4)[2]);
                    assert(t.skip(4)[3] == s.skip(4)[3]);
                    assert(t.skip(4).skip(4) =~= t.skip(8));
                    let t2 = t.skip(8);
                    assert(t2 =~= s2.take(s2.len() - 1));
                    assert(t2.take(ll) =~= payload);
                    assert(t2.skip(ll) =~= s3.take(s3.len() - 1));
                    lemma_chunks_truncate(s3, (n - 1) as nat);
                } else {
                    if ll > 0 {
                        // the deleted byte was the last of the payload,
                        // which is now shorter than the declared length
                        assert(t.len() == 7 + ll);
                        assert(t.take(4) =~= tag);
                        assert(t.skip(4)[0] == s.skip(4)[0]);
                        assert(t.skip(4)[1] == s.skip(4)[1]);
                        assert(t.skip(4)[2] == s.skip(4)[2]);
                        assert(t.skip(4)[3] == s.skip(4)[3]);
                        assert(t.skip(4).skip(4) =~= t.skip(8));
                        assert(t.skip(8).len() < ll);
                    } else {
                        // the chunk had no payload: its length field is cut
                        assert(t.skip(4).len() == 3);
                    }
                }
            }
        }
    }
}

/// Law: truncation of a file. If a file decode consumes all of `s`,
/// deleting the final byte makes the decode fail; it never silently
/// succeeds.
pub proof fn lemma_file_truncate(s: Seq<u8>)
    ensures
        spec_file(s) matches Some((f, rest)) && rest.len() == 0 && s.len() > 0 ==> spec_file(
            s.take(s.len() - 1),
        ) is None,
{
    if let Some((f, rest)) = spec_file(s) {
        if rest.len() == 0 && s.len() > 0 {
            let t = s.take(s.len() - 1);
            if let Some((hlen, s1)) = spec_u32(s.skip(4)) {
                if let Some((format, s2)) = spec_u16(s1) {
                    if let Some((ntrks, s3)) = spec_u16(s2) {
                        if let Some((division, s4)) = spec_u16(s3) {
                            let hl = hlen as int;
                            assert(s1 =~= s.skip(8));
                            assert(s2 =~= s.skip(10));
                            assert(s3 =~= s.skip(12));
                            assert(s4 =~= s.skip(14));
                            let s5 = s4.skip(hl - 6);
                            assert(s5 =~= s.skip(8 + hl));
                            if s5.len() > 0 {
                                // the whole header survives in t: every
                                // field reads the same, and the chunks
                                // fail by their own truncation law
                                assert(t.len() >= 8 + hl);
                                assert(t.take(4) =~= s.take(4));
                                assert(t.skip(4)[0] == s.skip(4)[0]);
                                assert(t.skip(4)[1] == s.skip(4)[1]);
                                assert(t.skip(4)[2] == s.skip(4)[2]);
                                assert(t.skip(4)[3] == s.skip(4)[3]);
                                assert(t.skip(4).skip(4) =~= t.skip(8));
                                assert(t.skip(8)[0] == s.skip(8)[0]);
                                assert(t.skip(8)[1] == s.skip(8)[1]);
                                assert(t.skip(8).skip(2) =~= t.skip(10));
                                assert(t.skip(10)[0] == s.skip(10)[0]);
                                assert(t.skip(10)[1] == s.skip(10)[1]);
                                assert(t.skip(10).skip(2) =~= t.skip(12));
                                assert(t.skip(12)[0] == s.skip(12)[0]);
                                assert(t.skip(12)[1] == s.skip(12)[1]);
                                assert(t.skip(12).skip(2) =~= t.skip(14));
                                assert(t.skip(14).len() >= hl - 6);
                                assert(t.skip(14).skip(hl - 6) =~= s5.take(s5.len() - 1));
                                lemma_chunks_truncate(s5, ntrks as nat);
                            } else {
                                if hl > 6 {
                                    // the deleted byte was a skipped extra
                                    // header byte; too few of them remain
                                    assert(t.len() == 7 + hl);
                                    assert(t.take(4) =~= s.take(4));
                                    assert(t.skip(4)[0] == s.skip(4)[0]);
                                    assert(t.skip(4)[1] == s.skip(4)[1]);
                                    assert(t.skip(4)[2] == s.skip(4)[2]);
                                    assert(t.skip(4)[3] == s.skip(4)[3]);
                                    assert(t.skip(4).skip(4) =~= t.skip(8));
                                    assert(t.skip(8).skip(2) =~= t.skip(10));
                                    assert(t.skip(10).skip(2) =~= t.skip(12));
                                    assert(t.skip(12).skip(2) =~= t.skip(14));
                                    assert(t.skip(14).len() < hl - 6);
                                } else {
                                    // a bare 14-byte header: the division
                                    // field is cut short
                                    assert(t.len() == 13);
                                    assert(t.take(4) =~= s.take(4));
                                    assert(t.skip(4)[0] == s.skip(4)[0]);
                                    assert(t.skip(4)[1] == s.skip(4)[1]);
                                    assert(t.skip(4)[2] == s.skip(4)[2]);
                                    assert(t.skip(4)[3] == s.skip(4)[3]);
                                    assert(t.skip(4).skip(4) =~= t.skip(8));
                                    assert(t.skip(8).skip(2) =~= t.skip(10));
                                    assert(t.skip(10).skip(2) =~= t.skip(12));
                                    assert(t.skip(12).len() == 1);
                                }
                            }
                        }
                    }
                }
            }
        }
    }
}

impl MidiFile {
    /// Decodes a complete file: validates the `"MThd"` tag, reads the
    /// header fields, then reads exactly the declared number of chunks,
    /// decoding each `"MTrk"` payload as a track and skipping any other
    /// chunk. Any structural violation is a `BrokenFileFormat` error.
    #[verifier::loop_isolation(false)]
    pub fn new(input: &mut ByteCursor) -> (r: Result<MidiFile, DecodeError>)
        requires
            old(input).wf(),
        ensures
            final(input).wf(),
            match r {
                Ok(f) => spec_file(old(input).remaining()) == Some(
                    (f@, final(input).remaining()),
                ),
                Err(e) => e == DecodeError::BrokenFileFormat && spec_file(
                    old(input).remaining(),
                ) is None,
            },
    {
        let ghost s0 = input.remaining();
        match check_header(input, "MThd") {
            Ok(true) => {},
            Ok(false) => {
                return Err(DecodeError::BrokenFileFormat);
            },
            Err(e) => {
                return Err(e);
            },
        }
        let header_length = match next_u32(input) {
            Ok(v) => v,
            Err(e) => {
                return Err(e);
            },
        };
        let format = match next_u16(input) {
            Ok(v) => v,
            Err(e) => {
                return Err(e);
            },
        };
        let num_tracks = match next_u16(input) {
            Ok(v) => v,
            Err(e) => {
                return Err(e);
            },
        };
        let division = match next_u16(input) {
            Ok(v) => v,
            Err(e) => {
                return Err(e);
            },
        };
        if header_length < 6 {
            return Err(DecodeError::BrokenFileFormat);
        }
        // skip any extra bytes in the header beyond the six just read
        let ghost s4 = input.remaining();
        let extra = header_length - 6;
        let mut j: u32 = 0;
        while j < extra
            invariant
                input.wf(),
                j <= extra,
                j <= s4.len(),
                input.remaining() == s4.skip(j as int),
            decreases extra - j,
        {
            match next_byte(input) {
                Ok(_) => {},
                Err(e) => {
                    return Err(e);
                },
            }
            j = j + 1;
            proof {
                assert(input.remaining() =~= s4.skip(j as int));
            }
        }
        let ghost s5 = input.remaining();
        let mut tracks: Vec<Track> = Vec::new();
        let mut t: u16 = 0;
        while t < num_tracks
            invariant
                input.wf(),
                t <= num_tracks,
                spec_chunks(s5, num_tracks as nat) == spec_chunks_from(
                    tracks@.map_values(|tr: Track| tr@),
                    input.remaining(),
                    (num_tracks - t) as nat,
                ),
            decreases num_tracks - t,
        {
            let ghost rem0 = input.remaining();
            let ghost pre = tracks@.map_values(|tr: Track| tr@);
            let is_trk = match check_header(input, "MTrk") {
                Ok(b) => b,
                Err(e) => {
                    return Err(e);
                },
            };
            let length = match next_u32(input) {
                Ok(v) => v,
                Err(e) => {
                    return Err(e);
                },
            };
            let ghost s2 = input.remaining();
            if is_trk {
                let mut payload: Vec<u8> = Vec::new();
                let mut i: u32 = 0;
                while i < length
                    invariant
                        input.wf(),
                        i <= length,
                        i <= s2.len(),
                        input.remaining() == s2.skip(i as int),
                        payload@ =~= s2.take(i as int),
                    decreases length - i,
                {
                    let b = match next_byte(input) {
                        Ok(b) => b,
                        Err(e) => {
                            return Err(e);
                        },
                    };
                    payload.push(b);
                    i = i + 1;
                    proof {
                        assert(input.remaining() =~= s2.skip(i as int));
                        assert(payload@ =~= s2.take(i as int));
                    }
                }
                let mut sub = ByteCursor::new(payload);
                match Track::new(&mut sub) {
                    Ok(trk) => {
                        tracks.push(trk);
                        proof {
                            assert(tracks@.map_values(|tr: Track| tr@) =~= pre.push(trk@));
                            if let Some((rest, sf)) = spec_chunks(
                                input.remaining(),
                                (num_tracks - t - 1) as nat,
                            ) {
                                assert(pre + (seq![trk@] + rest) =~= pre.push(trk@) + rest);
                            }
                        }
                    },
                    Err(e) => {
                        return Err(e);
                    },
                }
            } else {
                let mut i: u32 = 0;
                while i < length
                    invariant
                        input.wf(),
                        i <= length,
                        i <= s2.len(),
                        input.remaining() == s2.skip(i as int),
                    decreases length - i,
                {
                    match next_byte(input) {
                        Ok(_) => {},
                        Err(e) => {
                            return Err(e);
                        },
                    }
                    i = i + 1;
                    proof {
                        assert(input.remaining() =~= s2.skip(i as int));
                    }
                }
            }
            t = t + 1;
        }
        proof {
            let pre = tracks@.map_values(|tr: Track| tr@);
            assert(pre + Seq::<Seq<(u32, EventView)>>::empty() =~= pre);
        }
        Ok(MidiFile { format, division, tracks })
    }
}

} // verus!
