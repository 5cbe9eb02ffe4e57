//! The decisions of the packet loop that gets one frame out of a video
//! decoder: which packets are read and sent, when a frame is taken out,
//! when the decoder is drained, and when to stop.  The caller performs each
//! action with FFmpeg and hands back what came of it.
use vstd::prelude::*;

verus! {

/// What the decoder is asked to do next.
#[derive(PartialEq, Eq, Structural, Clone, Copy, Debug)]
pub enum PacketAction {
    /// Read the next packet of the file.
    Read,
    /// Send the packet just read to the decoder.
    Send,
    /// The decoder was full: take a frame out of it.
    ReceiveWhenFull,
    /// No frame could be taken: send the same packet again.
    SendAgain,
    /// Take a frame out of the decoder.
    Receive,
    /// No more packets are read: flush the decoder and take a frame out.
    Drain,
    /// Stop; whether a frame was taken out.
    Done(bool),
}

/// What came of the last action.
#[derive(PartialEq, Eq, Structural, Clone, Copy, Debug)]
pub enum PacketEvent {
    /// A read: whether a packet was read and whether it belongs to the video
    /// stream.
    Read { ok: bool, video: bool },
    /// The code returned by sending a packet.
    Sent(i32),
    /// The code returned by taking a frame out (0 when one was).
    Received(i32),
}

/// The packet loop: packets read so far, the most that may be read, the
/// code by which the decoder says it is full, and the action asked for.
pub struct PacketLoop {
    pub packets: i32,
    pub limit: i32,
    pub eagain: i32,
    pub pending: PacketAction,
}

/// After a packet is done with: read another while fewer than `limit` were
/// read, else drain.
pub open spec fn read_or_drain(packets: int, limit: int) -> PacketAction {
    if packets < limit {
        PacketAction::Read
    } else {
        PacketAction::Drain
    }
}

/// Whether `e` is what the action `a` gives.
pub open spec fn answers(a: PacketAction, e: PacketEvent) -> bool {
    match a {
        PacketAction::Read => e is Read,
        PacketAction::Send | PacketAction::SendAgain => e is Sent,
        PacketAction::ReceiveWhenFull | PacketAction::Receive | PacketAction::Drain => e is Received,
        PacketAction::Done(_) => false,
    }
}

/// The packets read and the next action after `e`, in loop state `st`:
/// - a failed read drains; a packet of another stream is dropped; a video
///   packet is sent;
/// - a send that finds the decoder full takes a frame out first, and if
///   none comes sends the packet again; a failed send drops the packet;
///   otherwise a frame is taken out;
/// - a frame taken out ends the loop; else the next packet is read (or,
///   past the limit, the decoder is drained);
/// - after draining, the loop ends with whether a frame came out.
/// An event that does not answer the pending action changes nothing.
pub open spec fn packet_step(st: PacketLoop, e: PacketEvent) -> (int, PacketAction) {
    let p = st.packets as int;
    if !answers(st.pending, e) {
        (p, st.pending)
    } else {
        match e {
            PacketEvent::Read { ok, video } => {
                if !ok {
                    (p, PacketAction::Drain)
                } else if !video {
                    (p + 1, read_or_drain(p + 1, st.limit as int))
                } else {
                    (p + 1, PacketAction::Send)
                }
            },
            PacketEvent::Sent(s) => {
                if st.pending == PacketAction::Send && s == st.eagain {
                    (p, PacketAction::ReceiveWhenFull)
                } else if s < 0 {
                    (p, read_or_drain(p, st.limit as int))
                } else {
                    (p, PacketAction::Receive)
                }
            },
            PacketEvent::Received(r) => {
                if st.pending == PacketAction::Drain {
                    (p, PacketAction::Done(r == 0))
                } else if r == 0 {
                    (p, PacketAction::Done(true))
                } else if st.pending == PacketAction::ReceiveWhenFull {
                    (p, PacketAction::SendAgain)
                } else {
                    (p, read_or_drain(p, st.limit as int))
                }
            },
        }
    }
}

/// What the original packet loop does with each answer, in terms of the
/// packets read `p`, the limit `l` and the code or read outcome given:
/// - a read that fails drains; a packet read counts, and is sent when it
///   is video, else the next packet is read (or, at the limit, the decoder
///   drained);
/// - a send that finds the decoder full (the first time) takes a frame out;
///   a send that fails otherwise goes on with the next packet (or drains at
///   the limit); a send that succeeds takes a frame out;
/// - taking a frame out stops the loop with success when the code is 0;
///   any other code, whichever it is, goes on with the next packet below
///   the limit and drains at it (or, after a full decoder, sends again);
/// - after draining the loop stops, with success exactly when the code is 0.
pub proof fn lemma_packet_rules(st: PacketLoop, ok: bool, video: bool, x: i32)
    ensures
        ({
            let p = st.packets as int;
            let l = st.limit as int;
            let next_packet = if p < l {
                PacketAction::Read
            } else {
                PacketAction::Drain
            };
            &&& st.pending == PacketAction::Read ==> packet_step(st, PacketEvent::Read { ok, video })
                == if !ok {
                (p, PacketAction::Drain)
            } else if video {
                (p + 1, PacketAction::Send)
            } else if p + 1 < l {
                (p + 1, PacketAction::Read)
            } else {
                (p + 1, PacketAction::Drain)
            }
            &&& st.pending == PacketAction::Send ==> packet_step(st, PacketEvent::Sent(x)) == if x
                == st.eagain {
                (p, PacketAction::ReceiveWhenFull)
            } else if x < 0 {
                (p, next_packet)
            } else {
                (p, PacketAction::Receive)
            }
            &&& st.pending == PacketAction::SendAgain ==> packet_step(st, PacketEvent::Sent(x))
                == if x < 0 {
                (p, next_packet)
            } else {
                (p, PacketAction::Receive)
            }
            &&& st.pending == PacketAction::ReceiveWhenFull ==> packet_step(
                st,
                PacketEvent::Received(x),
            ) == if x == 0 {
                (p, PacketAction::Done(true))
            } else {
                (p, PacketAction::SendAgain)
            }
            &&& st.pending == PacketAction::Receive ==> packet_step(st, PacketEvent::Received(x))
                == if x == 0 {
                (p, PacketAction::Done(true))
            } else {
                (p, next_packet)
            }
            &&& st.pending == PacketAction::Drain ==> packet_step(st, PacketEvent::Received(x)) == (
                p,
                PacketAction::Done(x == 0),
            )
        }),
{
}

/// A frame that cannot be taken out does not end the search: in the state
/// that takes a frame out, any two non-zero codes lead to the same next
/// step, which reads the next packet while fewer than the limit were read.
pub proof fn lemma_bad_frame_reads_on(st: PacketLoop, x: i32, y: i32)
    requires
        st.pending == PacketAction::Receive,
        x != 0,
        y != 0,
    ensures
        packet_step(st, PacketEvent::Received(x)) == packet_step(st, PacketEvent::Received(y)),
        st.packets < st.limit ==> packet_step(st, PacketEvent::Received(x)) == (
            st.packets as int,
            PacketAction::Read,
        ),
{
}

/// How far an action is from the end of handling its packet.
pub open spec fn rank(a: PacketAction) -> int {
    match a {
        PacketAction::Done(_) => 0,
        PacketAction::Drain => 1,
        PacketAction::Read => 2,
        PacketAction::Receive => 3,
        PacketAction::SendAgain => 4,
        PacketAction::ReceiveWhenFull => 5,
        PacketAction::Send => 6,
    }
}

impl PacketLoop {
    /// Packets are read only below the limit, and packets in hand were
    /// counted within it.
    pub open spec fn wf(&self) -> bool {
        &&& 0 <= self.packets
        &&& self.pending == PacketAction::Read ==> self.packets < self.limit
        &&& (self.pending == PacketAction::Send || self.pending == PacketAction::SendAgain
            || self.pending == PacketAction::ReceiveWhenFull || self.pending
            == PacketAction::Receive) ==> self.packets <= self.limit
    }

    /// A bound on the steps left: each answered step lowers it.
    pub open spec fn steps_left(&self) -> int {
        if self.pending == PacketAction::Drain || self.pending is Done {
            rank(self.pending)
        } else {
            6 * (self.limit - self.packets) + rank(self.pending)
        }
    }

    /// The loop before anything is read: a packet is read first, unless the
    /// limit allows none.
    pub fn start(limit: i32, eagain: i32) -> (st: Self)
        ensures
            st.packets == 0,
            st.limit == limit,
            st.eagain == eagain,
            st.pending == read_or_drain(0, limit as int),
            st.wf(),
    {
        let pending = if 0 < limit {
            PacketAction::Read
        } else {
            PacketAction::Drain
        };
        PacketLoop { packets: 0, limit, eagain, pending }
    }

    /// Takes in what came of the pending action and gives the next one.
    pub fn step(&mut self, e: PacketEvent) -> (a: PacketAction)
        requires
            old(self).wf(),
        ensures
            final(self).packets == packet_step(*old(self), e).0,
            final(self).pending == packet_step(*old(self), e).1,
            a == final(self).pending,
            final(self).limit == old(self).limit,
            final(self).eagain == old(self).eagain,
            final(self).wf(),
            0 <= final(self).steps_left(),
            answers(old(self).pending, e) ==> final(self).steps_left() < old(self).steps_left(),
    {
        let p = self.packets;
        let pending = self.pending;
        let next: PacketAction = match (pending, e) {
            (PacketAction::Read, PacketEvent::Read { ok, video }) => {
                if !ok {
                    PacketAction::Drain
                } else {
                    self.packets = p + 1;
                    if !video {
                        if p + 1 < self.limit {
                            PacketAction::Read
                        } else {
                            PacketAction::Drain
                        }
                    } else {
                        PacketAction::Send
                    }
                }
            },
            (PacketAction::Send, PacketEvent::Sent(s)) | (PacketAction::SendAgain, PacketEvent::Sent(s)) => {
                if pending == PacketAction::Send && s == self.eagain {
                    PacketAction::ReceiveWhenFull
                } else if s < 0 {
                    if p < self.limit {
                        PacketAction::Read
                    } else {
                        PacketAction::Drain
                    }
                } else {
                    PacketAction::Receive
                }
            },
            (PacketAction::Drain, PacketEvent::Received(r)) => PacketAction::Done(r == 0),
            (PacketAction::ReceiveWhenFull, PacketEvent::Received(r)) => {
                if r == 0 {
                    PacketAction::Done(true)
                } else {
                    PacketAction::SendAgain
                }
            },
            (PacketAction::Receive, PacketEvent::Received(r)) => {
                if r == 0 {
                    PacketAction::Done(true)
                } else if p < self.limit {
                    PacketAction::Read
                } else {
                    PacketAction::Drain
                }
            },
            _ => pending,
        };
        self.pending = next;
        next
    }
}

} // verus!
