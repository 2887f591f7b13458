//! The receive loop of the bridge: what each frame of the WebSocket leads to.
use crate::bridge::event;
use crate::bridge::event::{read_event, Event, EventView, Reason};
use crate::bridge::playback::{PlaybackCommand, PlaybackView};
use vstd::prelude::*;

verus! {

/// What the WebSocket yields next.
pub enum Frame {
    /// A text message.
    Text(String),
    /// Any other message but a close.
    Other,
    /// A close message.
    Close,
    /// A receive error.
    Failed,
    /// The end of the stream.
    End,
}

/// What the receive loop does next.
pub enum Action {
    /// Wait for the next frame.
    Wait,
    /// Wait for the next frame: this one asked for nothing.
    Ignore(Reason),
    /// Send the command to the playback loop and report whether it was taken.
    Deliver(PlaybackCommand),
    /// Leave the loop.
    Stop,
}

/// Where the receive loop stands.
#[derive(Clone, Copy, PartialEq, Eq, Structural, Debug)]
pub enum Phase {
    /// Waiting for a frame.
    Listening,
    /// Waiting for the playback loop to take a TTS response.
    DeliveringTts,
    /// Waiting for the playback loop to take a hold command.
    DeliveringHold,
    /// Out of the loop.
    Stopped,
}

/// The receive loop: the mu-law bytes of the TTS response so far, and its phase.
pub struct Receiver {
    buffer: Vec<u8>,
    phase: Phase,
}

/// The command that an event leads to when `buffer` holds the response so far. A
/// mark without audio before it leads to none.
pub open spec fn command(buffer: Seq<u8>, event: EventView) -> Option<PlaybackView> {
    match event {
        EventView::Mark => if buffer.len() > 0 {
            Some(PlaybackView::PlayTts(buffer))
        } else {
            None
        },
        EventView::HoldStart => Some(PlaybackView::HoldStart),
        EventView::HoldStop => Some(PlaybackView::HoldStop),
        EventView::Audio(_) | EventView::Ignored(_) => None,
    }
}

/// The buffer once an event has been dealt with and its command, if any, taken.
pub open spec fn kept(buffer: Seq<u8>, event: EventView) -> Seq<u8> {
    match event {
        EventView::Audio(data) => buffer + data,
        EventView::Mark => Seq::empty(),
        EventView::HoldStart | EventView::HoldStop | EventView::Ignored(_) => buffer,
    }
}

/// What follows an event that leads to no command.
pub open spec fn idle(event: EventView) -> Action {
    match event {
        EventView::Ignored(reason) => Action::Ignore(reason),
        _ => Action::Wait,
    }
}

impl Receiver {
    /// The mu-law bytes that wait for a mark.
    pub closed spec fn buffer(self) -> Seq<u8> {
        self.buffer@
    }

    pub closed spec fn phase(self) -> Phase {
        self.phase
    }

    pub fn new() -> (r: Receiver)
        ensures
            r.buffer() == Seq::<u8>::empty(),
            r.phase() == Phase::Listening,
    {
        Receiver { buffer: Vec::new(), phase: Phase::Listening }
    }

    pub fn current_phase(&self) -> (r: Phase)
        ensures
            r == self.phase(),
    {
        self.phase
    }

    /// Deals with an event: audio is kept, and any other event that the bridge
    /// handles leads to a command. The bytes of a response stay in the buffer until
    /// the playback loop has taken them.
    pub fn on_event(&mut self, event: Event) -> (r: Action)
        requires
            old(self).phase() == Phase::Listening,
        ensures
            match command(old(self).buffer(), event@) {
                Some(next) => {
                    &&& r matches Action::Deliver(sent) && sent@ == next
                    &&& final(self).phase() == if event@ == EventView::Mark {
                        Phase::DeliveringTts
                    } else {
                        Phase::DeliveringHold
                    }
                    &&& final(self).buffer() == old(self).buffer()
                },
                None => {
                    &&& r == idle(event@)
                    &&& final(self).phase() == Phase::Listening
                    &&& final(self).buffer() == kept(old(self).buffer(), event@)
                },
            },
    {
        match event {
            Event::Audio(data) => {
                let mut more: Vec<u8> = data;
                self.buffer.append(&mut more);
                Action::Wait
            },
            Event::Mark => if self.buffer.len() > 0 {
                self.phase = Phase::DeliveringTts;
                Action::Deliver(PlaybackCommand::PlayTts(self.buffer.clone()))
            } else {
                Action::Wait
            },
            Event::HoldStart => {
                self.phase = Phase::DeliveringHold;
                Action::Deliver(PlaybackCommand::HoldStart)
            },
            Event::HoldStop => {
                self.phase = Phase::DeliveringHold;
                Action::Deliver(PlaybackCommand::HoldStop)
            },
            Event::Ignored(reason) => Action::Ignore(reason),
        }
    }

    /// Deals with a frame: text is an event, other messages are passed over, and a
    /// close, an error or the end of the stream ends the loop.
    pub fn on_frame(&mut self, frame: Frame) -> (r: Action)
        requires
            old(self).phase() == Phase::Listening,
        ensures
            match frame {
                Frame::Text(text) => match command(old(self).buffer(), event::heard(text@)) {
                    Some(next) => {
                        &&& r matches Action::Deliver(sent) && sent@ == next
                        &&& final(self).phase() == if event::heard(text@) == EventView::Mark {
                            Phase::DeliveringTts
                        } else {
                            Phase::DeliveringHold
                        }
                        &&& final(self).buffer() == old(self).buffer()
                    },
                    None => {
                        &&& r == idle(event::heard(text@))
                        &&& final(self).phase() == Phase::Listening
                        &&& final(self).buffer() == kept(
                            old(self).buffer(),
                            event::heard(text@),
                        )
                    },
                },
                Frame::Other => r == Action::Wait && *final(self) == *old(self),
                Frame::Close | Frame::Failed | Frame::End => {
                    &&& r == Action::Stop
                    &&& final(self).phase() == Phase::Stopped
                    &&& final(self).buffer() == old(self).buffer()
                },
            },
    {
        match frame {
            Frame::Text(text) => {
                let event: Event = read_event(text.as_str());
                self.on_event(event)
            },
            Frame::Other => Action::Wait,
            Frame::Close | Frame::Failed | Frame::End => {
                self.phase = Phase::Stopped;
                Action::Stop
            },
        }
    }

    /// Deals with the outcome of a delivery. Once the playback loop has taken a
    /// response, its bytes are dropped; once it is gone, the receive loop ends.
    pub fn on_delivery(&mut self, taken: bool) -> (r: Action)
        requires
            old(self).phase() == Phase::DeliveringTts || old(self).phase() == Phase::DeliveringHold,
        ensures
            taken ==> r == Action::Wait && final(self).phase() == Phase::Listening,
            !taken ==> r == Action::Stop && final(self).phase() == Phase::Stopped,
            final(self).buffer() == if taken && old(self).phase() == Phase::DeliveringTts {
                Seq::<u8>::empty()
            } else {
                old(self).buffer()
            },
    {
        if !taken {
            self.phase = Phase::Stopped;
            return Action::Stop;
        }
        if self.phase == Phase::DeliveringTts {
            self.buffer.clear();
        }
        self.phase = Phase::Listening;
        Action::Wait
    }
}

/// What each event does: audio is added to the buffer and nothing is sent, a mark sends
/// the whole buffer and leaves it empty, hold events send their command and leave the
/// buffer alone, and an ignored message does nothing.
pub proof fn lemma_effects(buffer: Seq<u8>, data: Seq<u8>, reason: Reason)
    ensures
        kept(buffer, EventView::Audio(data)) == buffer + data,
        command(buffer, EventView::Audio(data)) is None,
        idle(EventView::Audio(data)) == Action::Wait,
        kept(buffer, EventView::Mark) == Seq::<u8>::empty(),
        buffer.len() > 0 ==> command(buffer, EventView::Mark) == Some(
            PlaybackView::PlayTts(buffer),
        ),
        buffer.len() == 0 ==> command(buffer, EventView::Mark) is None,
        idle(EventView::Mark) == Action::Wait,
        kept(buffer, EventView::HoldStart) == buffer,
        command(buffer, EventView::HoldStart) == Some(PlaybackView::HoldStart),
        kept(buffer, EventView::HoldStop) == buffer,
        command(buffer, EventView::HoldStop) == Some(PlaybackView::HoldStop),
        kept(buffer, EventView::Ignored(reason)) == buffer,
        command(buffer, EventView::Ignored(reason)) is None,
        idle(EventView::Ignored(reason)) == Action::Ignore(reason),
{
}

} // verus!
