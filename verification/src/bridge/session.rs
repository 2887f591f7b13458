//! What the receive loop does over a run of frames whose commands are all taken.
use crate::bridge::event;
use crate::bridge::event::{EventView, Reason};
use crate::bridge::playback::{PlaybackCommand, PlaybackView};
use crate::bridge::receiver;
use crate::bridge::receiver::{Action, Frame, Phase, Receiver};
use vstd::prelude::*;

verus! {

/// The bytes that wait for a mark after `events`.
pub open spec fn buffered(events: Seq<EventView>) -> Seq<u8>
    decreases events.len(),
{
    if events.len() == 0 {
        Seq::empty()
    } else {
        receiver::kept(buffered(events.drop_last()), events.last())
    }
}

/// The commands that `events` lead to.
pub open spec fn commands(events: Seq<EventView>) -> Seq<PlaybackView>
    decreases events.len(),
{
    if events.len() == 0 {
        Seq::empty()
    } else {
        match receiver::command(buffered(events.drop_last()), events.last()) {
            Some(command) => commands(events.drop_last()).push(command),
            None => commands(events.drop_last()),
        }
    }
}

/// One of `frames` ends the loop.
pub open spec fn ended(frames: Seq<Frame>) -> bool {
    exists|i: int|
        0 <= i < frames.len() && (#[trigger] frames[i] is Close || frames[i] is Failed
            || frames[i] is End)
}

/// The events that the loop hears in `frames`: those of the text messages before the
/// end.
pub open spec fn heard_in(frames: Seq<Frame>) -> Seq<EventView>
    decreases frames.len(),
{
    if frames.len() == 0 {
        Seq::empty()
    } else if ended(frames.drop_last()) {
        heard_in(frames.drop_last())
    } else {
        match frames.last() {
            Frame::Text(text) => heard_in(frames.drop_last()).push(event::heard(text@)),
            _ => heard_in(frames.drop_last()),
        }
    }
}

/// Runs the receive loop over `frames` with every delivery taken, and returns the
/// commands that were delivered with the loop as it then stands.
pub fn run(frames: &[Frame]) -> (r: (Vec<PlaybackCommand>, Receiver))
    ensures
        r.0@.map_values(|command: PlaybackCommand| command@) == commands(heard_in(frames@)),
        r.1.buffer() == buffered(heard_in(frames@)),
        r.1.phase() == if ended(frames@) {
            Phase::Stopped
        } else {
            Phase::Listening
        },
{
    let mut receiver: Receiver = Receiver::new();
    let mut delivered: Vec<PlaybackCommand> = Vec::new();
    let ghost seen = |command: PlaybackCommand| command@;
    let mut i: usize = 0;
    assert(delivered@.map_values(seen) =~= commands(heard_in(frames@.take(0))));
    while i < frames.len()
        invariant
            i <= frames@.len(),
            seen == (|command: PlaybackCommand| command@),
            delivered@.map_values(seen) == commands(heard_in(frames@.take(i as int))),
            receiver.buffer() == buffered(heard_in(frames@.take(i as int))),
            receiver.phase() == if ended(frames@.take(i as int)) {
                Phase::Stopped
            } else {
                Phase::Listening
            },
        decreases frames@.len() - i,
    {
        let ghost before = frames@.take(i as int);
        let ghost after = frames@.take(i + 1);
        let ghost handed = delivered@;
        proof {
            lemma_one_more(before, frames@[i as int]);
            assert(after =~= before.push(frames@[i as int]));
            assert(after.drop_last() =~= before);
        }
        if receiver.current_phase() == Phase::Listening {
            let frame: Frame = match &frames[i] {
                Frame::Text(text) => Frame::Text(text.clone()),
                Frame::Other => Frame::Other,
                Frame::Close => Frame::Close,
                Frame::Failed => Frame::Failed,
                Frame::End => Frame::End,
            };
            if let Action::Deliver(command) = receiver.on_frame(frame) {
                proof {
                    assert(handed.push(command).map_values(seen) =~= handed.map_values(seen).push(
                        command@,
                    ));
                }
                delivered.push(command);
                receiver.on_delivery(true);
            }
            proof {
                if frames@[i as int] is Text {
                    let heard = event::heard(frames@[i as int]->Text_0@);
                    assert(heard_in(after).drop_last() =~= heard_in(before));
                    assert(heard_in(after).last() == heard);
                }
            }
        }
        i = i + 1;
    }
    assert(frames@.take(i as int) =~= frames@);
    (delivered, receiver)
}

proof fn lemma_one_more(frames: Seq<Frame>, frame: Frame)
    ensures
        ended(frames.push(frame)) == (ended(frames) || frame is Close || frame is Failed
            || frame is End),
{
    let more = frames.push(frame);
    if ended(frames) {
        let i = choose|i: int|
            0 <= i < frames.len() && (#[trigger] frames[i] is Close || frames[i] is Failed
                || frames[i] is End);
        assert(more[i] == frames[i]);
    }
    assert(more[frames.len() as int] == frame);
    if ended(more) {
        let i = choose|i: int|
            0 <= i < more.len() && (#[trigger] more[i] is Close || more[i] is Failed
                || more[i] is End);
        if i < frames.len() {
            assert(more[i] == frames[i]);
        }
    }
}

/// The bytes of all audio events.
pub open spec fn spoken(events: Seq<EventView>) -> Seq<u8>
    decreases events.len(),
{
    if events.len() == 0 {
        Seq::empty()
    } else {
        match events.last() {
            EventView::Audio(data) => spoken(events.drop_last()) + data,
            _ => spoken(events.drop_last()),
        }
    }
}

/// The bytes of all TTS responses.
pub open spec fn played(commands: Seq<PlaybackView>) -> Seq<u8>
    decreases commands.len(),
{
    if commands.len() == 0 {
        Seq::empty()
    } else {
        match commands.last() {
            PlaybackView::PlayTts(data) => played(commands.drop_last()) + data,
            _ => played(commands.drop_last()),
        }
    }
}

/// The hold commands among `commands`.
pub open spec fn holds(commands: Seq<PlaybackView>) -> Seq<PlaybackView>
    decreases commands.len(),
{
    if commands.len() == 0 {
        Seq::empty()
    } else {
        match commands.last() {
            PlaybackView::PlayTts(_) => holds(commands.drop_last()),
            command => holds(commands.drop_last()).push(command),
        }
    }
}

/// The hold commands that `events` ask for.
pub open spec fn holds_asked(events: Seq<EventView>) -> Seq<PlaybackView>
    decreases events.len(),
{
    if events.len() == 0 {
        Seq::empty()
    } else {
        match events.last() {
            EventView::HoldStart => holds_asked(events.drop_last()).push(PlaybackView::HoldStart),
            EventView::HoldStop => holds_asked(events.drop_last()).push(PlaybackView::HoldStop),
            _ => holds_asked(events.drop_last()),
        }
    }
}

/// Every byte that voice-echo sends is played once and in order, or still waits for
/// a mark.
pub proof fn lemma_nothing_lost(events: Seq<EventView>)
    ensures
        played(commands(events)) + buffered(events) == spoken(events),
    decreases events.len(),
{
    if events.len() > 0 {
        let before = events.drop_last();
        lemma_nothing_lost(before);
        match receiver::command(buffered(before), events.last()) {
            Some(command) => {
                assert(commands(events).drop_last() =~= commands(before));
            },
            None => {},
        }
        assert(played(commands(events)) + buffered(events) =~= spoken(events));
    }
}

/// Hold music starts and stops exactly when voice-echo asks for it, and in that
/// order.
pub proof fn lemma_holds_follow(events: Seq<EventView>)
    ensures
        holds(commands(events)) == holds_asked(events),
    decreases events.len(),
{
    if events.len() > 0 {
        let before = events.drop_last();
        lemma_holds_follow(before);
        match receiver::command(buffered(before), events.last()) {
            Some(command) => {
                assert(commands(events).drop_last() =~= commands(before));
            },
            None => {},
        }
    }
}

/// A response is never empty.
pub proof fn lemma_responses_have_audio(events: Seq<EventView>, i: int)
    requires
        0 <= i < commands(events).len(),
        commands(events)[i] is PlayTts,
    ensures
        commands(events)[i]->PlayTts_0.len() > 0,
    decreases events.len(),
{
    let before = events.drop_last();
    if i < commands(before).len() {
        lemma_responses_have_audio(before, i);
    }
}

/// A response is all the audio since the mark before it, whatever other events
/// come between, and leaves nothing behind.
pub proof fn lemma_response(before: Seq<EventView>, events: Seq<EventView>)
    requires
        before.len() == 0 || before.last() == EventView::Mark,
        forall|i: int| 0 <= i < events.len() ==> #[trigger] events[i] != EventView::Mark,
    ensures
        buffered(before + events) == spoken(events),
        spoken(events).len() > 0 ==> commands((before + events).push(EventView::Mark)) == commands(
            before + events,
        ).push(PlaybackView::PlayTts(spoken(events))),
        spoken(events).len() == 0 ==> commands((before + events).push(EventView::Mark))
            == commands(before + events),
        buffered((before + events).push(EventView::Mark)) == Seq::<u8>::empty(),
    decreases events.len(),
{
    let all = before + events;
    if events.len() > 0 {
        let fewer = events.drop_last();
        assert forall|i: int| 0 <= i < fewer.len() implies #[trigger] fewer[i] != EventView::Mark by {
            assert(fewer[i] == events[i]);
        }
        lemma_response(before, fewer);
        assert(all.drop_last() =~= before + fewer);
        assert(events[events.len() - 1] != EventView::Mark);
    } else {
        assert(all =~= before);
    }
    assert(all.push(EventView::Mark).drop_last() =~= all);
}

/// The TTS responses among `commands`.
pub open spec fn responses(commands: Seq<PlaybackView>) -> Seq<PlaybackView>
    decreases commands.len(),
{
    if commands.len() == 0 {
        Seq::empty()
    } else {
        match commands.last() {
            PlaybackView::PlayTts(_) => responses(commands.drop_last()).push(commands.last()),
            _ => responses(commands.drop_last()),
        }
    }
}

/// `events` without those that ask for hold music to start or stop.
pub open spec fn without_holds(events: Seq<EventView>) -> Seq<EventView>
    decreases events.len(),
{
    if events.len() == 0 {
        Seq::empty()
    } else {
        match events.last() {
            EventView::HoldStart | EventView::HoldStop => without_holds(events.drop_last()),
            event => without_holds(events.drop_last()).push(event),
        }
    }
}

/// An ignored message changes nothing, wherever it comes.
pub proof fn lemma_ignored_changes_nothing(
    before: Seq<EventView>,
    reason: Reason,
    after: Seq<EventView>,
)
    ensures
        commands(before.push(EventView::Ignored(reason)) + after) == commands(before + after),
        buffered(before.push(EventView::Ignored(reason)) + after) == buffered(before + after),
    decreases after.len(),
{
    let with = before.push(EventView::Ignored(reason));
    if after.len() > 0 {
        let fewer = after.drop_last();
        lemma_ignored_changes_nothing(before, reason, fewer);
        assert((with + after).drop_last() =~= with + fewer);
        assert((before + after).drop_last() =~= before + fewer);
    } else {
        assert(with + after =~= with);
        assert(before + after =~= before);
        assert(with.drop_last() =~= before);
    }
}

/// Leaving out the hold events leaves every response, and what waits for a mark, as
/// it was.
pub proof fn lemma_holds_leave_responses(events: Seq<EventView>)
    ensures
        responses(commands(without_holds(events))) == responses(commands(events)),
        buffered(without_holds(events)) == buffered(events),
    decreases events.len(),
{
    if events.len() > 0 {
        let before = events.drop_last();
        lemma_holds_leave_responses(before);
        if receiver::command(buffered(before), events.last()) is Some {
            assert(commands(events).drop_last() =~= commands(before));
        }
        if !(events.last() is HoldStart || events.last() is HoldStop) {
            let kept = without_holds(before);
            assert(without_holds(events).drop_last() =~= kept);
            if receiver::command(buffered(kept), events.last()) is Some {
                assert(commands(without_holds(events)).drop_last() =~= commands(kept));
            }
        }
    }
}

/// A session goes on one event at a time.
pub proof fn lemma_next_event(events: Seq<EventView>, event: EventView)
    ensures
        buffered(Seq::empty()) == Seq::<u8>::empty(),
        commands(Seq::empty()) == Seq::<PlaybackView>::empty(),
        buffered(events.push(event)) == receiver::kept(buffered(events), event),
        commands(events.push(event)) == commands(events) + (match receiver::command(
            buffered(events),
            event,
        ) {
            Some(command) => seq![command],
            None => Seq::empty(),
        }),
{
    assert(events.push(event).drop_last() =~= events);
    assert(commands(events) + Seq::<PlaybackView>::empty() =~= commands(events));
    assert(forall|command: PlaybackView| #[trigger] commands(events).push(command) =~= commands(
        events,
    ) + seq![command]);
}

/// A frame is heard unless one before it ended the session, and only text is an event.
pub proof fn lemma_next_frame(frames: Seq<Frame>, frame: Frame)
    ensures
        heard_in(Seq::empty()) == Seq::<EventView>::empty(),
        !ended(Seq::empty()),
        ended(frames.push(frame)) <==> ended(frames) || frame is Close || frame is Failed
            || frame is End,
        ended(frames) || !(frame is Text) ==> heard_in(frames.push(frame)) == heard_in(frames),
        !ended(frames) ==> (frame matches Frame::Text(text) ==> heard_in(frames.push(frame))
            == heard_in(frames).push(event::heard(text@))),
{
    lemma_one_more(frames, frame);
    assert(frames.push(frame).drop_last() =~= frames);
}

} // verus!
