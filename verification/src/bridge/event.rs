//! Events that voice-echo sends over the bridge.
use crate::encoding;
use crate::json;
use vstd::prelude::*;

verus! {

/// Why a message asks for nothing.
#[derive(Clone, Copy, PartialEq, Eq, Structural, Debug)]
pub enum Reason {
    /// It is not JSON.
    NotJson,
    /// It announces audio and has no text for it.
    NoAudio,
    /// Its audio is not base64.
    BadAudio,
    /// Its type is none that the bridge handles.
    Unhandled,
}

/// What a message from voice-echo asks for.
pub enum Event {
    /// More mu-law bytes of a TTS response.
    Audio(Vec<u8>),
    /// The TTS response is complete.
    Mark,
    /// Start hold music.
    HoldStart,
    /// Stop hold music.
    HoldStop,
    /// Nothing that the bridge handles.
    Ignored(Reason),
}

/// An event with its bytes as a sequence.
pub enum EventView {
    Audio(Seq<u8>),
    Mark,
    HoldStart,
    HoldStop,
    Ignored(Reason),
}

impl View for Event {
    type V = EventView;

    open spec fn view(&self) -> EventView {
        match *self {
            Event::Audio(data) => EventView::Audio(data@),
            Event::Mark => EventView::Mark,
            Event::HoldStart => EventView::HoldStart,
            Event::HoldStop => EventView::HoldStop,
            Event::Ignored(reason) => EventView::Ignored(reason),
        }
    }
}

/// The event of a message whose `type` member is `kind` and whose `audio` member, if
/// it has one, is `audio`: what base64 reads from it, if anything.
pub open spec fn event(kind: Option<Seq<char>>, audio: Option<Option<Seq<u8>>>) -> EventView {
    if kind == Some("audio"@) {
        match audio {
            Some(Some(data)) => EventView::Audio(data),
            Some(None) => EventView::Ignored(Reason::BadAudio),
            None => EventView::Ignored(Reason::NoAudio),
        }
    } else if kind == Some("mark"@) {
        EventView::Mark
    } else if kind == Some("hold_start"@) {
        EventView::HoldStart
    } else if kind == Some("hold_stop"@) {
        EventView::HoldStop
    } else {
        EventView::Ignored(Reason::Unhandled)
    }
}

pub open spec fn member(texts: Map<Seq<char>, Seq<char>>, name: Seq<char>) -> Option<Seq<char>> {
    if texts.contains_key(name) {
        Some(texts[name])
    } else {
        None
    }
}

/// The `audio` member, if there is one: what base64 reads from it, if anything.
pub open spec fn audio_member(texts: Map<Seq<char>, Seq<char>>) -> Option<Option<Seq<u8>>> {
    match member(texts, "audio"@) {
        Some(text) => Some(encoding::base64_read(text)),
        None => None,
    }
}

/// The event that the message `text` stands for.
pub open spec fn heard(text: Seq<char>) -> EventView {
    match json::json_read(text) {
        Some(texts) => event(member(texts, "type"@), audio_member(texts)),
        None => EventView::Ignored(Reason::NotJson),
    }
}

/// The event of a message with the given `type` member and decoded `audio` member.
pub fn event_of(kind: Option<String>, audio: Option<Result<Vec<u8>, base64::DecodeError>>) -> (r:
    Event)
    ensures
        r@ == event(
            match kind {
                Some(text) => Some(text@),
                None => None,
            },
            match audio {
                Some(Ok(data)) => Some(Some(data@)),
                Some(Err(_)) => Some(None),
                None => None,
            },
        ),
{
    match kind {
        None => Event::Ignored(Reason::Unhandled),
        Some(text) => if text == "audio".to_owned() {
            match audio {
                Some(Ok(data)) => Event::Audio(data),
                Some(Err(_)) => Event::Ignored(Reason::BadAudio),
                None => Event::Ignored(Reason::NoAudio),
            }
        } else if text == "mark".to_owned() {
            Event::Mark
        } else if text == "hold_start".to_owned() {
            Event::HoldStart
        } else if text == "hold_stop".to_owned() {
            Event::HoldStop
        } else {
            Event::Ignored(Reason::Unhandled)
        },
    }
}

/// The event that the message `text` stands for.
pub fn read_event(text: &str) -> (r: Event)
    ensures
        r@ == heard(text@),
{
    match json::parse(text) {
        Err(_) => Event::Ignored(Reason::NotJson),
        Ok(value) => {
            let kind: Option<String> = json::text_member(&value, "type");
            let audio: Option<Result<Vec<u8>, base64::DecodeError>> = match json::text_member(
                &value,
                "audio",
            ) {
                None => None,
                Some(encoded) => {
                    let decoded: Result<Vec<u8>, base64::DecodeError> = encoding::decode(
                        encoded.as_str(),
                    );
                    proof {
                        if decoded is Ok {
                            encoding::lemma_base64_read_back(decoded->Ok_0@);
                        }
                    }
                    Some(decoded)
                },
            };
            event_of(kind, audio)
        },
    }
}

/// What a message asks for, by its `type` and `audio` members: audio whose text is the
/// base64 text of some bytes carries these bytes, and what is none of the four types
/// asks for nothing.
pub proof fn lemma_heard(text: Seq<char>, texts: Map<Seq<char>, Seq<char>>, data: Seq<u8>)
    ensures
        json::json_read(text) is None ==> heard(text) == EventView::Ignored(Reason::NotJson),
        json::json_read(text) == Some(texts) ==> {
            let typed = texts.contains_key("type"@);
            let kind = texts["type"@];
            let audio = texts["audio"@];
            &&& typed && kind == "mark"@ ==> heard(text) == EventView::Mark
            &&& typed && kind == "hold_start"@ ==> heard(text) == EventView::HoldStart
            &&& typed && kind == "hold_stop"@ ==> heard(text) == EventView::HoldStop
            &&& typed && kind == "audio"@ && !texts.contains_key("audio"@) ==> heard(text)
                == EventView::Ignored(Reason::NoAudio)
            &&& typed && kind == "audio"@ && texts.contains_key("audio"@) && audio
                == encoding::base64_text(data) ==> heard(text) == EventView::Audio(data)
            &&& typed && kind == "audio"@ && texts.contains_key("audio"@) && (forall|other: Seq<u8>|
                #[trigger] encoding::base64_text(other) != audio) ==> heard(text)
                == EventView::Ignored(Reason::BadAudio)
            &&& !typed || (kind != "mark"@ && kind != "hold_start"@ && kind != "hold_stop"@ && kind
                != "audio"@) ==> heard(text) == EventView::Ignored(Reason::Unhandled)
        },
{
    encoding::lemma_base64_read_back(data);
    reveal_strlit("audio");
    reveal_strlit("mark");
    reveal_strlit("hold_start");
    reveal_strlit("hold_stop");
    assert("audio"@.len() == 5 && "mark"@.len() == 4);
    assert("hold_start"@.len() == 10 && "hold_stop"@.len() == 9);
}

/// The bytes of an event are those that it holds.
pub proof fn lemma_event_bytes(data: Vec<u8>)
    ensures
        Event::Audio(data)@ == EventView::Audio(data@),
{
}

} // verus!
