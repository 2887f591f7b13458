//! Messages to voice-echo.
use crate::bridge::event;
use crate::codec::{encode_mulaw, resample_linear};
use crate::codec::{mulaw, rates, resample};
use crate::decimal;
use crate::encoding;
use crate::json;
use crate::json::Members;
use vstd::prelude::*;

verus! {

/// The members of an audio message. A known speaker is named by the decimal text of
/// the user ID.
pub open spec fn audio_fields(audio: Seq<char>, ssrc: u32, user_id: Option<u64>) -> Seq<Seq<char>> {
    let audio_field = json::text_field("audio"@, audio);
    let type_field = json::text_field("type"@, "audio"@);
    let ssrc_field = json::number_field("user_ssrc"@, ssrc);
    match user_id {
        Some(id) => seq![
            audio_field,
            type_field,
            json::text_field("user_id"@, decimal::digits(id as nat)),
            ssrc_field,
        ],
        None => seq![audio_field, type_field, ssrc_field],
    }
}

/// The members of a join message.
pub open spec fn join_fields(
    guild_id: Seq<char>,
    channel_id: Seq<char>,
    user_id: Seq<char>,
) -> Seq<Seq<char>> {
    seq![
        json::text_field("channel_id"@, channel_id),
        json::text_field("guild_id"@, guild_id),
        json::text_field("type"@, "join"@),
        json::text_field("user_id"@, user_id),
    ]
}

/// The text members of an audio message by name.
pub open spec fn audio_texts(audio: Seq<char>, user_id: Option<u64>) -> Map<Seq<char>, Seq<char>> {
    let texts = map!["audio"@ => audio, "type"@ => "audio"@];
    match user_id {
        Some(id) => texts.insert("user_id"@, decimal::digits(id as nat)),
        None => texts,
    }
}

/// The text members of a join message by name.
pub open spec fn join_texts(
    guild_id: Seq<char>,
    channel_id: Seq<char>,
    user_id: Seq<char>,
) -> Map<Seq<char>, Seq<char>> {
    map![
        "channel_id"@ => channel_id,
        "guild_id"@ => guild_id,
        "type"@ => "join"@,
        "user_id"@ => user_id,
    ]
}

/// The names of members in their order.
proof fn lemma_names_in_order()
    ensures
        json::before("audio"@, "type"@),
        json::before("audio"@, "user_id"@),
        json::before("audio"@, "user_ssrc"@),
        json::before("channel_id"@, "guild_id"@),
        json::before("channel_id"@, "type"@),
        json::before("channel_id"@, "user_id"@),
        json::before("guild_id"@, "type"@),
        json::before("guild_id"@, "user_id"@),
        json::before("type"@, "user_id"@),
        json::before("type"@, "user_ssrc"@),
        json::before("user_id"@, "user_ssrc"@),
{
    reveal_strlit("audio");
    reveal_strlit("channel_id");
    reveal_strlit("guild_id");
    reveal_strlit("type");
    reveal_strlit("user_id");
    reveal_strlit("user_ssrc");
    assert("audio"@.take(0) =~= "type"@.take(0));
    assert("audio"@.take(0) =~= "user_id"@.take(0));
    assert("audio"@.take(0) =~= "user_ssrc"@.take(0));
    assert("channel_id"@.take(0) =~= "guild_id"@.take(0));
    assert("channel_id"@.take(0) =~= "type"@.take(0));
    assert("channel_id"@.take(0) =~= "user_id"@.take(0));
    assert("guild_id"@.take(0) =~= "type"@.take(0));
    assert("guild_id"@.take(0) =~= "user_id"@.take(0));
    assert("type"@.take(0) =~= "user_id"@.take(0));
    assert("type"@.take(0) =~= "user_ssrc"@.take(0));
    assert("user_id"@.take(5) =~= "user_ssrc"@.take(5));
}

/// The members of an audio message whose base64 text is `audio`.
pub fn audio_members(audio: String, ssrc: u32, user_id: Option<u64>) -> (r: Members)
    ensures
        r.fields() == audio_fields(audio@, ssrc, user_id),
        r.ordered(),
        json::text_map(r.texts@) == audio_texts(audio@, user_id),
        r.numbers@.len() == 1,
        r.numbers@[0].0@ == "user_ssrc"@ && r.numbers@[0].1 == ssrc,
        r.texts@.len() == if user_id is Some {
            3int
        } else {
            2
        },
        r.texts@[0].0@ == "audio"@ && r.texts@[0].1@ == audio@,
        r.texts@[1].0@ == "type"@ && r.texts@[1].1@ == "audio"@,
        user_id matches Some(id) ==> r.texts@[2].0@ == "user_id"@ && r.texts@[2].1@
            == decimal::digits(id as nat),
{
    let mut texts: Vec<(String, String)> = Vec::new();
    texts.push(("audio".to_owned(), audio));
    texts.push(("type".to_owned(), "audio".to_owned()));
    if let Some(id) = user_id {
        texts.push(("user_id".to_owned(), decimal::decimal(id)));
    }
    let mut numbers: Vec<(String, u32)> = Vec::new();
    numbers.push(("user_ssrc".to_owned(), ssrc));
    let members = Members { texts, numbers };
    proof {
        lemma_names_in_order();
        reveal_with_fuel(json::text_map, 4);
        assert(members.fields() =~= audio_fields(audio@, ssrc, user_id));
    }
    members
}

/// The members of a join message.
pub fn join_members(guild_id: &str, channel_id: &str, user_id: &str) -> (r: Members)
    ensures
        r.fields() == join_fields(guild_id@, channel_id@, user_id@),
        r.ordered(),
        json::text_map(r.texts@) == join_texts(guild_id@, channel_id@, user_id@),
        r.numbers@.len() == 0,
        r.texts@.len() == 4,
        r.texts@[0].0@ == "channel_id"@ && r.texts@[0].1@ == channel_id@,
        r.texts@[1].0@ == "guild_id"@ && r.texts@[1].1@ == guild_id@,
        r.texts@[2].0@ == "type"@ && r.texts@[2].1@ == "join"@,
        r.texts@[3].0@ == "user_id"@ && r.texts@[3].1@ == user_id@,
{
    let mut texts: Vec<(String, String)> = Vec::new();
    texts.push(("channel_id".to_owned(), channel_id.to_owned()));
    texts.push(("guild_id".to_owned(), guild_id.to_owned()));
    texts.push(("type".to_owned(), "join".to_owned()));
    texts.push(("user_id".to_owned(), user_id.to_owned()));
    let members = Members { texts, numbers: Vec::new() };
    proof {
        lemma_names_in_order();
        reveal_with_fuel(json::text_map, 5);
        assert(members.fields() =~= join_fields(guild_id@, channel_id@, user_id@));
    }
    members
}

/// Encode a mu-law audio chunk as a JSON message for voice-echo.
///
/// Read as an event, the message carries the same bytes.
pub fn audio_message(mulaw: &[u8], ssrc: u32, user_id: Option<u64>) -> (r: String)
    requires
        encoding::base64_len(mulaw@.len() as int) <= isize::MAX,
    ensures
        r@ == json::object(audio_fields(encoding::base64_text(mulaw@), ssrc, user_id)),
        json::json_read(r@) == Some(audio_texts(encoding::base64_text(mulaw@), user_id)),
        event::heard(r@) == event::EventView::Audio(mulaw@),
{
    let audio: String = encoding::encode(mulaw);
    let members: Members = audio_members(audio, ssrc, user_id);
    proof {
        encoding::lemma_base64_read_back(mulaw@);
        reveal_strlit("audio");
        reveal_strlit("type");
        reveal_strlit("user_id");
        assert("audio"@.len() == 5 && "type"@.len() == 4 && "user_id"@.len() == 7);
    }
    json::object_text(&members)
}

/// The mu-law bytes at the bridge's rate of what a user said.
pub open spec fn user_audio(pcm_48k_mono: Seq<i16>) -> Seq<u8> {
    mulaw::encoded_all(
        resample::resampled(pcm_48k_mono, rates::CHANNEL_RATE, rates::BRIDGE_RATE),
    )
}

/// Encode user audio (mono 48kHz) for voice-echo (mu-law 8kHz).
///
/// Resamples 48kHz → 8kHz, encodes to mu-law, returns the JSON message string.
pub fn encode_user_audio(pcm_48k_mono: &[i16], ssrc: u32, user_id: Option<u64>) -> (r: String)
    ensures
        r@ == json::object(
            audio_fields(encoding::base64_text(user_audio(pcm_48k_mono@)), ssrc, user_id),
        ),
        json::json_read(r@) == Some(
            audio_texts(encoding::base64_text(user_audio(pcm_48k_mono@)), user_id),
        ),
        event::heard(r@) == event::EventView::Audio(user_audio(pcm_48k_mono@)),
{
    proof {
        rates::lemma_downsampling_fits(pcm_48k_mono.len());
    }
    let pcm_8k: Vec<i16> = resample_linear(
        pcm_48k_mono,
        rates::CHANNEL_RATE,
        rates::BRIDGE_RATE,
    );
    let mulaw: Vec<u8> = encode_mulaw(pcm_8k.as_slice());
    audio_message(mulaw.as_slice(), ssrc, user_id)
}

/// The message that tells voice-echo which user joined which channel.
pub fn join_message(guild_id: &str, channel_id: &str, user_id: &str) -> (r: String)
    ensures
        r@ == json::object(join_fields(guild_id@, channel_id@, user_id@)),
        json::json_read(r@) == Some(join_texts(guild_id@, channel_id@, user_id@)),
{
    let members: Members = join_members(guild_id, channel_id, user_id);
    json::object_text(&members)
}

/// The texts of an audio message stand between its quotes as they are.
pub proof fn lemma_audio_texts_are_plain(mulaw: Seq<u8>, user_id: u64)
    ensures
        json::escaped(encoding::base64_text(mulaw)) == encoding::base64_text(mulaw),
        json::escaped(decimal::digits(user_id as nat)) == decimal::digits(user_id as nat),
{
    let audio = encoding::base64_text(mulaw);
    assert forall|i: int| 0 <= i < audio.len() implies ' ' <= #[trigger] audio[i] && audio[i] != '"'
        && audio[i] != '\\' by {
        encoding::lemma_base64_symbols(mulaw, i);
    }
    json::lemma_plain(audio);
    decimal::lemma_digits_read_back(user_id as nat);
    json::lemma_plain(decimal::digits(user_id as nat));
}

/// The names and the types of members stand between quotes as they are.
proof fn lemma_names_are_plain()
    ensures
        json::escaped("audio"@) == "audio"@,
        json::escaped("join"@) == "join"@,
        json::escaped("type"@) == "type"@,
        json::escaped("channel_id"@) == "channel_id"@,
        json::escaped("guild_id"@) == "guild_id"@,
        json::escaped("user_id"@) == "user_id"@,
        json::escaped("user_ssrc"@) == "user_ssrc"@,
{
    reveal_strlit("audio");
    reveal_strlit("join");
    reveal_strlit("type");
    reveal_strlit("channel_id");
    reveal_strlit("guild_id");
    reveal_strlit("user_id");
    reveal_strlit("user_ssrc");
    json::lemma_plain("audio"@);
    json::lemma_plain("join"@);
    json::lemma_plain("type"@);
    json::lemma_plain("channel_id"@);
    json::lemma_plain("guild_id"@);
    json::lemma_plain("user_id"@);
    json::lemma_plain("user_ssrc"@);
}

/// A text member whose text needs no escapes.
proof fn lemma_plain_field(name: Seq<char>, text: Seq<char>)
    requires
        json::escaped(name) == name,
        json::escaped(text) == text,
    ensures
        json::text_field(name, text) == seq!['"'] + name + seq!['"', ':', '"'] + text + seq!['"'],
{
    assert(json::text_field(name, text) =~= seq!['"'] + name + seq!['"', ':', '"'] + text
        + seq!['"']);
}

proof fn lemma_three_fields(audio: Seq<char>, kind: Seq<char>, name: Seq<char>, number: Seq<char>)
    ensures
        seq!['{'] + json::joined(seq![audio, kind, name + number]) + seq!['}'] == (seq!['{'] + audio)
            + (seq![','] + kind) + (seq![','] + name) + number + seq!['}'],
{
    let fields = seq![audio, kind, name + number];
    reveal_with_fuel(json::joined, 3);
    assert(fields.drop_last() =~= seq![audio, kind]);
    assert(seq![audio, kind].drop_last() =~= seq![audio]);
    assert(json::joined(fields) =~= audio + seq![','] + kind + seq![','] + (name + number));
    assert(seq!['{'] + json::joined(fields) + seq!['}'] =~= (seq!['{'] + audio) + (seq![','] + kind)
        + (seq![','] + name) + number + seq!['}']);
}

proof fn lemma_four_fields(
    audio: Seq<char>,
    kind: Seq<char>,
    user: Seq<char>,
    name: Seq<char>,
    number: Seq<char>,
)
    ensures
        seq!['{'] + json::joined(seq![audio, kind, user, name + number]) + seq!['}'] == (seq!['{']
            + audio) + (seq![','] + kind) + (seq![','] + user) + (seq![','] + name) + number
            + seq!['}'],
{
    let fields = seq![audio, kind, user, name + number];
    let fewer = seq![audio, kind, user];
    reveal_with_fuel(json::joined, 3);
    assert(fields.drop_last() =~= fewer);
    assert(fewer.drop_last() =~= seq![audio, kind]);
    assert(seq![audio, kind].drop_last() =~= seq![audio]);
    assert(json::joined(fewer) =~= audio + seq![','] + kind + seq![','] + user);
    assert(seq!['{'] + json::joined(fields) + seq!['}'] =~= (seq!['{'] + audio) + (seq![','] + kind)
        + (seq![','] + user) + (seq![','] + name) + number + seq!['}']);
}

/// The text of an audio message, for every SSRC and whether or not the speaker is known.
pub proof fn lemma_audio_message_text(mulaw: Seq<u8>, ssrc: u32, user_id: Option<u64>)
    ensures
        json::object(audio_fields(encoding::base64_text(mulaw), ssrc, user_id)) == (
        "{\"audio\":\""@ + encoding::base64_text(mulaw) + "\""@) + ",\"type\":\"audio\""@ + (
        match user_id {
            Some(id) => ",\"user_id\":\""@ + decimal::digits(id as nat) + "\""@,
            None => Seq::empty(),
        }) + ",\"user_ssrc\":"@ + decimal::digits(ssrc as nat) + "}"@,
{
    let audio = encoding::base64_text(mulaw);
    let number = decimal::digits(ssrc as nat);
    lemma_names_are_plain();
    lemma_audio_texts_are_plain(mulaw, user_id.unwrap_or(0));
    lemma_plain_field("audio"@, audio);
    lemma_plain_field("type"@, "audio"@);
    let first = json::text_field("audio"@, audio);
    let kind = json::text_field("type"@, "audio"@);
    let name = seq!['"'] + "user_ssrc"@ + seq!['"', ':'];
    assert(json::number_field("user_ssrc"@, ssrc) =~= name + number);
    assert(seq!['{'] + first =~= "{\"audio\":\""@ + audio + "\""@) by {
        reveal_strlit("audio");
        reveal_strlit("{\"audio\":\"");
        reveal_strlit("\"");
    }
    assert(seq![','] + kind =~= ",\"type\":\"audio\""@) by {
        reveal_strlit("audio");
        reveal_strlit("type");
        reveal_strlit(",\"type\":\"audio\"");
    }
    assert(seq![','] + name =~= ",\"user_ssrc\":"@) by {
        reveal_strlit("user_ssrc");
        reveal_strlit(",\"user_ssrc\":");
    }
    assert("}"@ =~= seq!['}']) by {
        reveal_strlit("}");
    }
    match user_id {
        Some(id) => {
            let digits = decimal::digits(id as nat);
            lemma_plain_field("user_id"@, digits);
            let user = json::text_field("user_id"@, digits);
            assert(seq![','] + user =~= ",\"user_id\":\""@ + digits + "\""@) by {
                reveal_strlit("user_id");
                reveal_strlit(",\"user_id\":\"");
                reveal_strlit("\"");
            }
            lemma_four_fields(first, kind, user, name, number);
        },
        None => {
            lemma_three_fields(first, kind, name, number);
            let start = (seq!['{'] + first) + (seq![','] + kind);
            assert(start + Seq::<char>::empty() =~= start);
        },
    }
}

/// Messages of two different SSRCs differ.
pub proof fn lemma_ssrcs_tell_messages_apart(
    mulaw: Seq<u8>,
    first: u32,
    second: u32,
    user_id: Option<u64>,
)
    requires
        first != second,
    ensures
        json::object(audio_fields(encoding::base64_text(mulaw), first, user_id)) != json::object(
            audio_fields(encoding::base64_text(mulaw), second, user_id),
        ),
{
    let (x, y) = (
        json::object(audio_fields(encoding::base64_text(mulaw), first, user_id)),
        json::object(audio_fields(encoding::base64_text(mulaw), second, user_id)),
    );
    let (d, e) = (decimal::digits(first as nat), decimal::digits(second as nat));
    lemma_audio_message_text(mulaw, first, user_id);
    lemma_audio_message_text(mulaw, second, user_id);
    decimal::lemma_digits_read_back(first as nat);
    decimal::lemma_digits_read_back(second as nat);
    reveal_strlit("}");
    let start = ("{\"audio\":\""@ + encoding::base64_text(mulaw) + "\""@)
        + ",\"type\":\"audio\""@ + (match user_id {
        Some(id) => ",\"user_id\":\""@ + decimal::digits(id as nat) + "\""@,
        None => Seq::empty(),
    }) + ",\"user_ssrc\":"@;
    if x == y {
        let n = start.len() as int;
        assert(d =~= x.subrange(n, x.len() - 1));
        assert(e =~= y.subrange(n, y.len() - 1));
    }
}

/// The text of a join message.
pub proof fn lemma_join_message_text(guild_id: Seq<char>, channel_id: Seq<char>, user_id: Seq<char>)
    ensures
        json::object(join_fields(guild_id, channel_id, user_id)) == "{\"channel_id\":"@
            + json::quoted(channel_id) + ",\"guild_id\":"@ + json::quoted(guild_id)
            + ",\"type\":\"join\",\"user_id\":"@ + json::quoted(user_id) + "}"@,
{
    lemma_names_are_plain();
    let (c, g, u) = (json::quoted(channel_id), json::quoted(guild_id), json::quoted(user_id));
    let fields = join_fields(guild_id, channel_id, user_id);
    let fewer = fields.drop_last();
    reveal_with_fuel(json::joined, 3);
    assert(fewer.drop_last() =~= seq![fields[0], fields[1]]);
    assert(seq![fields[0], fields[1]].drop_last() =~= seq![fields[0]]);
    let pair = fields[0] + seq![','] + fields[1];
    assert(json::joined(seq![fields[0], fields[1]]) =~= pair);
    assert(json::joined(fewer) =~= pair + seq![','] + fields[2]);
    assert(seq!['{'] + fields[0] =~= "{\"channel_id\":"@ + c) by {
        reveal_strlit("channel_id");
        reveal_strlit("{\"channel_id\":");
    }
    assert(seq![','] + fields[1] =~= ",\"guild_id\":"@ + g) by {
        reveal_strlit("guild_id");
        reveal_strlit(",\"guild_id\":");
    }
    let middle = seq![','] + fields[2] + seq![','];
    assert(json::joined(fields) =~= pair + middle + fields[3]);
    assert(middle + fields[3] =~= ",\"type\":\"join\",\"user_id\":"@ + u) by {
        reveal_strlit("type");
        reveal_strlit("join");
        reveal_strlit("user_id");
        reveal_strlit(",\"type\":\"join\",\"user_id\":");
    }
    assert("}"@ =~= seq!['}']) by {
        reveal_strlit("}");
    }
    lemma_join_assembled(fields[0], fields[1], middle, fields[3]);
    lemma_join_regrouped("{\"channel_id\":"@, c, ",\"guild_id\":"@, g, ",\"type\":\"join\",\"user_id\":"@, u);
}

proof fn lemma_join_assembled(a: Seq<char>, b: Seq<char>, middle: Seq<char>, d: Seq<char>)
    ensures
        seq!['{'] + (a + seq![','] + b + middle + d) + seq!['}'] == (seq!['{'] + a) + (seq![',']
            + b) + (middle + d) + seq!['}'],
{
    assert(seq!['{'] + (a + seq![','] + b + middle + d) + seq!['}'] =~= (seq!['{'] + a) + (
    seq![','] + b) + (middle + d) + seq!['}']);
}

proof fn lemma_join_regrouped(
    a: Seq<char>,
    c: Seq<char>,
    b: Seq<char>,
    g: Seq<char>,
    m: Seq<char>,
    u: Seq<char>,
)
    ensures
        (a + c) + (b + g) + (m + u) + seq!['}'] == a + c + b + g + m + u + seq!['}'],
{
    assert((a + c) + (b + g) + (m + u) + seq!['}'] =~= a + c + b + g + m + u + seq!['}']);
}

} // verus!
