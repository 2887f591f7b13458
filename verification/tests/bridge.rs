use discord_voice_echo::bridge::{
    audio_members, audio_message, decode_tts_for_playback, encode_user_audio, event_of,
    is_playable, join_members, join_message, read_event, Action, Event, Frame, Phase,
    PlaybackCommand, Reason, Receiver,
};
use discord_voice_echo::bridge::session::run;
use discord_voice_echo::codec::{
    decode_mulaw, encode_mulaw, mono_i16_to_stereo_f32_bytes, mulaw_decode_sample,
    mulaw_encode_sample, resample_linear,
};
use discord_voice_echo::decimal::decimal;

#[test]
fn audio_message_text() {
    assert_eq!(
        audio_message(&[0xFF, 0x7F], 12345, Some(42)),
        r#"{"audio":"/38=","type":"audio","user_id":"42","user_ssrc":12345}"#
    );
    assert_eq!(
        audio_message(&[], u32::MAX, None),
        r#"{"audio":"","type":"audio","user_ssrc":4294967295}"#
    );
}

#[test]
fn audio_message_members() {
    let known = audio_members("AAAA".to_string(), 7, Some(u64::MAX));
    assert_eq!(
        known.texts,
        vec![
            ("audio".to_string(), "AAAA".to_string()),
            ("type".to_string(), "audio".to_string()),
            ("user_id".to_string(), "18446744073709551615".to_string()),
        ]
    );
    assert_eq!(known.numbers, vec![("user_ssrc".to_string(), 7)]);
    let unknown = audio_members("AAAA".to_string(), 7, None);
    assert_eq!(
        unknown.texts,
        vec![
            ("audio".to_string(), "AAAA".to_string()),
            ("type".to_string(), "audio".to_string()),
        ]
    );
    assert_eq!(unknown.numbers, vec![("user_ssrc".to_string(), 7)]);
}

#[test]
fn join_message_text() {
    assert_eq!(
        join_message("1", "2", "3"),
        r#"{"channel_id":"2","guild_id":"1","type":"join","user_id":"3"}"#
    );
    assert_eq!(
        join_message("a\"b", "\\", "\n"),
        r#"{"channel_id":"\\","guild_id":"a\"b","type":"join","user_id":"\n"}"#
    );
    assert_eq!(
        join_message("\u{1}\u{8}\u{c}\r\t\u{1f}\u{7f}/", "ä\u{1f600}", ""),
        "{\"channel_id\":\"ä\u{1f600}\",\"guild_id\":\"\\u0001\\b\\f\\r\\t\\u001f\u{7f}/\",\
         \"type\":\"join\",\"user_id\":\"\"}"
    );
    let members = join_members("1", "2", "3");
    assert_eq!(members.texts[1], ("guild_id".to_string(), "1".to_string()));
    assert_eq!(members.texts.len(), 4);
    assert!(members.numbers.is_empty());
}

#[test]
fn messages_parse_as_json() {
    let text = audio_message(&[1, 2, 3, 4], 99, Some(5));
    let value: serde_json::Value = serde_json::from_str(&text).unwrap();
    assert_eq!(value["type"].as_str(), Some("audio"));
    assert_eq!(value["audio"].as_str(), Some("AQIDBA=="));
    assert_eq!(value["user_id"].as_str(), Some("5"));
    assert_eq!(value["user_ssrc"].as_u64(), Some(99));
    assert_eq!(value.as_object().unwrap().len(), 4);
}

#[test]
fn decimal_text() {
    for n in [0, 1, 9, 10, 11, 99, 100, 12345, u64::MAX - 1, u64::MAX] {
        assert_eq!(decimal(n), n.to_string());
    }
}

#[test]
fn audio_messages_are_read_back() {
    for len in [0usize, 1, 2, 3, 160, 1000] {
        let mulaw: Vec<u8> = (0..len).map(|i| (i * 7) as u8).collect();
        let text = audio_message(&mulaw, 1, Some(2));
        assert!(matches!(read_event(&text), Event::Audio(data) if data == mulaw));
    }
}

#[test]
fn events_of_messages() {
    assert!(matches!(
        read_event(r#"{"type": "audio", "audio": "/38="}"#),
        Event::Audio(data) if data == vec![0xFF, 0x7F]
    ));
    assert!(matches!(read_event(r#"{"type": "mark"}"#), Event::Mark));
    assert!(matches!(read_event(r#"{"type":"hold_start"}"#), Event::HoldStart));
    assert!(matches!(read_event(r#"{"type":"hold_stop"}"#), Event::HoldStop));
    let ignored = [
        (Reason::NotJson, vec!["", "not json", r#"{"type":"mark"#]),
        (
            Reason::Unhandled,
            vec![
                "[]", "null", "\"mark\"", "{}", r#"{"type":"leave"}"#, r#"{"type":7}"#,
                r#"{"type":"Mark"}"#, r#"{"type":"join","guild_id":"1"}"#, r#"["type","mark"]"#,
            ],
        ),
        (Reason::NoAudio, vec![r#"{"type":"audio"}"#, r#"{"type":"audio","audio":3}"#]),
        (
            Reason::BadAudio,
            vec![
                r#"{"type":"audio","audio":"/38"}"#, r#"{"type":"audio","audio":"?"}"#,
                r#"{"type":"audio","audio":"/39="}"#,
            ],
        ),
    ];
    for (reason, texts) in ignored {
        for text in texts {
            assert!(matches!(read_event(text), Event::Ignored(r) if r == reason), "{text}");
        }
    }
}

#[test]
fn events_of_members() {
    let kind = |text: &str| Some(text.to_string());
    let bad = || Some(Err(base64::DecodeError::InvalidPadding));
    assert!(matches!(event_of(kind("audio"), Some(Ok(vec![1]))), Event::Audio(d) if d == vec![1]));
    assert!(matches!(event_of(kind("audio"), None), Event::Ignored(Reason::NoAudio)));
    assert!(matches!(event_of(kind("audio"), bad()), Event::Ignored(Reason::BadAudio)));
    assert!(matches!(event_of(kind("mark"), Some(Ok(vec![1]))), Event::Mark));
    assert!(matches!(event_of(kind("hold_start"), None), Event::HoldStart));
    assert!(matches!(event_of(kind("hold_stop"), bad()), Event::HoldStop));
    assert!(matches!(
        event_of(kind("other"), Some(Ok(vec![1]))),
        Event::Ignored(Reason::Unhandled)
    ));
    assert!(matches!(event_of(None, Some(Ok(vec![1]))), Event::Ignored(Reason::Unhandled)));
}

#[test]
fn user_audio_goes_out_as_mulaw() {
    let pcm: Vec<i16> = (0..960).map(|i| (i * 31 % 20011 - 10000) as i16).collect();
    let expected = encode_mulaw(&resample_linear(&pcm, 48000, 8000));
    assert_eq!(expected.len(), 160);
    assert_eq!(encode_user_audio(&pcm, 8, None), audio_message(&expected, 8, None));
    assert_eq!(
        encode_user_audio(&[0; 6], 3, Some(4)),
        r#"{"audio":"/w==","type":"audio","user_id":"4","user_ssrc":3}"#
    );
    assert_eq!(
        encode_user_audio(&[], 3, None),
        r#"{"audio":"","type":"audio","user_ssrc":3}"#
    );
}

#[test]
fn tts_becomes_playback_bytes() {
    let mulaw: Vec<u8> = (0..=255).collect();
    assert!(is_playable(&mulaw));
    let bytes = decode_tts_for_playback(&mulaw);
    assert_eq!(bytes.len(), 48 * 256);
    let samples = resample_linear(&decode_mulaw(&mulaw), 8000, 48000);
    assert_eq!(bytes, mono_i16_to_stereo_f32_bytes(&samples));
    for (j, &code) in mulaw.iter().enumerate() {
        assert_eq!(samples[6 * j], mulaw_decode_sample(code));
    }
    assert!(decode_tts_for_playback(&[]).is_empty());
}

#[test]
fn an_echo_stays_close() {
    let pcm: Vec<i16> = (0..600).map(|i| (i * 97 % 60001 - 30000) as i16).collect();
    let text = encode_user_audio(&pcm, 1, None);
    let mulaw = match read_event(&text) {
        Event::Audio(data) => data,
        _ => panic!("no audio"),
    };
    let samples = resample_linear(&decode_mulaw(&mulaw), 8000, 48000);
    assert_eq!(samples.len(), 600);
    for j in 0..100 {
        let said = pcm[6 * j];
        assert_eq!(samples[6 * j], mulaw_decode_sample(mulaw_encode_sample(said)));
        assert!((said as i32 - samples[6 * j] as i32).abs() < 1000);
    }
}

#[test]
fn sending_what_was_played_gives_the_bytes_back() {
    let mulaw: Vec<u8> = (0..=255).chain([0x7F, 0xFF, 3]).collect();
    let bytes = decode_tts_for_playback(&mulaw);
    let pcm: Vec<i16> = bytes
        .chunks(8)
        .map(|f| (f32::from_le_bytes([f[0], f[1], f[2], f[3]]) * 32768.0) as i16)
        .collect();
    assert_eq!(pcm.len(), 6 * mulaw.len());
    let expected: Vec<u8> = mulaw.iter().map(|&b| if b == 0x7F { 0xFF } else { b }).collect();
    assert!(matches!(
        read_event(&encode_user_audio(&pcm, 5, None)),
        Event::Audio(data) if data == expected
    ));
}

fn audio(data: &[u8]) -> Frame {
    Frame::Text(audio_message(data, 0, None))
}

fn text(message: &str) -> Frame {
    Frame::Text(message.to_string())
}

#[test]
fn a_response_is_buffered_until_its_mark() {
    let mut receiver = Receiver::new();
    assert_eq!(receiver.current_phase(), Phase::Listening);
    assert!(matches!(receiver.on_frame(text(r#"{"type":"mark"}"#)), Action::Wait));
    assert!(matches!(receiver.on_frame(audio(&[1, 2])), Action::Wait));
    assert!(matches!(receiver.on_frame(text("garbage")), Action::Ignore(Reason::NotJson)));
    assert!(matches!(receiver.on_frame(Frame::Other), Action::Wait));
    assert!(matches!(
        receiver.on_frame(text(r#"{"type":"audio","audio":"!"}"#)),
        Action::Ignore(Reason::BadAudio)
    ));
    assert!(matches!(receiver.on_frame(audio(&[3])), Action::Wait));
    assert!(matches!(
        receiver.on_frame(text(r#"{"type":"mark"}"#)),
        Action::Deliver(PlaybackCommand::PlayTts(data)) if data == vec![1, 2, 3]
    ));
    assert_eq!(receiver.current_phase(), Phase::DeliveringTts);
    assert!(matches!(receiver.on_delivery(true), Action::Wait));
    assert_eq!(receiver.current_phase(), Phase::Listening);
    assert!(matches!(receiver.on_frame(text(r#"{"type":"mark"}"#)), Action::Wait));
    assert!(matches!(receiver.on_frame(audio(&[9])), Action::Wait));
    assert!(matches!(
        receiver.on_frame(text(r#"{"type":"mark"}"#)),
        Action::Deliver(PlaybackCommand::PlayTts(data)) if data == vec![9]
    ));
}

#[test]
fn hold_commands_leave_the_buffer_alone() {
    let mut receiver = Receiver::new();
    receiver.on_frame(audio(&[5]));
    assert!(matches!(
        receiver.on_frame(text(r#"{"type":"hold_start"}"#)),
        Action::Deliver(PlaybackCommand::HoldStart)
    ));
    assert_eq!(receiver.current_phase(), Phase::DeliveringHold);
    assert!(matches!(receiver.on_delivery(true), Action::Wait));
    receiver.on_frame(audio(&[6]));
    assert!(matches!(
        receiver.on_frame(text(r#"{"type":"hold_stop"}"#)),
        Action::Deliver(PlaybackCommand::HoldStop)
    ));
    receiver.on_delivery(true);
    assert!(matches!(
        receiver.on_event(Event::Mark),
        Action::Deliver(PlaybackCommand::PlayTts(data)) if data == vec![5, 6]
    ));
}

#[test]
fn the_loop_stops() {
    for frame in [Frame::Close, Frame::Failed, Frame::End] {
        let mut receiver = Receiver::new();
        assert!(matches!(receiver.on_frame(frame), Action::Stop));
        assert_eq!(receiver.current_phase(), Phase::Stopped);
    }
    let mut receiver = Receiver::new();
    receiver.on_event(Event::HoldStart);
    assert!(matches!(receiver.on_delivery(false), Action::Stop));
    assert_eq!(receiver.current_phase(), Phase::Stopped);
}

#[test]
fn every_byte_is_played_once() {
    let mut receiver = Receiver::new();
    let (mut spoken, mut played, mut holds) = (Vec::new(), Vec::new(), Vec::new());
    for i in 0..200u8 {
        let event = match i % 7 {
            0 | 1 | 3 => {
                spoken.extend([i, i + 1]);
                Event::Audio(vec![i, i + 1])
            }
            2 | 6 => Event::Mark,
            4 => Event::HoldStart,
            _ => Event::Ignored(Reason::Unhandled),
        };
        if let Action::Deliver(command) = receiver.on_event(event) {
            match command {
                PlaybackCommand::PlayTts(data) => {
                    assert!(!data.is_empty());
                    played.extend(data);
                }
                PlaybackCommand::HoldStart => holds.push(i),
                PlaybackCommand::HoldStop => panic!("not asked for"),
            }
            receiver.on_delivery(true);
        }
    }
    receiver.on_event(Event::Audio(vec![255]));
    spoken.push(255);
    if let Action::Deliver(PlaybackCommand::PlayTts(data)) = receiver.on_event(Event::Mark) {
        played.extend(data);
    }
    assert_eq!(played, spoken);
    assert_eq!(holds, (0..200u8).filter(|i| i % 7 == 4).collect::<Vec<_>>());
}

fn delivered(frames: &[Frame]) -> (Vec<String>, Phase) {
    let (commands, receiver) = run(frames);
    let names = commands
        .into_iter()
        .map(|command| match command {
            PlaybackCommand::PlayTts(data) => format!("{data:?}"),
            PlaybackCommand::HoldStart => "start".to_string(),
            PlaybackCommand::HoldStop => "stop".to_string(),
        })
        .collect();
    (names, receiver.current_phase())
}

#[test]
fn a_session_runs_to_its_end() {
    let (mark, start, stop) = (
        r#"{"type":"mark"}"#,
        r#"{"type":"hold_start"}"#,
        r#"{"type":"hold_stop"}"#,
    );
    let frames = vec![
        text(start), audio(&[1]), Frame::Other, text("garbage"), text(stop), audio(&[2, 3]),
        text(mark), text(mark), audio(&[4]), text(mark), audio(&[5]),
    ];
    let (commands, phase) = delivered(&frames);
    assert_eq!(commands, vec!["start", "stop", "[1, 2, 3]", "[4]"]);
    assert_eq!(phase, Phase::Listening);

    let without_holds =
        vec![audio(&[1]), audio(&[2, 3]), text(mark), text(mark), audio(&[4]), text(mark)];
    assert_eq!(delivered(&without_holds).0, vec!["[1, 2, 3]", "[4]"]);

    for end in [Frame::Close, Frame::Failed, Frame::End] {
        let frames = vec![audio(&[1]), text(start), end, text(mark), text(stop)];
        assert_eq!(delivered(&frames), (vec!["start".to_string()], Phase::Stopped));
    }
    assert_eq!(delivered(&[]), (vec![], Phase::Listening));
}
