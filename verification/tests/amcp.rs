use casparcg_timecode::amcp::{
    media_type_named, read_cinf_info, AmcpAction, AmcpClient, AmcpError, AmcpEvent, CinfError,
    MediaType, Reply,
};
use casparcg_timecode::float::Float32;

fn value(number: Float32) -> f32 {
    f32::from_bits(number.bits)
}

#[test]
fn test_parse_channel_fps_50() {
    let xml = "<channel><format>720p5000</format><framerate>50</framerate><framerate>1</framerate></channel>";
    let fps = AmcpClient::parse_channel_fps(xml).unwrap();
    assert_eq!(value(fps), 50.0);
}

#[test]
fn test_parse_channel_fps_25() {
    let xml = "<channel><format>1080i5000</format><framerate>25</framerate><framerate>1</framerate></channel>";
    let fps = AmcpClient::parse_channel_fps(xml).unwrap();
    assert_eq!(value(fps), 25.0);
}

#[test]
fn test_cinf_parses_spec_example() {
    let info =
        AmcpClient::parse_cinf_response("\"AMB\" MOVIE 6445960 20170413102935 268 1/25", "AMB")
            .unwrap();
    assert_eq!(info.filename, "AMB");
    assert_eq!(info.media_type, MediaType::Movie);
    assert_eq!(info.frame_count, 268);
    assert_eq!(value(info.frame_rate), 25.0);
}

#[test]
fn test_cinf_parses_still_media_type() {
    let info = AmcpClient::parse_cinf_response(
        "\"IMAGE\" STILL 1024000 20200101T120000 1 1/1",
        "IMAGE",
    )
    .unwrap();
    assert_eq!(info.media_type, MediaType::Still);
    assert_eq!(info.frame_count, 1);
    assert_eq!(value(info.frame_rate), 1.0);
}

#[test]
fn test_cinf_parses_audio_media_type() {
    let info = AmcpClient::parse_cinf_response(
        "\"SOUND\" AUDIO 2048000 20210615T093000 1000 1/48000",
        "SOUND",
    )
    .unwrap();
    assert_eq!(info.media_type, MediaType::Audio);
    assert_eq!(info.frame_count, 1000);
    assert_eq!(value(info.frame_rate), 48000.0);
}

#[test]
fn test_cinf_parses_spaced_filename() {
    let info = AmcpClient::parse_cinf_response(
        "\"MY VIDEO FILE\" MOVIE 5000000 20240101T120000 500 1/25",
        "MY VIDEO FILE",
    )
    .unwrap();
    assert_eq!(info.filename, "MY VIDEO FILE");
    assert_eq!(info.frame_count, 500);
    assert_eq!(value(info.frame_rate), 25.0);
}

#[test]
fn test_cinf_errors_on_unknown_media_type() {
    let err = AmcpClient::parse_cinf_response(
        "\"FILE\" UNKNOWN 1000 20200101T120000 100 1/25",
        "FILE",
    )
    .unwrap_err();
    assert!(err.message().contains("unknown media type"));
}

#[test]
fn test_cinf_errors_on_invalid_frame_count() {
    let err = AmcpClient::parse_cinf_response(
        "\"FILE\" MOVIE 1000 20200101T120000 INVALID 1/25",
        "FILE",
    )
    .unwrap_err();
    assert!(err.message().contains("invalid frame count"));
}

#[test]
fn test_cinf_errors_on_invalid_frame_rate() {
    let err = AmcpClient::parse_cinf_response(
        "\"FILE\" MOVIE 1000 20200101T120000 100 INVALID",
        "FILE",
    )
    .unwrap_err();
    assert!(err.message().contains("invalid frame rate"));
}

#[test]
fn test_cinf_errors_on_missing_fields() {
    let err = AmcpClient::parse_cinf_response("\"FILE\" MOVIE", "FILE").unwrap_err();
    assert!(err.message().contains("failed to parse CINF response"));
}

#[test]
fn cinf_errors_say_what_is_wrong() {
    let message = |line: &str| {
        AmcpClient::parse_cinf_response(line, "FILE")
            .unwrap_err()
            .message()
    };
    assert_eq!(message("\"FILE MOVIE 1 2 3 1/25"), "failed to parse CINF response");
    assert_eq!(message("\"FILE\"\r\n"), "failed to parse CINF response: \"FILE\"");
    assert_eq!(
        message("\"FILE\"\u{e9}MOVIE 1 2 3 1/25"),
        "failed to parse CINF response: \"FILE\"\u{e9}MOVIE 1 2 3 1/25"
    );
    assert_eq!(message(""), "failed to parse CINF response: ");
    assert_eq!(message("FILE clip 1 2 3 1/25"), "unknown media type: CLIP");
    assert_eq!(
        message("FILE MOVIE 1 2 4294967296 1/25"),
        "invalid frame count in CINF response: 4294967296"
    );
    assert_eq!(
        message("FILE MOVIE 1 2 3 x/25"),
        "invalid frame rate numerator in CINF response: x/25"
    );
    assert_eq!(
        message("FILE MOVIE 1 2 3 1/25/2"),
        "invalid frame rate denominator in CINF response: 1/25/2"
    );
    assert_eq!(message("FILE MOVIE 1 2 3 fast"), "invalid frame rate in CINF response: fast");
}

#[test]
fn cinf_media_type_is_read_in_any_case() {
    let media_type = |name: &str| {
        let line = format!("FILE {name} 1 2 3 30");
        AmcpClient::parse_cinf_response(&line, "FILE").map(|info| info.media_type)
    };
    assert_eq!(media_type("movie").unwrap(), MediaType::Movie);
    assert_eq!(media_type("Still").unwrap(), MediaType::Still);
    assert_eq!(media_type("mov\u{131}e").unwrap(), MediaType::Movie);
    assert!(media_type("stra\u{df}e").unwrap_err().message().ends_with("STRASSE"));
    assert_eq!(media_type_named(&"AUDIO".to_string()), Some(MediaType::Audio));
    assert_eq!(media_type_named(&"audio".to_string()), None);
}

#[test]
fn cinf_fields_are_read_after_the_media_type() {
    let fields: Vec<Vec<char>> = ["x", "1", "2", "77", "1001/30000"]
        .iter()
        .map(|field| field.chars().collect())
        .collect();
    let info = read_cinf_info(&fields, "STILL".to_string(), "A B").unwrap();
    assert_eq!(info.filename, "A B");
    assert_eq!(info.media_type, MediaType::Still);
    assert_eq!(info.frame_count, 77);
    assert_eq!(value(info.frame_rate), 30000.0 / 1001.0);
    assert!(matches!(
        read_cinf_info(&fields, "GIF".to_string(), "A B"),
        Err(CinfError::MediaType { .. })
    ));
}

#[test]
fn channel_fps_needs_two_numbers() {
    let fps = |xml: &str| AmcpClient::parse_channel_fps(xml).map(value);
    let two = "<framerate> 30000 </framerate>\n<framerate>1001</framerate>";
    assert_eq!(fps(two).unwrap(), 30000.0 / 1001.0);
    assert_eq!(fps("<framerate>50<framerate>2").unwrap(), 25.0);
    for xml in [
        "",
        "<framerate>50</framerate>",
        "<framerate>50</framerate><framerate>0</framerate>",
        "<framerate>50</framerate><framerate>x</framerate><framerate>1</framerate>",
    ] {
        let error = AmcpClient::parse_channel_fps(xml).unwrap_err();
        assert_eq!(
            error.message(),
            "could not parse channel framerate from INFO response"
        );
    }
}

fn sent(client: &AmcpClient) -> String {
    match client.action() {
        AmcpAction::Send(text) => text,
        other => panic!("{other:?}"),
    }
}

#[test]
fn commands_are_lines() {
    let mut client = AmcpClient::new();
    assert!(matches!(client.action(), AmcpAction::Rest));
    client.begin_batch();
    assert_eq!(sent(&client), "BEGIN\r\n");
    client.end_batch();
    assert_eq!(sent(&client), "COMMIT\r\n");
    client.discard_batch();
    assert_eq!(sent(&client), "DISCARD\r\n");
    client.play(1, 10, "MAIN_FILM", Some(250));
    assert_eq!(sent(&client), "PLAY 1-10 \"MAIN_FILM\" SEEK 250\r\n");
    client.play(2, 30, "A B", None);
    assert_eq!(sent(&client), "PLAY 2-30 \"A B\"\r\n");
    client.pause(1, 20);
    assert_eq!(sent(&client), "PAUSE 1-20\r\n");
    client.stop(1, 65535);
    assert_eq!(sent(&client), "STOP 1-65535\r\n");
    client.channel_fps(3);
    assert_eq!(sent(&client), "INFO 3\r\n");
    client.cinf("BG LOOP");
    assert_eq!(sent(&client), "CINF \"BG LOOP\"\r\n");
}

#[test]
fn accepted_command_is_done() {
    let mut client = AmcpClient::new();
    client.stop(1, 10);
    assert!(client.take_outcome().is_none());
    client.handle(AmcpEvent::Status("202 STOP OK\r\n".to_string()));
    assert!(matches!(client.take_outcome(), Some(Ok(Reply::Done))));
    assert!(client.take_outcome().is_none());
}

#[test]
fn failed_command_is_sent_once_more() {
    let mut client = AmcpClient::new();
    client.pause(1, 10);
    client.handle(AmcpEvent::SendFailed(AmcpError::ResponseTimeout {
        command: "PAUSE 1-10".to_string(),
    }));
    assert!(matches!(client.action(), AmcpAction::Reconnect));
    assert_eq!(
        client.retry_cause().unwrap().message(),
        "response timed out: PAUSE 1-10"
    );
    client.handle(AmcpEvent::Connected);
    assert!(client.retry_cause().is_none());
    assert_eq!(sent(&client), "PAUSE 1-10\r\n");
    client.handle(AmcpEvent::Status("404 PAUSE ERROR\r\n".to_string()));
    let error = client.take_outcome().unwrap().unwrap_err();
    assert_eq!(error.message(), "AMCP error: 404 PAUSE ERROR");
}

#[test]
fn refused_command_may_succeed_the_second_time() {
    let mut client = AmcpClient::new();
    client.begin_batch();
    // A connection that is closed gives an empty line.
    client.handle(AmcpEvent::Status(String::new()));
    assert_eq!(client.retry_cause().unwrap().message(), "AMCP error: ");
    client.handle(AmcpEvent::Connected);
    client.handle(AmcpEvent::Status("202 BEGIN OK\r\n".to_string()));
    assert!(matches!(client.take_outcome(), Some(Ok(Reply::Done))));
}

#[test]
fn lost_connection_ends_the_exchange() {
    let mut client = AmcpClient::new();
    client.begin_batch();
    client.handle(AmcpEvent::SendFailed(AmcpError::Io {
        cause: "broken pipe".to_string(),
    }));
    client.handle(AmcpEvent::ConnectFailed(AmcpError::ConnectTimeout {
        address: "localhost:5250".to_string(),
    }));
    let error = client.take_outcome().unwrap().unwrap_err();
    assert_eq!(error.message(), "connection to localhost:5250 timed out");
}

#[test]
fn events_that_answer_nothing_change_nothing() {
    let mut client = AmcpClient::new();
    client.handle(AmcpEvent::Connected);
    assert!(matches!(client.action(), AmcpAction::Rest));
    client.stop(1, 10);
    client.handle(AmcpEvent::Line("202 OK".to_string()));
    assert_eq!(sent(&client), "STOP 1-10\r\n");
}

#[test]
fn channel_is_read_to_its_end() {
    let mut client = AmcpClient::new();
    client.channel_fps(1);
    client.handle(AmcpEvent::Status("201 INFO OK\r\n".to_string()));
    for line in [
        "<channel>\r\n",
        "<framerate>50</framerate>\r\n",
        "<framerate>2</framerate>\r\n",
        "</channel>\r\n",
    ] {
        assert!(matches!(client.action(), AmcpAction::ReadLine));
        client.handle(AmcpEvent::Line(line.to_string()));
    }
    match client.take_outcome() {
        Some(Ok(Reply::Fps(fps))) => assert_eq!(value(fps), 25.0),
        other => panic!("{other:?}"),
    }
}

#[test]
fn channel_ends_at_an_empty_line() {
    let mut client = AmcpClient::new();
    client.channel_fps(1);
    client.handle(AmcpEvent::Status("201 INFO OK\r\n".to_string()));
    client.handle(AmcpEvent::Line("<framerate>50</framerate>\r\n".to_string()));
    client.handle(AmcpEvent::Line("\r\n".to_string()));
    assert!(matches!(
        client.take_outcome(),
        Some(Err(AmcpError::Framerate))
    ));
}

#[test]
fn first_of_several_matches_is_used() {
    let mut client = AmcpClient::new();
    client.cinf("AMB");
    client.handle(AmcpEvent::Status("200 CINF OK\r\n".to_string()));
    for line in [
        "\"AMB\" MOVIE 1 2 268 1/25\r\n",
        "\"X/AMB\" STILL 1 2 1 1/1\r\n",
        "\"Y/AMB\" STILL 1 2 1 1/1\r\n",
        "\r\n",
    ] {
        client.handle(AmcpEvent::Line(line.to_string()));
    }
    match client.take_outcome() {
        Some(Ok(Reply::Media { info, extra })) => {
            assert_eq!(info.filename, "AMB");
            assert_eq!(info.media_type, MediaType::Movie);
            assert_eq!(extra, 2);
        }
        other => panic!("{other:?}"),
    }
}

#[test]
fn single_match_ends_at_its_line() {
    let mut client = AmcpClient::new();
    client.cinf("AMB");
    client.handle(AmcpEvent::Status("201 CINF OK\r\n".to_string()));
    client.handle(AmcpEvent::Line("\"AMB\" MOVIE 1 2 268 1/25\r\n".to_string()));
    assert!(matches!(
        client.take_outcome(),
        Some(Ok(Reply::Media { extra: 0, .. }))
    ));
}

#[test]
fn reading_that_fails_ends_the_exchange() {
    for list in ["200 CINF OK\r\n", "201 CINF OK\r\n"] {
        let mut client = AmcpClient::new();
        client.cinf("AMB");
        client.handle(AmcpEvent::Status(list.to_string()));
        client.handle(AmcpEvent::ReadFailed(AmcpError::ReadTimeout));
        let error = client.take_outcome().unwrap().unwrap_err();
        assert_eq!(error.message(), "read timed out");
    }
}

#[test]
fn errors_have_messages() {
    let text = |s: &str| s.to_string();
    let errors = [
        (
            AmcpError::Connect {
                address: text("host:1"),
                cause: text("refused"),
            },
            "failed to connect to host:1: refused",
        ),
        (
            AmcpError::SendTimeout {
                command: text("BEGIN"),
            },
            "send timed out: BEGIN",
        ),
        (
            AmcpError::Io {
                cause: text("broken pipe"),
            },
            "broken pipe",
        ),
        (
            AmcpError::Cinf(CinfError::Quote),
            "failed to parse CINF response",
        ),
    ];
    for (error, message) in errors {
        assert_eq!(error.message(), message);
    }
}

#[test]
fn batch_is_sent_in_order() {
    for commit in [true, false] {
        let mut client = AmcpClient::new();
        let mut texts = Vec::new();
        for step in 0..4 {
            match step {
                0 => client.begin_batch(),
                1 => client.play(1, 10, "A", Some(3)),
                2 => client.stop(1, 20),
                _ if commit => client.end_batch(),
                _ => client.discard_batch(),
            }
            texts.push(sent(&client));
            client.handle(AmcpEvent::Status("202 OK\r\n".into()));
            assert!(matches!(client.action(), AmcpAction::Rest));
            assert!(matches!(client.take_outcome(), Some(Ok(Reply::Done))));
        }
        let end = if commit { "COMMIT\r\n" } else { "DISCARD\r\n" };
        assert_eq!(
            texts,
            vec!["BEGIN\r\n", "PLAY 1-10 \"A\" SEEK 3\r\n", "STOP 1-20\r\n", end]
        );
    }
}
