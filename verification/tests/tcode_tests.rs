use teledildo_core::tcode::{
    parse_line, parse_token, Axis, AxisKind, Command, DeviceCommand, Modifier, ParseError,
};
use teledildo_core::value::Fraction;

fn one(tok: &[u8]) -> Result<Command, ParseError> {
    parse_token(tok)
}

fn mv(kind: AxisKind, index: u8, raw: u16, modifier: Modifier) -> Command {
    Command::Move { axis: Axis { kind, index }, target: Fraction::new(raw).unwrap(), modifier }
}

#[test]
fn parses_basic_moves() {
    assert_eq!(one(b"L0500"), Ok(mv(AxisKind::Linear, 0, 5000, Modifier::Immediate)));
    assert_eq!(
        one(b"v19999I2000"),
        Ok(mv(AxisKind::Vibrate, 1, 9999, Modifier::Interval { millis: 2000 }))
    );
    assert_eq!(
        one(b"R2250s500"),
        Ok(mv(AxisKind::Rotate, 2, 2500, Modifier::Speed { per_second: 500 }))
    );
    assert_eq!(one(b"A00"), Ok(mv(AxisKind::Aux, 0, 0, Modifier::Immediate)));
}

#[test]
fn parses_device_commands() {
    assert_eq!(one(b"D0"), Ok(Command::Device(DeviceCommand::Identify)));
    assert_eq!(one(b"d1"), Ok(Command::Device(DeviceCommand::Version)));
    assert_eq!(one(b"D2"), Ok(Command::Device(DeviceCommand::ListAxes)));
    assert_eq!(one(b"DSTOP"), Ok(Command::Device(DeviceCommand::Stop)));
    assert_eq!(one(b"dstop"), Ok(Command::Device(DeviceCommand::Stop)));
    assert_eq!(one(b"D9"), Err(ParseError::UnknownDeviceCommand));
}

#[test]
fn rejects_malformed_tokens() {
    assert_eq!(one(b""), Err(ParseError::UnknownPrefix(0)));
    assert_eq!(one(b"X0500"), Err(ParseError::UnknownPrefix(b'X')));
    assert_eq!(one(b"L"), Err(ParseError::MissingIndex));
    assert_eq!(one(b"LA500"), Err(ParseError::MissingIndex));
    assert_eq!(one(b"L0"), Err(ParseError::BadMagnitude));
    assert_eq!(one(b"L012345"), Err(ParseError::BadMagnitude));
    assert_eq!(one(b"L0500I"), Err(ParseError::BadModifier));
    assert_eq!(one(b"L0500X100"), Err(ParseError::BadModifier));
    assert_eq!(one(b"L0500I12345678901"), Err(ParseError::BadModifier));
    assert_eq!(one(b"L0500I4294967296"), Err(ParseError::BadModifier));
    assert!(one(b"L0500I4294967295").is_ok());
    assert_eq!(one(b"L0500I100x"), Err(ParseError::Trailing));
}

#[test]
fn line_tokenizes_and_isolates_errors() {
    let got: Vec<_> = parse_line(b"  L0500 \t bogus V09999I1000\r\n").collect();
    assert_eq!(got.len(), 3);
    assert!(got[0].is_ok());
    assert_eq!(got[1], Err(ParseError::UnknownPrefix(b'b')));
    assert!(got[2].is_ok());
    assert_eq!(parse_line(b"   \r\n").collect().len(), 0);
    assert_eq!(parse_line(b"").collect().len(), 0);
}

#[test]
fn replies() {
    assert_eq!(DeviceCommand::Identify.reply("fw"), Some("TCode v0.3"));
    assert_eq!(DeviceCommand::Version.reply("fw 1.0"), Some("fw 1.0"));
    assert_eq!(DeviceCommand::Stop.reply("fw"), None);
}

#[test]
fn reply_to_axis_list_is_left_to_the_caller() {
    assert_eq!(DeviceCommand::ListAxes.reply("fw"), None);
}

#[test]
fn axis_letters() {
    assert_eq!(AxisKind::Linear.letter(), b'L');
    assert_eq!(AxisKind::Rotate.letter(), b'R');
    assert_eq!(AxisKind::Vibrate.letter(), b'V');
    assert_eq!(AxisKind::Aux.letter(), b'A');
}

#[test]
fn well_formed_moves_round_trip() {
    let kinds = [AxisKind::Linear, AxisKind::Rotate, AxisKind::Vibrate, AxisKind::Aux];
    let modifiers = [
        Modifier::Immediate,
        Modifier::Interval { millis: 0 },
        Modifier::Interval { millis: 1500 },
        Modifier::Speed { per_second: 7 },
        Modifier::Speed { per_second: u32::MAX },
    ];
    for kind in kinds {
        for index in [0u8, 4, 9] {
            for raw in [0u16, 7, 500, 9999] {
                for modifier in modifiers {
                    let mut text = format!("{}{}{:04}", char::from(kind.letter()), index, raw);
                    match modifier {
                        Modifier::Immediate => {}
                        Modifier::Interval { millis } => text.push_str(&format!("I{millis}")),
                        Modifier::Speed { per_second } => text.push_str(&format!("S{per_second}")),
                    }
                    let parsed = parse_line(text.as_bytes()).collect();
                    assert_eq!(parsed, vec![Ok(mv(kind, index, raw, modifier))], "{text}");
                }
            }
        }
    }
}

#[test]
fn joined_lines_parse_token_by_token() {
    let a: &[u8] = b"L0500 X1";
    let b: &[u8] = b"D0 V1";
    let mut joined = a.to_vec();
    joined.push(b'\t');
    joined.extend_from_slice(b);
    let mut expected = parse_line(a).collect();
    expected.extend(parse_line(b).collect());
    assert_eq!(parse_line(&joined).collect(), expected);
    assert_eq!(
        expected,
        vec![
            Ok(mv(AxisKind::Linear, 0, 5000, Modifier::Immediate)),
            Err(ParseError::UnknownPrefix(b'X')),
            Ok(Command::Device(DeviceCommand::Identify)),
            Err(ParseError::BadMagnitude),
        ]
    );
}

#[test]
fn tokens_iterate_one_at_a_time() {
    let mut tokens = parse_line(b"D1\nd2 ");
    assert_eq!(tokens.next(), Some(Ok(Command::Device(DeviceCommand::Version))));
    assert_eq!(tokens.next(), Some(Ok(Command::Device(DeviceCommand::ListAxes))));
    assert_eq!(tokens.next(), None);
    assert_eq!(tokens.next(), None);
}

#[test]
fn each_error_variant_has_an_input() {
    assert_eq!(one(b"Q1"), Err(ParseError::UnknownPrefix(b'Q')));
    assert_eq!(one(b"V"), Err(ParseError::MissingIndex));
    assert_eq!(one(b"V1x"), Err(ParseError::BadMagnitude));
    assert_eq!(one(b"V15S"), Err(ParseError::BadModifier));
    assert_eq!(one(b"DST"), Err(ParseError::UnknownDeviceCommand));
    assert_eq!(one(b"V15S10q"), Err(ParseError::Trailing));
    assert_eq!(one(b"V15Sq"), Err(ParseError::Trailing));
}

#[test]
fn letters_are_case_insensitive() {
    for (lower, upper) in [
        (&b"v19999i2000"[..], &b"V19999I2000"[..]),
        (b"r2250s500", b"R2250S500"),
        (b"dstop", b"DSTOP"),
        (b"a0", b"A0"),
        (b"l0500q", b"L0500Q"),
    ] {
        assert_eq!(one(lower), one(upper));
    }
    assert_eq!(one(b"x0500"), Err(ParseError::UnknownPrefix(b'x')));
    assert_eq!(one(b"X0500"), Err(ParseError::UnknownPrefix(b'X')));
}
