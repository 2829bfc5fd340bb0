use draw_relay::codec::{decode, encode_text, Coord, DecodeError, Event};

fn chars(s: &str) -> Vec<char> {
    s.chars().collect()
}

fn draw_event() -> Event {
    Event::Draw {
        prev: Coord { x: chars("0"), y: chars("0") },
        cur: Coord { x: chars("1"), y: chars("1") },
        color: chars("#000000"),
        brush_size: 4,
    }
}

const DRAW_PAYLOAD: &str =
    "{\"type\":\"Draw\",\"data\":{\"prev\":[0,0],\"cur\":[1,1],\"color\":\"#000000\",\"brush_size\":4}}";

#[test]
fn decode_draw_payload() {
    assert_eq!(decode(DRAW_PAYLOAD), Ok(draw_event()));
}

#[test]
fn encode_draw_payload() {
    assert_eq!(encode_text(&draw_event()), DRAW_PAYLOAD);
}

#[test]
fn decode_clear_payload() {
    assert_eq!(decode("{\"type\":\"Clear\"}"), Ok(Event::Clear));
}

#[test]
fn encode_clear_payload() {
    assert_eq!(encode_text(&Event::Clear), "{\"type\":\"Clear\"}");
}

#[test]
fn decode_erase_payload() {
    let payload =
        "{\"type\":\"Erase\",\"data\":{\"prev\":[2.5,-3],\"cur\":[1e2,0.125],\"brush_size\":12}}";
    let expected = Event::Erase {
        prev: Coord { x: chars("2.5"), y: chars("-3") },
        cur: Coord { x: chars("1e2"), y: chars("0.125") },
        brush_size: 12,
    };
    assert_eq!(decode(payload), Ok(expected.clone()));
    assert_eq!(encode_text(&expected), payload);
}

#[test]
fn round_trip_draw() {
    let e = Event::Draw {
        prev: Coord { x: chars("-12.5"), y: chars("3e10") },
        cur: Coord { x: chars("0.001"), y: chars("-0.5E-2") },
        color: chars("#a1b2c3"),
        brush_size: 4294967295,
    };
    assert_eq!(decode(&encode_text(&e)), Ok(e.clone()));
}

#[test]
fn round_trip_erase() {
    let e = Event::Erase {
        prev: Coord { x: chars("7"), y: chars("8.25") },
        cur: Coord { x: chars("-9e+3"), y: chars("0") },
        brush_size: 1,
    };
    assert_eq!(decode(&encode_text(&e)), Ok(e.clone()));
}

#[test]
fn round_trip_clear() {
    assert_eq!(decode(&encode_text(&Event::Clear)), Ok(Event::Clear));
}

#[test]
fn round_trip_empty_color() {
    let e = Event::Draw {
        prev: Coord { x: chars("0"), y: chars("0") },
        cur: Coord { x: chars("1"), y: chars("1") },
        color: chars(""),
        brush_size: 0,
    };
    assert_eq!(decode(&encode_text(&e)), Ok(e.clone()));
}

#[test]
fn malformed_payloads_are_rejected() {
    let malformed = [
        "",
        "{}",
        "hello",
        "{\"type\":\"Scribble\"}",
        "{\"type\":\"Clear\"} ",
        "{\"type\": \"Clear\"}",
        "{\"type\":\"Draw\"}",
        "{\"type\":\"Draw\",\"data\":{\"prev\":[0,0],\"cur\":[1,1],\"color\":\"#000000\"}}",
        "{\"type\":\"Draw\",\"data\":{\"prev\":[0,0],\"cur\":[1,1],\"color\":\"#000000\",\"brush_size\":-4}}",
        "{\"type\":\"Draw\",\"data\":{\"prev\":[0,0],\"cur\":[1,1],\"color\":\"#000000\",\"brush_size\":04}}",
        "{\"type\":\"Draw\",\"data\":{\"prev\":[01,0],\"cur\":[1,1],\"color\":\"#000000\",\"brush_size\":4}}",
        "{\"type\":\"Draw\",\"data\":{\"prev\":[0,0],\"cur\":[1,1],\"color\":\"a\\b\",\"brush_size\":4}}",
        "{\"type\":\"Draw\",\"data\":{\"prev\":[0,0],\"cur\":[1,1],\"color\":\"#000000\",\"brush_size\":4}}x",
        "{\"type\":\"Draw\",\"data\":{\"prev\":[0,],\"cur\":[1,1],\"color\":\"#000000\",\"brush_size\":4}}",
        "{\"type\":\"Draw\",\"data\":{\"prev\":[0,0],\"cur\":[1,1],\"color\":\"#000000\",\"brush_size\":}}",
        "{\"type\":\"Erase\",\"data\":{\"prev\":[0,0],\"cur\":[1,1],\"brush_size\":4}",
        "{\"type\":\"Erase\",\"data\":{\"prev\":[1.,0],\"cur\":[1,1],\"brush_size\":4}}",
        "{\"type\":\"Erase\",\"data\":{\"prev\":[1e,0],\"cur\":[1,1],\"brush_size\":4}}",
    ];
    for p in malformed {
        assert_eq!(decode(p), Err(DecodeError::Malformed), "accepted: {}", p);
    }
}

#[test]
fn brush_size_limits() {
    let max =
        "{\"type\":\"Erase\",\"data\":{\"prev\":[0,0],\"cur\":[1,1],\"brush_size\":4294967295}}";
    let expected = Event::Erase {
        prev: Coord { x: chars("0"), y: chars("0") },
        cur: Coord { x: chars("1"), y: chars("1") },
        brush_size: 4294967295,
    };
    assert_eq!(decode(max), Ok(expected));
    let over =
        "{\"type\":\"Erase\",\"data\":{\"prev\":[0,0],\"cur\":[1,1],\"brush_size\":4294967296}}";
    assert_eq!(decode(over), Err(DecodeError::Malformed));
}
