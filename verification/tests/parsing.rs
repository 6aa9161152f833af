use icontool::dmi::{DreamMakerIconMetadata, IconState};
use icontool::error::IconError;
use icontool::parser::{parse_metadata, render_metadata};

fn simple_state(name: &str, dirs: u32, frames: u32) -> IconState {
    IconState {
        name: String::from(name),
        dirs,
        frames,
        delay: None,
        hotspot: None,
        loop_flag: None,
        movement_flag: None,
        rewind_flag: None,
    }
}

#[test]
fn test_parse_example_document() {
    let text = "# BEGIN DMI\nversion = 4.0\n\twidth = 32\n\theight = 32\nstate = \"idle\"\n\tdirs = 4\n\tframes = 1\n# END DMI\n";
    let m = parse_metadata(text).unwrap();
    assert_eq!(4, m.version_major);
    assert_eq!(0, m.version_minor);
    assert_eq!(32, m.width);
    assert_eq!(32, m.height);
    assert_eq!(1, m.states.len());
    assert_eq!("idle", m.states[0].name);
    assert_eq!(4, m.states[0].dirs);
    assert_eq!(1, m.states[0].frames);
}

#[test]
fn test_parse_defaults_and_options() {
    let text = "# BEGIN DMI\nversion = 4.0\nstate = \"walk\"\n\tdirs = 8\n\tframes = 2\n\tdelay = 1,2\n\tloop = 1\n\tmovement = 1\n\trewind = 0\n\thotspot = 16,16,1\n# END DMI\n";
    let m = parse_metadata(text).unwrap();
    assert_eq!(32, m.width);
    assert_eq!(32, m.height);
    let st = &m.states[0];
    assert_eq!(8, st.dirs);
    assert_eq!(2, st.frames);
    assert_eq!(vec![String::from("1"), String::from("2")], *st.delay.as_ref().unwrap());
    assert_eq!(
        vec![String::from("16"), String::from("16"), String::from("1")],
        *st.hotspot.as_ref().unwrap()
    );
    assert_eq!("1", st.loop_flag.as_ref().unwrap());
    assert_eq!("1", st.movement_flag.as_ref().unwrap());
    assert_eq!("0", st.rewind_flag.as_ref().unwrap());
}

#[test]
fn test_parse_escaped_quote_in_name() {
    let text =
        "# BEGIN DMI\nversion = 4.0\nstate = \"say \\\"hi\\\"\"\n\tdirs = 1\n\tframes = 1\n# END DMI\n";
    let m = parse_metadata(text).unwrap();
    assert_eq!("say \"hi\"", m.states[0].name);
}

#[test]
fn test_unknown_property_fails() {
    let text = "# BEGIN DMI\nversion = 4.0\nstate = \"idle\"\n\tdirs = 4\n\tframes = 1\n\tsparkle = yes\n# END DMI\n";
    match parse_metadata(text) {
        Err(IconError::UnknownProperty(name)) => assert_eq!("sparkle", name),
        _ => panic!("expected an unknown-property failure"),
    }
}

#[test]
fn test_missing_required_field_fails() {
    let text = "# BEGIN DMI\nversion = 4.0\nstate = \"idle\"\n\tframes = 1\n# END DMI\n";
    match parse_metadata(text) {
        Err(IconError::MissingRequiredField(state, field)) => {
            assert_eq!("idle", state);
            assert_eq!("dirs", field);
        }
        _ => panic!("expected a missing-required-field failure"),
    }
}

#[test]
fn test_trailing_input_fails() {
    let text = "# BEGIN DMI\nversion = 4.0\n# END DMI\nleftover";
    match parse_metadata(text) {
        Err(IconError::TrailingInput) => {}
        _ => panic!("expected a trailing-input failure"),
    }
}

#[test]
fn test_non_digit_dimension_fails() {
    let text = "# BEGIN DMI\nversion = 4.0\n\twidth = wide\n# END DMI\n";
    match parse_metadata(text) {
        Err(IconError::GrammarMismatch) => {}
        _ => panic!("expected a grammar mismatch"),
    }
}

#[test]
fn test_non_digit_dirs_fails() {
    let text = "# BEGIN DMI\nversion = 4.0\nstate = \"idle\"\n\tdirs = four\n\tframes = 1\n# END DMI\n";
    match parse_metadata(text) {
        Err(IconError::GrammarMismatch) => {}
        _ => panic!("expected a grammar mismatch"),
    }
}

#[test]
fn test_render_metadata_canonical_form() {
    let m = DreamMakerIconMetadata {
        version_major: 4,
        version_minor: 0,
        width: 32,
        height: 32,
        states: vec![simple_state("idle", 4, 1)],
    };
    let text = render_metadata(&m);
    assert_eq!(
        "# BEGIN DMI\nversion = 4.0\n\twidth = 32\n\theight = 32\nstate = \"idle\"\n\tdirs = 4\n\tframes = 1\n# END DMI\n",
        text
    );
}

#[test]
fn test_parse_render_round_trip() {
    let m = DreamMakerIconMetadata {
        version_major: 4,
        version_minor: 2,
        width: 48,
        height: 16,
        states: vec![
            simple_state("idle", 4, 1),
            simple_state("walk \"fast\"", 8, 3),
            simple_state("", 1, 1),
        ],
    };
    let text = render_metadata(&m);
    let back = parse_metadata(&text).unwrap();
    assert_eq!(m.version_major, back.version_major);
    assert_eq!(m.version_minor, back.version_minor);
    assert_eq!(m.width, back.width);
    assert_eq!(m.height, back.height);
    assert_eq!(m.states.len(), back.states.len());
    for (a, b) in m.states.iter().zip(back.states.iter()) {
        assert_eq!(a.name, b.name);
        assert_eq!(a.dirs, b.dirs);
        assert_eq!(a.frames, b.frames);
    }
}
