use competition_simulator::event::{Ao5Event, Bo3Event, EventType, Mo3Event};

const ALL: [(&str, EventType); 16] = [
    ("222", EventType::Ao5(Ao5Event::S222)),
    ("333", EventType::Ao5(Ao5Event::S333)),
    ("444", EventType::Ao5(Ao5Event::S444)),
    ("555", EventType::Ao5(Ao5Event::S555)),
    ("333oh", EventType::Ao5(Ao5Event::S333oh)),
    ("minx", EventType::Ao5(Ao5Event::Megaminx)),
    ("pyram", EventType::Ao5(Ao5Event::Pyraminx)),
    ("clock", EventType::Ao5(Ao5Event::Clock)),
    ("skewb", EventType::Ao5(Ao5Event::Skewb)),
    ("sq1", EventType::Ao5(Ao5Event::SQ1)),
    ("666", EventType::Mo3(Mo3Event::S666)),
    ("777", EventType::Mo3(Mo3Event::S777)),
    ("333fm", EventType::Mo3(Mo3Event::F333)),
    ("333bf", EventType::Bo3(Bo3Event::B333)),
    ("444bf", EventType::Bo3(Bo3Event::B444)),
    ("555bf", EventType::Bo3(Bo3Event::B555)),
];

#[test]
fn every_identifier_names_its_event() {
    for (id, event) in ALL {
        assert_eq!(EventType::from_event_id(id), Some(event));
    }
}

#[test]
fn every_event_has_its_identifier() {
    for (id, event) in ALL {
        assert_eq!(event.id(), id);
    }
}

#[test]
fn identifiers_read_back() {
    for (_, event) in ALL {
        assert_eq!(EventType::from_event_id(event.id()), Some(event));
    }
}

#[test]
fn other_text_names_no_event() {
    for id in ["", "3", "33", "3333", "333 ", " 333", "333OH", "333ft", "magic", "sq-1", "３３３"] {
        assert_eq!(EventType::from_event_id(id), None);
    }
}

#[test]
fn averages_take_five_attempts_and_the_rest_three() {
    for (_, event) in ALL {
        let expected = match event {
            EventType::Ao5(_) => 5,
            EventType::Mo3(_) | EventType::Bo3(_) => 3,
        };
        assert_eq!(event.num_attempts(), expected);
    }
}
