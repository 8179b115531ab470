//! Events and the result format each of them is decided by.

use crate::text::{chars_of, same_chars};
use vstd::prelude::*;

verus! {

/// An event, grouped by the format that decides it.
#[derive(Debug, Copy, Clone, PartialEq, Eq, Structural)]
pub enum EventType {
    Ao5(Ao5Event),
    Mo3(Mo3Event),
    Bo3(Bo3Event),
}

/// Events decided by the average of five attempts.
#[derive(Debug, Copy, Clone, PartialEq, Eq, Structural)]
pub enum Ao5Event {
    S222,
    S333,
    S444,
    S555,
    S333oh,
    Megaminx,
    Pyraminx,
    Clock,
    Skewb,
    SQ1,
}

/// Events decided by the mean of three attempts.
#[derive(Debug, Copy, Clone, PartialEq, Eq, Structural)]
pub enum Mo3Event {
    S666,
    S777,
    F333,
}

/// Events decided by the best of three attempts.
#[derive(Debug, Copy, Clone, PartialEq, Eq, Structural)]
pub enum Bo3Event {
    B333,
    B444,
    B555,
}

/// The identifier of an event.
pub open spec fn spec_id(event: EventType) -> Seq<char> {
    match event {
        EventType::Ao5(Ao5Event::S222) => "222"@,
        EventType::Ao5(Ao5Event::S333) => "333"@,
        EventType::Ao5(Ao5Event::S444) => "444"@,
        EventType::Ao5(Ao5Event::S555) => "555"@,
        EventType::Ao5(Ao5Event::S333oh) => "333oh"@,
        EventType::Ao5(Ao5Event::Megaminx) => "minx"@,
        EventType::Ao5(Ao5Event::Pyraminx) => "pyram"@,
        EventType::Ao5(Ao5Event::Clock) => "clock"@,
        EventType::Ao5(Ao5Event::Skewb) => "skewb"@,
        EventType::Ao5(Ao5Event::SQ1) => "sq1"@,
        EventType::Mo3(Mo3Event::S666) => "666"@,
        EventType::Mo3(Mo3Event::S777) => "777"@,
        EventType::Mo3(Mo3Event::F333) => "333fm"@,
        EventType::Bo3(Bo3Event::B333) => "333bf"@,
        EventType::Bo3(Bo3Event::B444) => "444bf"@,
        EventType::Bo3(Bo3Event::B555) => "555bf"@,
    }
}

/// The event that an identifier names, if any.
pub open spec fn spec_from_event_id(event_id: Seq<char>) -> Option<EventType> {
    if event_id == "222"@ {
        Some(EventType::Ao5(Ao5Event::S222))
    } else if event_id == "333"@ {
        Some(EventType::Ao5(Ao5Event::S333))
    } else if event_id == "444"@ {
        Some(EventType::Ao5(Ao5Event::S444))
    } else if event_id == "555"@ {
        Some(EventType::Ao5(Ao5Event::S555))
    } else if event_id == "333oh"@ {
        Some(EventType::Ao5(Ao5Event::S333oh))
    } else if event_id == "minx"@ {
        Some(EventType::Ao5(Ao5Event::Megaminx))
    } else if event_id == "pyram"@ {
        Some(EventType::Ao5(Ao5Event::Pyraminx))
    } else if event_id == "clock"@ {
        Some(EventType::Ao5(Ao5Event::Clock))
    } else if event_id == "skewb"@ {
        Some(EventType::Ao5(Ao5Event::Skewb))
    } else if event_id == "sq1"@ {
        Some(EventType::Ao5(Ao5Event::SQ1))
    } else if event_id == "666"@ {
        Some(EventType::Mo3(Mo3Event::S666))
    } else if event_id == "777"@ {
        Some(EventType::Mo3(Mo3Event::S777))
    } else if event_id == "333fm"@ {
        Some(EventType::Mo3(Mo3Event::F333))
    } else if event_id == "333bf"@ {
        Some(EventType::Bo3(Bo3Event::B333))
    } else if event_id == "444bf"@ {
        Some(EventType::Bo3(Bo3Event::B444))
    } else if event_id == "555bf"@ {
        Some(EventType::Bo3(Bo3Event::B555))
    } else {
        None
    }
}

/// Number of attempts a competitor makes in a round of the event.
pub open spec fn spec_num_attempts(event: EventType) -> nat {
    match event {
        EventType::Ao5(_) => 5,
        EventType::Mo3(_) => 3,
        EventType::Bo3(_) => 3,
    }
}

/// Whether the characters `id` spell `name`.
fn spells(id: &Vec<char>, name: &str) -> (r: bool)
    ensures
        r == (id@ == name@),
{
    let wanted = chars_of(name);
    same_chars(id, &wanted)
}

impl EventType {
    /// The event named by `event_id`; `None` for any other text.
    pub fn from_event_id(event_id: &str) -> (r: Option<Self>)
        ensures
            r == spec_from_event_id(event_id@),
    {
        let id = chars_of(event_id);
        if spells(&id, "222") {
            Some(Self::Ao5(Ao5Event::S222))
        } else if spells(&id, "333") {
            Some(Self::Ao5(Ao5Event::S333))
        } else if spells(&id, "444") {
            Some(Self::Ao5(Ao5Event::S444))
        } else if spells(&id, "555") {
            Some(Self::Ao5(Ao5Event::S555))
        } else if spells(&id, "333oh") {
            Some(Self::Ao5(Ao5Event::S333oh))
        } else if spells(&id, "minx") {
            Some(Self::Ao5(Ao5Event::Megaminx))
        } else if spells(&id, "pyram") {
            Some(Self::Ao5(Ao5Event::Pyraminx))
        } else if spells(&id, "clock") {
            Some(Self::Ao5(Ao5Event::Clock))
        } else if spells(&id, "skewb") {
            Some(Self::Ao5(Ao5Event::Skewb))
        } else if spells(&id, "sq1") {
            Some(Self::Ao5(Ao5Event::SQ1))
        } else if spells(&id, "666") {
            Some(Self::Mo3(Mo3Event::S666))
        } else if spells(&id, "777") {
            Some(Self::Mo3(Mo3Event::S777))
        } else if spells(&id, "333fm") {
            Some(Self::Mo3(Mo3Event::F333))
        } else if spells(&id, "333bf") {
            Some(Self::Bo3(Bo3Event::B333))
        } else if spells(&id, "444bf") {
            Some(Self::Bo3(Bo3Event::B444))
        } else if spells(&id, "555bf") {
            Some(Self::Bo3(Bo3Event::B555))
        } else {
            None
        }
    }

    /// The identifier of the event.
    pub fn id(&self) -> (r: &'static str)
        ensures
            r@ == spec_id(*self),
    {
        match self {
            Self::Ao5(Ao5Event::S222) => "222",
            Self::Ao5(Ao5Event::S333) => "333",
            Self::Ao5(Ao5Event::S444) => "444",
            Self::Ao5(Ao5Event::S555) => "555",
            Self::Ao5(Ao5Event::S333oh) => "333oh",
            Self::Ao5(Ao5Event::Megaminx) => "minx",
            Self::Ao5(Ao5Event::Pyraminx) => "pyram",
            Self::Ao5(Ao5Event::Clock) => "clock",
            Self::Ao5(Ao5Event::Skewb) => "skewb",
            Self::Ao5(Ao5Event::SQ1) => "sq1",
            Self::Mo3(Mo3Event::S666) => "666",
            Self::Mo3(Mo3Event::S777) => "777",
            Self::Mo3(Mo3Event::F333) => "333fm",
            Self::Bo3(Bo3Event::B333) => "333bf",
            Self::Bo3(Bo3Event::B444) => "444bf",
            Self::Bo3(Bo3Event::B555) => "555bf",
        }
    }

    /// Number of attempts per round: five for an average, three otherwise.
    pub fn num_attempts(&self) -> (r: usize)
        ensures
            r == spec_num_attempts(*self),
    {
        match self {
            Self::Ao5(_) => 5,
            Self::Mo3(_) => 3,
            Self::Bo3(_) => 3,
        }
    }
}

/// Reading back the identifier of an event gives that event.
pub proof fn lemma_id_round_trip(event: EventType)
    ensures
        spec_from_event_id(spec_id(event)) == Some(event),
{
    reveal_strlit("222");
    reveal_strlit("333");
    reveal_strlit("444");
    reveal_strlit("555");
    reveal_strlit("333oh");
    reveal_strlit("minx");
    reveal_strlit("pyram");
    reveal_strlit("clock");
    reveal_strlit("skewb");
    reveal_strlit("sq1");
    reveal_strlit("666");
    reveal_strlit("777");
    reveal_strlit("333fm");
    reveal_strlit("333bf");
    reveal_strlit("444bf");
    reveal_strlit("555bf");
    assert("222"@.len() == 3 && "333"@.len() == 3 && "444"@.len() == 3 && "555"@.len() == 3);
    assert("666"@.len() == 3 && "777"@.len() == 3 && "sq1"@.len() == 3 && "minx"@.len() == 4);
    assert("333oh"@.len() == 5 && "pyram"@.len() == 5 && "clock"@.len() == 5);
    assert("skewb"@.len() == 5 && "333fm"@.len() == 5 && "333bf"@.len() == 5);
    assert("444bf"@.len() == 5 && "555bf"@.len() == 5);
    assert("222"@[0] == '2' && "333"@[0] == '3' && "444"@[0] == '4' && "555"@[0] == '5');
    assert("666"@[0] == '6' && "777"@[0] == '7' && "sq1"@[0] == 's');
    assert("333oh"@[0] == '3' && "333fm"@[0] == '3' && "333bf"@[0] == '3');
    assert("333oh"@[3] == 'o' && "333fm"@[3] == 'f' && "333bf"@[3] == 'b');
    assert("pyram"@[0] == 'p' && "clock"@[0] == 'c' && "skewb"@[0] == 's');
    assert("444bf"@[0] == '4' && "555bf"@[0] == '5');
}

/// An identifier names an event only if it is that event's identifier.
pub proof fn lemma_named_event_has_id(event_id: Seq<char>, event: EventType)
    requires
        spec_from_event_id(event_id) == Some(event),
    ensures
        spec_id(event) == event_id,
{
}

} // verus!
