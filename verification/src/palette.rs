//! Colours of the table: one per socket state, one per zone of trust. The
//! terminal colours themselves are the renderer's.
use crate::analysis::Zone;
use crate::text::{chars_of, is_lit};
use vstd::prelude::*;

verus! {

#[derive(Debug, Clone, Copy, PartialEq, Eq, Structural)]
pub enum Tint {
    Green,
    LightBlue,
    Yellow,
    Magenta,
    LightRed,
    Red,
    DarkGray,
    White,
    Cyan,
    LightYellow,
}

/// Colour of each socket state, chosen to tell the states apart at a glance.
pub open spec fn state_tint(state: Seq<char>) -> Tint {
    if state == "ESTAB"@ {
        Tint::Green
    } else if state == "LISTEN"@ {
        Tint::LightBlue
    } else if state == "SYN-SENT"@ || state == "SYN-RECV"@ {
        Tint::Yellow
    } else if state == "TIME-WAIT"@ {
        Tint::Magenta
    } else if state == "CLOSE-WAIT"@ || state == "LAST-ACK"@ || state == "CLOSING"@ {
        Tint::LightRed
    } else if state == "FIN-WAIT-1"@ || state == "FIN-WAIT-2"@ {
        Tint::Red
    } else if state == "UNCONN"@ {
        Tint::DarkGray
    } else {
        Tint::White
    }
}

pub fn state_color(state: &str) -> (t: Tint)
    ensures
        t == state_tint(state@),
{
    let s = chars_of(state);
    if is_lit(&s, "ESTAB") {
        Tint::Green
    } else if is_lit(&s, "LISTEN") {
        Tint::LightBlue
    } else if is_lit(&s, "SYN-SENT") || is_lit(&s, "SYN-RECV") {
        Tint::Yellow
    } else if is_lit(&s, "TIME-WAIT") {
        Tint::Magenta
    } else if is_lit(&s, "CLOSE-WAIT") || is_lit(&s, "LAST-ACK") || is_lit(&s, "CLOSING") {
        Tint::LightRed
    } else if is_lit(&s, "FIN-WAIT-1") || is_lit(&s, "FIN-WAIT-2") {
        Tint::Red
    } else if is_lit(&s, "UNCONN") {
        Tint::DarkGray
    } else {
        Tint::White
    }
}

/// Colour of the remote address by its zone of trust (the internet stands out).
pub open spec fn zone_tint(z: Zone) -> Tint {
    match z {
        Zone::Loopback => Tint::DarkGray,
        Zone::LinkLocal => Tint::DarkGray,
        Zone::Lan => Tint::Cyan,
        Zone::Public => Tint::LightYellow,
        Zone::Any => Tint::DarkGray,
    }
}

pub fn zone_color(z: Zone) -> (t: Tint)
    ensures
        t == zone_tint(z),
{
    match z {
        Zone::Loopback => Tint::DarkGray,
        Zone::LinkLocal => Tint::DarkGray,
        Zone::Lan => Tint::Cyan,
        Zone::Public => Tint::LightYellow,
        Zone::Any => Tint::DarkGray,
    }
}

/// The colours of the states: an active connection green, a listener light
/// blue, a handshake yellow, TIME-WAIT magenta, half-closed light red,
/// closing red, UDP without connection dark gray; the colours of the zones:
/// the internet light yellow, the local network cyan, the rest dark gray.
pub proof fn law_palette()
    ensures
        state_tint("ESTAB"@) == Tint::Green,
        state_tint("LISTEN"@) == Tint::LightBlue,
        state_tint("SYN-SENT"@) == Tint::Yellow,
        state_tint("SYN-RECV"@) == Tint::Yellow,
        state_tint("TIME-WAIT"@) == Tint::Magenta,
        state_tint("CLOSE-WAIT"@) == Tint::LightRed,
        state_tint("LAST-ACK"@) == Tint::LightRed,
        state_tint("CLOSING"@) == Tint::LightRed,
        state_tint("FIN-WAIT-1"@) == Tint::Red,
        state_tint("FIN-WAIT-2"@) == Tint::Red,
        state_tint("UNCONN"@) == Tint::DarkGray,
        zone_tint(Zone::Public) == Tint::LightYellow,
        zone_tint(Zone::Lan) == Tint::Cyan,
        zone_tint(Zone::Loopback) == Tint::DarkGray,
        zone_tint(Zone::LinkLocal) == Tint::DarkGray,
        zone_tint(Zone::Any) == Tint::DarkGray,
{
    reveal_strlit("ESTAB");
    reveal_strlit("LISTEN");
    reveal_strlit("SYN-SENT");
    reveal_strlit("SYN-RECV");
    reveal_strlit("TIME-WAIT");
    reveal_strlit("CLOSE-WAIT");
    reveal_strlit("LAST-ACK");
    reveal_strlit("CLOSING");
    reveal_strlit("FIN-WAIT-1");
    reveal_strlit("FIN-WAIT-2");
    reveal_strlit("UNCONN");
    assert("LISTEN"@.len() != "ESTAB"@.len());
    assert("SYN-SENT"@.len() != "ESTAB"@.len());
    assert("SYN-SENT"@.len() != "LISTEN"@.len());
    assert("SYN-RECV"@.len() != "ESTAB"@.len());
    assert("SYN-RECV"@.len() != "LISTEN"@.len());
    assert("SYN-RECV"@[4] != "SYN-SENT"@[4]);
    assert("TIME-WAIT"@.len() != "ESTAB"@.len());
    assert("TIME-WAIT"@.len() != "LISTEN"@.len());
    assert("TIME-WAIT"@.len() != "SYN-SENT"@.len());
    assert("TIME-WAIT"@.len() != "SYN-RECV"@.len());
    assert("CLOSE-WAIT"@.len() != "ESTAB"@.len());
    assert("CLOSE-WAIT"@.len() != "LISTEN"@.len());
    assert("CLOSE-WAIT"@.len() != "SYN-SENT"@.len());
    assert("CLOSE-WAIT"@.len() != "SYN-RECV"@.len());
    assert("CLOSE-WAIT"@.len() != "TIME-WAIT"@.len());
    assert("LAST-ACK"@.len() != "ESTAB"@.len());
    assert("LAST-ACK"@.len() != "LISTEN"@.len());
    assert("LAST-ACK"@[0] != "SYN-SENT"@[0]);
    assert("LAST-ACK"@[0] != "SYN-RECV"@[0]);
    assert("LAST-ACK"@.len() != "TIME-WAIT"@.len());
    assert("LAST-ACK"@.len() != "CLOSE-WAIT"@.len());
    assert("CLOSING"@.len() != "ESTAB"@.len());
    assert("CLOSING"@.len() != "LISTEN"@.len());
    assert("CLOSING"@.len() != "SYN-SENT"@.len());
    assert("CLOSING"@.len() != "SYN-RECV"@.len());
    assert("CLOSING"@.len() != "TIME-WAIT"@.len());
    assert("CLOSING"@.len() != "CLOSE-WAIT"@.len());
    assert("CLOSING"@.len() != "LAST-ACK"@.len());
    assert("FIN-WAIT-1"@.len() != "ESTAB"@.len());
    assert("FIN-WAIT-1"@.len() != "LISTEN"@.len());
    assert("FIN-WAIT-1"@.len() != "SYN-SENT"@.len());
    assert("FIN-WAIT-1"@.len() != "SYN-RECV"@.len());
    assert("FIN-WAIT-1"@.len() != "TIME-WAIT"@.len());
    assert("FIN-WAIT-1"@[0] != "CLOSE-WAIT"@[0]);
    assert("FIN-WAIT-1"@.len() != "LAST-ACK"@.len());
    assert("FIN-WAIT-1"@.len() != "CLOSING"@.len());
    assert("FIN-WAIT-2"@.len() != "ESTAB"@.len());
    assert("FIN-WAIT-2"@.len() != "LISTEN"@.len());
    assert("FIN-WAIT-2"@.len() != "SYN-SENT"@.len());
    assert("FIN-WAIT-2"@.len() != "SYN-RECV"@.len());
    assert("FIN-WAIT-2"@.len() != "TIME-WAIT"@.len());
    assert("FIN-WAIT-2"@[0] != "CLOSE-WAIT"@[0]);
    assert("FIN-WAIT-2"@.len() != "LAST-ACK"@.len());
    assert("FIN-WAIT-2"@.len() != "CLOSING"@.len());
    assert("FIN-WAIT-2"@[9] != "FIN-WAIT-1"@[9]);
    assert("UNCONN"@.len() != "ESTAB"@.len());
    assert("UNCONN"@[0] != "LISTEN"@[0]);
    assert("UNCONN"@.len() != "SYN-SENT"@.len());
    assert("UNCONN"@.len() != "SYN-RECV"@.len());
    assert("UNCONN"@.len() != "TIME-WAIT"@.len());
    assert("UNCONN"@.len() != "CLOSE-WAIT"@.len());
    assert("UNCONN"@.len() != "LAST-ACK"@.len());
    assert("UNCONN"@.len() != "CLOSING"@.len());
    assert("UNCONN"@.len() != "FIN-WAIT-1"@.len());
    assert("UNCONN"@.len() != "FIN-WAIT-2"@.len());
}

} // verus!
