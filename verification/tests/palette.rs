use shell_mon::analysis::Zone;
use shell_mon::palette::{state_color, zone_color, Tint};

#[test]
fn state_and_zone_colours() {
    assert_eq!(state_color("ESTAB"), Tint::Green);
    assert_eq!(state_color("LISTEN"), Tint::LightBlue);
    assert_eq!(state_color("SYN-RECV"), Tint::Yellow);
    assert_eq!(state_color("TIME-WAIT"), Tint::Magenta);
    assert_eq!(state_color("LAST-ACK"), Tint::LightRed);
    assert_eq!(state_color("FIN-WAIT-2"), Tint::Red);
    assert_eq!(state_color("UNCONN"), Tint::DarkGray);
    assert_eq!(state_color("???"), Tint::White);
    assert_eq!(zone_color(Zone::Public), Tint::LightYellow);
    assert_eq!(zone_color(Zone::Lan), Tint::Cyan);
}
