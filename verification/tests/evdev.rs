//! Events of input devices.

use kexec_menu::keys::{
    event_size, parse_event, type_offset, Key, EV_KEY, KEY_ENTER, KEY_POWER, KEY_UP, KEY_VOLUMEDOWN,
    KEY_VOLUMEUP,
};


#[test]
fn parse_key_press_up() {
    // Simulate a 64-bit input_event for KEY_UP press
    let at = type_offset();
    let mut buf = vec![0u8; event_size()];
    // type = EV_KEY (1)
    buf[at..at + 2].copy_from_slice(&EV_KEY.to_ne_bytes());
    // code = KEY_UP (103)
    buf[at + 2..at + 4].copy_from_slice(&KEY_UP.to_ne_bytes());
    // value = 1 (press)
    buf[at + 4..at + 8].copy_from_slice(&1i32.to_ne_bytes());
    let key = parse_event(&buf);
    assert_eq!(key, Some(Key::Up));
}

#[test]
fn parse_key_release_ignored() {
    let at = type_offset();
    let mut buf = vec![0u8; event_size()];
    buf[at..at + 2].copy_from_slice(&EV_KEY.to_ne_bytes());
    buf[at + 2..at + 4].copy_from_slice(&KEY_ENTER.to_ne_bytes());
    buf[at + 4..at + 8].copy_from_slice(&0i32.to_ne_bytes()); // release
    assert_eq!(parse_event(&buf), None);
}

#[test]
fn parse_key_repeat_handled() {
    let at = type_offset();
    let mut buf = vec![0u8; event_size()];
    buf[at..at + 2].copy_from_slice(&EV_KEY.to_ne_bytes());
    buf[at + 2..at + 4].copy_from_slice(&KEY_VOLUMEDOWN.to_ne_bytes());
    buf[at + 4..at + 8].copy_from_slice(&2i32.to_ne_bytes()); // repeat
    assert_eq!(parse_event(&buf), Some(Key::Down));
}

#[test]
fn parse_volume_keys() {
    let at = type_offset();
    let mut buf = vec![0u8; event_size()];
    buf[at..at + 2].copy_from_slice(&EV_KEY.to_ne_bytes());
    buf[at + 4..at + 8].copy_from_slice(&1i32.to_ne_bytes());

    buf[at + 2..at + 4].copy_from_slice(&KEY_VOLUMEUP.to_ne_bytes());
    assert_eq!(parse_event(&buf), Some(Key::Up));

    buf[at + 2..at + 4].copy_from_slice(&KEY_VOLUMEDOWN.to_ne_bytes());
    assert_eq!(parse_event(&buf), Some(Key::Down));
}

#[test]
fn parse_power_key() {
    let at = type_offset();
    let mut buf = vec![0u8; event_size()];
    buf[at..at + 2].copy_from_slice(&EV_KEY.to_ne_bytes());
    buf[at + 2..at + 4].copy_from_slice(&KEY_POWER.to_ne_bytes());
    buf[at + 4..at + 8].copy_from_slice(&1i32.to_ne_bytes());
    assert_eq!(parse_event(&buf), Some(Key::Enter));
}

#[test]
fn parse_non_key_event_ignored() {
    let at = type_offset();
    let mut buf = vec![0u8; event_size()];
    // EV_SYN = 0
    buf[at..at + 2].copy_from_slice(&0u16.to_ne_bytes());
    buf[at + 4..at + 8].copy_from_slice(&1i32.to_ne_bytes());
    assert_eq!(parse_event(&buf), None);
}

#[test]
fn parse_unmapped_key_ignored() {
    let at = type_offset();
    let mut buf = vec![0u8; event_size()];
    buf[at..at + 2].copy_from_slice(&EV_KEY.to_ne_bytes());
    buf[at + 2..at + 4].copy_from_slice(&200u16.to_ne_bytes()); // unmapped
    buf[at + 4..at + 8].copy_from_slice(&1i32.to_ne_bytes());
    assert_eq!(parse_event(&buf), None);
}
