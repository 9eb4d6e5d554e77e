//! Keys from the terminal and from input devices.

use kexec_menu::keys::{
    bytes_after, event_size, evdev_key_to_bytes, parse_event, read_key, type_offset, InputMux, Key,
    Supply,
};

fn event(kind: u16, code: u16, value: i32) -> Vec<u8> {
    let mut buf = vec![0u8; event_size()];
    let at = type_offset();
    buf[at..at + 2].copy_from_slice(&kind.to_le_bytes());
    buf[at + 2..at + 4].copy_from_slice(&code.to_le_bytes());
    buf[at + 4..at + 8].copy_from_slice(&value.to_le_bytes());
    buf
}

#[test]
fn keys_take_their_bytes() {
    assert_eq!(read_key(b""), None);
    assert_eq!(read_key(b"\x1b[Crest"), Some((Key::Right, 3)));
    assert_eq!(read_key(b"ab"), Some((Key::Char('a'), 1)));
    assert_eq!(read_key(b"\x7f"), Some((Key::Backspace, 1)));
    assert_eq!(read_key(b"\x08"), Some((Key::Backspace, 1)));
    assert_eq!((bytes_after(0x1b), bytes_after(b'a')), (2, 0));
}

#[test]
fn device_keys_read_back_from_the_terminal() {
    let keys =
        [Key::Up, Key::Down, Key::Left, Key::Right, Key::Enter, Key::Backspace, Key::Char('q'), Key::Char('7')];
    for key in keys {
        let mut bytes = evdev_key_to_bytes(&key);
        let n = bytes.len();
        bytes.extend_from_slice(b"xyz");
        assert_eq!(read_key(&bytes), Some((key, n)));
    }
    assert_eq!(evdev_key_to_bytes(&Key::Escape), Vec::<u8>::new());
    assert_eq!(evdev_key_to_bytes(&Key::Up), b"\x1b[A".to_vec());
}

#[test]
fn events_are_keys_when_pressed_or_repeated() {
    assert_eq!(parse_event(&event(1, 103, 1)), Some(Key::Up));
    assert_eq!(parse_event(&event(1, 115, 2)), Some(Key::Up));
    assert_eq!(parse_event(&event(1, 114, -1)), Some(Key::Down));
    assert_eq!(parse_event(&event(1, 116, 1)), Some(Key::Enter));
    assert_eq!(parse_event(&event(1, 103, 0)), None);
    assert_eq!(parse_event(&event(2, 103, 1)), None);
    assert_eq!(parse_event(&event(1, 30, 1)), None);
    assert_eq!(parse_event(&event(1, 103 + 256, 1)), None);
    let short = &event(1, 103, 1)[..event_size() - 1];
    assert_eq!(parse_event(short), None);
}

#[test]
fn terminal_alone_is_read_directly() {
    let mut mux = InputMux::new(false);
    assert!(matches!(mux.next_supply(1), Supply::Terminal));
}

#[test]
fn a_device_key_is_handed_out_in_pieces() {
    let mut mux = InputMux::new(true);
    assert!(matches!(mux.next_supply(1), Supply::Wait));
    assert_eq!(mux.take_key(Some(Key::Left), 1), Some(b"\x1b".to_vec()));
    match mux.next_supply(5) {
        Supply::Bytes(b) => assert_eq!(b, b"[D"),
        other => panic!("{other:?}"),
    }
    assert!(matches!(mux.next_supply(1), Supply::Wait));
    assert_eq!(mux.take_key(Some(Key::Down), 3), Some(b"\x1b[B".to_vec()));
    assert!(matches!(mux.next_supply(1), Supply::Wait));
}

#[test]
fn keys_without_bytes_are_passed_over() {
    let mut mux = InputMux::new(true);
    assert_eq!(mux.take_key(Some(Key::Escape), 3), None);
    assert_eq!(mux.take_key(None, 3), None);
    assert!(matches!(mux.next_supply(1), Supply::Wait));
}

#[test]
fn the_terminal_goes_before_the_devices() {
    assert!(matches!(InputMux::after_wait(true, &[true]), Supply::Terminal));
    match InputMux::after_wait(false, &[false, true, false, true]) {
        Supply::Devices(d) => assert_eq!(d, vec![1, 3]),
        other => panic!("{other:?}"),
    }
    match InputMux::after_wait(false, &[]) {
        Supply::Devices(d) => assert!(d.is_empty()),
        other => panic!("{other:?}"),
    }
}
