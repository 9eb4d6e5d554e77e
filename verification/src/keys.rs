//! Key presses: what a terminal sends for them, and what Linux input devices
//! report.
//!
//! On some boards input comes from buttons (volume, power) rather than from a
//! keyboard. Their events are turned into the bytes that a terminal would send.

use vstd::prelude::*;

verus! {

#[derive(Debug, Clone, Copy, PartialEq, Eq, Structural)]
pub enum Key {
    Up,
    Down,
    Left,
    Right,
    Enter,
    Escape,
    Backspace,
    Char(char),
    Unknown,
}

// --- Terminal input ---

/// The key that a single byte other than the escape byte stands for.
pub open spec fn plain_key(b: u8) -> Key {
    if b == 13 || b == 10 {
        Key::Enter
    } else if b == 127 || b == 8 {
        Key::Backspace
    } else if 0x20 <= b < 0x7f {
        Key::Char(b as char)
    } else {
        Key::Unknown
    }
}

/// The key that the escape byte and two more stand for.
pub open spec fn escape_key(a: u8, b: u8) -> Key {
    if a != 91 {
        Key::Unknown
    } else if b == 65 {
        Key::Up
    } else if b == 66 {
        Key::Down
    } else if b == 67 {
        Key::Right
    } else if b == 68 {
        Key::Left
    } else {
        Key::Unknown
    }
}

/// The key at the start of the input, and how many bytes it takes. An escape
/// byte that fewer than two bytes follow is the escape key, and takes them along.
pub open spec fn key_read(input: Seq<u8>) -> Option<(Key, int)> {
    if input.len() == 0 {
        None
    } else if input[0] != 27 {
        Some((plain_key(input[0]), 1))
    } else if input.len() < 3 {
        Some((Key::Escape, input.len() as int))
    } else {
        Some((escape_key(input[1], input[2]), 3))
    }
}

/// Parse a single key from raw terminal input.
pub fn read_key(input: &[u8]) -> (r: Option<(Key, usize)>)
    ensures
        match r {
            Some((k, n)) => key_read(input@) == Some((k, n as int)),
            None => key_read(input@) is None,
        },
{
    if input.len() == 0 {
        return None;
    }
    let b = input[0];
    if b != 27 {
        let key = if b == 13 || b == 10 {
            Key::Enter
        } else if b == 127 || b == 8 {
            Key::Backspace
        } else if b >= 0x20 && b < 0x7f {
            Key::Char(b as char)
        } else {
            Key::Unknown
        };
        return Some((key, 1));
    }
    if input.len() < 3 {
        return Some((Key::Escape, input.len()));
    }
    let key = if input[1] != 91 {
        Key::Unknown
    } else if input[2] == 65 {
        Key::Up
    } else if input[2] == 66 {
        Key::Down
    } else if input[2] == 67 {
        Key::Right
    } else if input[2] == 68 {
        Key::Left
    } else {
        Key::Unknown
    };
    Some((key, 3))
}

/// How many more bytes have to be read before the key that starts with `first`
/// is known.
pub fn bytes_after(first: u8) -> (r: usize)
    ensures
        r == (if first == 27 {
            2int
        } else {
            0
        }),
        forall|rest: Seq<u8>|
            rest.len() >= r ==> (#[trigger] key_read(seq![first] + rest) matches Some((k, n)) && n
                == 1 + r),
{
    if first == 27 {
        2
    } else {
        0
    }
}

// --- Events of input devices ---

/// The size of an event: a time of two machine words, a type, a code, and a
/// value.
pub open spec fn event_len() -> int {
    if usize::BITS == 64 {
        24
    } else {
        16
    }
}

/// The size of an event.
pub fn event_size() -> (r: usize)
    ensures
        r == event_len(),
{
    if usize::BITS == 64 {
        24
    } else {
        16
    }
}

/// Where the type of an event stands.
pub fn type_offset() -> (r: usize)
    ensures
        r == event_len() - 8,
{
    if usize::BITS == 64 {
        16
    } else {
        8
    }
}

pub const EV_KEY: u16 = 1;

pub const KEY_ESC: u16 = 1;

pub const KEY_BACKSPACE: u16 = 14;

pub const KEY_ENTER: u16 = 28;

pub const KEY_UP: u16 = 103;

pub const KEY_DOWN: u16 = 108;

pub const KEY_LEFT: u16 = 105;

pub const KEY_RIGHT: u16 = 106;

pub const KEY_VOLUMEUP: u16 = 115;

pub const KEY_VOLUMEDOWN: u16 = 114;

pub const KEY_POWER: u16 = 116;

/// The number that two bytes make, the low one first.
pub open spec fn word_at(b: Seq<u8>, i: int) -> int {
    b[i] + 256 * b[i + 1]
}

/// The key with the given code.
pub open spec fn coded_key(code: int) -> Option<Key> {
    if code == KEY_UP || code == KEY_VOLUMEUP {
        Some(Key::Up)
    } else if code == KEY_DOWN || code == KEY_VOLUMEDOWN {
        Some(Key::Down)
    } else if code == KEY_LEFT {
        Some(Key::Left)
    } else if code == KEY_RIGHT {
        Some(Key::Right)
    } else if code == KEY_ENTER || code == KEY_POWER {
        Some(Key::Enter)
    } else if code == KEY_ESC {
        Some(Key::Escape)
    } else if code == KEY_BACKSPACE {
        Some(Key::Backspace)
    } else {
        None
    }
}

/// Whether the value of an event is zero: the key was released.
pub open spec fn is_release(b: Seq<u8>, at: int) -> bool {
    b[at] == 0 && b[at + 1] == 0 && b[at + 2] == 0 && b[at + 3] == 0
}

/// The key press or repeat that an event reports.
pub open spec fn event_key(b: Seq<u8>) -> Option<Key> {
    let at = event_len() - 8;
    if b.len() != event_len() || word_at(b, at) != EV_KEY || is_release(b, at + 4) {
        None
    } else {
        coded_key(word_at(b, at + 2))
    }
}

/// Parse an event.
/// Returns None if the event isn't a key press/repeat or the key is unmapped.
pub fn parse_event(buf: &[u8]) -> (r: Option<Key>)
    ensures
        r == event_key(buf@),
{
    if buf.len() != event_size() {
        return None;
    }
    let at: usize = type_offset();
    let kind: u16 = buf[at] as u16 + 256 * (buf[at + 1] as u16);
    if kind != EV_KEY || (buf[at + 4] == 0 && buf[at + 5] == 0 && buf[at + 6] == 0 && buf[at + 7]
        == 0) {
        return None;
    }
    let code: u16 = buf[at + 2] as u16 + 256 * (buf[at + 3] as u16);
    if code == KEY_UP || code == KEY_VOLUMEUP {
        Some(Key::Up)
    } else if code == KEY_DOWN || code == KEY_VOLUMEDOWN {
        Some(Key::Down)
    } else if code == KEY_LEFT {
        Some(Key::Left)
    } else if code == KEY_RIGHT {
        Some(Key::Right)
    } else if code == KEY_ENTER || code == KEY_POWER {
        Some(Key::Enter)
    } else if code == KEY_ESC {
        Some(Key::Escape)
    } else if code == KEY_BACKSPACE {
        Some(Key::Backspace)
    } else {
        None
    }
}

// --- Device input as terminal input ---

/// The bytes that a terminal sends for a key. There are none for the escape key:
/// its byte alone would be taken for the start of a sequence.
pub open spec fn key_bytes(key: Key) -> Seq<u8> {
    match key {
        Key::Up => seq![27u8, 91u8, 65u8],
        Key::Down => seq![27u8, 91u8, 66u8],
        Key::Right => seq![27u8, 91u8, 67u8],
        Key::Left => seq![27u8, 91u8, 68u8],
        Key::Enter => seq![13u8],
        Key::Backspace => seq![127u8],
        Key::Char(c) => seq![(c as u32 % 256) as u8],
        Key::Escape => Seq::empty(),
        Key::Unknown => Seq::empty(),
    }
}

/// The bytes that stand for a key are read as that key.
pub proof fn key_bytes_read_back(key: Key, after: Seq<u8>)
    requires
        key != Key::Escape,
        key != Key::Unknown,
        key matches Key::Char(c) ==> 0x20 <= c as u32 && (c as u32) < 0x7f,
    ensures
        key_read(key_bytes(key) + after) == Some((key, key_bytes(key).len() as int)),
{
    let s = key_bytes(key) + after;
    assert(s[0] == key_bytes(key)[0]);
    if key_bytes(key).len() == 3 {
        assert(s[1] == 91);
        assert(s[2] == key_bytes(key)[2]);
    }
    if let Key::Char(c) = key {
        assert(c as u32 % 256 == c as u32);
        assert(((c as u32) as u8) as char == c);
    }
}

/// Translate a key into the bytes that `read_key` expects.
pub fn evdev_key_to_bytes(key: &Key) -> (r: Vec<u8>)
    ensures
        r@ == key_bytes(*key),
{
    let r: Vec<u8> = match key {
        Key::Up => vec![27, 91, 65],
        Key::Down => vec![27, 91, 66],
        Key::Right => vec![27, 91, 67],
        Key::Left => vec![27, 91, 68],
        Key::Enter => vec![13],
        Key::Backspace => vec![127],
        Key::Char(c) => vec![(*c as u32 % 256) as u8],
        Key::Escape => vec![],
        Key::Unknown => vec![],
    };
    assert(r@ =~= key_bytes(*key));
    r
}

/// Where the next bytes of input come from.
#[derive(Debug)]
pub enum Supply {
    /// These bytes are at hand.
    Bytes(Vec<u8>),
    /// The terminal is to be read.
    Terminal,
    /// The terminal and the devices are to be waited for.
    Wait,
    /// The devices with these numbers are to be tried, in this order.
    Devices(Vec<usize>),
}

/// Terminal input with the input of devices mixed in: what of a key has been
/// translated but not handed out.
#[derive(Debug)]
pub struct InputMux {
    pending: Vec<u8>,
    has_devices: bool,
}

/// The smaller of two numbers.
pub open spec fn least(a: int, b: int) -> int {
    if a < b {
        a
    } else {
        b
    }
}

/// The numbers of the devices that have input, in order.
pub open spec fn ready_numbers(ready: Seq<bool>) -> Seq<int>
    decreases ready.len(),
{
    if ready.len() == 0 {
        Seq::empty()
    } else if ready.last() {
        ready_numbers(ready.drop_last()).push(ready.len() - 1)
    } else {
        ready_numbers(ready.drop_last())
    }
}

impl InputMux {
    /// What is still to be handed out.
    pub closed spec fn rest(&self) -> Seq<u8> {
        self.pending@
    }

    /// Whether there are devices.
    pub closed spec fn devices(&self) -> bool {
        self.has_devices
    }

    pub fn new(has_devices: bool) -> (r: InputMux)
        ensures
            r.rest() == Seq::<u8>::empty(),
            r.devices() == has_devices,
    {
        InputMux { pending: Vec::new(), has_devices }
    }

    /// Hands out up to `want` bytes of what is pending; says what to do if
    /// nothing is.
    pub fn next_supply(&mut self, want: usize) -> (r: Supply)
        ensures
            final(self).devices() == old(self).devices(),
            old(self).rest().len() > 0 ==> (r matches Supply::Bytes(b) && b@ == old(
                self,
            ).rest().take(least(want as int, old(self).rest().len() as int)) && final(self).rest()
                == old(self).rest().skip(least(want as int, old(self).rest().len() as int))),
            old(self).rest().len() == 0 ==> final(self).rest() == old(self).rest() && (if old(
                self,
            ).devices() {
                r is Wait
            } else {
                r is Terminal
            }),
    {
        if self.pending.len() > 0 {
            let n: usize = if want < self.pending.len() {
                want
            } else {
                self.pending.len()
            };
            let later = self.pending.split_off(n);
            let mut now: Vec<u8> = Vec::new();
            now.append(&mut self.pending);
            self.pending = later;
            assert(now@ =~= old(self).rest().take(n as int));
            assert(self.pending@ =~= old(self).rest().skip(n as int));
            Supply::Bytes(now)
        } else if self.has_devices {
            Supply::Wait
        } else {
            Supply::Terminal
        }
    }

    /// Says what to read after waiting: the terminal if it has input, else the
    /// devices that have.
    pub fn after_wait(terminal_ready: bool, ready: &[bool]) -> (r: Supply)
        ensures
            terminal_ready ==> r is Terminal,
            !terminal_ready ==> (r matches Supply::Devices(d) && d@.map_values(|i: usize| i as int)
                == ready_numbers(ready@)),
    {
        if terminal_ready {
            return Supply::Terminal;
        }
        let mut out: Vec<usize> = Vec::new();
        let mut i: usize = 0;
        let ghost f = |i: usize| i as int;
        assert(ready@.take(0) =~= Seq::<bool>::empty());
        assert(out@.map_values(f) =~= Seq::<int>::empty());
        while i < ready.len()
            invariant
                i <= ready@.len(),
                f == (|i: usize| i as int),
                out@.map_values(f) == ready_numbers(ready@.take(i as int)),
            decreases ready@.len() - i,
        {
            let ghost before = out@;
            assert(ready@.take(i + 1).drop_last() =~= ready@.take(i as int));
            assert(ready@.take(i + 1).last() == ready@[i as int]);
            if ready[i] {
                out.push(i);
                assert(out@.map_values(f) =~= before.map_values(f).push(i as int));
            }
            i = i + 1;
        }
        assert(ready@.take(i as int) =~= ready@);
        Supply::Devices(out)
    }

    /// Takes what trying a device gave. If it is a key that the terminal has
    /// bytes for, hands out up to `want` of them and keeps the others.
    pub fn take_key(&mut self, key: Option<Key>, want: usize) -> (r: Option<Vec<u8>>)
        ensures
            final(self).devices() == old(self).devices(),
            match key {
                Some(k) => if key_bytes(k).len() == 0 {
                    r is None && final(self).rest() == old(self).rest()
                } else {
                    let n = least(want as int, key_bytes(k).len() as int);
                    r matches Some(b) && b@ == key_bytes(k).take(n) && (if n < key_bytes(k).len() {
                        final(self).rest() == key_bytes(k).skip(n)
                    } else {
                        final(self).rest() == old(self).rest()
                    })
                },
                None => r is None && final(self).rest() == old(self).rest(),
            },
    {
        let key = match key {
            Some(key) => key,
            None => {
                return None;
            },
        };
        let mut bytes = evdev_key_to_bytes(&key);
        if bytes.len() == 0 {
            return None;
        }
        if want < bytes.len() {
            let later = bytes.split_off(want);
            self.pending = later;
        } else {
            assert(bytes@.take(bytes@.len() as int) =~= bytes@);
        }
        Some(bytes)
    }
}

/// A key that is handed out one byte and then two at a time comes out whole, and
/// leaves nothing behind.
pub proof fn handed_out_whole(key: Key)
    requires
        key_bytes(key).len() > 0,
    ensures
        key_bytes(key).take(1) + key_bytes(key).skip(1) == key_bytes(key),
        key_bytes(key).skip(1).len() == 0 || key_bytes(key).skip(1).len() == 2,
{
    assert(key_bytes(key).take(1) + key_bytes(key).skip(1) =~= key_bytes(key));
}

/// A key of the terminal is one byte, or three that start with the escape byte; those
/// three are an arrow, or nothing that is known. What is read of the input never exceeds
/// it, and only where there is none nothing is read.
pub proof fn terminal_keys_are_read_whole(input: Seq<u8>)
    ensures
        key_read(input) is None <==> input.len() == 0,
        input.len() > 0 && input[0] != 27 ==> (key_read(input) matches Some((key, n)) && n == 1
            && key != Key::Escape),
        input.len() >= 3 && input[0] == 27 ==> (key_read(input) matches Some((key, n)) && n == 3
            && key != Key::Escape && (key == Key::Up <==> input[1] == 91 && input[2] == 65) && (key
            == Key::Down <==> input[1] == 91 && input[2] == 66) && (key == Key::Right <==> input[1]
            == 91 && input[2] == 67) && (key == Key::Left <==> input[1] == 91 && input[2] == 68)),
        0 < input.len() < 3 && input[0] == 27 ==> key_read(input) == Some(
            (Key::Escape, input.len() as int),
        ),
{
}

/// What single bytes are read as: line feed and carriage return as Enter, delete and
/// backspace as Backspace, the printable ones as their characters, and no other as
/// anything.
pub proof fn single_bytes_are_keys(b: u8, after: Seq<u8>)
    requires
        b != 27,
    ensures
        key_read(seq![b] + after) matches Some((key, n)) && {
            &&& key == Key::Enter <==> b == 10 || b == 13
            &&& key == Key::Backspace <==> b == 8 || b == 127
            &&& key is Char <==> 32 <= b < 127
            &&& key matches Key::Char(c) ==> c as u32 == b
            &&& key == Key::Unknown <==> (b < 32 && b != 8 && b != 10 && b != 13) || b > 127
        },
{
    assert((seq![b] + after)[0] == b);
}

/// What the keys of a device are read as: the arrows, Enter, Escape and Backspace as
/// such, the volume keys as up and down, and the power button as Enter. No other code is
/// a key.
pub proof fn device_codes_are_keys(code: int)
    ensures
        coded_key(code) == Some(Key::Up) <==> code == 103 || code == 115,
        coded_key(code) == Some(Key::Down) <==> code == 108 || code == 114,
        coded_key(code) == Some(Key::Left) <==> code == 105,
        coded_key(code) == Some(Key::Right) <==> code == 106,
        coded_key(code) == Some(Key::Enter) <==> code == 28 || code == 116,
        coded_key(code) == Some(Key::Escape) <==> code == 1,
        coded_key(code) == Some(Key::Backspace) <==> code == 14,
        coded_key(code) is Some ==> code == 103 || code == 115 || code == 108 || code == 114 || code
            == 105 || code == 106 || code == 28 || code == 116 || code == 1 || code == 14,
{
}

/// An event tells of a key exactly if it is whole, of the kind of keys, and not a
/// release: whatever the time in front of it and however often the key repeats.
pub proof fn events_tell_of_keys(time: Seq<u8>, kind: u16, code: u16, value: Seq<u8>)
    requires
        time.len() == event_len() - 8,
        value.len() == 4,
    ensures
        ({
            let b = time + seq![
                (kind % 256) as u8,
                (kind / 256) as u8,
                (code % 256) as u8,
                (code / 256) as u8,
            ] + value;
            event_key(b) == (if kind == 1 && value != seq![0u8, 0u8, 0u8, 0u8] {
                coded_key(code as int)
            } else {
                None
            })
        }),
{
    let b = time + seq![
        (kind % 256) as u8,
        (kind / 256) as u8,
        (code % 256) as u8,
        (code / 256) as u8,
    ] + value;
    let at = event_len() - 8;
    assert(b.len() == event_len());
    assert(b[at] == (kind % 256) as u8 && b[at + 1] == (kind / 256) as u8);
    assert(b[at + 2] == (code % 256) as u8 && b[at + 3] == (code / 256) as u8);
    assert(b[at + 4] == value[0] && b[at + 5] == value[1] && b[at + 6] == value[2] && b[at + 7]
        == value[3]);
    assert(word_at(b, at) == kind && word_at(b, at + 2) == code);
    if is_release(b, at + 4) {
        assert(value =~= seq![0u8, 0u8, 0u8, 0u8]);
    }
}

proof fn lemma_ready_numbers(ready: Seq<bool>, k: int)
    ensures
        ready_numbers(ready).contains(k) <==> 0 <= k < ready.len() && ready[k],
        forall|i: int|
            0 <= i < ready_numbers(ready).len() ==> 0 <= #[trigger] ready_numbers(ready)[i]
                < ready.len(),
        forall|i: int, j: int|
            #![trigger ready_numbers(ready)[i], ready_numbers(ready)[j]]
            0 <= i < j < ready_numbers(ready).len() ==> ready_numbers(ready)[i] < ready_numbers(
                ready,
            )[j],
    decreases ready.len(),
{
    if ready.len() > 0 {
        let init = ready.drop_last();
        lemma_ready_numbers(init, k);
        let before = ready_numbers(init);
        let all = ready_numbers(ready);
        if before.contains(k) {
            let i = choose|i: int| 0 <= i < before.len() && before[i] == k;
            assert(all[i] == k);
        }
        if ready.last() && k == ready.len() - 1 {
            assert(all[before.len() as int] == k);
        }
        if all.contains(k) {
            let i = choose|i: int| 0 <= i < all.len() && all[i] == k;
            if i < before.len() {
                assert(before[i] == k);
                assert(before.contains(k));
            }
        }
        assert forall|i: int| 0 <= i < all.len() implies 0 <= #[trigger] all[i] < ready.len() by {
            if i < before.len() {
                assert(all[i] == before[i]);
            }
        }
        assert forall|i: int, j: int|
            #![trigger all[i], all[j]]
            0 <= i < j < all.len() implies all[i] < all[j] by {
            assert(all[i] == before[i]);
            if j < before.len() {
                assert(all[j] == before[j]);
            }
        }
    }
}

/// The devices that are tried are those that have input, every one of them and no other,
/// in their order.
pub proof fn ready_devices_are_tried(ready: Seq<bool>, k: int)
    ensures
        ready_numbers(ready).contains(k) <==> 0 <= k < ready.len() && ready[k],
        forall|i: int, j: int|
            #![trigger ready_numbers(ready)[i], ready_numbers(ready)[j]]
            0 <= i < j < ready_numbers(ready).len() ==> ready_numbers(ready)[i] < ready_numbers(
                ready,
            )[j],
{
    lemma_ready_numbers(ready, k);
}

} // verus!
