//! What is handed to the next kernel: the remembered selection, kept in an EFI
//! variable, and the key archive, an additional initrd segment.

use vstd::arithmetic::div_mod::lemma_mod_mod;
use vstd::prelude::*;
use vstd::slice::slice_subrange;
use vstd::utf8::{
    decode_utf8, decode_utf8_encode_utf8, encode_utf8, encode_utf8_decode_utf8,
    encode_utf8_valid_utf8, valid_utf8,
};

use crate::json::complains;
use crate::path::{
    file_name_of, is_plain_name, joined, joined_name_is_child, parent_of, same_path, BootPath,
};
use crate::text::{chars_of, copy_bytes, push_bytes, text_from_utf8, text_of, utf8_lossy};
use crate::types::{opt_selection, BootSelection, Error, SelectionView};

verus! {

// --- The remembered selection ---
//
// The selection is stored in an EFI variable, a file whose first four bytes are
// the attributes of the variable. The rest is the path of the leaf, a newline,
// and the name of the entry.

/// Where the kernel shows the EFI variable that holds the selection.
pub const EFI_SELECTION_PATH: &'static str =
    "/sys/firmware/efi/efivars/KexecMenuSelection-e518894a-0634-4b2d-b448-e654c0eda6a7";

/// Where the kernel shows the EFI variable that holds the autoboot timeout.
pub const EFI_TIMEOUT_PATH: &'static str =
    "/sys/firmware/efi/efivars/KexecMenuTimeout-e518894a-0634-4b2d-b448-e654c0eda6a7";

/// The path of the EFI variable that holds the selection.
pub fn efivar_path() -> (r: BootPath)
    ensures
        r@ == encode_utf8(
            "/sys/firmware/efi/efivars/KexecMenuSelection-e518894a-0634-4b2d-b448-e654c0eda6a7"@,
        ),
{
    BootPath::from_text(EFI_SELECTION_PATH)
}

/// The payload that stores a selection. What is not UTF-8 in the path is
/// replaced.
pub open spec fn payload(sel: SelectionView) -> Seq<u8> {
    (if valid_utf8(sel.leaf_path) {
        sel.leaf_path
    } else {
        encode_utf8(utf8_lossy(sel.leaf_path))
    }) + seq![10u8] + encode_utf8(sel.entry_name)
}

/// Serialize a boot selection into the EFI variable payload (without attributes).
pub fn serialize_boot_selection(sel: &BootSelection) -> (r: Vec<u8>)
    ensures
        r@ == payload(sel@),
{
    let mut buf: Vec<u8> = Vec::new();
    let text = crate::text::lossy_text(sel.leaf_path.bytes.as_slice());
    proof {
        if valid_utf8(sel.leaf_path@) {
            decode_utf8_encode_utf8(sel.leaf_path@);
        }
    }
    push_bytes(&mut buf, text.as_str().as_bytes());
    buf.push(10);
    push_bytes(&mut buf, sel.entry_name.as_str().as_bytes());
    assert(buf@ =~= payload(sel@));
    buf
}

/// The first newline in a text, from `from` on.
pub open spec fn newline_at(t: Seq<char>, from: int) -> Option<int>
    decreases t.len() - from,
{
    if from < 0 || from >= t.len() {
        None
    } else if t[from] == '\n' {
        Some(from)
    } else {
        newline_at(t, from + 1)
    }
}

/// The selection that a payload stores, or what is wrong with it. Everything
/// behind the first newline is the name of the entry.
pub open spec fn stored_selection(data: Seq<u8>) -> Result<SelectionView, Seq<char>> {
    if !valid_utf8(data) {
        Err("efi var: invalid UTF-8"@)
    } else {
        let t = decode_utf8(data);
        match newline_at(t, 0) {
            None => Err("efi var: missing entry_name"@),
            Some(i) => if i == 0 || i + 1 == t.len() {
                Err("efi var: empty field"@)
            } else {
                Ok(
                    SelectionView {
                        leaf_path: encode_utf8(t.take(i)),
                        entry_name: t.skip(i + 1),
                    },
                )
            },
        }
    }
}

/// Deserialize a boot selection from EFI variable payload (without attributes).
pub fn deserialize_boot_selection(data: &[u8]) -> (r: Result<BootSelection, Error>)
    ensures
        match r {
            Ok(sel) => stored_selection(data@) == Ok::<SelectionView, Seq<char>>(sel@),
            Err(e) => stored_selection(data@) matches Err(m) && complains(e, m),
        },
{
    let text = match text_from_utf8(data) {
        Some(text) => text,
        None => {
            return Err(Error::Parse("efi var: invalid UTF-8".to_owned()));
        },
    };
    let chars = chars_of(text.as_str());
    let ghost t = chars@;
    let mut i: usize = 0;
    while i < chars.len() && chars[i] != '\n'
        invariant
            i <= chars@.len(),
            t == chars@,
            newline_at(t, 0) == newline_at(t, i as int),
        decreases chars@.len() - i,
    {
        i = i + 1;
    }
    if i >= chars.len() {
        return Err(Error::Parse("efi var: missing entry_name".to_owned()));
    }
    if i == 0 || i + 1 == chars.len() {
        return Err(Error::Parse("efi var: empty field".to_owned()));
    }
    let path = text_of(slice_subrange(chars.as_slice(), 0, i));
    let name = text_of(slice_subrange(chars.as_slice(), i + 1, chars.len()));
    assert(path@ =~= t.take(i as int));
    assert(name@ =~= t.skip(i + 1));
    Ok(BootSelection { leaf_path: BootPath::from_text(path.as_str()), entry_name: name })
}

/// The selection that the file of the EFI variable holds.
pub open spec fn remembered(file: Option<Seq<u8>>) -> Option<SelectionView> {
    match file {
        None => None,
        Some(data) => if data.len() <= 4 {
            None
        } else {
            match stored_selection(data.skip(4)) {
                Ok(sel) => Some(sel),
                Err(_) => None,
            }
        },
    }
}

/// The view of optional bytes.
pub open spec fn opt_bytes(b: Option<&[u8]>) -> Option<Seq<u8>> {
    match b {
        Some(x) => Some(x@),
        None => None,
    }
}

/// Read the last boot selection from the contents of its EFI variable, if it
/// could be read. Returns None if there is none or it makes no sense.
pub fn read_efi_selection(file: Option<&[u8]>) -> (r: Option<BootSelection>)
    ensures
        opt_selection(r) == remembered(opt_bytes(file)),
{
    let data = match file {
        Some(data) => data,
        None => {
            return None;
        },
    };
    if data.len() <= 4 {
        return None;
    }
    let rest = slice_subrange(data, 4, data.len());
    assert(rest@ =~= data@.skip(4));
    match deserialize_boot_selection(rest) {
        Ok(sel) => Some(sel),
        Err(_) => None,
    }
}

/// The timeout that the file of an EFI variable holds.
pub open spec fn stored_timeout(file: Option<Seq<u8>>) -> Option<u16> {
    match file {
        Some(data) => if data.len() < 6 {
            None
        } else {
            Some((data[4] + 256 * data[5]) as u16)
        },
        None => None,
    }
}

/// Reading a stored timeout gives it back: it is stored behind the four bytes of the
/// attributes, with the low byte first. A file that is too short holds none.
pub proof fn stored_timeout_read_back(t: u16, attributes: Seq<u8>, after: Seq<u8>)
    requires
        attributes.len() == 4,
    ensures
        stored_timeout(
            Some(attributes + seq![(t % 256) as u8, (t / 256) as u8] + after),
        ) == Some(t),
        after.len() < 6 ==> stored_timeout(Some(after)) is None,
        stored_timeout(None) is None,
{
    let data = attributes + seq![(t % 256) as u8, (t / 256) as u8] + after;
    assert(data[4] == (t % 256) as u8 && data[5] == (t / 256) as u8);
}

/// Read the autoboot timeout, in seconds, from the contents of its EFI variable,
/// if it could be read: two bytes behind the attributes, the low one first.
pub fn read_efi_timeout(file: Option<&[u8]>) -> (r: Option<u16>)
    ensures
        r == stored_timeout(opt_bytes(file)),
{
    match file {
        Some(data) => if data.len() < 6 {
            None
        } else {
            Some(data[4] as u16 + 256 * (data[5] as u16))
        },
        None => None,
    }
}

/// The file of the EFI variable that stores a selection. The attributes say that
/// the variable is kept over a reset, and can be used before and after the
/// kernel has started.
pub open spec fn efi_file(sel: SelectionView) -> Seq<u8> {
    seq![7u8, 0u8, 0u8, 0u8] + payload(sel)
}

/// What is written to the EFI variable to remember a selection.
pub fn efi_selection_file(sel: &BootSelection) -> (r: Vec<u8>)
    ensures
        r@ == efi_file(sel@),
{
    let mut buf: Vec<u8> = vec![7, 0, 0, 0];
    let payload = serialize_boot_selection(sel);
    push_bytes(&mut buf, payload.as_slice());
    assert(buf@ =~= efi_file(sel@));
    buf
}

// --- Laws of the remembered selection ---

proof fn lemma_encode_apart(a: Seq<char>, b: Seq<char>)
    ensures
        encode_utf8(a + b) == encode_utf8(a) + encode_utf8(b),
    decreases a.len(),
{
    if a.len() == 0 {
        assert(a + b =~= b);
        assert(encode_utf8(a) =~= Seq::<u8>::empty());
        assert(encode_utf8(a) + encode_utf8(b) =~= encode_utf8(b));
    } else {
        lemma_encode_apart(a.drop_first(), b);
        assert((a + b).drop_first() =~= a.drop_first() + b);
        assert((a + b)[0] == a[0]);
        assert(encode_utf8(a + b) =~= encode_utf8(a) + encode_utf8(b));
    }
}

proof fn lemma_first_newline(t: Seq<char>, i: int, from: int)
    requires
        0 <= from <= i < t.len(),
        t[i] == '\n',
        forall|k: int| from <= k < i ==> t[k] != '\n',
    ensures
        newline_at(t, from) == Some(i),
    decreases i - from,
{
    if from < i {
        lemma_first_newline(t, i, from + 1);
    }
}

/// Whether a selection can be stored: its path is UTF-8, neither field is empty,
/// and there is no newline in the path.
pub open spec fn can_be_stored(sel: SelectionView) -> bool {
    &&& valid_utf8(sel.leaf_path)
    &&& sel.leaf_path.len() > 0
    &&& sel.entry_name.len() > 0
    &&& !decode_utf8(sel.leaf_path).contains('\n')
}

/// Reading a stored selection gives it back.
pub proof fn stored_selection_read_back(sel: SelectionView)
    requires
        can_be_stored(sel),
    ensures
        stored_selection(payload(sel)) == Ok::<SelectionView, Seq<char>>(sel),
        remembered(Some(efi_file(sel))) == Some(sel),
{
    let p = decode_utf8(sel.leaf_path);
    let nl = seq!['\n'];
    let t = p + (nl + sel.entry_name);
    decode_utf8_encode_utf8(sel.leaf_path);
    lemma_encode_apart(p, nl + sel.entry_name);
    lemma_encode_apart(nl, sel.entry_name);
    assert(encode_utf8(nl) =~= seq![10u8]) by {
        reveal_with_fuel(encode_utf8, 2);
        assert((10u32 & 0x7F) as u8 == 10u8) by (bit_vector);
    }
    assert(payload(sel) =~= encode_utf8(t));
    encode_utf8_valid_utf8(t);
    encode_utf8_decode_utf8(t);
    if p.len() == 0 {
        assert(p =~= Seq::<char>::empty());
        assert(encode_utf8(p).len() == 0);
    }
    let i = p.len() as int;
    assert(t[i] == '\n');
    assert forall|k: int| 0 <= k < i implies t[k] != '\n' by {
        assert(p.contains(p[k]));
    }
    lemma_first_newline(t, i, 0);
    assert(t.take(i) =~= p);
    assert(t.skip(i + 1) =~= sel.entry_name);
    assert(efi_file(sel).skip(4) =~= payload(sel));
}

/// A selection is stored behind the attributes of its variable, which say that it is kept
/// over a reset and can be used before and after the kernel has started.
pub proof fn selection_is_kept_over_a_reset(sel: SelectionView)
    ensures
        efi_file(sel).take(4) == seq![7u8, 0u8, 0u8, 0u8],
        efi_file(sel).skip(4) == payload(sel),
        valid_utf8(sel.leaf_path) ==> payload(sel) == sel.leaf_path.push(10) + encode_utf8(
            sel.entry_name,
        ),
{
    assert(efi_file(sel).take(4) =~= seq![7u8, 0u8, 0u8, 0u8]);
    assert(efi_file(sel).skip(4) =~= payload(sel));
    assert(sel.leaf_path + seq![10u8] =~= sel.leaf_path.push(10));
}

/// Nothing but a stored selection is read as one: what was read is what would be stored
/// for it again, behind the attributes.
pub proof fn only_stored_selections_are_read(data: Seq<u8>, sel: SelectionView)
    requires
        remembered(Some(data)) == Some(sel),
    ensures
        data.len() > 4,
        data.skip(4) == payload(sel),
        can_be_stored(sel),
{
    let d = data.skip(4);
    let t = decode_utf8(d);
    lemma_newline_at(t, 0);
    let i = newline_at(t, 0)->0;
    let p = t.take(i);
    let nl = seq!['\n'];
    decode_utf8_encode_utf8(d);
    assert(t =~= p + (nl + sel.entry_name));
    lemma_encode_apart(p, nl + sel.entry_name);
    lemma_encode_apart(nl, sel.entry_name);
    assert(encode_utf8(nl) =~= seq![10u8]) by {
        reveal_with_fuel(encode_utf8, 2);
        assert((10u32 & 0x7F) as u8 == 10u8) by (bit_vector);
    }
    encode_utf8_valid_utf8(p);
    encode_utf8_decode_utf8(p);
    assert(payload(sel) =~= d);
    if p.contains('\n') {
        let k = choose|k: int| 0 <= k < p.len() && p[k] == '\n';
        assert(t[k] == '\n');
    }
    assert(sel.leaf_path.len() > 0) by {
        if encode_utf8(p).len() == 0 {
            assert(encode_utf8(p) =~= encode_utf8(Seq::<char>::empty()));
            encode_utf8_decode_utf8(Seq::<char>::empty());
        }
    }
}

proof fn lemma_newline_at(t: Seq<char>, from: int)
    requires
        0 <= from,
    ensures
        newline_at(t, from) matches Some(i) ==> from <= i < t.len() && t[i] == '\n' && forall|
            k: int,
        | from <= k < i ==> t[k] != '\n',
    decreases t.len() - from,
{
    if from < t.len() && t[from] != '\n' {
        lemma_newline_at(t, from + 1);
    }
}

// --- The key archive ---
//
// A CPIO archive in the "newc" format with the decrypted key as a file. It is
// passed to the kernel behind the initrd, so that stage 1 finds the key at
// /run/bootmenu-keys/<uuid> without it ever touching a disk.

/// A digit in hexadecimal notation.
pub open spec fn hex_digit(n: int) -> u8 {
    if n < 10 {
        (48 + n) as u8
    } else {
        (55 + n) as u8
    }
}

/// The last `len` digits of a number in hexadecimal notation.
pub open spec fn hex(n: int, len: nat) -> Seq<u8>
    decreases len,
{
    if len == 0 {
        Seq::empty()
    } else {
        hex(n / 16, (len - 1) as nat).push(hex_digit(n % 16))
    }
}

/// A number of zero bytes.
pub open spec fn zeros(n: nat) -> Seq<u8> {
    Seq::new(n, |i: int| 0u8)
}

/// How many bytes are missing to a multiple of four.
pub open spec fn pad(n: int) -> nat {
    ((4 - n % 4) % 4) as nat
}

/// The remainder of a length that fits in the 32 bits of a header's field.
pub open spec fn field(n: int) -> int {
    n % 0x1_0000_0000
}

/// The header of a record: the magic number and thirteen fields of eight digits.
#[verifier::opaque]
pub open spec fn cpio_header(ino: int, mode: int, filesize: int, namesize: int) -> Seq<u8> {
    seq![48u8, 55u8, 48u8, 55u8, 48u8, 49u8] + hex(ino, 8) + hex(mode, 8) + hex(0, 8) + hex(0, 8)
        + hex(1, 8) + hex(0, 8) + hex(filesize, 8) + hex(0, 8) + hex(0, 8) + hex(0, 8) + hex(0, 8)
        + hex(namesize, 8) + hex(0, 8)
}

/// A record without its data: the header and the name, which a zero byte ends,
/// padded to a multiple of four.
#[verifier::opaque]
pub open spec fn cpio_entry(name: Seq<u8>, ino: int, mode: int, filesize: int) -> Seq<u8> {
    let namesize = field(name.len() as int) + 1;
    cpio_header(ino, mode, filesize, namesize) + name + seq![0u8] + zeros(pad(110 + namesize))
}

/// The record of a directory.
pub open spec fn cpio_dir(name: Seq<u8>, ino: int) -> Seq<u8> {
    cpio_entry(name, ino, 0x41ed, 0)
}

/// The record of a file that only its owner can read, with its data, padded to a
/// multiple of four.
pub open spec fn cpio_file(name: Seq<u8>, content: Seq<u8>, ino: int) -> Seq<u8> {
    cpio_entry(name, ino, 0x8180, field(content.len() as int)) + content + zeros(
        pad(content.len() as int),
    )
}

/// The record that ends an archive.
pub open spec fn cpio_trailer() -> Seq<u8> {
    cpio_entry(encode_utf8("TRAILER!!!"@), 0, 0, 0)
}

/// How many slashes there are among the first `n` bytes of a path.
pub open spec fn slashes(path: Seq<u8>, n: int) -> int
    decreases n,
{
    if n <= 0 {
        0
    } else {
        slashes(path, n - 1) + if path[n - 1] == 47 {
            1int
        } else {
            0
        }
    }
}

/// The records of the directories above a path, as far as they end within its
/// first `n` bytes: one for what stands before each slash.
pub open spec fn cpio_dirs(path: Seq<u8>, n: int) -> Seq<u8>
    decreases n,
{
    if n <= 0 {
        Seq::empty()
    } else if path[n - 1] == 47 {
        cpio_dirs(path, n - 1) + cpio_dir(path.take(n - 1), 1 + slashes(path, n - 1))
    } else {
        cpio_dirs(path, n - 1)
    }
}

/// The archive with a single file and the directories above it.
pub open spec fn key_archive(path: Seq<u8>, content: Seq<u8>) -> Seq<u8> {
    cpio_dirs(path, path.len() as int) + cpio_file(
        path,
        content,
        1 + slashes(path, path.len() as int),
    ) + cpio_trailer()
}

/// Whether the length of a name, with the zero byte, fits in its field.
pub open spec fn name_fits(n: int) -> bool {
    field(n) < 0xffff_ffff
}

/// Whether the records of a path can be written: the lengths of their names fit,
/// and so does their number.
pub open spec fn can_pack(path: Seq<u8>) -> bool {
    &&& name_fits(path.len() as int)
    &&& forall|n: int| 0 <= n < path.len() && #[trigger] path[n] == 47 ==> name_fits(n)
    &&& slashes(path, path.len() as int) < 0xffff_ffff
}

fn push_hex(out: &mut Vec<u8>, n: u32, len: usize)
    ensures
        final(out)@ == old(out)@ + hex(n as int, len as nat),
    decreases len,
{
    if len > 0 {
        push_hex(out, n / 16, len - 1);
        let d: u8 = (n % 16) as u8;
        if d < 10 {
            out.push(48 + d);
        } else {
            out.push(55 + d);
        }
    }
    assert(out@ =~= old(out)@ + hex(n as int, len as nat));
}

fn push_zeros(out: &mut Vec<u8>, n: usize)
    ensures
        final(out)@ == old(out)@ + zeros(n as nat),
{
    let ghost start = out@;
    let mut i: usize = 0;
    assert(out@ =~= start + zeros(0));
    while i < n
        invariant
            i <= n,
            out@ == start + zeros(i as nat),
        decreases n - i,
    {
        out.push(0);
        i = i + 1;
        assert(out@ =~= start + zeros(i as nat));
    }
}

fn cpio_append_header(buf: &mut Vec<u8>, ino: u32, mode: u32, filesize: u32, namesize: u32)
    ensures
        final(buf)@ == old(buf)@ + cpio_header(
            ino as int,
            mode as int,
            filesize as int,
            namesize as int,
        ),
{
    proof {
        reveal(cpio_header);
    }
    let magic: Vec<u8> = vec![48, 55, 48, 55, 48, 49];
    push_bytes(buf, magic.as_slice());
    push_hex(buf, ino, 8);
    push_hex(buf, mode, 8);
    push_hex(buf, 0, 8);
    push_hex(buf, 0, 8);
    push_hex(buf, 1, 8);
    push_hex(buf, 0, 8);
    push_hex(buf, filesize, 8);
    push_hex(buf, 0, 8);
    push_hex(buf, 0, 8);
    push_hex(buf, 0, 8);
    push_hex(buf, 0, 8);
    push_hex(buf, namesize, 8);
    push_hex(buf, 0, 8);
    assert(magic@ =~= seq![48u8, 55u8, 48u8, 55u8, 48u8, 49u8]);
    assert(buf@ =~= old(buf)@ + cpio_header(
        ino as int,
        mode as int,
        filesize as int,
        namesize as int,
    ));
}

fn pad_length(n: u64) -> (r: usize)
    ensures
        r == pad(n as int),
{
    ((4 - n % 4) % 4) as usize
}

fn cpio_append_entry(buf: &mut Vec<u8>, name: &[u8], ino: u32, mode: u32, filesize: u32)
    requires
        name_fits(name@.len() as int),
    ensures
        final(buf)@ == old(buf)@ + cpio_entry(name@, ino as int, mode as int, filesize as int),
{
    proof {
        reveal(cpio_entry);
    }
    let namesize: u32 = (name.len() as u64 % 0x1_0000_0000) as u32 + 1;
    cpio_append_header(buf, ino, mode, filesize, namesize);
    push_bytes(buf, name);
    buf.push(0);
    push_zeros(buf, pad_length(110 + namesize as u64));
    assert(buf@ =~= old(buf)@ + cpio_entry(name@, ino as int, mode as int, filesize as int));
}

fn cpio_append_dir(buf: &mut Vec<u8>, name: &[u8], ino: u32)
    requires
        name_fits(name@.len() as int),
    ensures
        final(buf)@ == old(buf)@ + cpio_dir(name@, ino as int),
{
    cpio_append_entry(buf, name, ino, 0x41ed, 0);
}

fn cpio_append_file(buf: &mut Vec<u8>, name: &[u8], content: &[u8], ino: u32)
    requires
        name_fits(name@.len() as int),
    ensures
        final(buf)@ == old(buf)@ + cpio_file(name@, content@, ino as int),
{
    let size: u32 = (content.len() as u64 % 0x1_0000_0000) as u32;
    cpio_append_entry(buf, name, ino, 0x8180, size);
    push_bytes(buf, content);
    push_zeros(buf, pad_length(content.len() as u64));
    assert(buf@ =~= old(buf)@ + cpio_file(name@, content@, ino as int));
}

proof fn lemma_trailer_name()
    ensures
        encode_utf8("TRAILER!!!"@).len() == 10,
{
    reveal_strlit("TRAILER!!!");
    vstd::utf8::is_ascii_chars_encode_utf8("TRAILER!!!"@);
}

fn cpio_append_trailer(buf: &mut Vec<u8>)
    ensures
        final(buf)@ == old(buf)@ + cpio_trailer(),
{
    proof {
        lemma_trailer_name();
    }
    cpio_append_entry(buf, "TRAILER!!!".as_bytes(), 0, 0, 0);
}

/// Build a newc-format CPIO archive containing a single file.
///
/// The archive contains the directory structure and the file with `content`,
/// placed at `path` (e.g. "run/bootmenu-keys/<uuid>").
/// Terminated with the TRAILER record.
pub fn build_key_cpio(path: &str, content: &[u8]) -> (r: Vec<u8>)
    requires
        can_pack(encode_utf8(path@)),
    ensures
        r@ == key_archive(encode_utf8(path@), content@),
{
    let name = path.as_bytes();
    let ghost p = name@;
    let mut buf: Vec<u8> = Vec::new();
    let mut ino: u32 = 1;
    let mut i: usize = 0;
    assert(buf@ =~= cpio_dirs(p, 0));
    while i < name.len()
        invariant
            i <= p.len(),
            p == name@,
            can_pack(p),
            ino == 1 + slashes(p, i as int),
            buf@ == cpio_dirs(p, i as int),
        decreases p.len() - i,
    {
        if name[i] == 47 {
            let dir = slice_subrange(name, 0, i);
            assert(dir@ =~= p.take(i as int));
            cpio_append_dir(&mut buf, dir, ino);
            proof {
                lemma_slashes_grow(p, i + 1, p.len() as int);
            }
            ino = ino + 1;
        }
        i = i + 1;
    }
    cpio_append_file(&mut buf, name, content, ino);
    cpio_append_trailer(&mut buf);
    buf
}

proof fn lemma_slashes_grow(path: Seq<u8>, a: int, b: int)
    requires
        a <= b,
    ensures
        slashes(path, a) <= slashes(path, b),
    decreases b - a,
{
    if a < b {
        lemma_slashes_grow(path, a, b - 1);
    }
}

// --- Laws of the key archive ---

proof fn lemma_hex_len(n: int, len: nat)
    ensures
        hex(n, len).len() == len,
    decreases len,
{
    if len > 0 {
        lemma_hex_len(n / 16, (len - 1) as nat);
    }
}

proof fn lemma_header_len(ino: int, mode: int, filesize: int, namesize: int)
    ensures
        cpio_header(ino, mode, filesize, namesize).len() == 110,
{
    reveal(cpio_header);
    lemma_hex_len(ino, 8);
    lemma_hex_len(mode, 8);
    lemma_hex_len(0, 8);
    lemma_hex_len(1, 8);
    lemma_hex_len(filesize, 8);
    lemma_hex_len(namesize, 8);
}

proof fn lemma_pad(n: int)
    ensures
        (n + pad(n)) % 4 == 0,
        pad(n) < 4,
{
}

proof fn lemma_pad_shift(p: int, n: int)
    requires
        p % 4 == 0,
    ensures
        pad(p + n) == pad(n),
{
}

proof fn lemma_field_pad(n: int)
    ensures
        pad(111 + field(n)) == pad(111 + n),
{
    lemma_mod_mod(n, 4, 0x4000_0000);
    lemma_pad_alike(field(n), n);
}

proof fn lemma_pad_alike(a: int, b: int)
    requires
        a % 4 == b % 4,
    ensures
        pad(111 + a) == pad(111 + b),
{
}

proof fn lemma_entry_len(name: Seq<u8>, ino: int, mode: int, filesize: int)
    ensures
        cpio_entry(name, ino, mode, filesize).len() == 111 + name.len() + pad(
            111 + name.len() as int,
        ),
        cpio_entry(name, ino, mode, filesize).len() % 4 == 0,
{
    reveal(cpio_entry);
    let n = name.len() as int;
    lemma_header_len(ino, mode, filesize, field(n) + 1);
    lemma_field_pad(n);
    lemma_pad(111 + n);
    assert(110 + (field(n) + 1) == 111 + field(n));
}

proof fn lemma_dirs_len(path: Seq<u8>, n: int)
    ensures
        cpio_dirs(path, n).len() % 4 == 0,
    decreases n,
{
    if n > 0 {
        lemma_dirs_len(path, n - 1);
        if path[n - 1] == 47 {
            lemma_entry_len(path.take(n - 1), 1 + slashes(path, n - 1), 0x41ed, 0);
        }
    }
}

proof fn lemma_file_len(path: Seq<u8>, content: Seq<u8>, ino: int)
    ensures
        cpio_file(path, content, ino).len() % 4 == 0,
{
    let size = field(content.len() as int);
    lemma_entry_len(path, ino, 0x8180, size);
    lemma_pad(content.len() as int);
    let a = cpio_entry(path, ino, 0x8180, size).len();
    assert(cpio_file(path, content, ino).len() == a + (content.len() + pad(content.len() as int)));
}

/// Every record of an archive takes a multiple of four bytes, and so starts at
/// one.
pub proof fn records_are_aligned(path: Seq<u8>, content: Seq<u8>, ino: int, n: int)
    ensures
        cpio_dir(path, ino).len() % 4 == 0,
        cpio_file(path, content, ino).len() % 4 == 0,
        cpio_trailer().len() % 4 == 0,
        cpio_dirs(path, n).len() % 4 == 0,
        key_archive(path, content).len() % 4 == 0,
{
    lemma_entry_len(path, ino, 0x41ed, 0);
    lemma_file_len(path, content, ino);
    lemma_entry_len(encode_utf8("TRAILER!!!"@), 0, 0, 0);
    lemma_dirs_len(path, n);
    let dirs = cpio_dirs(path, path.len() as int);
    let file = cpio_file(path, content, 1 + slashes(path, path.len() as int));
    lemma_dirs_len(path, path.len() as int);
    lemma_file_len(path, content, 1 + slashes(path, path.len() as int));
    assert(key_archive(path, content).len() == dirs.len() + file.len() + cpio_trailer().len());
}

/// The number that a hexadecimal digit stands for.
pub open spec fn hex_digit_value(d: u8) -> int {
    if d < 65 {
        d - 48
    } else {
        d - 55
    }
}

/// The number that hexadecimal digits stand for.
pub open spec fn hex_value(s: Seq<u8>) -> int
    decreases s.len(),
{
    if s.len() == 0 {
        0
    } else {
        hex_value(s.drop_last()) * 16 + hex_digit_value(s.last())
    }
}

/// A record that was read from an archive.
pub struct Record {
    pub name: Seq<u8>,
    pub mode: int,
    pub data: Seq<u8>,
}

/// The record at position `p` of an archive, and where the next one starts.
#[verifier::opaque]
pub open spec fn record_at(b: Seq<u8>, p: int) -> Option<(Record, int)> {
    let namesize = hex_value(b.subrange(p + 94, p + 102));
    let filesize = hex_value(b.subrange(p + 54, p + 62));
    let data_at = p + 110 + namesize + pad(p + 110 + namesize);
    if p < 0 || p + 110 > b.len() || b.subrange(p, p + 6) != seq![
        48u8,
        55u8,
        48u8,
        55u8,
        48u8,
        49u8,
    ] || namesize <= 0 || filesize < 0 || data_at + filesize > b.len() {
        None
    } else {
        Some(
            (
                Record {
                    name: b.subrange(p + 110, p + 110 + namesize - 1),
                    mode: hex_value(b.subrange(p + 14, p + 22)),
                    data: b.subrange(data_at, data_at + filesize),
                },
                data_at + filesize + pad(data_at + filesize),
            ),
        )
    }
}

/// The records of an archive from position `p` on, up to the one that ends it,
/// behind those that were read before.
pub open spec fn unpacked(b: Seq<u8>, p: int, done: Seq<Record>) -> Option<Seq<Record>>
    decreases b.len() + 4 - p,
    via unpacked_decreases
{
    match record_at(b, p) {
        None => None,
        Some((r, next)) => if r.name == encode_utf8("TRAILER!!!"@) {
            Some(done)
        } else {
            unpacked(b, next, done.push(r))
        },
    }
}

#[via_fn]
proof fn unpacked_decreases(b: Seq<u8>, p: int, done: Seq<Record>) {
    reveal(record_at);
}

/// The directories above a path, as far as they end within its first `n` bytes.
pub open spec fn dir_records(path: Seq<u8>, n: int) -> Seq<Record>
    decreases n,
{
    if n <= 0 {
        Seq::empty()
    } else if path[n - 1] == 47 {
        dir_records(path, n - 1).push(
            Record { name: path.take(n - 1), mode: 0x41ed, data: Seq::empty() },
        )
    } else {
        dir_records(path, n - 1)
    }
}

spec fn bound(len: nat) -> int
    decreases len,
{
    if len == 0 {
        1
    } else {
        16 * bound((len - 1) as nat)
    }
}

proof fn lemma_hex_value(n: int, len: nat)
    requires
        0 <= n < bound(len),
    ensures
        hex_value(hex(n, len)) == n,
        hex(n, len).len() == len,
    decreases len,
{
    if len > 0 {
        lemma_hex_value(n / 16, (len - 1) as nat);
        assert(hex(n, len).drop_last() =~= hex(n / 16, (len - 1) as nat));
    }
}

proof fn lemma_hex_value_8(n: int)
    requires
        0 <= n < 0x1_0000_0000,
    ensures
        hex_value(hex(n, 8)) == n,
        hex(n, 8).len() == 8,
{
    assert(bound(8) == 0x1_0000_0000) by {
        reveal_with_fuel(bound, 9);
    }
    lemma_hex_value(n, 8);
}

proof fn lemma_header_fields(ino: int, mode: int, filesize: int, namesize: int)
    requires
        0 <= ino < 0x1_0000_0000,
        0 <= mode < 0x1_0000_0000,
        0 <= filesize < 0x1_0000_0000,
        0 <= namesize < 0x1_0000_0000,
    ensures
        ({
            let h = cpio_header(ino, mode, filesize, namesize);
            &&& h.len() == 110
            &&& h.subrange(0, 6) == seq![48u8, 55u8, 48u8, 55u8, 48u8, 49u8]
            &&& hex_value(h.subrange(14, 22)) == mode
            &&& hex_value(h.subrange(54, 62)) == filesize
            &&& hex_value(h.subrange(94, 102)) == namesize
        }),
{
    reveal(cpio_header);
    let h = cpio_header(ino, mode, filesize, namesize);
    lemma_header_len(ino, mode, filesize, namesize);
    lemma_hex_len(ino, 8);
    lemma_hex_len(0, 8);
    lemma_hex_len(1, 8);
    lemma_hex_value_8(mode);
    lemma_hex_value_8(filesize);
    lemma_hex_value_8(namesize);
    assert(h.subrange(0, 6) =~= seq![48u8, 55u8, 48u8, 55u8, 48u8, 49u8]);
    assert(h.subrange(14, 22) =~= hex(mode, 8));
    assert(h.subrange(54, 62) =~= hex(filesize, 8));
    assert(h.subrange(94, 102) =~= hex(namesize, 8));
}

/// The parts of a record and its data.
#[verifier::rlimit(40)]
proof fn lemma_record_parts(name: Seq<u8>, ino: int, mode: int, data: Seq<u8>)
    requires
        0 <= ino < 0x1_0000_0000,
        0 <= mode < 0x1_0000_0000,
        name.len() + 1 < 0x1_0000_0000,
        data.len() < 0x1_0000_0000,
    ensures
        ({
            let head = cpio_entry(name, ino, mode, data.len() as int);
            let all = head + data + zeros(pad(data.len() as int));
            let at = head.len() as int;
            &&& at >= 111 + name.len()
            &&& all.subrange(0, 6) == seq![48u8, 55u8, 48u8, 55u8, 48u8, 49u8]
            &&& hex_value(all.subrange(14, 22)) == mode
            &&& hex_value(all.subrange(54, 62)) == data.len()
            &&& hex_value(all.subrange(94, 102)) == name.len() + 1
            &&& all.subrange(110, 110 + name.len() as int) == name
            &&& all.subrange(at, at + data.len()) == data
        }),
{
    reveal(cpio_entry);
    let namesize = name.len() as int + 1;
    let size = data.len() as int;
    let head = cpio_entry(name, ino, mode, size);
    let all = head + data + zeros(pad(size));
    let h = cpio_header(ino, mode, size, namesize);
    lemma_header_fields(ino, mode, size, namesize);
    lemma_entry_len(name, ino, mode, size);
    assert(head =~= h + name + seq![0u8] + zeros(pad(110 + namesize)));
    assert(all.subrange(0, 6) =~= h.subrange(0, 6));
    assert(all.subrange(14, 22) =~= h.subrange(14, 22));
    assert(all.subrange(54, 62) =~= h.subrange(54, 62));
    assert(all.subrange(94, 102) =~= h.subrange(94, 102));
    assert(all.subrange(110, 110 + name.len() as int) =~= name);
    let at = head.len() as int;
    assert(all.subrange(at, at + size) =~= data);
}

proof fn lemma_subrange_within(b: Seq<u8>, p: int, n: int, i: int, j: int)
    requires
        0 <= p,
        0 <= i <= j <= n,
        p + n <= b.len(),
    ensures
        b.subrange(p, p + n).subrange(i, j) == b.subrange(p + i, p + j),
{
    assert(b.subrange(p, p + n).subrange(i, j) =~= b.subrange(p + i, p + j));
}

/// Reading a record that stands at a multiple of four, with its data.
proof fn lemma_record_read_back(
    b: Seq<u8>,
    p: int,
    name: Seq<u8>,
    ino: int,
    mode: int,
    data: Seq<u8>,
)
    requires
        0 <= p,
        p % 4 == 0,
        0 <= ino < 0x1_0000_0000,
        0 <= mode < 0x1_0000_0000,
        name.len() + 1 < 0x1_0000_0000,
        data.len() < 0x1_0000_0000,
        ({
            let all = cpio_entry(name, ino, mode, data.len() as int) + data + zeros(
                pad(data.len() as int),
            );
            p + all.len() <= b.len() && b.subrange(p, p + all.len()) == all
        }),
    ensures
        record_at(b, p) == Some(
            (
                Record { name, mode, data },
                p + cpio_entry(name, ino, mode, data.len() as int).len() + data.len() + pad(
                    data.len() as int,
                ),
            ),
        ),
{
    let size = data.len() as int;
    let head = cpio_entry(name, ino, mode, size);
    let n = (head + data + zeros(pad(size))).len() as int;
    let at = head.len() as int;
    lemma_record_parts(name, ino, mode, data);
    lemma_entry_len(name, ino, mode, size);
    lemma_subrange_within(b, p, n, 0, 6);
    lemma_subrange_within(b, p, n, 14, 22);
    lemma_subrange_within(b, p, n, 54, 62);
    lemma_subrange_within(b, p, n, 94, 102);
    lemma_subrange_within(b, p, n, 110, 110 + name.len() as int);
    lemma_subrange_within(b, p, n, at, at + size);
    lemma_pad_shift(p, 111 + name.len() as int);
    lemma_pad_shift(p + at, size);
    assert(p + (111 + name.len() as int) == p + 110 + (name.len() + 1));
    reveal(record_at);
}

proof fn lemma_dirs_prefix(path: Seq<u8>, n: int)
    requires
        0 <= n <= path.len(),
    ensures
        cpio_dirs(path, n).len() <= cpio_dirs(path, path.len() as int).len(),
        cpio_dirs(path, path.len() as int).take(cpio_dirs(path, n).len() as int) == cpio_dirs(
            path,
            n,
        ),
    decreases path.len() - n,
{
    let all = cpio_dirs(path, path.len() as int);
    if n < path.len() {
        lemma_dirs_prefix(path, n + 1);
        let m = cpio_dirs(path, n + 1);
        let k = cpio_dirs(path, n).len() as int;
        assert(m.take(k) =~= cpio_dirs(path, n));
        assert(all.take(m.len() as int).take(k) =~= all.take(k));
    } else {
        assert(all.take(all.len() as int) =~= all);
    }
}

/// Whether a path and its content can be unpacked again: their lengths fit in
/// the fields of a header, and nothing above the path is called like the record
/// that ends an archive.
pub open spec fn can_unpack(path: Seq<u8>, content: Seq<u8>) -> bool {
    &&& path.len() + 1 < 0xffff_ffff
    &&& content.len() < 0x1_0000_0000
    &&& path != encode_utf8("TRAILER!!!"@)
    &&& forall|n: int|
        0 <= n < path.len() && #[trigger] path[n] == 47 ==> path.take(n) != encode_utf8(
            "TRAILER!!!"@,
        )
}

proof fn lemma_slashes_bound(path: Seq<u8>, n: int)
    ensures
        0 <= slashes(path, n),
        0 <= n ==> slashes(path, n) <= n,
    decreases n,
{
    if n > 0 {
        lemma_slashes_bound(path, n - 1);
    }
}

proof fn lemma_dirs_unpack(path: Seq<u8>, content: Seq<u8>, n: int)
    requires
        can_unpack(path, content),
        0 <= n <= path.len(),
    ensures
        unpacked(key_archive(path, content), 0, Seq::empty()) == unpacked(
            key_archive(path, content),
            cpio_dirs(path, n).len() as int,
            dir_records(path, n),
        ),
    decreases n,
{
    let b = key_archive(path, content);
    if n > 0 {
        lemma_dirs_unpack(path, content, n - 1);
        if path[n - 1] == 47 {
            let before = cpio_dirs(path, n - 1);
            let name = path.take(n - 1);
            let ino = 1 + slashes(path, n - 1);
            let one = cpio_dir(name, ino);
            let all = cpio_dirs(path, path.len() as int);
            lemma_slashes_bound(path, n - 1);
            lemma_dirs_len(path, n - 1);
            lemma_dirs_prefix(path, n);
            let p = before.len() as int;
            let data = Seq::<u8>::empty();
            assert(one + data + zeros(pad(0)) =~= one);
            assert(b.subrange(p, p + one.len()) =~= one) by {
                assert(all.take(p + one.len()) =~= before + one);
                assert(b.subrange(p, p + one.len()) =~= all.take(p + one.len()).skip(p));
                assert((before + one).skip(p) =~= one);
            }
            lemma_record_read_back(b, p, name, ino, 0x41ed, data);
            assert(path[n - 1] == 47);
            assert(record_at(b, p) == Some(
                (Record { name, mode: 0x41ed, data }, p + one.len()),
            ));
        }
    }
}

/// Reading a record with its data, between two parts of an archive.
proof fn lemma_record_between(
    a: Seq<u8>,
    name: Seq<u8>,
    ino: int,
    mode: int,
    data: Seq<u8>,
    c: Seq<u8>,
)
    requires
        a.len() % 4 == 0,
        0 <= ino < 0x1_0000_0000,
        0 <= mode < 0x1_0000_0000,
        name.len() + 1 < 0x1_0000_0000,
        data.len() < 0x1_0000_0000,
    ensures
        ({
            let all = cpio_entry(name, ino, mode, data.len() as int) + data + zeros(
                pad(data.len() as int),
            );
            record_at(a + all + c, a.len() as int) == Some(
                (Record { name, mode, data }, a.len() as int + all.len()),
            )
        }),
{
    let all = cpio_entry(name, ino, mode, data.len() as int) + data + zeros(
        pad(data.len() as int),
    );
    let b = a + all + c;
    let p = a.len() as int;
    assert(b.subrange(p, p + all.len()) =~= all);
    lemma_record_read_back(b, p, name, ino, mode, data);
}

proof fn lemma_file_unpacks(path: Seq<u8>, content: Seq<u8>)
    requires
        can_unpack(path, content),
    ensures
        ({
            let n = path.len() as int;
            let p = cpio_dirs(path, n).len() as int;
            let q = p + cpio_file(path, content, 1 + slashes(path, n)).len();
            record_at(key_archive(path, content), p) == Some(
                (Record { name: path, mode: 0x8180, data: content }, q),
            )
        }),
{
    let n = path.len() as int;
    lemma_slashes_bound(path, n);
    lemma_dirs_len(path, n);
    lemma_record_between(
        cpio_dirs(path, n),
        path,
        1 + slashes(path, n),
        0x8180,
        content,
        cpio_trailer(),
    );
}

proof fn lemma_trailer_unpacks(path: Seq<u8>, content: Seq<u8>)
    ensures
        ({
            let n = path.len() as int;
            let q = cpio_dirs(path, n).len() + cpio_file(
                path,
                content,
                1 + slashes(path, n),
            ).len();
            record_at(key_archive(path, content), q as int) matches Some((r, next)) && r.name
                == encode_utf8("TRAILER!!!"@)
        }),
{
    let n = path.len() as int;
    let a = cpio_dirs(path, n) + cpio_file(path, content, 1 + slashes(path, n));
    let name = encode_utf8("TRAILER!!!"@);
    let data = Seq::<u8>::empty();
    records_are_aligned(path, content, 1 + slashes(path, n), n);
    lemma_trailer_name();
    lemma_record_between(a, name, 0, 0, data, Seq::empty());
    assert(a + (cpio_trailer() + data + zeros(pad(0))) + Seq::<u8>::empty() =~= key_archive(
        path,
        content,
    ));
}

/// Unpacking the key archive gives the directories above the key and the key
/// itself, which only its owner can read.
pub proof fn key_archive_unpacks(path: Seq<u8>, content: Seq<u8>)
    requires
        can_unpack(path, content),
    ensures
        unpacked(key_archive(path, content), 0, Seq::empty()) == Some(
            dir_records(path, path.len() as int).push(
                Record { name: path, mode: 0x8180, data: content },
            ),
        ),
{
    let b = key_archive(path, content);
    let n = path.len() as int;
    let p = cpio_dirs(path, n).len() as int;
    let q = p + cpio_file(path, content, 1 + slashes(path, n)).len();
    let dirs = dir_records(path, n);
    let done = dirs.push(Record { name: path, mode: 0x8180, data: content });
    lemma_dirs_unpack(path, content, n);
    lemma_file_unpacks(path, content);
    assert(unpacked(b, p, dirs) == unpacked(b, q, done));
    lemma_trailer_unpacks(path, content);
    assert(unpacked(b, q, done) == Some(done));
}

/// A path of fewer than four thousand million bytes can always be packed.
pub proof fn short_path_packs(path: Seq<u8>)
    requires
        path.len() < 0xffff_ffff,
    ensures
        can_pack(path),
{
    lemma_slashes_bound(path, path.len() as int);
}

// --- Booting ---

/// Where stage 1 finds the key of a source, from the root on.
pub open spec fn key_path(uuid: Seq<char>) -> Seq<char> {
    "run/bootmenu-keys/"@ + uuid
}

/// The bytes of a command line as the kernel takes it, if it can be handed on.
pub open spec fn kernel_cmdline(cmdline: Seq<char>) -> Option<Seq<u8>> {
    if encode_utf8(cmdline).contains(0u8) {
        None
    } else {
        Some(encode_utf8(cmdline).push(0u8))
    }
}

/// What the kernel reads up to the first zero byte is the command line, whole; it is
/// refused exactly if it has a zero byte in it.
pub proof fn kernel_reads_the_command_line(cmdline: Seq<char>)
    ensures
        kernel_cmdline(cmdline) is None <==> encode_utf8(cmdline).contains(0u8),
        kernel_cmdline(cmdline) matches Some(b) ==> b.len() > 0 && b.last() == 0
            && !b.drop_last().contains(0u8) && valid_utf8(b.drop_last()) && decode_utf8(
            b.drop_last(),
        ) == cmdline,
{
    encode_utf8_valid_utf8(cmdline);
    encode_utf8_decode_utf8(cmdline);
    assert(encode_utf8(cmdline).push(0u8).drop_last() =~= encode_utf8(cmdline));
}

/// The command line as the kernel takes it: with a zero byte at the end, and none
/// before.
pub fn kexec_cmdline(cmdline: &str) -> (r: Result<Vec<u8>, Error>)
    ensures
        match r {
            Ok(v) => kernel_cmdline(cmdline@) == Some(v@),
            Err(e) => kernel_cmdline(cmdline@) is None && complains(
                e,
                "cmdline contains NUL byte"@,
            ),
        },
{
    let bytes = cmdline.as_bytes();
    let mut i: usize = 0;
    while i < bytes.len()
        invariant
            i <= bytes@.len(),
            bytes@ == encode_utf8(cmdline@),
            forall|k: int| 0 <= k < i ==> bytes@[k] != 0,
        decreases bytes@.len() - i,
    {
        if bytes[i] == 0 {
            assert(bytes@.contains(bytes@[i as int]));
            return Err(Error::Parse("cmdline contains NUL byte".to_owned()));
        }
        i = i + 1;
    }
    let mut out = copy_bytes(bytes);
    out.push(0);
    Ok(out)
}

/// The initrd with what is added to it.
pub open spec fn whole_initrd(base: Seq<u8>, extra: Option<Seq<u8>>) -> Seq<u8> {
    match extra {
        Some(e) => base + e,
        None => base,
    }
}

/// The initrd stays as it is in front, and what is added stands behind it, whole.
pub proof fn initrd_keeps_both_parts(base: Seq<u8>, extra: Option<Seq<u8>>)
    ensures
        whole_initrd(base, extra).take(base.len() as int) == base,
        extra matches Some(e) ==> whole_initrd(base, extra).skip(base.len() as int) == e,
        extra is None ==> whole_initrd(base, extra).len() == base.len(),
{
    assert(whole_initrd(base, extra).take(base.len() as int) =~= base);
    if let Some(e) = extra {
        assert(whole_initrd(base, extra).skip(base.len() as int) =~= e);
    }
}

/// Build the final initrd from the base initrd and an optional extra segment
/// (e.g. key CPIO archive). The kernel unpacks one behind the other.
pub fn build_initrd(base: Vec<u8>, extra: Option<&[u8]>) -> (r: Vec<u8>)
    ensures
        r@ == whole_initrd(base@, opt_bytes(extra)),
{
    let mut data = base;
    if let Some(extra) = extra {
        push_bytes(&mut data, extra);
    }
    data
}

/// What booting an entry takes: the files to load, the command line, what to add
/// to the initrd, and the selection to remember once the kernel is loaded.
#[derive(Debug)]
pub struct BootPlan {
    pub kernel_path: BootPath,
    pub initrd_path: BootPath,
    pub cmdline: String,
    pub extra_initrd: Option<Vec<u8>>,
    pub selection: BootSelection,
}

/// The model of a boot plan.
pub struct PlanView {
    pub kernel_path: Seq<u8>,
    pub initrd_path: Seq<u8>,
    pub cmdline: Seq<char>,
    pub extra_initrd: Option<Seq<u8>>,
    pub selection: SelectionView,
}

impl View for BootPlan {
    type V = PlanView;

    open spec fn view(&self) -> PlanView {
        PlanView {
            kernel_path: self.kernel_path@,
            initrd_path: self.initrd_path@,
            cmdline: self.cmdline@,
            extra_initrd: match self.extra_initrd {
                Some(v) => Some(v@),
                None => None,
            },
            selection: self.selection@,
        }
    }
}

/// What booting an entry of a leaf takes, with a key and the UUID of its source where
/// one is handed on.
pub open spec fn boot_plan(
    leaf_path: Seq<u8>,
    kernel: Seq<char>,
    initrd: Seq<char>,
    cmdline: Seq<char>,
    entry_name: Seq<char>,
    key: Option<(Seq<u8>, Seq<char>)>,
) -> PlanView {
    PlanView {
        kernel_path: joined(leaf_path, encode_utf8(kernel)),
        initrd_path: joined(leaf_path, encode_utf8(initrd)),
        cmdline,
        extra_initrd: match key {
            Some((key, uuid)) => Some(key_archive(encode_utf8(key_path(uuid)), key)),
            None => None,
        },
        selection: SelectionView { leaf_path, entry_name },
    }
}

/// The kernel and the initrd of an entry are the files of those names in its leaf; the
/// command line is the entry's, and the selection that is remembered is that leaf and
/// entry.
pub proof fn plan_loads_the_files_of_the_leaf(
    leaf_path: Seq<u8>,
    kernel: Seq<char>,
    initrd: Seq<char>,
    cmdline: Seq<char>,
    entry_name: Seq<char>,
    key: Option<(Seq<u8>, Seq<char>)>,
)
    requires
        is_plain_name(encode_utf8(kernel)),
        is_plain_name(encode_utf8(initrd)),
    ensures
        ({
            let plan = boot_plan(leaf_path, kernel, initrd, cmdline, entry_name, key);
            &&& parent_of(plan.kernel_path) matches Some(dir) && same_path(dir, leaf_path)
            &&& parent_of(plan.initrd_path) matches Some(dir) && same_path(dir, leaf_path)
            &&& file_name_of(plan.kernel_path) == Some(encode_utf8(kernel))
            &&& file_name_of(plan.initrd_path) == Some(encode_utf8(initrd))
            &&& plan.cmdline == cmdline
            &&& plan.selection.leaf_path == leaf_path
            &&& plan.selection.entry_name == entry_name
            &&& plan.extra_initrd is None <==> key is None
        }),
{
    joined_name_is_child(leaf_path, encode_utf8(kernel));
    joined_name_is_child(leaf_path, encode_utf8(initrd));
}

/// A key that is handed on is found, whole, in the file of the source's UUID when what is
/// added to the initrd is unpacked.
pub proof fn plan_hands_the_key_on(
    leaf_path: Seq<u8>,
    kernel: Seq<char>,
    initrd: Seq<char>,
    cmdline: Seq<char>,
    entry_name: Seq<char>,
    key: Seq<u8>,
    uuid: Seq<char>,
)
    requires
        can_unpack(encode_utf8("run/bootmenu-keys/"@ + uuid), key),
    ensures
        boot_plan(
            leaf_path,
            kernel,
            initrd,
            cmdline,
            entry_name,
            Some((key, uuid)),
        ).extra_initrd matches Some(archive) && unpacked(archive, 0, Seq::empty()) matches Some(
            records,
        ) && records.len() > 0 && records.last().name == encode_utf8("run/bootmenu-keys/"@ + uuid)
            && records.last().data == key,
{
    key_archive_unpacks(encode_utf8("run/bootmenu-keys/"@ + uuid), key);
}

/// What booting an entry takes.
///
/// `leaf_path`: path to the leaf directory containing kernel/initrd
/// `kernel`, `initrd`, `cmdline`, `entry_name`: the entry from entries.json
/// `key_data`: optional decrypted key for handoff to stage 1, and the UUID of the
/// encrypted source
pub fn boot_entry(
    leaf_path: &BootPath,
    kernel: &str,
    initrd: &str,
    cmdline: &str,
    entry_name: &str,
    key_data: Option<(&[u8], &str)>,
) -> (r: BootPlan)
    requires
        key_data matches Some((key, uuid)) ==> can_pack(encode_utf8(key_path(uuid@))),
    ensures
        r@ == boot_plan(
            leaf_path@,
            kernel@,
            initrd@,
            cmdline@,
            entry_name@,
            match key_data {
                Some((key, uuid)) => Some((key@, uuid@)),
                None => None,
            },
        ),
{
    let extra_initrd = match key_data {
        Some((key, uuid)) => {
            let mut path = "run/bootmenu-keys/".to_owned();
            path.append(uuid);
            Some(build_key_cpio(path.as_str(), key))
        },
        None => None,
    };
    BootPlan {
        kernel_path: leaf_path.join(kernel.as_bytes()),
        initrd_path: leaf_path.join(initrd.as_bytes()),
        cmdline: cmdline.to_owned(),
        extra_initrd,
        selection: BootSelection {
            leaf_path: leaf_path.clone(),
            entry_name: entry_name.to_owned(),
        },
    }
}

} // verus!
