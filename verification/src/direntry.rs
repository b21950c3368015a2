//! Directory entries and their form in the file.
use crate::bytes::{u16_le, u32_le, u64_le, write_u16_le, write_u32_le, write_u64_le};
use crate::consts;
use crate::names::{encode_utf16, utf16_units};
use uuid::Uuid;
use vstd::prelude::*;

verus! {

/// An entry of the directory: a storage, a stream, the root, or an entry that is
/// not in use.
#[derive(Debug)]
pub struct DirEntry {
    /// The name of the object.
    pub name: String,
    /// What kind of object this is.
    pub obj_type: u8,
    /// The color of the tree node.
    pub color: u8,
    /// The entry to the left among the siblings.
    pub left_sibling: u32,
    /// The entry to the right among the siblings.
    pub right_sibling: u32,
    /// The topmost entry among the children.
    pub child: u32,
    /// The class identifier, most significant byte first.
    pub clsid: [u8; 16],
    /// Bits that users set.
    pub state_bits: u32,
    /// When the object was created.
    pub creation_time: u64,
    /// When the object was last modified.
    pub modified_time: u64,
    /// The first sector of the stream.
    pub start_sector: u32,
    /// The length of the stream, in bytes.
    pub stream_len: u64,
}

/// The model of [`DirEntry`].
#[verifier::ext_equal]
pub struct EntryView {
    pub name: Seq<char>,
    pub obj_type: u8,
    pub color: u8,
    pub left_sibling: u32,
    pub right_sibling: u32,
    pub child: u32,
    pub clsid: Seq<u8>,
    pub state_bits: u32,
    pub creation_time: u64,
    pub modified_time: u64,
    pub start_sector: u32,
    pub stream_len: u64,
}

impl View for DirEntry {
    type V = EntryView;

    open spec fn view(&self) -> EntryView {
        EntryView {
            name: self.name@,
            obj_type: self.obj_type,
            color: self.color,
            left_sibling: self.left_sibling,
            right_sibling: self.right_sibling,
            child: self.child,
            clsid: self.clsid@,
            state_bits: self.state_bits,
            creation_time: self.creation_time,
            modified_time: self.modified_time,
            start_sector: self.start_sector,
            stream_len: self.stream_len,
        }
    }
}

/// The model of an entry has its fields.
pub proof fn lemma_entry_view(entry: DirEntry)
    ensures
        entry@.name == entry.name@,
        entry@.obj_type == entry.obj_type,
        entry@.color == entry.color,
        entry@.left_sibling == entry.left_sibling,
        entry@.right_sibling == entry.right_sibling,
        entry@.child == entry.child,
        entry@.clsid == entry.clsid@,
        entry@.state_bits == entry.state_bits,
        entry@.creation_time == entry.creation_time,
        entry@.modified_time == entry.modified_time,
        entry@.start_sector == entry.start_sector,
        entry@.stream_len == entry.stream_len,
{
}

impl Clone for DirEntry {
    fn clone(&self) -> (copy: Self)
        ensures
            copy@ == self@,
    {
        DirEntry {
            name: self.name.clone(),
            obj_type: self.obj_type,
            color: self.color,
            left_sibling: self.left_sibling,
            right_sibling: self.right_sibling,
            child: self.child,
            clsid: self.clsid,
            state_bits: self.state_bits,
            creation_time: self.creation_time,
            modified_time: self.modified_time,
            start_sector: self.start_sector,
            stream_len: self.stream_len,
        }
    }
}

/// The 32 code units that the file holds of a name: its own, and zeros after them.
pub open spec fn padded_units(name: Seq<char>) -> Seq<u16> {
    Seq::new(
        32,
        |i: int|
            if i < utf16_units(name).len() {
                utf16_units(name)[i]
            } else {
                0
            },
    )
}

/// The bytes of a list of code units, each least significant byte first.
pub open spec fn units_le(units: Seq<u16>) -> Seq<u8> {
    Seq::new(2 * units.len(), |i: int| u16_le(units[i / 2])[i % 2])
}

/// The bytes of a class identifier in the file: the first three groups of four,
/// two and two bytes come least significant byte first, the rest as it is.
pub open spec fn clsid_le(clsid: Seq<u8>) -> Seq<u8> {
    seq![
        clsid[3],
        clsid[2],
        clsid[1],
        clsid[0],
        clsid[5],
        clsid[4],
        clsid[7],
        clsid[6],
        clsid[8],
        clsid[9],
        clsid[10],
        clsid[11],
        clsid[12],
        clsid[13],
        clsid[14],
        clsid[15],
    ]
}

impl EntryView {
    /// The name fits into the entry with the zero that ends it, and the class
    /// identifier has its sixteen bytes.
    pub open spec fn fits(self) -> bool {
        &&& utf16_units(self.name).len() <= consts::MAX_NAME_UNITS
        &&& self.clsid.len() == 16
    }

    /// An entry that is not in use.
    pub open spec fn unallocated() -> EntryView {
        EntryView {
            name: Seq::empty(),
            obj_type: consts::OBJ_TYPE_UNALLOCATED,
            color: consts::COLOR_BLACK,
            left_sibling: consts::NO_STREAM,
            right_sibling: consts::NO_STREAM,
            child: consts::NO_STREAM,
            clsid: Seq::new(16, |i: int| 0u8),
            state_bits: 0,
            creation_time: 0,
            modified_time: 0,
            start_sector: 0,
            stream_len: 0,
        }
    }

    /// A new object without siblings, children or content, made at the time `now`.
    pub open spec fn created(name: Seq<char>, obj_type: u8, now: u64) -> EntryView {
        EntryView {
            name,
            obj_type,
            color: consts::COLOR_BLACK,
            left_sibling: consts::NO_STREAM,
            right_sibling: consts::NO_STREAM,
            child: consts::NO_STREAM,
            clsid: Seq::new(16, |i: int| 0u8),
            state_bits: 0,
            creation_time: now,
            modified_time: now,
            start_sector: if obj_type == consts::OBJ_TYPE_STREAM {
                consts::END_OF_CHAIN
            } else {
                0
            },
            stream_len: 0,
        }
    }

    /// The length of the name in the file, in bytes: with the zero that ends it,
    /// and zero for an entry that is not in use.
    pub open spec fn name_len(self) -> u16 {
        if self.obj_type == consts::OBJ_TYPE_UNALLOCATED {
            0
        } else {
            (2 * (utf16_units(self.name).len() + 1)) as u16
        }
    }

    /// The bytes of the entry before its three links.
    pub open spec fn head_bytes(self) -> Seq<u8> {
        units_le(padded_units(self.name)) + u16_le(self.name_len()) + seq![
            self.obj_type,
            self.color,
        ]
    }

    /// The bytes of the entry after its three links.
    pub open spec fn tail_bytes(self) -> Seq<u8> {
        clsid_le(self.clsid) + u32_le(self.state_bits) + u64_le(self.creation_time) + u64_le(
            self.modified_time,
        ) + u32_le(self.start_sector) + u64_le(self.stream_len)
    }

    /// The entry as the file holds it.
    pub open spec fn bytes(self) -> Seq<u8> {
        self.head_bytes() + u32_le(self.left_sibling) + u32_le(self.right_sibling) + u32_le(
            self.child,
        ) + self.tail_bytes()
    }

    /// The entry with another left link.
    pub open spec fn with_left(self, id: u32) -> EntryView {
        EntryView { left_sibling: id, ..self }
    }

    /// The entry with another right link.
    pub open spec fn with_right(self, id: u32) -> EntryView {
        EntryView { right_sibling: id, ..self }
    }

    /// The entry with another child link.
    pub open spec fn with_child(self, id: u32) -> EntryView {
        EntryView { child: id, ..self }
    }

    /// The entry without its links: the object that it describes.
    pub open spec fn payload(self) -> EntryView {
        self.with_left(consts::NO_STREAM).with_right(consts::NO_STREAM).with_child(
            consts::NO_STREAM,
        )
    }
}

/// `old` with the bytes from `at` on replaced by `patch`.
pub open spec fn patched(old: Seq<u8>, at: int, patch: Seq<u8>) -> Seq<u8> {
    old.take(at) + patch + old.skip(at + patch.len())
}

/// An entry takes up its fixed length in the file, and changing one of its links
/// changes in it only the four bytes that hold this link.
pub proof fn lemma_entry_bytes(entry: EntryView, id: u32)
    ensures
        entry.bytes().len() == consts::DIR_ENTRY_LEN,
        entry.with_left(id).bytes() == patched(entry.bytes(), 68, u32_le(id)),
        entry.with_right(id).bytes() == patched(entry.bytes(), 72, u32_le(id)),
        entry.with_child(id).bytes() == patched(entry.bytes(), 76, u32_le(id)),
{
    assert(entry.head_bytes().len() == 68);
    assert(entry.tail_bytes().len() == 48);
    assert(entry.with_left(id).head_bytes() == entry.head_bytes());
    assert(entry.with_right(id).head_bytes() == entry.head_bytes());
    assert(entry.with_child(id).head_bytes() == entry.head_bytes());
    assert(entry.with_left(id).tail_bytes() == entry.tail_bytes());
    assert(entry.with_right(id).tail_bytes() == entry.tail_bytes());
    assert(entry.with_child(id).tail_bytes() == entry.tail_bytes());
    assert(entry.with_left(id).bytes() =~= patched(entry.bytes(), 68, u32_le(id)));
    assert(entry.with_right(id).bytes() =~= patched(entry.bytes(), 72, u32_le(id)));
    assert(entry.with_child(id).bytes() =~= patched(entry.bytes(), 76, u32_le(id)));
}

/// The number in the two bytes from `at` on, the least significant first.
pub open spec fn read_u16(bytes: Seq<u8>, at: int) -> int {
    bytes[at] + 0x100 * bytes[at + 1]
}

/// The number in the four bytes from `at` on, the least significant first.
pub open spec fn read_u32(bytes: Seq<u8>, at: int) -> int {
    read_u16(bytes, at) + 0x1_0000 * read_u16(bytes, at + 2)
}

/// The number in the eight bytes from `at` on, the least significant first.
pub open spec fn read_u64(bytes: Seq<u8>, at: int) -> int {
    read_u32(bytes, at) + 0x1_0000_0000 * read_u32(bytes, at + 4)
}

proof fn lemma_read_u16(n: u16)
    ensures
        u16_le(n).len() == 2,
        read_u16(u16_le(n), 0) == n,
{
}

/// The bytes of a number give the number back.
pub proof fn lemma_read_u32(n: u32)
    ensures
        u32_le(n).len() == 4,
        read_u32(u32_le(n), 0) == n,
{
    let b = u32_le(n);
    assert(b[0] == n % 256 && b[1] == n / 0x100 % 256 && b[2] == n / 0x1_0000 % 256 && b[3] == n
        / 0x100_0000);
}

proof fn lemma_read_u64(n: u64)
    ensures
        u64_le(n).len() == 8,
        read_u64(u64_le(n), 0) == n,
{
    let (low, high) = ((n % 0x1_0000_0000) as u32, (n / 0x1_0000_0000) as u32);
    lemma_read_u32(low);
    lemma_read_u32(high);
    let b = u64_le(n);
    assert(read_u32(b, 0) == read_u32(u32_le(low), 0));
    assert(read_u32(b, 4) == read_u32(u32_le(high), 0));
}

/// Every field of an entry can be read back from its place in the 128 bytes of the
/// entry, whatever the type of the object.
pub proof fn lemma_entry_read_back(entry: EntryView)
    requires
        entry.fits(),
    ensures
        ({
            let b = entry.bytes();
            let units = utf16_units(entry.name);
            &&& b.len() == 128
            &&& forall|i: int| 0 <= i < units.len() ==> read_u16(b, 2 * i) == #[trigger] units[i]
            &&& forall|i: int|
                2 * units.len() <= i < 64 ==> #[trigger] b[i] == 0
            &&& read_u16(b, 64) == if entry.obj_type == 0 {
                0
            } else {
                2 * units.len() + 2
            }
            &&& b[66] == entry.obj_type
            &&& b[67] == entry.color
            &&& read_u32(b, 68) == entry.left_sibling
            &&& read_u32(b, 72) == entry.right_sibling
            &&& read_u32(b, 76) == entry.child
            &&& b[83] == entry.clsid[0] && b[82] == entry.clsid[1] && b[81] == entry.clsid[2]
                && b[80] == entry.clsid[3]
            &&& b[85] == entry.clsid[4] && b[84] == entry.clsid[5]
            &&& b[87] == entry.clsid[6] && b[86] == entry.clsid[7]
            &&& forall|i: int| 8 <= i < 16 ==> b[80 + i] == #[trigger] entry.clsid[i]
            &&& read_u32(b, 96) == entry.state_bits
            &&& read_u64(b, 100) == entry.creation_time
            &&& read_u64(b, 108) == entry.modified_time
            &&& read_u32(b, 116) == entry.start_sector
            &&& read_u64(b, 120) == entry.stream_len
        }),
{
    let b = entry.bytes();
    let units = utf16_units(entry.name);
    let (head, tail) = (entry.head_bytes(), entry.tail_bytes());
    lemma_entry_bytes(entry, 0);
    assert(head.len() == 68);
    assert(tail.len() == 48);
    lemma_read_u32(entry.left_sibling);
    lemma_read_u32(entry.right_sibling);
    lemma_read_u32(entry.child);
    assert(read_u32(b, 68) == read_u32(u32_le(entry.left_sibling), 0));
    assert(read_u32(b, 72) == read_u32(u32_le(entry.right_sibling), 0));
    assert(read_u32(b, 76) == read_u32(u32_le(entry.child), 0));
    assert forall|i: int| 0 <= i < 68 implies b[i] == head[i] by {}
    assert forall|i: int| 0 <= i < 48 implies b[80 + i] == #[trigger] tail[i] by {}
    lemma_head_read_back(entry);
    lemma_tail_read_back(entry);
    assert forall|i: int| 0 <= i < units.len() implies read_u16(b, 2 * i) == #[trigger] units[i] by {
        assert(read_u16(head, 2 * i) == units[i]);
    }
    assert(read_u16(b, 64) == read_u16(head, 64));
    assert(read_u32(b, 96) == read_u32(tail, 16));
    assert(read_u64(b, 100) == read_u64(tail, 20));
    assert(read_u64(b, 108) == read_u64(tail, 28));
    assert(read_u32(b, 116) == read_u32(tail, 36));
    assert(read_u64(b, 120) == read_u64(tail, 40));
    assert(b[80] == tail[0] && b[81] == tail[1] && b[82] == tail[2] && b[83] == tail[3]);
    assert(b[84] == tail[4] && b[85] == tail[5] && b[86] == tail[6] && b[87] == tail[7]);
    assert forall|i: int| 8 <= i < 16 implies b[80 + i] == #[trigger] entry.clsid[i] by {
        assert(b[80 + i] == tail[i]);
    }
}

proof fn lemma_head_read_back(entry: EntryView)
    requires
        entry.fits(),
    ensures
        ({
            let b = entry.head_bytes();
            let units = utf16_units(entry.name);
            &&& forall|i: int| 0 <= i < units.len() ==> read_u16(b, 2 * i) == #[trigger] units[i]
            &&& forall|i: int| 2 * units.len() <= i < 64 ==> #[trigger] b[i] == 0
            &&& read_u16(b, 64) == if entry.obj_type == 0 {
                0
            } else {
                2 * units.len() + 2
            }
            &&& b[66] == entry.obj_type
            &&& b[67] == entry.color
        }),
{
    let b = entry.head_bytes();
    let units = utf16_units(entry.name);
    let padded = padded_units(entry.name);
    let text = units_le(padded);
    assert(text.len() == 64);
    assert forall|i: int| 0 <= i < units.len() implies read_u16(b, 2 * i) == #[trigger] units[i] by {
        assert(padded[i] == units[i]);
        lemma_read_u16(units[i]);
        assert((2 * i) / 2 == i && (2 * i) % 2 == 0);
        assert((2 * i + 1) / 2 == i && (2 * i + 1) % 2 == 1);
        assert(b[2 * i] == text[2 * i] && b[2 * i + 1] == text[2 * i + 1]);
    }
    assert forall|i: int| 2 * units.len() <= i < 64 implies #[trigger] b[i] == 0 by {
        assert(b[i] == text[i]);
        assert(padded[i / 2] == 0);
    }
    lemma_read_u16(entry.name_len());
    assert(b[64] == u16_le(entry.name_len())[0] && b[65] == u16_le(entry.name_len())[1]);
}

proof fn lemma_tail_read_back(entry: EntryView)
    requires
        entry.fits(),
    ensures
        ({
            let b = entry.tail_bytes();
            &&& b[3] == entry.clsid[0] && b[2] == entry.clsid[1] && b[1] == entry.clsid[2] && b[0]
                == entry.clsid[3]
            &&& b[5] == entry.clsid[4] && b[4] == entry.clsid[5]
            &&& b[7] == entry.clsid[6] && b[6] == entry.clsid[7]
            &&& forall|i: int| 8 <= i < 16 ==> b[i] == #[trigger] entry.clsid[i]
            &&& read_u32(b, 16) == entry.state_bits
            &&& read_u64(b, 20) == entry.creation_time
            &&& read_u64(b, 28) == entry.modified_time
            &&& read_u32(b, 36) == entry.start_sector
            &&& read_u64(b, 40) == entry.stream_len
        }),
{
    let b = entry.tail_bytes();
    let c = clsid_le(entry.clsid);
    assert(c.len() == 16);
    assert forall|i: int| 0 <= i < 16 implies b[i] == #[trigger] c[i] by {}
    assert forall|i: int| 8 <= i < 16 implies b[i] == #[trigger] entry.clsid[i] by {
        assert(b[i] == c[i]);
    }
    assert(b[0] == c[0] && b[1] == c[1] && b[2] == c[2] && b[3] == c[3]);
    assert(b[4] == c[4] && b[5] == c[5] && b[6] == c[6] && b[7] == c[7]);
    lemma_read_u32(entry.state_bits);
    lemma_read_u64(entry.creation_time);
    lemma_read_u64(entry.modified_time);
    lemma_read_u32(entry.start_sector);
    lemma_read_u64(entry.stream_len);
    assert(read_u32(b, 16) == read_u32(u32_le(entry.state_bits), 0));
    assert(read_u64(b, 20) == read_u64(u64_le(entry.creation_time), 0));
    assert(read_u64(b, 28) == read_u64(u64_le(entry.modified_time), 0));
    assert(read_u32(b, 36) == read_u32(u32_le(entry.start_sector), 0));
    assert(read_u64(b, 40) == read_u64(u64_le(entry.stream_len), 0));
}

/// The bytes of an entry determine it: two entries in use that have the same bytes are
/// the same.
pub proof fn lemma_bytes_determine_entry(a: EntryView, b: EntryView)
    requires
        a.fits(),
        b.fits(),
        a.obj_type != 0,
        a.bytes() == b.bytes(),
    ensures
        a == b,
{
    lemma_entry_read_back(a);
    lemma_entry_read_back(b);
    let (x, y) = (utf16_units(a.name), utf16_units(b.name));
    assert(x.len() == y.len());
    assert forall|i: int| 0 <= i < x.len() implies x[i] == y[i] by {
        assert(read_u16(a.bytes(), 2 * i) == x[i]);
        assert(read_u16(b.bytes(), 2 * i) == y[i]);
    }
    assert(x =~= y);
    crate::names::lemma_utf16_injective(a.name, b.name);
    assert forall|i: int| 0 <= i < 16 implies a.clsid[i] == b.clsid[i] by {
        if i >= 8 {
            assert(a.bytes()[80 + i] == a.clsid[i]);
            assert(b.bytes()[80 + i] == b.clsid[i]);
        }
    }
    assert(a.clsid =~= b.clsid);
    assert(a =~= b);
}

/// A new object has the name and type it is given, the time it is made at as both of
/// its times, no siblings, children, bits, class or content. A stream without content
/// has no sector; for other objects the first sector is 0.
pub proof fn lemma_created_entry(name: Seq<char>, obj_type: u8, now: u64)
    ensures
        ({
            let entry = EntryView::created(name, obj_type, now);
            &&& entry.name == name
            &&& entry.obj_type == obj_type
            &&& entry.color == 1
            &&& entry.left_sibling == 0xffff_ffff
            &&& entry.right_sibling == 0xffff_ffff
            &&& entry.child == 0xffff_ffff
            &&& entry.clsid.len() == 16
            &&& forall|i: int| 0 <= i < 16 ==> #[trigger] entry.clsid[i] == 0
            &&& entry.state_bits == 0
            &&& entry.creation_time == now
            &&& entry.modified_time == now
            &&& entry.start_sector == if obj_type == 2 {
                0xffff_fffeu32
            } else {
                0
            }
            &&& entry.stream_len == 0
        }),
{
}

/// An entry that is not in use has no name, links, class, times, bits or content, and is
/// black.
pub proof fn lemma_unallocated_entry()
    ensures
        ({
            let entry = EntryView::unallocated();
            &&& entry.name.len() == 0
            &&& entry.obj_type == 0
            &&& entry.color == 1
            &&& entry.left_sibling == 0xffff_ffff
            &&& entry.right_sibling == 0xffff_ffff
            &&& entry.child == 0xffff_ffff
            &&& entry.clsid.len() == 16
            &&& forall|i: int| 0 <= i < 16 ==> #[trigger] entry.clsid[i] == 0
            &&& entry.state_bits == 0
            &&& entry.creation_time == 0
            &&& entry.modified_time == 0
            &&& entry.start_sector == 0
            &&& entry.stream_len == 0
        }),
{
}

/// Two entries describe the same object in everything but their links.
pub open spec fn same_object(a: EntryView, b: EntryView) -> bool {
    &&& a.name == b.name
    &&& a.obj_type == b.obj_type
    &&& a.color == b.color
    &&& a.clsid == b.clsid
    &&& a.state_bits == b.state_bits
    &&& a.creation_time == b.creation_time
    &&& a.modified_time == b.modified_time
    &&& a.start_sector == b.start_sector
    &&& a.stream_len == b.stream_len
}

/// Entries without their links are equal exactly if they describe the same object.
pub proof fn lemma_payload_meaning(a: EntryView, b: EntryView)
    ensures
        a.payload() == b.payload() <==> same_object(a, b),
{
    if a.payload() == b.payload() {
        let (p, q) = (a.payload(), b.payload());
        assert(p.name == a.name && q.name == b.name);
        assert(p.clsid == a.clsid && q.clsid == b.clsid);
        assert(p.obj_type == a.obj_type && q.obj_type == b.obj_type);
        assert(p.color == a.color && q.color == b.color);
        assert(p.state_bits == a.state_bits && q.state_bits == b.state_bits);
        assert(p.creation_time == a.creation_time && q.creation_time == b.creation_time);
        assert(p.modified_time == a.modified_time && q.modified_time == b.modified_time);
        assert(p.start_sector == a.start_sector && q.start_sector == b.start_sector);
        assert(p.stream_len == a.stream_len && q.stream_len == b.stream_len);
    }
    if same_object(a, b) {
        assert(a.payload() =~= b.payload());
    }
}

/// Calls `uuid::Uuid::nil`, and hands out its bytes: sixteen zeros.
#[verifier::external_body]
pub(crate) fn nil_clsid() -> (clsid: [u8; 16])
    ensures
        clsid@ == Seq::new(16, |i: int| 0u8),
{
    *Uuid::nil().as_bytes()
}

impl DirEntry {
    /// Returns an entry that is not in use.
    pub fn unallocated() -> (entry: DirEntry)
        ensures
            entry@ == EntryView::unallocated(),
            entry@.fits(),
    {
        DirEntry {
            name: String::new(),
            obj_type: consts::OBJ_TYPE_UNALLOCATED,
            color: consts::COLOR_BLACK,
            left_sibling: consts::NO_STREAM,
            right_sibling: consts::NO_STREAM,
            child: consts::NO_STREAM,
            clsid: nil_clsid(),
            state_bits: 0,
            creation_time: 0,
            modified_time: 0,
            start_sector: 0,
            stream_len: 0,
        }
    }

    /// Returns an entry for a new object without siblings, children or content,
    /// made at the time `now`.
    pub fn created(name: &str, obj_type: u8, now: u64) -> (entry: DirEntry)
        ensures
            entry@ == EntryView::created(name@, obj_type, now),
    {
        DirEntry {
            name: name.to_owned(),
            obj_type,
            color: consts::COLOR_BLACK,
            left_sibling: consts::NO_STREAM,
            right_sibling: consts::NO_STREAM,
            child: consts::NO_STREAM,
            clsid: nil_clsid(),
            state_bits: 0,
            creation_time: now,
            modified_time: now,
            start_sector: if obj_type == consts::OBJ_TYPE_STREAM {
                consts::END_OF_CHAIN
            } else {
                0
            },
            stream_len: 0,
        }
    }

    /// Tells whether the entry fits into its place in the file.
    pub fn fits(&self) -> (fits: bool)
        ensures
            fits == self@.fits(),
    {
        encode_utf16(self.name.as_str()).len() <= consts::MAX_NAME_UNITS
    }

    /// Returns the entry as the file holds it.
    pub fn to_bytes(&self) -> (out: Vec<u8>)
        requires
            self@.fits(),
        ensures
            out@ == self@.bytes(),
            out@.len() == consts::DIR_ENTRY_LEN,
    {
        let units: Vec<u16> = encode_utf16(self.name.as_str());
        let count: usize = units.len();
        let mut out: Vec<u8> = Vec::new();
        let ghost padded = padded_units(self@.name);
        let mut i: usize = 0;
        while i < 32
            invariant
                i <= 32,
                count == units@.len(),
                units@ == utf16_units(self@.name),
                padded == padded_units(self@.name),
                out@ == units_le(padded.take(i as int)),
            decreases 32 - i,
        {
            let unit: u16 = if i < count {
                units[i]
            } else {
                0
            };
            let ghost before = out@;
            write_u16_le(&mut out, unit);
            proof {
                assert(unit == padded[i as int]);
                assert(units_le(padded.take(i + 1)) =~= before + u16_le(unit));
            }
            i += 1;
        }
        assert(padded.take(32) =~= padded);
        let name_len: u16 = if self.obj_type == consts::OBJ_TYPE_UNALLOCATED {
            0
        } else {
            2 * (count as u16 + 1)
        };
        write_u16_le(&mut out, name_len);
        out.push(self.obj_type);
        out.push(self.color);
        assert(out@ =~= self@.head_bytes());
        write_u32_le(&mut out, self.left_sibling);
        write_u32_le(&mut out, self.right_sibling);
        write_u32_le(&mut out, self.child);
        let ghost front = out@;
        out.push(self.clsid[3]);
        out.push(self.clsid[2]);
        out.push(self.clsid[1]);
        out.push(self.clsid[0]);
        out.push(self.clsid[5]);
        out.push(self.clsid[4]);
        out.push(self.clsid[7]);
        out.push(self.clsid[6]);
        i = 8;
        while i < 16
            invariant
                8 <= i <= 16,
                out@ == front + clsid_le(self.clsid@).take(i as int),
            decreases 16 - i,
        {
            out.push(self.clsid[i]);
            assert(out@ =~= front + clsid_le(self.clsid@).take(i + 1));
            i += 1;
        }
        write_u32_le(&mut out, self.state_bits);
        write_u64_le(&mut out, self.creation_time);
        write_u64_le(&mut out, self.modified_time);
        write_u32_le(&mut out, self.start_sector);
        write_u64_le(&mut out, self.stream_len);
        proof {
            assert(clsid_le(self.clsid@).take(16) =~= clsid_le(self.clsid@));
            assert(out@ =~= front + self@.tail_bytes());
            lemma_entry_bytes(self@, 0);
        }
        out
    }
}

} // verus!
