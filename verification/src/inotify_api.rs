//! The change-notification record format: event kinds, the packed record
//! layout and its decoder.

use vstd::prelude::*;
use vstd::slice::slice_subrange;

verus! {

/// Flag for opening the notification instance so that it is closed when the
/// process image is replaced.
pub const IN_CLOEXEC: i32 = 524288;

/// Flag for opening the notification instance in non-blocking read mode.
pub const IN_NONBLOCK: i32 = 2048;

/// The mask that asks for every kind of event on a watch.
pub const IN_ALL_EVENTS: u32 = 4095;

/// The flags with which the notification instance is opened: closed when
/// the process image is replaced, and never blocking on a read.
pub const IN_OPEN_FLAGS: i32 = IN_CLOEXEC | IN_NONBLOCK;

/// Every bit of a record's mask that has a name in [`Mask`].
pub const IN_KNOWN_BITS: u32 = 0x4000_cfff;

/// One kind of change that a record can report. A record's mask reports a
/// set of them: see [`Mask::new`].
///
/// `IN_CLOSE` and `IN_MOVE` are unions of two kinds each. `Undefined` stands
/// for every bit that has no name here.
#[allow(non_camel_case_types)]
#[derive(PartialEq, Eq, Structural, Clone, Copy, Debug)]
pub enum Mask {
    IN_ACCESS,
    IN_MODIFY,
    IN_ATTRIB,
    IN_CLOSE_WRITE,
    IN_CLOSE_NOWRITE,
    IN_CLOSE,
    IN_OPEN,
    IN_MOVED_FROM,
    IN_MOVED_TO,
    IN_MOVE,
    IN_CREATE,
    IN_DELETE,
    IN_DELETE_SELF,
    IN_MOVE_SELF,
    IN_Q_OVERFLOW,
    IN_IGNORED,
    IN_ISDIR,
    Undefined,
}

impl Mask {
    /// The bits that the kind stands for; `Undefined` names none.
    pub open spec fn spec_bits(self) -> u32 {
        match self {
            Mask::IN_ACCESS => 0x1,
            Mask::IN_MODIFY => 0x2,
            Mask::IN_ATTRIB => 0x4,
            Mask::IN_CLOSE_WRITE => 0x8,
            Mask::IN_CLOSE_NOWRITE => 0x10,
            Mask::IN_CLOSE => 0x18,
            Mask::IN_OPEN => 0x20,
            Mask::IN_MOVED_FROM => 0x40,
            Mask::IN_MOVED_TO => 0x80,
            Mask::IN_MOVE => 0xc0,
            Mask::IN_CREATE => 0x100,
            Mask::IN_DELETE => 0x200,
            Mask::IN_DELETE_SELF => 0x400,
            Mask::IN_MOVE_SELF => 0x800,
            Mask::IN_Q_OVERFLOW => 0x4000,
            Mask::IN_IGNORED => 0x8000,
            Mask::IN_ISDIR => 0x4000_0000,
            Mask::Undefined => 0,
        }
    }

    /// A union of two other kinds.
    pub open spec fn is_union(self) -> bool {
        self == Mask::IN_CLOSE || self == Mask::IN_MOVE
    }

    /// The bits that the kind stands for; `Undefined` names none.
    #[verifier::when_used_as_spec(spec_bits)]
    pub fn bits(self) -> (r: u32)
        ensures
            r == self.spec_bits(),
    {
        match self {
            Mask::IN_ACCESS => 0x1,
            Mask::IN_MODIFY => 0x2,
            Mask::IN_ATTRIB => 0x4,
            Mask::IN_CLOSE_WRITE => 0x8,
            Mask::IN_CLOSE_NOWRITE => 0x10,
            Mask::IN_CLOSE => 0x18,
            Mask::IN_OPEN => 0x20,
            Mask::IN_MOVED_FROM => 0x40,
            Mask::IN_MOVED_TO => 0x80,
            Mask::IN_MOVE => 0xc0,
            Mask::IN_CREATE => 0x100,
            Mask::IN_DELETE => 0x200,
            Mask::IN_DELETE_SELF => 0x400,
            Mask::IN_MOVE_SELF => 0x800,
            Mask::IN_Q_OVERFLOW => 0x4000,
            Mask::IN_IGNORED => 0x8000,
            Mask::IN_ISDIR => 0x4000_0000,
            Mask::Undefined => 0,
        }
    }

    /// Whether a record's mask reports this kind: one of the kind's bits is
    /// set in it. For `Undefined`: a bit that has no name is set in it.
    pub open spec fn spec_is_set(self, mask: u32) -> bool {
        if self == Mask::Undefined {
            mask & !IN_KNOWN_BITS != 0
        } else {
            mask & self.spec_bits() != 0
        }
    }

    /// Whether a record's mask reports this kind.
    #[verifier::when_used_as_spec(spec_is_set)]
    pub fn is_set(self, mask: u32) -> (r: bool)
        ensures
            r == self.spec_is_set(mask),
    {
        match self {
            Mask::Undefined => mask & !IN_KNOWN_BITS != 0,
            _ => mask & self.bits() != 0,
        }
    }

    /// The kinds that a record's mask reports: each kind whose bit is set in
    /// it, in the order of the bits, and `Undefined` last if a bit is set
    /// that has no name. The two unions are not among them: their parts are.
    /// A mask of no bits reports no kind. The result is never `None`.
    pub fn new(mask: u32) -> (r: Option<Vec<Mask>>)
        ensures
            r is Some,
            r->0@ == kinds_in(mask),
            forall|kind: Mask|
                r->0@.contains(kind) <==> !kind.is_union() && #[trigger] kind.spec_is_set(mask),
            r->0@.contains(Mask::Undefined) <==> mask & !IN_KNOWN_BITS != 0,
    {
        let all = [
            Mask::IN_ACCESS,
            Mask::IN_MODIFY,
            Mask::IN_ATTRIB,
            Mask::IN_CLOSE_WRITE,
            Mask::IN_CLOSE_NOWRITE,
            Mask::IN_OPEN,
            Mask::IN_MOVED_FROM,
            Mask::IN_MOVED_TO,
            Mask::IN_CREATE,
            Mask::IN_DELETE,
            Mask::IN_DELETE_SELF,
            Mask::IN_MOVE_SELF,
            Mask::IN_Q_OVERFLOW,
            Mask::IN_IGNORED,
            Mask::IN_ISDIR,
            Mask::Undefined,
        ];
        let ghost reported = |k: Mask| k.spec_is_set(mask);
        let mut out: Vec<Mask> = Vec::new();
        let mut i: usize = 0;
        proof {
            reveal(Seq::filter);
            assert(all@ =~= simple_kinds());
            assert(all@.take(0).filter(reported) =~= Seq::<Mask>::empty());
        }
        while i < 16
            invariant
                i <= 16,
                all@ == simple_kinds(),
                reported == |k: Mask| k.spec_is_set(mask),
                out@ == all@.take(i as int).filter(reported),
            decreases 16 - i,
        {
            let kind = all[i];
            proof {
                assert(all@.take(i + 1) =~= all@.take(i as int).push(kind));
                all@.take(i as int).lemma_filter_push(kind, reported);
            }
            if kind.is_set(mask) {
                out.push(kind);
            }
            i += 1;
        }
        proof {
            assert(all@.take(16) =~= all@);
            assert forall|kind: Mask|
                out@.contains(kind) <==> !kind.is_union() && #[trigger] kind.spec_is_set(
                    mask,
                ) by {
                lemma_kinds_in_contains(mask, kind);
            }
            lemma_kinds_in_contains(mask, Mask::Undefined);
        }
        Some(out)
    }
}

/// The kinds that are no unions, in the order of their bits, `Undefined`
/// last.
pub open spec fn simple_kinds() -> Seq<Mask> {
    seq![
        Mask::IN_ACCESS,
        Mask::IN_MODIFY,
        Mask::IN_ATTRIB,
        Mask::IN_CLOSE_WRITE,
        Mask::IN_CLOSE_NOWRITE,
        Mask::IN_OPEN,
        Mask::IN_MOVED_FROM,
        Mask::IN_MOVED_TO,
        Mask::IN_CREATE,
        Mask::IN_DELETE,
        Mask::IN_DELETE_SELF,
        Mask::IN_MOVE_SELF,
        Mask::IN_Q_OVERFLOW,
        Mask::IN_IGNORED,
        Mask::IN_ISDIR,
        Mask::Undefined,
    ]
}

/// The kinds that a record's mask reports: the members of [`simple_kinds`]
/// that are set in it, in that order.
pub open spec fn kinds_in(mask: u32) -> Seq<Mask> {
    simple_kinds().filter(|k: Mask| k.spec_is_set(mask))
}

/// A kind is among those that a mask reports exactly if it is no union and
/// is set in the mask.
pub proof fn lemma_kinds_in_contains(mask: u32, kind: Mask)
    ensures
        kinds_in(mask).contains(kind) <==> !kind.is_union() && kind.spec_is_set(mask),
{
    let reported = |k: Mask| k.spec_is_set(mask);
    let all = simple_kinds();
    if kinds_in(mask).contains(kind) {
        all.lemma_filter_contains_rev(reported, kind);
        let i = choose|i: int| 0 <= i < all.len() && all[i] == kind;
        assert(!all[i].is_union());
    }
    if !kind.is_union() && kind.spec_is_set(mask) {
        let i: int = match kind {
            Mask::IN_ACCESS => 0,
            Mask::IN_MODIFY => 1,
            Mask::IN_ATTRIB => 2,
            Mask::IN_CLOSE_WRITE => 3,
            Mask::IN_CLOSE_NOWRITE => 4,
            Mask::IN_OPEN => 5,
            Mask::IN_MOVED_FROM => 6,
            Mask::IN_MOVED_TO => 7,
            Mask::IN_CREATE => 8,
            Mask::IN_DELETE => 9,
            Mask::IN_DELETE_SELF => 10,
            Mask::IN_MOVE_SELF => 11,
            Mask::IN_Q_OVERFLOW => 12,
            Mask::IN_IGNORED => 13,
            Mask::IN_ISDIR => 14,
            _ => 15,
        };
        assert(all[i] == kind);
        all.lemma_filter_contains(reported, i);
    }
}

/// A union is set in a mask exactly if one of its two parts is.
pub proof fn lemma_unions(mask: u32)
    ensures
        Mask::IN_CLOSE.spec_bits() == Mask::IN_CLOSE_WRITE.spec_bits()
            | Mask::IN_CLOSE_NOWRITE.spec_bits(),
        Mask::IN_MOVE.spec_bits() == Mask::IN_MOVED_FROM.spec_bits()
            | Mask::IN_MOVED_TO.spec_bits(),
        Mask::IN_CLOSE.spec_is_set(mask) <==> Mask::IN_CLOSE_WRITE.spec_is_set(mask)
            || Mask::IN_CLOSE_NOWRITE.spec_is_set(mask),
        Mask::IN_MOVE.spec_is_set(mask) <==> Mask::IN_MOVED_FROM.spec_is_set(mask)
            || Mask::IN_MOVED_TO.spec_is_set(mask),
{
    assert(0x18u32 == 0x8u32 | 0x10u32) by (bit_vector);
    assert(0xc0u32 == 0x40u32 | 0x80u32) by (bit_vector);
    assert((mask & 0x18 != 0) <==> (mask & 0x8 != 0 || mask & 0x10 != 0)) by (bit_vector);
    assert((mask & 0xc0 != 0) <==> (mask & 0x40 != 0 || mask & 0x80 != 0)) by (bit_vector);
}

/// The size of a record's fixed header, in bytes.
pub const EVENT_HEADER_LEN: usize = 16;

/// One decoded record.
///
/// `mask` holds the kinds that the record's mask reports, `len` the declared
/// length of the name field. `name` is that field, byte for byte, and is
/// absent exactly if `len` is zero.
#[allow(non_camel_case_types)]
#[derive(Debug, Clone, PartialEq, Eq)]
pub struct inotify_event {
    pub wd: i32,
    pub mask: Vec<Mask>,
    pub cookie: u32,
    pub len: u32,
    pub name: Option<Vec<u8>>,
}

/// A decoded record, with its kinds and its name as sequences.
pub struct EventView {
    pub wd: i32,
    pub mask: Seq<Mask>,
    pub cookie: u32,
    pub len: u32,
    pub name: Option<Seq<u8>>,
}

impl EventView {
    /// The name is there exactly if the declared length is not zero, and is
    /// as long as declared.
    pub open spec fn wf(self) -> bool {
        match self.name {
            Some(n) => self.len != 0 && n.len() == self.len,
            None => self.len == 0,
        }
    }
}

impl View for inotify_event {
    type V = EventView;

    open spec fn view(&self) -> EventView {
        EventView {
            wd: self.wd,
            mask: self.mask@,
            cookie: self.cookie,
            len: self.len,
            name: match self.name {
                Some(n) => Some(n@),
                None => None,
            },
        }
    }
}

impl DeepView for inotify_event {
    type V = EventView;

    open spec fn deep_view(&self) -> EventView {
        self@
    }
}

/// The unsigned number that the four bytes of `b` from `at` on hold, least
/// significant byte first.
pub open spec fn le_u32(b: Seq<u8>, at: int) -> u32 {
    (b[at] as int + b[at + 1] as int * 0x100 + b[at + 2] as int * 0x1_0000 + b[at + 3] as int
        * 0x100_0000) as u32
}

/// The signed number with the same 32 bits as `v`, in two's complement.
pub open spec fn signed(v: u32) -> i32 {
    if v < 0x8000_0000 {
        v as i32
    } else {
        (v - 0x1_0000_0000) as i32
    }
}

/// The unsigned number with the same 32 bits as `v`.
pub open spec fn unsigned(v: i32) -> u32 {
    if v >= 0 {
        v as u32
    } else {
        (v + 0x1_0000_0000) as u32
    }
}

/// The four bytes that hold `v`, least significant byte first.
pub open spec fn le_bytes(v: u32) -> Seq<u8> {
    seq![
        (v % 0x100) as u8,
        (v / 0x100 % 0x100) as u8,
        (v / 0x1_0000 % 0x100) as u8,
        (v / 0x100_0000) as u8,
    ]
}

/// The size that the record at the start of `b` declares: its header and its
/// name field.
pub open spec fn record_len(b: Seq<u8>) -> int {
    EVENT_HEADER_LEN + le_u32(b, 12)
}

/// `b` holds the whole of its first record, header and name field.
pub open spec fn holds_record(b: Seq<u8>) -> bool {
    b.len() >= EVENT_HEADER_LEN && b.len() >= record_len(b)
}

/// The record at the start of `b`.
pub open spec fn first_event(b: Seq<u8>) -> EventView {
    let len = le_u32(b, 12);
    EventView {
        wd: signed(le_u32(b, 0)),
        mask: kinds_in(le_u32(b, 4)),
        cookie: le_u32(b, 8),
        len,
        name: if len == 0 {
            None
        } else {
            Some(b.subrange(EVENT_HEADER_LEN as int, record_len(b)))
        },
    }
}

/// The records that `b` holds whole, from its start on, in their order.
pub open spec fn decoded(b: Seq<u8>) -> Seq<EventView>
    decreases b.len(),
{
    if holds_record(b) {
        seq![first_event(b)] + decoded(b.skip(record_len(b)))
    } else {
        Seq::empty()
    }
}

/// What is left of `b` behind its last whole record: nothing, or the first
/// part of a record that the rest of is still to come.
pub open spec fn leftover(b: Seq<u8>) -> Seq<u8>
    decreases b.len(),
{
    if holds_record(b) {
        leftover(b.skip(record_len(b)))
    } else {
        b
    }
}

/// The bytes of a record with these header fields and this name field.
pub open spec fn record_bytes(wd: i32, mask: u32, cookie: u32, name: Seq<u8>) -> Seq<u8> {
    le_bytes(unsigned(wd)) + le_bytes(mask) + le_bytes(cookie) + le_bytes(name.len() as u32) + name
}

/// The bytes of `s` before its first zero byte; all of `s` if it has none.
pub open spec fn until_nul(s: Seq<u8>) -> Seq<u8>
    decreases s.len(),
{
    if s.len() == 0 || s[0] == 0 {
        Seq::empty()
    } else {
        seq![s[0]] + until_nul(s.skip(1))
    }
}

/// Reads the four bytes of `b` from `at` on as a number, least significant
/// byte first.
pub fn read_le_u32(b: &[u8], at: usize) -> (r: u32)
    requires
        at + 4 <= b.len(),
    ensures
        r == le_u32(b@, at as int),
{
    let b0: u32 = b[at] as u32;
    let b1: u32 = b[at + 1] as u32;
    let b2: u32 = b[at + 2] as u32;
    let b3: u32 = b[at + 3] as u32;
    b0 + b1 * 0x100 + b2 * 0x1_0000 + b3 * 0x100_0000
}

/// Appends the four bytes that hold `v`, least significant byte first.
pub fn write_le_u32(out: &mut Vec<u8>, v: u32)
    ensures
        final(out)@ == old(out)@ + le_bytes(v),
{
    out.push((v % 0x100) as u8);
    out.push((v / 0x100 % 0x100) as u8);
    out.push((v / 0x1_0000 % 0x100) as u8);
    out.push((v / 0x100_0000) as u8);
    proof {
        assert(out@ =~= old(out)@ + le_bytes(v));
    }
}

/// Reading gives back the number that was written.
pub proof fn lemma_le_roundtrip(v: u32)
    ensures
        le_bytes(v).len() == 4,
        le_u32(le_bytes(v), 0) == v,
{
}

/// The two readings of 32 bits, signed and unsigned, undo each other.
pub proof fn lemma_signed_roundtrip(v: i32)
    ensures
        signed(unsigned(v)) == v,
{
}

impl inotify_event {
    /// Decodes the record at the start of the buffer of one read, of which
    /// the first `valid` bytes were read. `None` where those bytes do not
    /// hold the whole record: what lies behind them is never taken for part
    /// of it.
    pub fn new(buf: &[u8; 1024], valid: usize) -> (r: Option<Self>)
        requires
            valid <= 1024,
        ensures
            r is Some == holds_record(buf@.take(valid as int)),
            r is Some ==> r->0@ == first_event(buf@.take(valid as int)),
    {
        let read = slice_subrange(buf.as_slice(), 0, valid);
        proof {
            assert(read@ =~= buf@.take(valid as int));
            assert(read@.skip(0) =~= read@);
        }
        Self::decode_at(read, 0)
    }

    /// Decodes the record that starts at `at`. `None` where `bytes` does not
    /// hold all of it, or ends before `at`: nothing is read past the end, and
    /// no part of a record is taken for the whole.
    pub fn decode_at(bytes: &[u8], at: usize) -> (r: Option<Self>)
        ensures
            r is Some == (at <= bytes.len() && holds_record(bytes@.skip(at as int))),
            r is Some ==> r->0@ == first_event(bytes@.skip(at as int)),
    {
        if at > bytes.len() {
            return None;
        }
        let ghost b = bytes@.skip(at as int);
        let room: usize = bytes.len() - at;
        if room < EVENT_HEADER_LEN {
            return None;
        }
        let wd_bits = read_le_u32(bytes, at);
        let mask = read_le_u32(bytes, at + 4);
        let cookie = read_le_u32(bytes, at + 8);
        let len = read_le_u32(bytes, at + 12);
        if room - EVENT_HEADER_LEN < len as usize {
            return None;
        }
        let wd: i32 = if wd_bits < 0x8000_0000 {
            wd_bits as i32
        } else {
            (wd_bits - 0x8000_0000) as i32 + i32::MIN
        };
        let name = if len == 0 {
            None
        } else {
            let start: usize = at + EVENT_HEADER_LEN;
            let mut field: Vec<u8> = Vec::new();
            let mut i: usize = 0;
            while i < len as usize
                invariant
                    i <= len,
                    start + len <= bytes.len(),
                    field@ == bytes@.subrange(start as int, start + i),
                decreases len - i,
            {
                field.push(bytes[start + i]);
                proof {
                    assert(bytes@.subrange(start as int, start + i).push(bytes@[start + i])
                        =~= bytes@.subrange(start as int, start + i + 1));
                }
                i += 1;
            }
            proof {
                assert(bytes@.subrange(start as int, start + len) =~= b.subrange(
                    EVENT_HEADER_LEN as int,
                    record_len(b),
                ));
            }
            Some(field)
        };
        Some(inotify_event { wd, mask: Mask::new(mask)?, cookie, len, name })
    }

    /// The size of the record that was decoded: its header and its name
    /// field.
    pub fn size(&self) -> (r: u64)
        ensures
            r == EVENT_HEADER_LEN + self.len,
    {
        EVENT_HEADER_LEN as u64 + self.len as u64
    }

    /// Whether the record reports `kind`; for a union, whether it reports one
    /// of its two parts.
    pub fn reports(&self, kind: Mask) -> (r: bool)
        ensures
            r == match kind {
                Mask::IN_CLOSE => self@.mask.contains(Mask::IN_CLOSE_WRITE) || self@.mask.contains(
                    Mask::IN_CLOSE_NOWRITE,
                ),
                Mask::IN_MOVE => self@.mask.contains(Mask::IN_MOVED_FROM) || self@.mask.contains(
                    Mask::IN_MOVED_TO,
                ),
                _ => self@.mask.contains(kind),
            },
    {
        let mut found = false;
        let mut i: usize = 0;
        while i < self.mask.len()
            invariant
                i <= self.mask.len(),
                found == exists|j: int| 0 <= j < i && part_of(self.mask@[j], kind),
            decreases self.mask.len() - i,
        {
            let k = self.mask[i];
            let hit = match kind {
                Mask::IN_CLOSE => k == Mask::IN_CLOSE_WRITE || k == Mask::IN_CLOSE_NOWRITE,
                Mask::IN_MOVE => k == Mask::IN_MOVED_FROM || k == Mask::IN_MOVED_TO,
                _ => k == kind,
            };
            assert(hit == part_of(self.mask@[i as int], kind));
            if hit {
                found = true;
            }
            i += 1;
        }
        proof {
            let m = self@.mask;
            if found {
                let j = choose|j: int| 0 <= j < m.len() && part_of(m[j], kind);
                assert(m.contains(m[j]));
            }
        }
        found
    }

    /// The file name that the record carries: the name field up to its first
    /// zero byte, without the padding behind it. Empty where the record has
    /// no name field.
    pub fn file_name(&self) -> (r: Vec<u8>)
        ensures
            r@ == match self@.name {
                Some(n) => until_nul(n),
                None => Seq::empty(),
            },
    {
        let mut out: Vec<u8> = Vec::new();
        match &self.name {
            Some(field) => {
                let mut i: usize = 0;
                proof {
                    assert(field@.skip(0) =~= field@);
                    assert(out@ + until_nul(field@) =~= until_nul(field@));
                }
                while i < field.len() && field[i] != 0
                    invariant
                        i <= field.len(),
                        until_nul(field@) == out@ + until_nul(field@.skip(i as int)),
                    decreases field.len() - i,
                {
                    proof {
                        let rest = field@.skip(i as int);
                        assert(rest.skip(1) =~= field@.skip(i + 1));
                        assert(out@.push(field@[i as int]) + until_nul(rest.skip(1)) =~= out@ + (
                        seq![rest[0]] + until_nul(rest.skip(1))));
                    }
                    out.push(field[i]);
                    i += 1;
                }
                proof {
                    assert(out@ + Seq::<u8>::empty() =~= out@);
                }
            },
            None => {},
        }
        out
    }
}

/// `k` is `kind`, or one of the two parts of the union `kind`.
pub open spec fn part_of(k: Mask, kind: Mask) -> bool {
    match kind {
        Mask::IN_CLOSE => k == Mask::IN_CLOSE_WRITE || k == Mask::IN_CLOSE_NOWRITE,
        Mask::IN_MOVE => k == Mask::IN_MOVED_FROM || k == Mask::IN_MOVED_TO,
        _ => k == kind,
    }
}

/// Writes a record with these header fields and this name field; the length
/// that the record declares is that of `name`.
pub fn encode_record(wd: i32, mask: u32, cookie: u32, name: &[u8]) -> (r: Vec<u8>)
    requires
        name.len() <= u32::MAX,
    ensures
        r@ == record_bytes(wd, mask, cookie, name@),
{
    let wd_bits: u32 = if wd >= 0 {
        wd as u32
    } else {
        (wd - i32::MIN) as u32 + 0x8000_0000
    };
    let mut out: Vec<u8> = Vec::new();
    write_le_u32(&mut out, wd_bits);
    write_le_u32(&mut out, mask);
    write_le_u32(&mut out, cookie);
    write_le_u32(&mut out, name.len() as u32);
    let ghost header = out@;
    let mut i: usize = 0;
    while i < name.len()
        invariant
            i <= name.len(),
            out@ == header + name@.take(i as int),
        decreases name.len() - i,
    {
        out.push(name[i]);
        proof {
            assert(header + name@.take(i as int).push(name@[i as int]) =~= header + name@.take(
                i + 1,
            ));
            assert((header + name@.take(i as int)).push(name@[i as int]) =~= header + name@.take(
                i as int,
            ).push(name@[i as int]));
        }
        i += 1;
    }
    proof {
        assert(name@.take(name.len() as int) =~= name@);
        assert(out@ =~= record_bytes(wd, mask, cookie, name@));
    }
    out
}

/// A decoded record has a name exactly if it declares one, of exactly the
/// declared length.
pub proof fn lemma_first_event_wf(b: Seq<u8>)
    requires
        holds_record(b),
    ensures
        first_event(b).wf(),
{
}

/// A record that was written is read back as it was, whatever follows it:
/// the header fields unchanged, the mask as its kinds, and the name field
/// byte for byte, absent where it is empty.
pub proof fn lemma_record_roundtrip(wd: i32, mask: u32, cookie: u32, name: Seq<u8>, rest: Seq<u8>)
    requires
        name.len() <= u32::MAX,
    ensures
        holds_record(record_bytes(wd, mask, cookie, name) + rest),
        record_len(record_bytes(wd, mask, cookie, name) + rest) == EVENT_HEADER_LEN + name.len(),
        first_event(record_bytes(wd, mask, cookie, name) + rest) == (EventView {
            wd,
            mask: kinds_in(mask),
            cookie,
            len: name.len() as u32,
            name: if name.len() == 0 {
                None
            } else {
                Some(name)
            },
        }),
{
    let b = record_bytes(wd, mask, cookie, name) + rest;
    let len = name.len() as u32;
    lemma_le_roundtrip(unsigned(wd));
    lemma_le_roundtrip(mask);
    lemma_le_roundtrip(cookie);
    lemma_le_roundtrip(len);
    lemma_signed_roundtrip(wd);
    assert(le_u32(b, 0) == le_u32(le_bytes(unsigned(wd)), 0));
    assert(le_u32(b, 4) == le_u32(le_bytes(mask), 0));
    assert(le_u32(b, 8) == le_u32(le_bytes(cookie), 0));
    assert(le_u32(b, 12) == le_u32(le_bytes(len), 0));
    assert(b.subrange(EVENT_HEADER_LEN as int, EVENT_HEADER_LEN + name.len()) =~= name);
}

/// A record takes its header and its name field, and nothing more.
pub proof fn lemma_record_bytes_len(wd: i32, mask: u32, cookie: u32, name: Seq<u8>)
    ensures
        record_bytes(wd, mask, cookie, name).len() == EVENT_HEADER_LEN + name.len(),
{
}

/// Records written one behind the other are read back one by one, in their
/// order.
pub proof fn lemma_decoded_record_first(
    wd: i32,
    mask: u32,
    cookie: u32,
    name: Seq<u8>,
    rest: Seq<u8>,
)
    requires
        name.len() <= u32::MAX,
    ensures
        decoded(record_bytes(wd, mask, cookie, name) + rest) == seq![
            first_event(record_bytes(wd, mask, cookie, name) + rest),
        ] + decoded(rest),
        leftover(record_bytes(wd, mask, cookie, name) + rest) == leftover(rest),
{
    let r = record_bytes(wd, mask, cookie, name);
    let b = r + rest;
    lemma_record_roundtrip(wd, mask, cookie, name, rest);
    lemma_record_bytes_len(wd, mask, cookie, name);
    assert(record_len(b) == r.len());
    assert(b.skip(r.len() as int) =~= rest);
}

/// What is left over does not hold a whole record, and is the end of the
/// bytes that were given.
pub proof fn lemma_leftover_is_partial(b: Seq<u8>)
    ensures
        !holds_record(leftover(b)),
        leftover(b).len() <= b.len(),
        leftover(b) == b.skip(b.len() - leftover(b).len()),
    decreases b.len(),
{
    if holds_record(b) {
        let n = record_len(b);
        let rest = b.skip(n);
        lemma_leftover_is_partial(rest);
        let k = rest.len() - leftover(rest).len();
        assert(leftover(b) == leftover(rest));
        assert(b.len() - leftover(b).len() == n + k);
        assert(b.skip(n).skip(k) =~= b.skip(n + k));
    } else {
        assert(b.skip(0) =~= b);
    }
}

/// Bytes may arrive in any two parts: decoding the first part, and then what
/// it left over followed by the second part, gives the records of the whole,
/// and leaves over what the whole leaves over.
pub proof fn lemma_decoded_in_parts(a: Seq<u8>, b: Seq<u8>)
    ensures
        decoded(a + b) == decoded(a) + decoded(leftover(a) + b),
        leftover(a + b) == leftover(leftover(a) + b),
    decreases a.len(),
{
    if holds_record(a) {
        let n = record_len(a);
        assert(le_u32(a + b, 12) == le_u32(a, 12));
        assert(holds_record(a + b));
        assert((a + b).skip(n) =~= a.skip(n) + b);
        assert(le_u32(a + b, 0) == le_u32(a, 0));
        assert(le_u32(a + b, 4) == le_u32(a, 4));
        assert(le_u32(a + b, 8) == le_u32(a, 8));
        assert((a + b).subrange(EVENT_HEADER_LEN as int, n) =~= a.subrange(
            EVENT_HEADER_LEN as int,
            n,
        ));
        assert(first_event(a + b) == first_event(a));
        lemma_decoded_in_parts(a.skip(n), b);
        assert(seq![first_event(a)] + (decoded(a.skip(n)) + decoded(leftover(a.skip(n)) + b))
            =~= (seq![first_event(a)] + decoded(a.skip(n))) + decoded(leftover(a.skip(n)) + b));
    } else {
        assert(decoded(a) + decoded(a + b) =~= decoded(a + b));
    }
}

/// Decodes the stream of records across reads: what a read leaves over, the
/// first part of a record, is kept and put in front of the next read.
pub struct EventDecoder {
    pending: Vec<u8>,
}

impl View for EventDecoder {
    type V = Seq<u8>;

    /// The bytes kept from earlier reads.
    closed spec fn view(&self) -> Seq<u8> {
        self.pending@
    }
}

impl EventDecoder {
    /// A decoder that has kept nothing.
    pub fn new() -> (r: Self)
        ensures
            r@ == Seq::<u8>::empty(),
    {
        EventDecoder { pending: Vec::new() }
    }

    /// The bytes kept from earlier reads.
    pub fn pending(&self) -> (r: &Vec<u8>)
        ensures
            r@ == self@,
    {
        &self.pending
    }

    /// Takes the first `valid` bytes of `buf`, the result of one read, and
    /// returns every record that is now whole, in stream order. The bytes
    /// behind the last whole record are kept for the next call.
    pub fn feed(&mut self, buf: &[u8], valid: usize) -> (r: Vec<inotify_event>)
        requires
            valid <= buf.len(),
        ensures
            r.deep_view() == decoded(old(self)@ + buf@.take(valid as int)),
            final(self)@ == leftover(old(self)@ + buf@.take(valid as int)),
    {
        let ghost all = old(self)@ + buf@.take(valid as int);
        let mut i: usize = 0;
        while i < valid
            invariant
                i <= valid <= buf.len(),
                self.pending@ == old(self)@ + buf@.take(i as int),
            decreases valid - i,
        {
            self.pending.push(buf[i]);
            proof {
                assert((old(self)@ + buf@.take(i as int)).push(buf@[i as int]) =~= old(self)@
                    + buf@.take(i + 1));
            }
            i += 1;
        }
        let mut events: Vec<inotify_event> = Vec::new();
        let mut at: usize = 0;
        proof {
            assert(all.skip(0) =~= all);
            assert(events.deep_view() + decoded(all) =~= decoded(all));
        }
        loop
            invariant
                self.pending@ == all,
                at <= all.len(),
                decoded(all) == events.deep_view() + decoded(all.skip(at as int)),
                leftover(all) == leftover(all.skip(at as int)),
            ensures
                self.pending@ == all,
                at <= all.len(),
                decoded(all) == events.deep_view(),
                leftover(all) == all.skip(at as int),
            decreases all.len() - at,
        {
            match inotify_event::decode_at(self.pending.as_slice(), at) {
                Some(event) => {
                    let total: usize = self.pending.len();
                    let ghost here = all.skip(at as int);
                    let ghost before = events.deep_view();
                    proof {
                        assert(holds_record(here));
                        assert(event@ == first_event(here));
                        assert(event.len == le_u32(here, 12));
                        assert(here.len() == total - at);
                        assert(here.skip(record_len(here)) =~= all.skip(at + record_len(here)));
                    }
                    at = at + EVENT_HEADER_LEN + event.len as usize;
                    events.push(event);
                    proof {
                        assert(events.deep_view() =~= before.push(event@));
                        assert(before + (seq![event@] + decoded(all.skip(at as int)))
                            =~= before.push(event@) + decoded(all.skip(at as int)));
                    }
                },
                None => {
                    proof {
                        assert(events.deep_view() + Seq::<EventView>::empty()
                            =~= events.deep_view());
                    }
                    break ;
                },
            }
        }
        let mut rest: Vec<u8> = Vec::new();
        let mut j: usize = at;
        while j < self.pending.len()
            invariant
                at <= j <= self.pending.len(),
                self.pending@ == all,
                rest@ == all.subrange(at as int, j as int),
            decreases self.pending.len() - j,
        {
            rest.push(self.pending[j]);
            j += 1;
        }
        proof {
            assert(all.subrange(at as int, all.len() as int) =~= all.skip(at as int));
        }
        self.pending = rest;
        events
    }
}

} // verus!
