//! The HID keyboard report: one modifier byte, one reserved byte, six key
//! slots.
//!
//! Key codes are packed in the order they are given. A modifier sets its
//! bit; any other code takes the next free slot unless it is there
//! already. When the six slots are full, later codes are dropped: the keys
//! pressed first win. Code 0 stands for no key and is skipped.

use vstd::prelude::*;
use crate::action::{KeyCode, FIRST_MODIFIER, LAST_MODIFIER};

verus! {

/// Length of a report in bytes.
pub const REPORT_LEN: usize = 8;

/// Number of key slots in a report.
pub const KEY_SLOTS: usize = 6;

/// What a report says: the modifier bits and the codes in the slots used.
pub struct Packed {
    pub modifiers: u8,
    pub slots: Seq<u8>,
}

/// Whether `code` is one of the eight modifier keys.
pub open spec fn is_modifier(code: u8) -> bool {
    FIRST_MODIFIER <= code <= LAST_MODIFIER
}

/// The bit of modifier `code` in the modifier byte.
pub open spec fn modifier_bit(code: u8) -> u8 {
    1u8 << ((code - FIRST_MODIFIER) as u8)
}

/// Nothing held down.
pub open spec fn nothing() -> Packed {
    Packed { modifiers: 0, slots: Seq::empty() }
}

/// `p` with one more key code held down.
pub open spec fn pack_one(p: Packed, code: KeyCode) -> Packed {
    if code.0 == 0 {
        p
    } else if is_modifier(code.0) {
        Packed { modifiers: p.modifiers | modifier_bit(code.0), slots: p.slots }
    } else if p.slots.contains(code.0) || p.slots.len() >= KEY_SLOTS {
        p
    } else {
        Packed { modifiers: p.modifiers, slots: p.slots.push(code.0) }
    }
}

/// What the report for `codes` says.
pub open spec fn pack(codes: Seq<KeyCode>) -> Packed
    decreases codes.len(),
{
    if codes.len() == 0 {
        nothing()
    } else {
        pack_one(pack(codes.drop_last()), codes.last())
    }
}

/// The bytes of a report: the modifier byte, a zero byte, the slots used,
/// and zero in the slots left.
pub open spec fn report_bytes(p: Packed) -> Seq<u8> {
    Seq::new(
        REPORT_LEN as nat,
        |i: int|
            if i == 0 {
                p.modifiers
            } else if 2 <= i < 2 + p.slots.len() {
                p.slots[i - 2]
            } else {
                0u8
            },
    )
}

/// A keyboard report in boot-protocol layout.
#[derive(Clone, Copy, Debug, PartialEq, Eq)]
pub struct Report {
    bytes: [u8; 8],
}

impl Report {
    /// The eight bytes of the report.
    pub closed spec fn view(&self) -> Seq<u8> {
        self.bytes@
    }

    /// The report of no key being down.
    pub fn empty() -> (report: Report)
        ensures
            report@ == report_bytes(nothing()),
    {
        let report = Report { bytes: [0u8;8] };
        assert(report@ =~= report_bytes(nothing()));
        report
    }

    /// The report for `codes`, packed in the order given.
    pub fn build(codes: &Vec<KeyCode>) -> (report: Report)
        ensures
            report@ == report_bytes(pack(codes@)),
    {
        let mut bytes: [u8; 8] = [0u8;8];
        let mut used: usize = 0;
        let mut i: usize = 0;
        assert(bytes@ =~= report_bytes(pack(codes@.take(0))));
        while i < codes.len()
            invariant
                i <= codes.len(),
                used <= KEY_SLOTS,
                used == pack(codes@.take(i as int)).slots.len(),
                bytes@ == report_bytes(pack(codes@.take(i as int))),
            decreases codes.len() - i,
        {
            let code: u8 = codes[i].0;
            let ghost before = pack(codes@.take(i as int));
            proof {
                assert(codes@.take(i + 1).drop_last() =~= codes@.take(i as int));
                assert(codes@.take(i + 1).last() == codes@[i as int]);
            }
            if code == 0 {
            } else if code >= FIRST_MODIFIER && code <= LAST_MODIFIER {
                let bit: u8 = 1u8 << (code - FIRST_MODIFIER);
                let modifiers: u8 = bytes[0] | bit;
                bytes[0] = modifiers;
            } else {
                let mut seen = false;
                let mut j: usize = 0;
                while j < used
                    invariant
                        j <= used,
                        used <= KEY_SLOTS,
                        used == before.slots.len(),
                        bytes@ == report_bytes(before),
                        seen == exists|k: int| 0 <= k < j && before.slots[k] == code,
                    decreases used - j,
                {
                    if bytes[2 + j] == code {
                        seen = true;
                    }
                    j += 1;
                }
                assert(seen == before.slots.contains(code));
                if !seen && used < KEY_SLOTS {
                    bytes[2 + used] = code;
                    used += 1;
                }
            }
            assert(bytes@ =~= report_bytes(pack(codes@.take(i + 1))));
            i += 1;
        }
        proof {
            assert(codes@.take(i as int) =~= codes@);
        }
        Report { bytes }
    }

    /// The bytes to put on the wire.
    pub fn as_bytes(&self) -> (bytes: [u8; 8])
        ensures
            bytes@ == self@,
    {
        self.bytes
    }

    /// The modifier byte.
    pub fn modifiers(&self) -> (m: u8)
        ensures
            m == self@[0],
    {
        self.bytes[0]
    }

    /// The code in key slot `slot` (0 if the slot is free).
    pub fn slot(&self, slot: usize) -> (code: u8)
        requires
            slot < KEY_SLOTS,
        ensures
            code == self@[2 + slot],
    {
        self.bytes[2 + slot]
    }

    /// Whether two reports have the same bytes.
    pub fn same_as(&self, other: &Report) -> (same: bool)
        ensures
            same == (self@ == other@),
    {
        let mut i: usize = 0;
        while i < REPORT_LEN
            invariant
                i <= REPORT_LEN,
                forall|k: int| 0 <= k < i ==> self@[k] == other@[k],
            decreases REPORT_LEN - i,
        {
            if self.bytes[i] != other.bytes[i] {
                return false;
            }
            i += 1;
        }
        assert(self@ =~= other@);
        true
    }
}

/// The slots hold at most six codes, none twice, each of them a code
/// that was given, and neither zero nor a modifier.
pub proof fn lemma_slots_sound(codes: Seq<KeyCode>)
    ensures
        pack(codes).slots.len() <= KEY_SLOTS,
        pack(codes).slots.no_duplicates(),
        forall|k: int|
            0 <= k < pack(codes).slots.len() ==> {
                let c = #[trigger] pack(codes).slots[k];
                c != 0 && !is_modifier(c) && codes.contains(KeyCode(c))
            },
    decreases codes.len(),
{
    if codes.len() > 0 {
        let head = codes.drop_last();
        lemma_slots_sound(head);
        let before = pack(head).slots;
        assert forall|k: int| 0 <= k < pack(codes).slots.len() implies {
            let c = #[trigger] pack(codes).slots[k];
            c != 0 && !is_modifier(c) && codes.contains(KeyCode(c))
        } by {
            let c = pack(codes).slots[k];
            if k < before.len() {
                assert(before[k] == c);
                let i = choose|i: int| 0 <= i < head.len() && head[i] == KeyCode(c);
                assert(codes[i] == KeyCode(c));
            } else {
                assert(codes[codes.len() - 1] == KeyCode(c));
            }
        }
    }
}

/// The keys pressed first win: codes that follow never push out a code
/// that is in a slot, and once the six slots are full they change
/// nothing in them.
pub proof fn lemma_first_come_first_kept(codes: Seq<KeyCode>, more: Seq<KeyCode>)
    ensures
        pack(codes).slots.is_prefix_of(pack(codes + more).slots),
        pack(codes).slots.len() == KEY_SLOTS ==> pack(codes + more).slots == pack(codes).slots,
    decreases more.len(),
{
    if more.len() == 0 {
        assert(codes + more =~= codes);
    } else {
        lemma_first_come_first_kept(codes, more.drop_last());
        assert((codes + more).drop_last() =~= codes + more.drop_last());
        assert((codes + more).last() == more.last());
    }
}

/// Nothing is lost while the slots are not full: every code given that
/// is neither zero nor a modifier is in a slot.
pub proof fn lemma_nothing_lost_without_overflow(codes: Seq<KeyCode>)
    requires
        pack(codes).slots.len() < KEY_SLOTS,
    ensures
        forall|i: int|
            0 <= i < codes.len() && (#[trigger] codes[i]).0 != 0 && !is_modifier(codes[i].0)
                ==> pack(codes).slots.contains(codes[i].0),
    decreases codes.len(),
{
    if codes.len() > 0 {
        let head = codes.drop_last();
        let before = pack(head).slots;
        let after = pack(codes).slots;
        lemma_nothing_lost_without_overflow(head);
        assert forall|i: int|
            0 <= i < codes.len() && (#[trigger] codes[i]).0 != 0 && !is_modifier(
                codes[i].0,
            ) implies after.contains(codes[i].0) by {
            if i < head.len() {
                assert(head[i] == codes[i]);
                let k = choose|k: int| 0 <= k < before.len() && before[k] == codes[i].0;
                assert(after[k] == codes[i].0);
            } else {
                if before.contains(codes[i].0) {
                    assert(after == before);
                } else {
                    assert(after[after.len() - 1] == codes[i].0);
                }
            }
        }
    }
}

/// The bit of a modifier is set exactly if the modifier was given:
/// bit `b` stands for the code `FIRST_MODIFIER + b`.
pub proof fn lemma_modifier_bits(codes: Seq<KeyCode>, b: u8)
    requires
        b < 8,
    ensures
        (pack(codes).modifiers & (1u8 << b)) != 0 <==> codes.contains(
            KeyCode((FIRST_MODIFIER + b) as u8),
        ),
    decreases codes.len(),
{
    let wanted = KeyCode((FIRST_MODIFIER + b) as u8);
    if codes.len() == 0 {
        assert((0u8 & (1u8 << b)) == 0) by (bit_vector);
    } else {
        let head = codes.drop_last();
        lemma_modifier_bits(head, b);
        let m = pack(head).modifiers;
        let code = codes.last().0;
        if head.contains(wanted) {
            let i = choose|i: int| 0 <= i < head.len() && head[i] == wanted;
            assert(codes[i] == wanted);
        }
        if codes.contains(wanted) && !head.contains(wanted) {
            let i = choose|i: int| 0 <= i < codes.len() && codes[i] == wanted;
            if i < head.len() {
                assert(head[i] == wanted);
            }
            assert(codes.last() == wanted);
        }
        if code != 0 && is_modifier(code) {
            let k: u8 = (code - FIRST_MODIFIER) as u8;
            assert(((m | (1u8 << k)) & (1u8 << b)) != 0 <==> (m & (1u8 << b)) != 0 || k == b)
                by (bit_vector)
                requires
                    k < 8,
                    b < 8,
            ;
            if k == b {
                assert(codes[codes.len() - 1] == wanted);
            }
        }
    }
}

} // verus!
