//! The card table: one byte for each 512 bytes of the old generation, that says whether they were
//! written to. A dirty card is zero, which compiled code can store without loading a constant.
use vstd::prelude::*;
use crate::memory::layout::SpaceBounds;

verus! {

/// A card is `1 << CARD_SHIFT` bytes.
pub const CARD_SHIFT: u32 = 9;

pub const CARD_SIZE: usize = 512;

pub const CARD_DIRTY: u8 = 0;

pub const CARD_CLEAN: u8 = 1;

/// The cards of a space.
#[derive(Debug)]
pub struct CardTable {
    /// Where the table's bytes are.
    base: usize,
    old_start: usize,
    bytes: Vec<u8>,
}

/// The number of cards of so many bytes: at least one.
pub open spec fn cards_for(len: int) -> int {
    if len <= 0 {
        1
    } else {
        (len + CARD_SIZE - 1) / CARD_SIZE as int
    }
}

impl View for CardTable {
    type V = Seq<u8>;

    closed spec fn view(&self) -> Seq<u8> {
        self.bytes@
    }
}

impl CardTable {
    pub closed spec fn start(&self) -> usize {
        self.old_start
    }

    pub closed spec fn table_base(&self) -> usize {
        self.base
    }

    /// The card of an address.
    pub open spec fn index_of(&self, slot_addr: usize) -> int {
        (slot_addr - self.start()) / CARD_SIZE as int
    }

    /// The address is of one of the cards.
    pub open spec fn covers(&self, slot_addr: usize) -> bool {
        self.start() <= slot_addr && self.index_of(slot_addr) < self@.len()
    }

    /// A table at `base` for the whole of a space, all of it clean.
    pub fn new(old_reserved: SpaceBounds, base: usize) -> (t: CardTable)
        requires
            old_reserved.start <= old_reserved.end,
        ensures
            t.start() == old_reserved.start,
            t.table_base() == base,
            t@ == Seq::new(cards_for(old_reserved.end - old_reserved.start) as nat, |i: int| CARD_CLEAN),
    {
        let len: usize = old_reserved.len();
        let whole: usize = len / CARD_SIZE;
        let n: usize = if len == 0 {
            1
        } else if len % CARD_SIZE == 0 {
            whole
        } else {
            whole + 1
        };
        assert(n == cards_for(len as int));
        let mut bytes: Vec<u8> = Vec::new();
        let mut i: usize = 0;
        while i < n
            invariant
                i <= n,
                bytes@ =~= Seq::new(i as nat, |i: int| CARD_CLEAN),
            decreases n - i,
        {
            bytes.push(CARD_CLEAN);
            i += 1;
        }
        CardTable { base, old_start: old_reserved.start, bytes }
    }

    pub fn card_index(&self, slot_addr: usize) -> (i: usize)
        requires
            self.start() <= slot_addr,
        ensures
            i == self.index_of(slot_addr),
    {
        (slot_addr - self.old_start) / CARD_SIZE
    }

    /// The first address of a card.
    pub fn card_base(&self, i: usize) -> (a: usize)
        requires
            self.start() + i * CARD_SIZE <= usize::MAX,
        ensures
            a == self.start() + i * CARD_SIZE,
    {
        assert(i * CARD_SIZE <= usize::MAX) by (nonlinear_arith)
            requires
                self.start() + i * CARD_SIZE <= usize::MAX,
                self.start() >= 0,
        ;
        self.old_start + i * CARD_SIZE
    }

    /// The base from which compiled code reaches a card with the address's own card number.
    pub fn base_biased(&self) -> (b: u64)
        ensures
            b == biased(self.table_base() as u64, self.start()),
    {
        (self.base as u64).wrapping_sub((self.old_start / CARD_SIZE) as u64)
    }

    /// The byte at an address of the table.
    pub fn byte_at(&self, addr: u64) -> (b: u8)
        requires
            self.table_base() <= addr < self.table_base() + self@.len(),
        ensures
            b == self@[addr - self.table_base()],
    {
        let i: u64 = addr - self.base as u64;
        assert(i < self.bytes.len());
        self.bytes[i as usize]
    }

    /// Marks the card of a written address.
    pub fn dirty_for_slot(&mut self, slot_addr: usize)
        requires
            old(self).covers(slot_addr),
        ensures
            final(self).start() == old(self).start(),
            final(self).table_base() == old(self).table_base(),
            final(self)@ == old(self)@.update(old(self).index_of(slot_addr), CARD_DIRTY),
    {
        let i: usize = self.card_index(slot_addr);
        self.bytes.set(i, CARD_DIRTY);
    }

    /// Marks every card that a range of addresses meets.
    pub fn record_multistores(&mut self, start: usize, end: usize)
        requires
            start < end ==> old(self).start() <= start && old(self).covers((end - 1) as usize),
        ensures
            final(self).start() == old(self).start(),
            final(self).table_base() == old(self).table_base(),
            final(self)@ == recorded(old(self)@, old(self).start(), start, end),
    {
        if start >= end {
            assert(self@ =~= recorded(old(self)@, old(self).start(), start, end));
            return;
        }
        let first: usize = self.card_index(start);
        let last: usize = self.card_index(end - 1);
        let mut i: usize = first;
        while i <= last
            invariant
                first <= i <= last + 1,
                last < self.bytes@.len(),
                last < usize::MAX,
                self.bytes@.len() == old(self)@.len(),
                self.old_start == old(self).start(),
                self.base == old(self).table_base(),
                forall|k: int|
                    0 <= k < self.bytes@.len() ==> #[trigger] self.bytes@[k] == (if first <= k < i {
                        CARD_DIRTY
                    } else {
                        old(self)@[k]
                    }),
            decreases last + 1 - i,
        {
            self.bytes.set(i, CARD_DIRTY);
            i += 1;
        }
        proof {
            let s = old(self).start();
            assert forall|k: int| 0 <= k < self@.len() implies meets(s, k, start, end) == (first <= k <= last) by {
                lemma_meets(s as int, k, start as int, end as int);
            }
            assert(self@ =~= recorded(old(self)@, s, start, end));
        }
    }

    pub fn is_dirty(&self, i: usize) -> (r: bool)
        requires
            i < self@.len(),
        ensures
            r == (self@[i as int] == CARD_DIRTY),
    {
        self.bytes[i] == CARD_DIRTY
    }

    pub fn set_clean(&mut self, i: usize)
        requires
            i < old(self)@.len(),
        ensures
            final(self).start() == old(self).start(),
            final(self).table_base() == old(self).table_base(),
            final(self)@ == old(self)@.update(i as int, CARD_CLEAN),
    {
        self.bytes.set(i, CARD_CLEAN);
    }

    pub fn n_cards(&self) -> (n: usize)
        ensures
            n == self@.len(),
    {
        self.bytes.len()
    }
}

/// The table's base less the card number of the space's start, as addresses wrap.
pub open spec fn biased(base: u64, start: usize) -> u64 {
    let n = start as int / CARD_SIZE as int;
    if base >= n {
        (base - n) as u64
    } else {
        (base - n + 0x1_0000_0000_0000_0000) as u64
    }
}

/// Whether a card has an address of the range.
pub open spec fn meets(space: usize, card: int, start: usize, end: usize) -> bool {
    start < end && space + card * CARD_SIZE < end && start < space + (card + 1) * CARD_SIZE
}

/// The cards after a range was written to: those that it meets are dirty, the others as before.
pub open spec fn recorded(cards: Seq<u8>, space: usize, start: usize, end: usize) -> Seq<u8> {
    Seq::new(
        cards.len(),
        |k: int|
            if meets(space, k, start, end) {
                CARD_DIRTY
            } else {
                cards[k]
            },
    )
}

proof fn lemma_meets(space: int, card: int, start: int, end: int)
    requires
        0 <= space <= start < end,
        card >= 0,
    ensures
        (space + card * 512 < end && start < space + (card + 1) * 512) == ((start - space) / 512 <= card <= (end - 1 - space)
            / 512),
{
}

/// Compiled code reaches, from the biased base, the byte of the same card that the table marks. The
/// space has to start at a card.
pub proof fn law_biased_base_reaches_the_card(t: CardTable, slot_addr: usize)
    requires
        t.start() as int % CARD_SIZE as int == 0,
        t.covers(slot_addr),
        t.table_base() + t@.len() <= u64::MAX,
    ensures
        (biased(t.table_base() as u64, t.start()) + slot_addr as int / CARD_SIZE as int) % 0x1_0000_0000_0000_0000
            == t.table_base() + t.index_of(slot_addr),
        t.table_base() <= t.table_base() + t.index_of(slot_addr) < t.table_base() + t@.len(),
{
    let a = t.start() as int;
    let b = slot_addr as int;
    assert((b - a) / 512 == b / 512 - a / 512);
}

/// A card that is cleaned is as it was before it was marked, if it was clean then.
pub proof fn law_cleaning_undoes_marking(cards: Seq<u8>, i: int)
    requires
        0 <= i < cards.len(),
        cards[i] == CARD_CLEAN,
    ensures
        cards.update(i, CARD_DIRTY).update(i, CARD_CLEAN) == cards,
{
    assert(cards.update(i, CARD_DIRTY).update(i, CARD_CLEAN) =~= cards);
}

/// An address lies in its card.
pub proof fn law_address_lies_in_its_card(t: CardTable, slot_addr: usize)
    requires
        t.start() <= slot_addr,
    ensures
        t.start() + t.index_of(slot_addr) * CARD_SIZE <= slot_addr < t.start() + (t.index_of(slot_addr) + 1) * CARD_SIZE,
{
}

/// A card is dirty where its byte is zero: compiled code stores that byte, at the card that the ninth bit
/// of an address counts. A clean card is not.
pub proof fn law_dirty_byte(cards: Seq<u8>, i: int)
    requires
        0 <= i < cards.len(),
    ensures
        cards.update(i, 0u8)[i] == CARD_DIRTY,
        CARD_DIRTY != CARD_CLEAN,
        CARD_SIZE == 512,
        crate::compiler::emitter::CARD_SHIFT_IMM == 9,
        CARD_SHIFT == 9,
{
}

} // verus!
