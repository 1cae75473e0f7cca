//! Reserved address space, committed by pages.
//!
//! Which pages a request touches is worked out here; the caller asks the system for them.
use vstd::prelude::*;

verus! {

pub open spec fn power_of_two(n: nat) -> bool
    decreases n,
{
    n == 1 || (n > 1 && n % 2 == 0 && power_of_two(n / 2))
}

/// The least multiple of `align` that is not below `v`.
pub open spec fn up(v: int, align: int) -> int {
    if v % align == 0 {
        v
    } else {
        v - v % align + align
    }
}

/// The largest multiple of `align` that is not above `v`.
pub open spec fn down(v: int, align: int) -> int {
    v - v % align
}

pub fn round_up(v: usize, align: usize) -> (r: usize)
    requires
        power_of_two(align as nat),
        v + align - 1 <= usize::MAX,
    ensures
        r == up(v as int, align as int),
{
    proof {
        lemma_rounding(v as int, align as int);
    }
    let rest: usize = v % align;
    if rest == 0 {
        v
    } else {
        v - rest + align
    }
}

pub fn round_down(v: usize, align: usize) -> (r: usize)
    requires
        power_of_two(align as nat),
    ensures
        r == down(v as int, align as int),
{
    proof {
        lemma_rounding(v as int, align as int);
    }
    v - v % align
}

/// Pages of a reservation: the address of the first, and their bytes.
#[derive(Clone, Copy, Debug, PartialEq, Eq, Structural)]
pub struct PageRange {
    pub addr: usize,
    pub len: usize,
}

/// A range of reserved addresses.
#[derive(Clone, Copy, Debug, PartialEq, Eq, Structural)]
pub struct Reservation {
    base: usize,
    size: usize,
    /// Ordinary memory that is always there.
    test: bool,
}

impl Reservation {
    pub closed spec fn spec_base(&self) -> usize {
        self.base
    }

    pub closed spec fn spec_size(&self) -> usize {
        self.size
    }

    pub closed spec fn is_test(&self) -> bool {
        self.test
    }

    /// The reservation lies within the machine's addresses. Ordinary memory starts at a word.
    pub open spec fn wf(&self) -> bool {
        &&& self.spec_base() + self.spec_size() <= usize::MAX
        &&& self.is_test() ==> self.spec_base() % 8 == 0 && self.spec_size() % 8 == 0
    }

    /// The bytes to ask the system for: whole pages.
    pub fn reserve_size(size: usize, page: usize) -> (n: usize)
        requires
            power_of_two(page as nat),
            size + page - 1 <= usize::MAX,
        ensures
            n == up(size as int, page as int),
    {
        round_up(size, page)
    }

    /// The reservation that the system granted at `base`.
    pub fn reserve(base: usize, size: usize, page: usize) -> (r: Reservation)
        requires
            power_of_two(page as nat),
            size + page - 1 <= usize::MAX,
            base + up(size as int, page as int) <= usize::MAX,
        ensures
            r.wf(),
            r.spec_base() == base,
            r.spec_size() == up(size as int, page as int),
            !r.is_test(),
    {
        Reservation { base, size: round_up(size, page), test: false }
    }

    /// Ordinary memory at `base`, the start of a word, in place of a reservation. Whole words, and
    /// there from the start.
    pub fn test_heap(base: usize, size: usize) -> (r: Reservation)
        requires
            base % 8 == 0,
            size + 7 <= usize::MAX,
            base + up(size as int, 8) <= usize::MAX,
        ensures
            r.wf(),
            r.spec_base() == base,
            r.spec_size() == up(size as int, 8),
            r.is_test(),
    {
        proof {
            reveal_with_fuel(power_of_two, 4);
            lemma_rounding(size as int, 8);
        }
        Reservation { base, size: round_up(size, 8), test: true }
    }

    /// The pages that a range touches.
    pub open spec fn pages(&self, off: usize, len: usize, page: usize) -> Option<PageRange> {
        if self.is_test() {
            None
        } else {
            let start = down(off as int, page as int);
            let end = up(off + len, page as int);
            Some(PageRange { addr: (self.spec_base() + start) as usize, len: (end - start) as usize })
        }
    }

    /// The pages that a range touches lie in the reservation. Of ordinary memory nothing is asked.
    pub open spec fn holds(&self, off: usize, len: usize, page: usize) -> bool {
        !self.is_test() ==> {
            &&& power_of_two(page as nat)
            &&& off + len + page - 1 <= usize::MAX
            &&& up(off + len, page as int) <= self.spec_size()
        }
    }

    fn touched(&self, off: usize, len: usize, page: usize) -> (r: Option<PageRange>)
        requires
            self.wf(),
            self.holds(off, len, page),
        ensures
            r == self.pages(off, len, page),
    {
        if self.test {
            return None;
        }
        proof {
            lemma_rounding(off as int, page as int);
            lemma_rounding(off + len, page as int);
        }
        let start: usize = round_down(off, page);
        let end: usize = round_up(off + len, page);
        Some(PageRange { addr: self.base + start, len: end - start })
    }

    /// The pages to make readable and writable. None for ordinary memory.
    pub fn commit(&self, off: usize, len: usize, page: usize) -> (r: Option<PageRange>)
        requires
            self.wf(),
            self.holds(off, len, page),
        ensures
            r == self.pages(off, len, page),
    {
        self.touched(off, len, page)
    }

    /// The pages to give back and make inaccessible. None for ordinary memory.
    pub fn decommit(&self, off: usize, len: usize, page: usize) -> (r: Option<PageRange>)
        requires
            self.wf(),
            self.holds(off, len, page),
        ensures
            r == self.pages(off, len, page),
    {
        self.touched(off, len, page)
    }

    pub fn base(&self) -> (n: usize)
        ensures
            n == self.spec_base(),
    {
        self.base
    }

    pub fn size(&self) -> (n: usize)
        ensures
            n == self.spec_size(),
    {
        self.size
    }
}

proof fn lemma_rounding(v: int, align: int)
    requires
        v >= 0,
        align > 0,
    ensures
        0 <= down(v, align) <= v <= up(v, align) < v + align,
        down(v, align) % align == 0,
        up(v, align) % align == 0,
{
    vstd::arithmetic::div_mod::lemma_fundamental_div_mod(v, align);
    vstd::arithmetic::div_mod::lemma_mod_bound(v, align);
    let q = v / align;
    assert(align * q + align == align * (q + 1)) by (nonlinear_arith);
    assert(align * q == q * align) by (nonlinear_arith);
    assert(align * (q + 1) == (q + 1) * align) by (nonlinear_arith);
    assert(q >= 0 ==> q * align >= 0) by (nonlinear_arith)
        requires
            align > 0,
    ;
    vstd::arithmetic::div_mod::lemma_div_pos_is_pos(v, align);
    vstd::arithmetic::div_mod::lemma_mod_multiples_basic(q, align);
    vstd::arithmetic::div_mod::lemma_mod_multiples_basic(q + 1, align);
}

/// Rounding reaches the nearest multiple below and above, and leaves a multiple as it is.
pub proof fn law_rounding(v: int, align: int)
    requires
        v >= 0,
        align > 0,
    ensures
        down(v, align) <= v <= up(v, align),
        v - down(v, align) < align,
        up(v, align) - v < align,
        down(v, align) % align == 0,
        up(v, align) % align == 0,
        up(up(v, align), align) == up(v, align),
        down(down(v, align), align) == down(v, align),
        v % align == 0 ==> up(v, align) == v && down(v, align) == v,
{
    lemma_rounding(v, align);
    vstd::arithmetic::div_mod::lemma_mod_bound(v, align);
}

/// Ordinary memory has no pages to ask for or to give back, whatever the range.
pub proof fn law_ordinary_memory_has_no_pages(r: Reservation, off: usize, len: usize, page: usize)
    requires
        r.is_test(),
    ensures
        r.holds(off, len, page),
        r.pages(off, len, page) is None,
{
}

/// Committed pages cover what was asked for, start and end at a page, and lie in the reservation.
pub proof fn law_pages_cover_the_range(r: Reservation, off: usize, len: usize, page: usize)
    requires
        r.wf(),
        r.holds(off, len, page),
        !r.is_test(),
    ensures
        r.pages(off, len, page) matches Some(p) && p.addr <= r.spec_base() + off && r.spec_base() + off + len <= p.addr
            + p.len && r.spec_base() <= p.addr && p.addr + p.len <= r.spec_base() + r.spec_size() && (p.addr
            - r.spec_base()) % (page as int) == 0 && p.len as int % page as int == 0,
{
    lemma_rounding(off as int, page as int);
    lemma_rounding(off + len, page as int);
    let start = down(off as int, page as int);
    let end = up(off + len, page as int);
    vstd::arithmetic::div_mod::lemma_fundamental_div_mod(start, page as int);
    vstd::arithmetic::div_mod::lemma_fundamental_div_mod(end, page as int);
    let a = start / (page as int);
    let b = end / (page as int);
    assert(end - start == (b - a) * (page as int)) by (nonlinear_arith)
        requires
            start == page as int * a,
            end == page as int * b,
    ;
    vstd::arithmetic::div_mod::lemma_mod_multiples_basic(b - a, page as int);
}

} // verus!
