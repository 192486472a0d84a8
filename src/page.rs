use vstd::prelude::*;
use vstd::std_specs::cmp::PartialOrdSpec;

use crate::frame::PAGE_SIZE;

verus! {

/// Number of entries in one page table.
pub const ENTRY_COUNT: usize = 512;

/// Whether `address` is in sign-extended 48-bit canonical form.
pub open spec fn canonical(address: int) -> bool {
    address < 0x0000_8000_0000_0000 || 0xffff_8000_0000_0000 <= address
}

/// Index into the level-4 table of page number `n`.
pub open spec fn p4_of(n: nat) -> nat {
    (n / 0x800_0000) % 512
}

/// Index into the level-3 table of page number `n`.
pub open spec fn p3_of(n: nat) -> nat {
    (n / 0x4_0000) % 512
}

/// Index into the level-2 table of page number `n`.
pub open spec fn p2_of(n: nat) -> nat {
    (n / 0x200) % 512
}

/// Index into the level-1 table of page number `n`.
pub open spec fn p1_of(n: nat) -> nat {
    n % 512
}

/// Whether `address` passes the canonical-address check.
pub fn is_canonical(address: usize) -> (r: bool)
    ensures
        r == canonical(address as int),
{
    (address as u64) < 0x0000_8000_0000_0000u64 || (address as u64) >= 0xffff_8000_0000_0000u64
}

/// Every address in the gap between the two canonical halves fails the
/// canonical-address check.
pub proof fn lemma_gap_not_canonical(address: int)
    requires
        0x0000_8000_0000_0000 <= address < 0xffff_8000_0000_0000,
    ensures
        !canonical(address),
{
}

/// A virtual page, identified by its index in the virtual address space.
#[derive(Debug, Clone, Copy, PartialEq, Eq, Structural, Ord)]
pub struct Page {
    number: usize,
}

impl Page {
    /// The page's number.
    pub closed spec fn view(&self) -> nat {
        self.number as nat
    }

    /// The page starts at a canonical address.
    pub open spec fn wf(&self) -> bool {
        self@ * 4096 <= usize::MAX && canonical((self@ * 4096) as int)
    }

    /// The page with the given number.
    pub fn from_number(number: usize) -> (r: Page)
        requires
            number * 4096 <= usize::MAX,
            canonical((number * 4096) as int),
        ensures
            r@ == number,
            r.wf(),
    {
        Page { number }
    }

    /// The first virtual address of the page.
    pub fn start_address(&self) -> (r: usize)
        requires
            self.wf(),
        ensures
            r == self@ * PAGE_SIZE as nat,
    {
        self.number * PAGE_SIZE
    }

    /// The page that holds `address`, which must be canonical.
    pub fn containing_address(address: usize) -> (r: Page)
        requires
            canonical(address as int),
        ensures
            r@ == address as nat / PAGE_SIZE as nat,
            r.wf(),
    {
        let r = Page { number: address / PAGE_SIZE };
        let n: usize = r.number;
        assert(n * 4096 <= address) by (nonlinear_arith)
            requires n == address as nat / 4096;
        assert(address >= 0xffff_8000_0000_0000 ==> n * 4096 >= 0xffff_8000_0000_0000)
            by (nonlinear_arith)
            requires n == address as nat / 4096;
        r
    }

    /// Index of the page in its level-4 table.
    pub fn p4_index(&self) -> (r: usize)
        ensures
            r == p4_of(self@),
            r < ENTRY_COUNT,
    {
        let n = self.number;
        assert((n >> 27usize) & 511usize == (n / 134217728usize) % 512usize) by (bit_vector);
        (self.number >> 27usize) & 0o777usize
    }

    /// Index of the page in its level-3 table.
    pub fn p3_index(&self) -> (r: usize)
        ensures
            r == p3_of(self@),
            r < ENTRY_COUNT,
    {
        let n = self.number;
        assert((n >> 18usize) & 511usize == (n / 262144usize) % 512usize) by (bit_vector);
        (self.number >> 18usize) & 0o777usize
    }

    /// Index of the page in its level-2 table.
    pub fn p2_index(&self) -> (r: usize)
        ensures
            r == p2_of(self@),
            r < ENTRY_COUNT,
    {
        let n = self.number;
        assert((n >> 9usize) & 511usize == (n / 512usize) % 512usize) by (bit_vector);
        (self.number >> 9usize) & 0o777usize
    }

    /// Index of the page in its level-1 table.
    pub fn p1_index(&self) -> (r: usize)
        ensures
            r == p1_of(self@),
            r < ENTRY_COUNT,
    {
        let n = self.number;
        assert((n >> 0usize) & 511usize == n % 512usize) by (bit_vector);
        (self.number >> 0usize) & 0o777usize
    }

    /// Two pages with the same number are the same page.
    pub proof fn lemma_view_injective(a: Page, b: Page)
        ensures
            (a@ == b@) == (a == b),
    {
    }

    /// The page's number.
    pub fn number(&self) -> (r: usize)
        ensures
            r == self@,
    {
        self.number
    }
}

impl PartialOrd for Page {
    fn partial_cmp(&self, other: &Page) -> (r: Option<core::cmp::Ordering>) {
        if self.number < other.number {
            Some(core::cmp::Ordering::Less)
        } else if self.number == other.number {
            Some(core::cmp::Ordering::Equal)
        } else {
            Some(core::cmp::Ordering::Greater)
        }
    }
}

impl vstd::std_specs::cmp::PartialOrdSpecImpl for Page {
    open spec fn obeys_partial_cmp_spec() -> bool {
        true
    }

    open spec fn partial_cmp_spec(&self, other: &Page) -> Option<core::cmp::Ordering> {
        if self@ < other@ {
            Some(core::cmp::Ordering::Less)
        } else if self@ == other@ {
            Some(core::cmp::Ordering::Equal)
        } else {
            Some(core::cmp::Ordering::Greater)
        }
    }
}

/// Pages are totally ordered, and in the order of their start addresses.
pub proof fn lemma_page_order(a: Page, b: Page)
    ensures
        a.partial_cmp_spec(&b) is Some,
        (a.partial_cmp_spec(&b) == Some(core::cmp::Ordering::Less)) == (a@ * 4096 < b@ * 4096),
        (a.partial_cmp_spec(&b) == Some(core::cmp::Ordering::Equal)) == (a == b),
        (a.partial_cmp_spec(&b) == Some(core::cmp::Ordering::Greater)) == (b@ * 4096 < a@ * 4096),
        (a.partial_cmp_spec(&b) == Some(core::cmp::Ordering::Less)) == (b.partial_cmp_spec(&a)
            == Some(core::cmp::Ordering::Greater)),
{
    Page::lemma_view_injective(a, b);
}

/// The order of pages is transitive.
pub proof fn lemma_page_order_transitive(a: Page, b: Page, c: Page)
    requires
        a.partial_cmp_spec(&b) == Some(core::cmp::Ordering::Less),
        b.partial_cmp_spec(&c) == Some(core::cmp::Ordering::Less),
    ensures
        a.partial_cmp_spec(&c) == Some(core::cmp::Ordering::Less),
{
}

/// Decomposing the page that holds a page's start address gives back the
/// same four table indices as the page itself.
pub proof fn lemma_page_round_trip(p: Page)
    requires
        p.wf(),
    ensures
        canonical((p@ * 4096) as int),
        (p@ * 4096) / 4096 == p@,
        p4_of((p@ * 4096) / 4096) == p4_of(p@),
        p3_of((p@ * 4096) / 4096) == p3_of(p@),
        p2_of((p@ * 4096) / 4096) == p2_of(p@),
        p1_of((p@ * 4096) / 4096) == p1_of(p@),
{
    assert((p@ * 4096) / 4096 == p@) by (nonlinear_arith);
}

} // verus!
