//! The interrupt descriptor table: gates that hold a handler's address split
//! into three parts.

use vstd::prelude::*;

verus! {

/// The number of gates in the table.
pub const IDT_SIZE: usize = 64;

/// The size of a gate in bytes.
pub const IDT_ITEM_BYTES: usize = 16;

/// The code segment selector of every gate.
pub const KERNEL_SELECTOR: u16 = 0x08;

/// The kind of a gate.
#[derive(Clone, Copy, Debug, PartialEq, Eq, Structural)]
pub enum InterruptType {
    ValidTrapGate,
    ValidInterruptGate,
}

impl InterruptType {
    /// The type-and-attributes byte of the descriptor.
    pub open spec fn spec_code(&self) -> u8 {
        match self {
            InterruptType::ValidTrapGate => 0b1000_1111u8,
            InterruptType::ValidInterruptGate => 0b1000_1110u8,
        }
    }

    /// The type-and-attributes byte of the descriptor.
    pub fn code(&self) -> (r: u8)
        ensures
            r == self.spec_code(),
    {
        match self {
            InterruptType::ValidTrapGate => 0b1000_1111,
            InterruptType::ValidInterruptGate => 0b1000_1110,
        }
    }
}

/// A gate: the handler's address in three parts, a segment selector and a type.
#[derive(Clone, Copy, Debug)]
pub struct IdtItem {
    offset1: u16,
    selector: u16,
    zero1: u8,
    pub type_attr: InterruptType,
    offset2: u16,
    offset3: u32,
    zero2: u32,
}

/// The address held in three parts.
pub open spec fn join_offset(offset1: u16, offset2: u16, offset3: u32) -> u64 {
    (offset1 as u64) | ((offset2 as u64) << 16u64) | ((offset3 as u64) << 32u64)
}

impl IdtItem {
    /// The handler's address the descriptor holds.
    pub closed spec fn spec_offset(&self) -> u64 {
        join_offset(self.offset1, self.offset2, self.offset3)
    }

    /// The segment selector.
    pub closed spec fn spec_selector(&self) -> u16 {
        self.selector
    }

    /// The kind of the descriptor.
    pub closed spec fn spec_type_attr(&self) -> InterruptType {
        self.type_attr
    }

    /// The reserved parts are zero.
    pub closed spec fn reserved_zero(&self) -> bool {
        self.zero1 == 0 && self.zero2 == 0
    }

    /// A trap gate in the kernel's code segment with address 0.
    pub fn new() -> (r: Self)
        ensures
            r.spec_offset() == 0,
            r.spec_selector() == KERNEL_SELECTOR,
            r.spec_type_attr() == InterruptType::ValidTrapGate,
            r.reserved_zero(),
    {
        let r = IdtItem {
            offset1: 0,
            selector: KERNEL_SELECTOR,
            zero1: 0,
            type_attr: InterruptType::ValidTrapGate,
            offset2: 0,
            offset3: 0,
            zero2: 0,
        };
        assert(join_offset(0, 0, 0) == 0) by (bit_vector);
        r
    }

    /// The handler's address.
    pub fn get_offset(&self) -> (r: u64)
        ensures
            r == self.spec_offset(),
    {
        (self.offset1 as u64) | ((self.offset2 as u64) << 16u64) | ((self.offset3 as u64) << 32u64)
    }

    /// Sets the handler's address; the address read back is `offset`.
    pub fn set_offset(&mut self, offset: u64)
        ensures
            final(self).spec_offset() == offset,
            final(self).spec_selector() == old(self).spec_selector(),
            final(self).spec_type_attr() == old(self).spec_type_attr(),
            final(self).reserved_zero() == old(self).reserved_zero(),
    {
        self.offset1 = offset as u16;
        self.offset2 = (offset >> 16u64) as u16;
        self.offset3 = (offset >> 32u64) as u32;
        proof {
            lemma_split_join(offset);
        }
    }
}

/// The 16 bytes of a descriptor in the processor's format: the address's low
/// half-word, the selector, a zero byte, the type byte, the address's next
/// half-word and high word, and four zero bytes, each little endian.
pub open spec fn descriptor_bytes(offset: u64, selector: u16, type_code: u8) -> Seq<u8> {
    seq![
        offset as u8, (offset >> 8u64) as u8, selector as u8, (selector >> 8u16) as u8, 0u8, type_code,
        (offset >> 16u64) as u8, (offset >> 24u64) as u8, (offset >> 32u64) as u8, (offset >> 40u64) as u8,
        (offset >> 48u64) as u8, (offset >> 56u64) as u8, 0u8, 0u8, 0u8, 0u8,
    ]
}

/// A descriptor holds its gate's type in byte 5, `0x8e` for an interrupt gate
/// (which masks interrupts on entry) and `0x8f` for a trap gate; the handler's
/// address and the selector read back from their bytes, little endian; the
/// reserved bytes are zero.
pub proof fn lemma_descriptor_fields(offset: u64, selector: u16, t: InterruptType)
    ensures
        ({
            let b = descriptor_bytes(offset, selector, t.spec_code());
            &&& b.len() == 16
            &&& b[5] == match t {
                InterruptType::ValidInterruptGate => 0x8eu8,
                InterruptType::ValidTrapGate => 0x8fu8,
            }
            &&& selector == (b[2] as u16) | ((b[3] as u16) << 8u16)
            &&& offset == (b[0] as u64) | ((b[1] as u64) << 8u64) | ((b[6] as u64) << 16u64) | ((b[7] as u64) << 24u64)
                | ((b[8] as u64) << 32u64) | ((b[9] as u64) << 40u64) | ((b[10] as u64) << 48u64) | ((b[11] as u64)
                << 56u64)
            &&& b[4] == 0 && b[12] == 0 && b[13] == 0 && b[14] == 0 && b[15] == 0
        }),
{
    let o = offset;
    let sel = selector;
    assert(sel == ((sel as u8) as u16) | ((((sel >> 8u16) as u8) as u16) << 8u16)) by (bit_vector);
    assert(o == ((o as u8) as u64) | ((((o >> 8u64) as u8) as u64) << 8u64) | ((((o >> 16u64) as u8) as u64) << 16u64)
        | ((((o >> 24u64) as u8) as u64) << 24u64) | ((((o >> 32u64) as u8) as u64) << 32u64) | ((((o >> 40u64)
        as u8) as u64) << 40u64) | ((((o >> 48u64) as u8) as u64) << 48u64) | ((((o >> 56u64) as u8) as u64)
        << 56u64)) by (bit_vector);
}

impl IdtItem {
    /// The descriptor in the processor's format.
    pub fn to_bytes(&self) -> (r: Vec<u8>)
        ensures
            r@.len() == IDT_ITEM_BYTES,
            self.reserved_zero() ==> r@ == descriptor_bytes(
                self.spec_offset(),
                self.spec_selector(),
                self.spec_type_attr().spec_code(),
            ),
    {
        let off = self.get_offset();
        let mut r: Vec<u8> = Vec::new();
        r.push(off as u8);
        r.push((off >> 8u64) as u8);
        r.push(self.selector as u8);
        r.push((self.selector >> 8u16) as u8);
        r.push(self.zero1);
        r.push(self.type_attr.code());
        r.push((off >> 16u64) as u8);
        r.push((off >> 24u64) as u8);
        r.push((off >> 32u64) as u8);
        r.push((off >> 40u64) as u8);
        r.push((off >> 48u64) as u8);
        r.push((off >> 56u64) as u8);
        r.push(self.zero2 as u8);
        r.push((self.zero2 >> 8u32) as u8);
        r.push((self.zero2 >> 16u32) as u8);
        r.push((self.zero2 >> 24u32) as u8);
        proof {
            let z = self.zero2;
            assert(z == 0 ==> (z as u8 == 0 && (z >> 8u32) as u8 == 0 && (z >> 16u32) as u8 == 0 && (z >> 24u32) as u8
                == 0)) by (bit_vector);
            if self.reserved_zero() {
                assert(r@ =~= descriptor_bytes(self.spec_offset(), self.spec_selector(), self.spec_type_attr().spec_code()));
            }
        }
        r
    }
}

/// Splitting an address into three parts and joining them gives it back.
pub proof fn lemma_split_join(x: u64)
    ensures
        join_offset(x as u16, (x >> 16u64) as u16, (x >> 32u64) as u32) == x,
{
    assert(((x as u16) as u64) | ((((x >> 16u64) as u16) as u64) << 16u64) | ((((x >> 32u64) as u32) as u64) << 32u64) == x) by (bit_vector);
}

/// The operand of `lidt`: the table's size in bytes minus one, and its address.
#[derive(Clone, Copy, Debug)]
pub struct IdtPtr {
    limit: u16,
    base: u64,
}

impl IdtPtr {
    pub closed spec fn spec_limit(&self) -> u16 {
        self.limit
    }

    pub closed spec fn spec_base(&self) -> u64 {
        self.base
    }

    /// The operand for the table `data` at address `base` (the limit truncated to 16 bits).
    pub fn new(data: &[IdtItem], base: u64) -> (r: Self)
        requires
            data@.len() >= 1,
            data@.len() * IDT_ITEM_BYTES <= usize::MAX,
        ensures
            r.spec_limit() == (data@.len() * IDT_ITEM_BYTES - 1) as u16,
            r.spec_base() == base,
    {
        IdtPtr { limit: (data.len() * IDT_ITEM_BYTES - 1) as u16, base: base }
    }

    /// The limit.
    pub fn limit(&self) -> (r: u16)
        ensures
            r == self.spec_limit(),
    {
        self.limit
    }

    /// The table's address.
    pub fn base(&self) -> (r: u64)
        ensures
            r == self.spec_base(),
    {
        self.base
    }

    /// The operand in the processor's format: the limit, then the address,
    /// each little endian.
    pub fn to_bytes(&self) -> (r: Vec<u8>)
        ensures
            r@ == seq![
                self.spec_limit() as u8, (self.spec_limit() >> 8u16) as u8,
                self.spec_base() as u8, (self.spec_base() >> 8u64) as u8, (self.spec_base() >> 16u64) as u8,
                (self.spec_base() >> 24u64) as u8, (self.spec_base() >> 32u64) as u8, (self.spec_base() >> 40u64) as u8,
                (self.spec_base() >> 48u64) as u8, (self.spec_base() >> 56u64) as u8,
            ],
    {
        let mut r: Vec<u8> = Vec::new();
        r.push(self.limit as u8);
        r.push((self.limit >> 8u16) as u8);
        r.push(self.base as u8);
        r.push((self.base >> 8u64) as u8);
        r.push((self.base >> 16u64) as u8);
        r.push((self.base >> 24u64) as u8);
        r.push((self.base >> 32u64) as u8);
        r.push((self.base >> 40u64) as u8);
        r.push((self.base >> 48u64) as u8);
        r.push((self.base >> 56u64) as u8);
        proof {
            assert(r@ =~= seq![
                self.spec_limit() as u8, (self.spec_limit() >> 8u16) as u8,
                self.spec_base() as u8, (self.spec_base() >> 8u64) as u8, (self.spec_base() >> 16u64) as u8,
                (self.spec_base() >> 24u64) as u8, (self.spec_base() >> 32u64) as u8, (self.spec_base() >> 40u64) as u8,
                (self.spec_base() >> 48u64) as u8, (self.spec_base() >> 56u64) as u8,
            ]);
        }
        r
    }
}

/// A table of `IDT_SIZE` fresh gates.
pub fn new_table() -> (r: Vec<IdtItem>)
    ensures
        r@.len() == IDT_SIZE,
        forall|i: int| 0 <= i < IDT_SIZE ==> (#[trigger] r@[i]).spec_offset() == 0 && r@[i].spec_selector() == KERNEL_SELECTOR,
{
    let mut v: Vec<IdtItem> = Vec::new();
    let mut i: usize = 0;
    while i < IDT_SIZE
        invariant
            i <= IDT_SIZE,
            v@.len() == i,
            forall|k: int| 0 <= k < i ==> (#[trigger] v@[k]).spec_offset() == 0 && v@[k].spec_selector() == KERNEL_SELECTOR,
        decreases IDT_SIZE - i,
    {
        v.push(IdtItem::new());
        i += 1;
    }
    v
}

/// Points gate `i` to the `i`-th handler stub, the stubs being laid out from
/// `interrupt0` on, `interrupt1 - interrupt0` bytes apart.
pub fn setup_offsets(table: &mut Vec<IdtItem>, interrupt0: u64, interrupt1: u64)
    requires
        interrupt0 <= interrupt1,
        interrupt0 + (interrupt1 - interrupt0) * old(table)@.len() <= u64::MAX,
    ensures
        final(table)@.len() == old(table)@.len(),
        forall|i: int|
            0 <= i < old(table)@.len() ==> (#[trigger] final(table)@[i]).spec_offset() == interrupt0
                + (interrupt1 - interrupt0) * i && final(table)@[i].spec_selector() == old(table)@[i].spec_selector()
                && final(table)@[i].spec_type_attr() == old(table)@[i].spec_type_attr(),
{
    let diff = interrupt1 - interrupt0;
    let n = table.len();
    let mut i: usize = 0;
    while i < n
        invariant
            n == old(table)@.len(),
            table@.len() == n,
            i <= n,
            diff == interrupt1 - interrupt0,
            interrupt0 + diff * n <= u64::MAX,
            forall|k: int|
                0 <= k < i ==> (#[trigger] table@[k]).spec_offset() == interrupt0 + diff * k
                    && table@[k].spec_selector() == old(table)@[k].spec_selector()
                    && table@[k].spec_type_attr() == old(table)@[k].spec_type_attr(),
            forall|k: int| i <= k < n ==> #[trigger] table@[k] == old(table)@[k],
        decreases n - i,
    {
        proof {
            assert(diff * i <= diff * n) by (nonlinear_arith)
                requires
                    i <= n,
            ;
        }
        let offset = interrupt0 + diff * (i as u64);
        table[i].set_offset(offset);
        i += 1;
    }
}

} // verus!
