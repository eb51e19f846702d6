//! The two cascaded programmable interrupt controllers.

use vstd::prelude::*;
use crate::ioports::IOPort;

verus! {

/// The command byte that starts the initialisation of a controller.
pub const ICW1_INIT: u8 = 0x11;

/// The command byte that ends an interrupt (non-specific end of interrupt).
pub const EOI: u8 = 0x20;

/// A controller: its command and data ports and the first vector it raises.
pub struct Pic {
    command: IOPort<(), u8>,
    data: IOPort<u8, u8>,
    idt_start: u8,
}

impl Pic {
    pub closed spec fn spec_idt_start(&self) -> u8 {
        self.idt_start
    }

    /// The number of the command port.
    pub closed spec fn command_port(&self) -> u16 {
        self.command.spec_num()
    }

    /// The number of the data port.
    pub closed spec fn data_port(&self) -> u16 {
        self.data.spec_num()
    }

    /// The command port.
    pub fn command(&self) -> (r: &IOPort<(), u8>)
        ensures
            r.spec_num() == self.command_port(),
    {
        &self.command
    }

    /// The data port.
    pub fn data(&self) -> (r: &IOPort<u8, u8>)
        ensures
            r.spec_num() == self.data_port(),
    {
        &self.data
    }

    /// The controller at `command` and `data` whose lines raise vectors from `idt_start` on.
    pub fn new(command: u16, data: u16, idt_start: u8) -> (r: Self)
        ensures
            r.command_port() == command,
            r.data_port() == data,
            r.spec_idt_start() == idt_start,
    {
        Pic { command: IOPort::new(command), data: IOPort::new(data), idt_start }
    }

    /// The first vector the controller raises.
    pub fn idt_start(&self) -> (r: u8)
        ensures
            r == self.spec_idt_start(),
    {
        self.idt_start
    }

    /// Whether vector `num` comes from this controller.
    pub fn has_interrupt(&self, num: u8) -> (r: bool)
        requires
            self.spec_idt_start() <= 247,
        ensures
            r == (self.spec_idt_start() <= num < self.spec_idt_start() + 8),
    {
        num >= self.idt_start && num < self.idt_start + 8
    }
}

/// The master controller.
pub fn pic_1() -> (r: Pic)
    ensures
        r.command_port() == 0x20,
        r.data_port() == 0x21,
        r.spec_idt_start() == 32,
{
    Pic::new(0x20, 0x21, 32)
}

/// The slave controller.
pub fn pic_2() -> (r: Pic)
    ensures
        r.command_port() == 0xA0,
        r.data_port() == 0xA1,
        r.spec_idt_start() == 40,
{
    Pic::new(0xA0, 0xA1, 40)
}

/// Which controllers must be told that vector `num` was handled: the master
/// for its own lines and for the slave's, the slave for its own.
pub fn end_of_interrupt_targets(pic1: &Pic, pic2: &Pic, num: u8) -> (r: (bool, bool))
    requires
        pic1.spec_idt_start() <= 247,
        pic2.spec_idt_start() <= 247,
    ensures
        r.0 == ((pic1.spec_idt_start() <= num < pic1.spec_idt_start() + 8) || (pic2.spec_idt_start() <= num < pic2.spec_idt_start() + 8)),
        r.1 == (pic2.spec_idt_start() <= num < pic2.spec_idt_start() + 8),
{
    let first = pic1.has_interrupt(num);
    let second = pic2.has_interrupt(num);
    (first || second, second)
}

/// The controller (0 for the master, 1 for the slave) and the line of interrupt `num`.
pub fn line_of(num: u8) -> (r: (usize, u8))
    ensures
        num < 8 ==> r == (0usize, num),
        num >= 8 ==> r == (1usize, (num - 8) as u8),
{
    if num < 8 {
        (0, num)
    } else {
        (1, num - 8)
    }
}

/// The mask `old_mask` with line `line` unmasked.
pub fn unmasked(old_mask: u8, line: u8) -> (r: u8)
    requires
        line < 8,
    ensures
        r == old_mask & !(1u8 << line),
{
    old_mask & !(1u8 << line)
}

/// The mask with every line masked.
pub const MASK_ALL: u8 = 0xFF;

/// The mask with no line masked.
pub const MASK_NONE: u8 = 0x00;

} // verus!
