//! Text output: a writer into a fixed buffer, and the digits of numbers in
//! decimal, octal and hexadecimal as they are printed to the serial port.

use vstd::prelude::*;
use vstd::string::StringSliceAdditionalSpecFns;

verus! {

/// A write did not fit.
#[derive(Clone, Copy, Debug, PartialEq, Eq, Structural)]
pub struct FmtError;

/// A writer into a buffer of fixed capacity; the first `len` bytes are written.
pub struct Buffer {
    data: Vec<u8>,
    length: usize,
}

impl Buffer {
    /// The whole buffer.
    pub closed spec fn spec_data(&self) -> Seq<u8> {
        self.data@
    }

    /// The number of bytes written.
    pub closed spec fn spec_len(&self) -> nat {
        self.length as nat
    }

    pub closed spec fn wf(&self) -> bool {
        self.length <= self.data@.len()
    }

    /// A writer into `buf`, with nothing written yet.
    pub fn new(buf: Vec<u8>) -> (r: Self)
        ensures
            r.wf(),
            r.spec_data() == buf@,
            r.spec_len() == 0,
    {
        Buffer { data: buf, length: 0 }
    }

    /// The number of bytes written.
    pub fn len(&self) -> (r: usize)
        ensures
            r == self.spec_len(),
    {
        self.length
    }

    /// The size of the buffer.
    pub fn capacity(&self) -> (r: usize)
        ensures
            r == self.spec_data().len(),
    {
        self.data.len()
    }

    /// The whole buffer.
    pub fn data(&self) -> (r: &[u8])
        ensures
            r@ == self.spec_data(),
    {
        self.data.as_slice()
    }

    /// Appends the bytes of `s` if they fit; otherwise writes nothing and fails.
    pub fn write_str(&mut self, s: &str) -> (r: Result<(), FmtError>)
        requires
            old(self).wf(),
        ensures
            final(self).wf(),
            ({
                let bytes = s.spec_bytes();
                let start = old(self).spec_len();
                if start + bytes.len() <= old(self).spec_data().len() {
                    &&& r is Ok
                    &&& final(self).spec_len() == start + bytes.len()
                    &&& final(self).spec_data() == old(self).spec_data().subrange(0, start as int) + bytes
                        + old(self).spec_data().subrange(start + bytes.len() as int, old(self).spec_data().len() as int)
                } else {
                    &&& r is Err
                    &&& final(self).spec_len() == old(self).spec_len()
                    &&& final(self).spec_data() == old(self).spec_data()
                }
            }),
    {
        let bytes = s.as_bytes();
        let n = bytes.len();
        if self.data.len() - self.length >= n {
            let ghost d0 = self.data@;
            let start = self.length;
            let mut i: usize = 0;
            while i < n
                invariant
                    bytes@ == s.spec_bytes(),
                    n == bytes@.len(),
                    start + n <= d0.len(),
                    d0.len() <= usize::MAX,
                    self.length == start,
                    self.data@.len() == d0.len(),
                    i <= n,
                    forall|k: int| 0 <= k < start ==> #[trigger] self.data@[k] == d0[k],
                    forall|k: int| start <= k < start + i ==> #[trigger] self.data@[k] == bytes@[k - start],
                    forall|k: int| start + n <= k < d0.len() ==> #[trigger] self.data@[k] == d0[k],
                decreases n - i,
            {
                self.data.set(start + i, bytes[i]);
                i += 1;
            }
            self.length = start + n;
            proof {
                assert(self.data@ =~= d0.subrange(0, start as int) + bytes@ + d0.subrange(start + n, d0.len() as int));
            }
            Ok(())
        } else {
            Err(FmtError)
        }
    }

    /// Appends the low byte of `c` if there is room; otherwise fails.
    pub fn write_char(&mut self, c: char) -> (r: Result<(), FmtError>)
        requires
            old(self).wf(),
        ensures
            final(self).wf(),
            if old(self).spec_len() < old(self).spec_data().len() {
                &&& r is Ok
                &&& final(self).spec_len() == old(self).spec_len() + 1
                &&& final(self).spec_data() == old(self).spec_data().update(old(self).spec_len() as int, (c as u32) as u8)
            } else {
                &&& r is Err
                &&& final(self).spec_len() == old(self).spec_len()
                &&& final(self).spec_data() == old(self).spec_data()
            },
    {
        if self.len() < self.capacity() {
            let b = (c as u32) as u8;
            self.data.set(self.length, b);
            self.length += 1;
            Ok(())
        } else {
            Err(FmtError)
        }
    }
}

/// The character of digit `d` (`0`-`9`, then `a`-`f`).
pub open spec fn digit_char(d: nat) -> u8 {
    if d < 10 {
        (48 + d) as u8
    } else {
        (87 + d) as u8
    }
}

/// The digits of `x` in base `base`, most significant first, without leading zeros
/// (a single `0` for zero).
pub open spec fn digits(x: nat, base: nat) -> Seq<u8>
    decreases x,
{
    if base < 2 || x < base {
        seq![digit_char(x)]
    } else {
        proof {
            vstd::arithmetic::div_mod::lemma_div_decreases(x as int, base as int);
        }
        digits(x / base, base).push(digit_char(x % base))
    }
}

/// The number the digit character `c` stands for.
pub open spec fn char_value(c: u8) -> int {
    if c < 58 {
        c - 48
    } else {
        c - 87
    }
}

/// The number the digit characters `s` stand for in base `base`.
pub open spec fn digits_value(s: Seq<u8>, base: int) -> int
    decreases s.len(),
{
    if s.len() == 0 {
        0
    } else {
        digits_value(s.drop_last(), base) * base + char_value(s.last())
    }
}

/// Reading back the digits of `x` gives `x`.
pub proof fn lemma_digits_value(x: nat, base: nat)
    requires
        2 <= base <= 16,
    ensures
        digits_value(digits(x, base), base as int) == x,
    decreases x,
{
    if x >= base {
        vstd::arithmetic::div_mod::lemma_div_decreases(x as int, base as int);
        lemma_digits_value(x / base, base);
        let s = digits(x / base, base);
        assert(s.push(digit_char(x % base)).drop_last() =~= s);
        vstd::arithmetic::div_mod::lemma_fundamental_div_mod(x as int, base as int);
        lemma_char_value(x % base);
        let q = x / base;
        let r = x % base;
        assert(q * base + r == x) by (nonlinear_arith)
            requires
                x == base * q + r,
        ;
        assert(digits(x, base) == s.push(digit_char(x % base)));
        assert(digits_value(digits(x, base), base as int) == digits_value(s, base as int) * base + char_value(
            digit_char(x % base),
        ));
    } else {
        assert(seq![digit_char(x)].drop_last() =~= Seq::<u8>::empty());
        lemma_char_value(x);
        assert(digits(x, base) == seq![digit_char(x)]);
        assert(digits_value(seq![digit_char(x)], base as int) == digits_value(Seq::<u8>::empty(), base as int) * base
            + char_value(digit_char(x)));
    }
}

/// A digit character stands for its digit.
proof fn lemma_char_value(d: nat)
    requires
        d < 16,
    ensures
        char_value(digit_char(d)) == d,
{
}

/// The digits of `x` in base `base` (2 to 16).
fn digits_in_base(x: u64, base: u64) -> (r: Vec<u8>)
    requires
        2 <= base <= 16,
    ensures
        r@ == digits(x as nat, base as nat),
{
    let mut out: Vec<u8> = Vec::new();
    let mut v = x;
    loop
        invariant_except_break
            2 <= base <= 16,
            digits(x as nat, base as nat) == digits(v as nat, base as nat) + out@,
        ensures
            out@ == digits(x as nat, base as nat),
        decreases v,
    {
        let d = v % base;
        let c: u8 = if d < 10 {
            48 + d as u8
        } else {
            87 + d as u8
        };
        assert(c == digit_char(d as nat));
        let ghost old_out = out@;
        out.insert(0, c);
        assert(out@ =~= seq![c] + old_out);
        let ghost old_v = v;
        v = v / base;
        proof {
            if old_v < base {
                vstd::arithmetic::div_mod::lemma_small_mod(old_v as nat, base as nat);
                assert(digits(old_v as nat, base as nat) == seq![digit_char(old_v as nat)]);
                assert(v == 0) by (nonlinear_arith)
                    requires
                        old_v < base,
                        base >= 2,
                        v == old_v / base,
                ;
                assert(out@ =~= digits(x as nat, base as nat));
            } else {
                assert(v > 0) by (nonlinear_arith)
                    requires
                        old_v >= base,
                        base >= 2,
                        v == old_v / base,
                ;
                assert(digits(old_v as nat, base as nat) == digits(v as nat, base as nat).push(digit_char(old_v as nat % base as nat)));
                assert(digits(x as nat, base as nat) =~= digits(v as nat, base as nat) + out@);
            }
        }
        if v == 0 {
            break;
        }
    }
    out
}

/// The decimal digits of `x`.
pub fn decimal(x: u64) -> (r: Vec<u8>)
    ensures
        r@ == digits(x as nat, 10),
{
    digits_in_base(x, 10)
}

/// The octal digits of `x`.
pub fn octal_digits(x: u64) -> (r: Vec<u8>)
    ensures
        r@ == digits(x as nat, 8),
{
    digits_in_base(x, 8)
}

/// The hexadecimal digits of `x` (lower case).
pub fn hex_digits(x: u64) -> (r: Vec<u8>)
    ensures
        r@ == digits(x as nat, 16),
{
    digits_in_base(x, 16)
}

/// The text of a signed number: a minus sign for a negative one, then the
/// digits of its magnitude in base `base` (2 to 16).
pub fn signed_digits(x: i64, base: u64) -> (r: Vec<u8>)
    requires
        x != i64::MIN,
        2 <= base <= 16,
    ensures
        x < 0 ==> r@ == seq![45u8] + digits((-x) as nat, base as nat),
        x >= 0 ==> r@ == digits(x as nat, base as nat),
{
    if x < 0 {
        let mut out: Vec<u8> = Vec::new();
        out.push(45u8);
        let mut rest = digits_in_base((-x) as u64, base);
        out.append(&mut rest);
        out
    } else {
        digits_in_base(x as u64, base)
    }
}

/// A value to be shown in base 16.
pub struct Hex<'a, T> {
    obj: &'a T,
}

impl<'a, T> Hex<'a, T> {
    /// The value shown.
    pub closed spec fn spec_obj(&self) -> T {
        *self.obj
    }

    /// The value shown.
    pub fn get(&self) -> (r: &'a T)
        ensures
            *r == self.spec_obj(),
    {
        self.obj
    }
}

/// `obj`, to be shown in base 16.
pub fn hex<'a, T>(obj: &'a T) -> (r: Hex<'a, T>)
    ensures
        r.spec_obj() == *obj,
{
    Hex { obj: obj }
}

/// A value to be shown in base 8.
pub struct Octal<'a, T> {
    obj: &'a T,
}

impl<'a, T> Octal<'a, T> {
    /// The value shown.
    pub closed spec fn spec_obj(&self) -> T {
        *self.obj
    }

    /// The value shown.
    pub fn get(&self) -> (r: &'a T)
        ensures
            *r == self.spec_obj(),
    {
        self.obj
    }
}

/// `obj`, to be shown in base 8.
pub fn octal<'a, T>(obj: &'a T) -> (r: Octal<'a, T>)
    ensures
        r.spec_obj() == *obj,
{
    Octal { obj: obj }
}

} // verus!
