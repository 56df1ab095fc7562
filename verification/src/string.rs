//! Firmware strings: sequences of 16-bit units terminated by a single NUL
//! unit, with no NUL in the middle.

use vstd::prelude::*;

use vstd::utf8::decode_utf8;
use vstd::utf8::valid_utf8;

verus! {

/// Decodes the UTF-8 bytes `data[start..end]` into their UTF-16 units,
/// or reports that they are not a valid UTF-8 encoding. The input must be
/// NUL-free, which makes every produced unit non-NUL.
pub(crate) fn utf8_to_utf16(data: &[u8], start: usize, end: usize) -> (r: Option<Vec<u16>>)
    requires
        start <= end <= data@.len(),
        forall|j: int| start <= j < end ==> data@[j] != 0,
    ensures
        ({
            let v = data@.subrange(start as int, end as int);
            match r {
                Some(units) => {
                    &&& valid_utf8(v)
                    &&& units@ == utf16_of(decode_utf8(v))
                    &&& forall|j: int| 0 <= j < units@.len() ==> units@[j] != 0
                },
                None => !valid_utf8(v),
            }
        }),
{
    let ghost v = data@.subrange(start as int, end as int);
    let mut units: Vec<u16> = Vec::new();
    let mut pos = start;
    proof {
        assert(v.skip(0) =~= v);
        assert(units@ + utf16_of(decode_utf8(v)) =~= utf16_of(decode_utf8(v)));
    }
    while pos < end
        invariant
            start <= pos <= end <= data@.len(),
            v == data@.subrange(start as int, end as int),
            forall|j: int| start <= j < end ==> data@[j] != 0,
            valid_utf8(v) <==> valid_utf8(v.skip(pos - start)),
            valid_utf8(v) ==> units@ + utf16_of(decode_utf8(v.skip(pos - start))) == utf16_of(
                decode_utf8(v),
            ),
            forall|j: int| 0 <= j < units@.len() ==> units@[j] != 0,
        decreases end - pos,
    {
        let ghost suffix = v.skip(pos - start);
        proof {
            assert forall|k: int| 0 <= k < suffix.len() implies suffix[k] == data@[pos + k] by {}
            assert(suffix.len() == end - pos);
        }
        let b0 = data[pos];
        // Determine the scalar's width and value, mirroring the encoding's
        // bit patterns; reject malformed, overlong and surrogate forms.
        let mut width: usize = 0;
        let mut scalar: u32 = 0;
        if b0 <= 0x7f {
            width = 1;
            scalar = (b0 & 0x7F) as u32;
            proof {
                assert(b0 & 0x7F == b0) by (bit_vector)
                    requires
                        b0 <= 0x7f,
                ;
                assert(vstd::utf8::valid_first_scalar(suffix));
                assert(vstd::utf8::length_of_first_scalar(suffix) == 1);
                assert(vstd::utf8::decode_first_scalar(suffix) == scalar);
                assert(scalar != 0 && scalar < 0x10000 && !(0xD800 <= scalar <= 0xDFFF));
            }
        } else if 0xc0 <= b0 && b0 <= 0xdf {
            if end - pos < 2 || !(0x80 <= data[pos + 1] && data[pos + 1] <= 0xbf) {
                proof {
                    assert(!vstd::utf8::valid_first_scalar(suffix));
                }
                return None;
            }
            let b1 = data[pos + 1];
            width = 2;
            scalar = (((b0 & 0x1F) as u32) << 6) | ((b1 & 0x3f) as u32);
            if scalar < 0x80 {
                proof {
                    assert(!vstd::utf8::valid_first_scalar(suffix));
                }
                return None;
            }
            proof {
                assert(scalar < 0x800) by (bit_vector)
                    requires
                        scalar == (((b0 & 0x1F) as u32) << 6) | ((b1 & 0x3f) as u32),
                ;
                assert(vstd::utf8::valid_first_scalar(suffix));
                assert(vstd::utf8::length_of_first_scalar(suffix) == 2);
                assert(vstd::utf8::decode_first_scalar(suffix) == scalar);
            }
        } else if 0xe0 <= b0 && b0 <= 0xef {
            if end - pos < 3 || !(0x80 <= data[pos + 1] && data[pos + 1] <= 0xbf) || !(0x80
                <= data[pos + 2] && data[pos + 2] <= 0xbf) {
                proof {
                    assert(!vstd::utf8::valid_first_scalar(suffix));
                }
                return None;
            }
            let b1 = data[pos + 1];
            let b2 = data[pos + 2];
            width = 3;
            scalar = (((b0 & 0x0F) as u32) << 12) | (((b1 & 0x3f) as u32) << 6) | ((b2
                & 0x3f) as u32);
            if scalar < 0x800 || (0xD800 <= scalar && scalar <= 0xDFFF) {
                proof {
                    assert(!vstd::utf8::valid_first_scalar(suffix));
                }
                return None;
            }
            proof {
                assert(scalar < 0x10000) by (bit_vector)
                    requires
                        scalar == (((b0 & 0x0F) as u32) << 12) | (((b1 & 0x3f) as u32) << 6) | ((b2
                            & 0x3f) as u32),
                ;
                assert(vstd::utf8::valid_first_scalar(suffix));
                assert(vstd::utf8::length_of_first_scalar(suffix) == 3);
                assert(vstd::utf8::decode_first_scalar(suffix) == scalar);
            }
        } else if 0xf0 <= b0 && b0 <= 0xf7 {
            if end - pos < 4 || !(0x80 <= data[pos + 1] && data[pos + 1] <= 0xbf) || !(0x80
                <= data[pos + 2] && data[pos + 2] <= 0xbf) || !(0x80 <= data[pos + 3] && data[pos
                + 3] <= 0xbf) {
                proof {
                    assert(!vstd::utf8::valid_first_scalar(suffix));
                }
                return None;
            }
            let b1 = data[pos + 1];
            let b2 = data[pos + 2];
            let b3 = data[pos + 3];
            width = 4;
            scalar = (((b0 & 0x07) as u32) << 18) | (((b1 & 0x3f) as u32) << 12) | (((b2
                & 0x3f) as u32) << 6) | ((b3 & 0x3f) as u32);
            if scalar < 0x10000 || scalar > 0x10ffff {
                proof {
                    assert(!vstd::utf8::valid_first_scalar(suffix));
                }
                return None;
            }
            proof {
                assert(vstd::utf8::valid_first_scalar(suffix));
                assert(vstd::utf8::length_of_first_scalar(suffix) == 4);
                assert(vstd::utf8::decode_first_scalar(suffix) == scalar);
            }
        } else {
            proof {
                assert(!vstd::utf8::valid_first_scalar(suffix));
            }
            return None;
        }
        let ghost pop = vstd::utf8::pop_first_scalar(suffix);
        let ghost c = (scalar as char);
        proof {
            assert(vstd::utf8::valid_first_scalar(suffix));
            assert(pop =~= v.skip(pos + width - start));
            // The suffix is a valid encoding exactly when the rest is.
            assert(valid_utf8(suffix) <==> valid_utf8(pop));
            assert(c as u32 == scalar);
        }
        let ghost units_before = units@;
        if scalar < 0x10000 {
            units.push(scalar as u16);
        } else {
            let rest = scalar - 0x10000;
            assert(((rest >> 10) & 0x3FF) <= 0x3FF && (rest & 0x3FF) <= 0x3FF) by (bit_vector);
            units.push((0xD800 + ((rest >> 10) & 0x3FF)) as u16);
            units.push((0xDC00 + (rest & 0x3FF)) as u16);
        }
        proof {
            assert(units@ =~= units_before + utf16_char(c));
            if valid_utf8(v) {
                assert(valid_utf8(suffix));
                let dec = decode_utf8(suffix);
                assert(dec =~= seq![c] + decode_utf8(pop));
                assert(dec.len() > 0 && dec[0] == c);
                assert(dec.drop_first() =~= decode_utf8(pop));
                assert(utf16_of(dec) =~= utf16_char(c) + utf16_of(decode_utf8(pop)));
                assert(units@ + utf16_of(decode_utf8(pop)) =~= units_before + utf16_of(dec));
            }
        }
        pos = pos + width;
    }
    proof {
        assert(v.skip(pos - start) =~= Seq::<u8>::empty());
        assert(valid_utf8(Seq::<u8>::empty()));
        assert(decode_utf8(Seq::<u8>::empty()) =~= Seq::<char>::empty());
        assert(utf16_of(Seq::<char>::empty()) =~= Seq::<u16>::empty());
        if valid_utf8(v) {
            assert(units@ + utf16_of(decode_utf8(v.skip(pos - start))) =~= units@);
        }
    }
    Some(units)
}

/// A non-NUL 16-bit unit of a firmware string.
#[derive(Clone, Copy, PartialEq, Eq, Structural, Debug)]
pub struct EfiChar {
    unit: u16,
}

impl EfiChar {
    /// Widens a non-NUL byte to a string unit.
    pub fn from_u8(b: u8) -> (r: EfiChar)
        requires
            b != 0,
        ensures
            r.spec_code() == b as u16,
            r.spec_code() != 0,
    {
        EfiChar { unit: b as u16 }
    }

    /// The 16-bit value of this unit.
    pub fn code(&self) -> (r: u16)
        ensures
            r == self.spec_code(),
    {
        self.unit
    }

    /// The 16-bit value of this unit.
    pub closed spec fn spec_code(&self) -> u16 {
        self.unit
    }
}

/// A firmware string. The backing units always end with NUL.
#[derive(Debug)]
pub struct EfiStr {
    units: Vec<u16>,
}

/// An owned firmware string with the same shape as [`EfiStr`].
#[derive(Debug)]
pub struct EfiString {
    s: EfiStr,
}

/// The UTF-16 encoding of one character, as a sequence of one or two units.
pub open spec fn utf16_char(c: char) -> Seq<u16> {
    let u = c as u32;
    if u < 0x10000 {
        seq![u as u16]
    } else {
        seq![
            (0xD800 + (((u - 0x10000) as u32 >> 10) & 0x3FF)) as u16,
            (0xDC00 + ((u - 0x10000) as u32 & 0x3FF)) as u16,
        ]
    }
}

/// The UTF-16 encoding of a character sequence.
pub open spec fn utf16_of(s: Seq<char>) -> Seq<u16>
    decreases s.len(),
{
    if s.len() == 0 {
        Seq::empty()
    } else {
        utf16_char(s[0]) + utf16_of(s.drop_first())
    }
}

/// Each byte of `b` widened to a 16-bit unit.
pub open spec fn widened(b: Seq<u8>) -> Seq<u16> {
    Seq::new(b.len(), |i: int| b[i] as u16)
}

proof fn lemma_utf16_push(t: Seq<char>, x: char)
    ensures
        utf16_of(t.push(x)) == utf16_of(t) + utf16_char(x),
    decreases t.len(),
{
    if t.len() == 0 {
        assert(t.push(x).drop_first() =~= Seq::<char>::empty());
        assert(utf16_of(Seq::<char>::empty()) =~= Seq::<u16>::empty());
        assert(t.push(x)[0] == x);
        assert(utf16_of(t.push(x)) =~= utf16_char(x));
        assert(utf16_of(t) + utf16_char(x) =~= utf16_char(x));
    } else {
        assert(t.push(x).drop_first() =~= t.drop_first().push(x));
        lemma_utf16_push(t.drop_first(), x);
        assert(t.push(x)[0] == t[0]);
        assert(utf16_of(t.push(x)) =~= utf16_char(t[0]) + (utf16_of(t.drop_first())
            + utf16_char(x)));
        assert(utf16_of(t.push(x)) =~= utf16_of(t) + utf16_char(x));
    }
}

impl EfiStr {
    /// The backing units of this string, including the final NUL.
    pub closed spec fn units(&self) -> Seq<u16> {
        self.units@
    }

    /// The string is well formed: its units end with NUL and have no NUL
    /// before the end.
    pub open spec fn wf(&self) -> bool {
        &&& self.units().len() >= 1
        &&& self.units().last() == 0
        &&& forall|i: int| 0 <= i < self.units().len() - 1 ==> self.units()[i] != 0
    }

    /// The number of units before the final NUL.
    pub open spec fn spec_len(&self) -> int {
        self.units().len() - 1
    }

    /// Gets the length of this string, excluding the final NUL.
    pub fn len(&self) -> (r: usize)
        requires
            self.wf(),
        ensures
            r == self.spec_len(),
    {
        self.units.len() - 1
    }

    /// Whether this string has no units before the final NUL.
    pub fn is_empty(&self) -> (r: bool)
        requires
            self.wf(),
        ensures
            r == (self.spec_len() == 0),
    {
        self.units.len() == 1
    }

    /// The unit at position `i`.
    pub fn unit_at(&self, i: usize) -> (r: u16)
        requires
            i < self.units().len(),
        ensures
            r == self.units()[i as int],
    {
        self.units[i]
    }

    /// Whether two strings have exactly the same units.
    pub fn same_as(&self, other: &EfiStr) -> (r: bool)
        ensures
            r <==> self.units() == other.units(),
    {
        if self.units.len() != other.units.len() {
            assert(self.units() != other.units());
            return false;
        }
        let n = self.units.len();
        let mut i: usize = 0;
        while i < n
            invariant
                n == self.units().len(),
                n == other.units().len(),
                0 <= i <= n,
                forall|j: int| 0 <= j < i ==> self.units()[j] == other.units()[j],
            decreases n - i,
        {
            if self.units[i] != other.units[i] {
                return false;
            }
            i += 1;
        }
        assert(self.units() =~= other.units());
        true
    }

    /// Copies this string into an owned one.
    pub fn to_owned(&self) -> (r: EfiString)
        ensures
            r.units() == self.units(),
    {
        let mut units: Vec<u16> = Vec::new();
        let n = self.units.len();
        let mut i: usize = 0;
        while i < n
            invariant
                n == self.units().len(),
                0 <= i <= n,
                units@ =~= self.units().subrange(0, i as int),
            decreases n - i,
        {
            units.push(self.units[i]);
            i += 1;
        }
        assert(units@ =~= self.units());
        EfiString { s: EfiStr { units } }
    }
}

/// An error returned when a NUL byte stands before the end of the input.
#[derive(Debug)]
pub struct NulError {
    position: usize,
}

impl NulError {
    /// The index of the offending NUL byte.
    pub fn position(&self) -> (r: usize)
        ensures
            r == self.spec_position(),
    {
        self.position
    }

    /// The index of the offending NUL byte.
    pub closed spec fn spec_position(&self) -> int {
        self.position as int
    }
}

impl EfiString {
    /// The backing units of this string, including the final NUL.
    pub closed spec fn units(&self) -> Seq<u16> {
        self.s.units()
    }

    /// The string is well formed; see [`EfiStr::wf`].
    pub open spec fn wf(&self) -> bool {
        &&& self.units().len() >= 1
        &&& self.units().last() == 0
        &&& forall|i: int| 0 <= i < self.units().len() - 1 ==> self.units()[i] != 0
    }

    /// Makes an empty string: a single NUL unit.
    pub fn new() -> (r: EfiString)
        ensures
            r.wf(),
            r.units() =~= seq![0u16],
    {
        let mut units: Vec<u16> = Vec::new();
        units.push(0);
        EfiString { s: EfiStr { units } }
    }

    /// Borrows this string.
    pub fn as_str(&self) -> (r: &EfiStr)
        ensures
            r.units() == self.units(),
    {
        &self.s
    }

    /// Builds a string from non-NUL units, appending the final NUL.
    pub fn from_units(units: Vec<u16>) -> (r: EfiString)
        requires
            forall|i: int| 0 <= i < units@.len() ==> units@[i] != 0,
        ensures
            r.wf(),
            r.units() == units@.push(0),
    {
        let mut units = units;
        units.push(0);
        EfiString { s: EfiStr { units } }
    }

    /// Builds a string from bytes, widening each byte to one unit and
    /// appending the final NUL. A NUL byte is accepted only as the last
    /// byte, where it is absorbed into the terminator; a NUL anywhere else
    /// is an error carrying its position.
    pub fn from_bytes(bytes: &[u8]) -> (r: Result<EfiString, NulError>)
        ensures
            match r {
                Ok(s) => {
                    &&& forall|i: int| 0 <= i < bytes@.len() - 1 ==> bytes@[i] != 0
                    &&& s.wf()
                    &&& s.units() == widened(
                        if bytes@.len() > 0 && bytes@.last() == 0 {
                            bytes@.drop_last()
                        } else {
                            bytes@
                        },
                    ).push(0)
                },
                Err(e) => {
                    &&& 0 <= e.spec_position() < bytes@.len() - 1
                    &&& bytes@[e.spec_position()] == 0
                    &&& forall|j: int| 0 <= j < e.spec_position() ==> bytes@[j] != 0
                },
            },
    {
        let n = bytes.len();
        let mut units: Vec<u16> = Vec::new();
        let mut i: usize = 0;
        while i < n
            invariant
                n == bytes@.len(),
                0 <= i <= n,
                forall|j: int| 0 <= j < i ==> bytes@[j] != 0,
                units@ =~= widened(bytes@.subrange(0, i as int)),
            decreases n - i,
        {
            let b = bytes[i];
            if b == 0 {
                if i == n - 1 {
                    units.push(0);
                    assert(units@ =~= widened(bytes@.drop_last()).push(0));
                    return Ok(EfiString { s: EfiStr { units } });
                }
                return Err(NulError { position: i });
            }
            units.push(b as u16);
            assert(units@ =~= widened(bytes@.subrange(0, i + 1)));
            i += 1;
        }
        units.push(0);
        assert(bytes@.subrange(0, n as int) =~= bytes@);
        assert(units@ =~= widened(bytes@).push(0));
        Ok(EfiString { s: EfiStr { units } })
    }

    /// Appends the UTF-16 encoding of `v` before the final NUL.
    pub fn push_str(&mut self, v: &str)
        requires
            old(self).wf(),
            forall|i: int| 0 <= i < v@.len() ==> v@[i] != '\0',
        ensures
            final(self).wf(),
            final(self).units() == old(self).units().drop_last() + utf16_of(v@) + seq![0u16],
    {
        let ghost base = old(self).units().drop_last();
        self.s.units.pop();
        let n = v.unicode_len();
        let mut i: usize = 0;
        while i < n
            invariant
                n == v@.len(),
                0 <= i <= n,
                forall|k: int| 0 <= k < v@.len() ==> v@[k] != '\0',
                self.s.units@ =~= base + utf16_of(v@.subrange(0, i as int)),
                forall|j: int| 0 <= j < self.s.units@.len() ==> self.s.units@[j] != 0,
            decreases n - i,
        {
            let c = v.get_char(i);
            let u = c as u32;
            proof {
                assert(v@.subrange(0, i + 1) =~= v@.subrange(0, i as int).push(c));
                lemma_utf16_push(v@.subrange(0, i as int), c);
            }
            if u < 0x10000 {
                self.s.units.push(u as u16);
            } else {
                let rest = u - 0x10000;
                assert(((rest >> 10) & 0x3FF) <= 0x3FF && (rest & 0x3FF) <= 0x3FF)
                    by (bit_vector);
                self.s.units.push((0xD800 + ((rest >> 10) & 0x3FF)) as u16);
                self.s.units.push((0xDC00 + (rest & 0x3FF)) as u16);
            }
            assert(self.s.units@ =~= base + utf16_of(v@.subrange(0, i + 1)));
            i += 1;
        }
        proof {
            assert(v@.subrange(0, n as int) =~= v@);
        }
        self.s.units.push(0);
        assert(final(self).units() =~= base + utf16_of(v@) + seq![0u16]);
    }

    /// Replaces every occurrence of the unit `from` before the terminator
    /// with the unit `to`.
    pub fn replace_unit(&mut self, from: u16, to: u16)
        requires
            old(self).wf(),
            from != 0,
            to != 0,
        ensures
            final(self).wf(),
            final(self).units().len() == old(self).units().len(),
            forall|i: int|
                0 <= i < old(self).units().len() ==> final(self).units()[i] == (
                if old(self).units()[i] == from {
                    to
                } else {
                    old(self).units()[i]
                }),
    {
        let n = self.s.units.len();
        let mut i: usize = 0;
        while i < n
            invariant
                n == self.s.units@.len(),
                n == old(self).units().len(),
                0 <= i <= n,
                from != 0,
                to != 0,
                forall|j: int|
                    0 <= j < i ==> self.s.units@[j] == (
                    if old(self).units()[j] == from {
                        to
                    } else {
                        old(self).units()[j]
                    }),
                forall|j: int| i <= j < n ==> self.s.units@[j] == old(self).units()[j],
            decreases n - i,
        {
            if self.s.units[i] == from {
                self.s.units.set(i, to);
            }
            i += 1;
        }
        assert(self.s.units@[n - 1] == 0);
        assert forall|j: int| 0 <= j < n - 1 implies self.s.units@[j] != 0 by {
            assert(old(self).units()[j] != 0);
        }
    }
}

} // verus!
