//! Writing the line-and-space-delimited text format.

use crate::error::{chars_of, string_of};
use vstd::prelude::*;

verus! {

/// The decimal digit `d`.
pub open spec fn digit(d: nat) -> char {
    if d == 0 {
        '0'
    } else if d == 1 {
        '1'
    } else if d == 2 {
        '2'
    } else if d == 3 {
        '3'
    } else if d == 4 {
        '4'
    } else if d == 5 {
        '5'
    } else if d == 6 {
        '6'
    } else if d == 7 {
        '7'
    } else if d == 8 {
        '8'
    } else {
        '9'
    }
}

/// The decimal representation of `n`, without leading zeros.
pub open spec fn decimal(n: nat) -> Seq<char>
    decreases n,
{
    if n < 10 {
        seq![digit(n)]
    } else {
        decimal(n / 10).push(digit(n % 10))
    }
}

/// The decimal representation of `v`, with a leading '-' when negative.
pub open spec fn signed_decimal(v: int) -> Seq<char> {
    if v < 0 {
        seq!['-'] + decimal((-v) as nat)
    } else {
        decimal(v as nat)
    }
}

/// The uppercase hex digit `d`.
pub open spec fn hex_digit(d: nat) -> char {
    if d < 10 {
        digit(d)
    } else if d == 10 {
        'A'
    } else if d == 11 {
        'B'
    } else if d == 12 {
        'C'
    } else if d == 13 {
        'D'
    } else if d == 14 {
        'E'
    } else {
        'F'
    }
}

/// Two uppercase hex digits per byte.
pub open spec fn hex_bytes(bytes: Seq<u8>) -> Seq<char>
    decreases bytes.len(),
{
    if bytes.len() == 0 {
        Seq::empty()
    } else {
        hex_bytes(bytes.drop_last()) + seq![
            hex_digit((bytes.last() / 16) as nat),
            hex_digit((bytes.last() % 16) as nat),
        ]
    }
}

/// The buffer ending a line: a trailing space becomes the line break; an empty buffer or one
/// that ends a line stays as it is.
pub open spec fn with_new_line(b: Seq<char>) -> Seq<char> {
    if b.len() == 0 || b.last() == '\n' {
        b
    } else if b.last() == ' ' {
        b.drop_last().push('\n')
    } else {
        b.push('\n')
    }
}

/// The buffer ready for the next token of a line: a space is added unless the buffer is empty
/// or already ends in a space or a line break.
pub open spec fn with_white_space(b: Seq<char>) -> Seq<char> {
    if b.len() == 0 || b.last() == ' ' || b.last() == '\n' {
        b
    } else {
        b.push(' ')
    }
}

fn digit_char(d: u128) -> (c: char)
    requires
        d < 10,
    ensures
        c == digit(d as nat),
{
    if d == 0 {
        '0'
    } else if d == 1 {
        '1'
    } else if d == 2 {
        '2'
    } else if d == 3 {
        '3'
    } else if d == 4 {
        '4'
    } else if d == 5 {
        '5'
    } else if d == 6 {
        '6'
    } else if d == 7 {
        '7'
    } else if d == 8 {
        '8'
    } else {
        '9'
    }
}

fn hex_char(d: u8) -> (c: char)
    requires
        d < 16,
    ensures
        c == hex_digit(d as nat),
{
    if d < 10 {
        digit_char(d as u128)
    } else if d == 10 {
        'A'
    } else if d == 11 {
        'B'
    } else if d == 12 {
        'C'
    } else if d == 13 {
        'D'
    } else if d == 14 {
        'E'
    } else {
        'F'
    }
}

/// The decimal digits of `n`.
pub fn decimal_chars(n: u128) -> (r: Vec<char>)
    ensures
        r@ == decimal(n as nat),
    decreases n,
{
    if n < 10 {
        let mut r: Vec<char> = Vec::new();
        r.push(digit_char(n));
        proof {
            assert(r@ =~= seq![digit(n as nat)]);
        }
        r
    } else {
        let mut r = decimal_chars(n / 10);
        r.push(digit_char(n % 10));
        r
    }
}

/// Serializer to the line-and-space-delimited text format.
#[derive(Clone, Debug)]
pub struct Serializer {
    buffer: Vec<char>,
}

impl View for Serializer {
    type V = Seq<char>;

    closed spec fn view(&self) -> Seq<char> {
        self.buffer@
    }
}

impl Default for Serializer {
    fn default() -> (r: Serializer)
        ensures
            r@ == Seq::<char>::empty(),
    {
        Serializer { buffer: Vec::new() }
    }
}

impl Serializer {
    /// Creates a serializer with an empty buffer that has room for `capacity` characters.
    pub fn with_capacity(capacity: usize) -> (r: Serializer)
        ensures
            r@ == Seq::<char>::empty(),
    {
        Serializer { buffer: Vec::with_capacity(capacity) }
    }

    /// Finishes serialization and returns the serialized text.
    pub fn finish(self) -> (r: String)
        ensures
            r@ == self@,
    {
        string_of(self.buffer.as_slice())
    }

    /// The text serialized so far.
    pub fn text(&self) -> (r: String)
        ensures
            r@ == self@,
    {
        string_of(self.buffer.as_slice())
    }

    fn ensure_new_line(&mut self)
        ensures
            final(self)@ == with_new_line(old(self)@),
    {
        let len = self.buffer.len();
        if len > 0 && self.buffer[len - 1] != '\n' {
            if self.buffer[len - 1] == ' ' {
                self.buffer.pop();
            }
            self.buffer.push('\n');
        }
    }

    fn ensure_white_space(&mut self)
        ensures
            final(self)@ == with_white_space(old(self)@),
    {
        let len = self.buffer.len();
        if len > 0 && self.buffer[len - 1] != ' ' && self.buffer[len - 1] != '\n' {
            self.buffer.push(' ');
        }
    }

    fn add_to_buffer(&mut self, chars: &Vec<char>)
        ensures
            final(self)@ == old(self)@ + chars@,
    {
        let ghost start = self.buffer@;
        let mut i: usize = 0;
        while i < chars.len()
            invariant
                i <= chars@.len(),
                self.buffer@ == start + chars@.take(i as int),
            decreases chars@.len() - i,
        {
            self.buffer.push(chars[i]);
            i = i + 1;
            proof {
                assert(self.buffer@ =~= start + chars@.take(i as int));
            }
        }
        proof {
            assert(chars@.take(i as int) =~= chars@);
        }
    }

    /// Writes `true` or `false`.
    pub fn serialize_bool(&mut self, value: bool)
        ensures
            final(self)@ == old(self)@ + (if value {
                seq!['t', 'r', 'u', 'e']
            } else {
                seq!['f', 'a', 'l', 's', 'e']
            }),
    {
        let mut chars: Vec<char> = Vec::new();
        if value {
            chars.push('t');
            chars.push('r');
            chars.push('u');
            chars.push('e');
        } else {
            chars.push('f');
            chars.push('a');
            chars.push('l');
            chars.push('s');
            chars.push('e');
        }
        proof {
            if value {
                assert(chars@ =~= seq!['t', 'r', 'u', 'e']);
            } else {
                assert(chars@ =~= seq!['f', 'a', 'l', 's', 'e']);
            }
        }
        self.add_to_buffer(&chars);
    }

    /// Writes an unsigned integer in decimal.
    pub fn serialize_u128(&mut self, value: u128)
        ensures
            final(self)@ == old(self)@ + decimal(value as nat),
    {
        let chars = decimal_chars(value);
        self.add_to_buffer(&chars);
    }

    /// Writes a signed integer in decimal.
    pub fn serialize_i128(&mut self, value: i128)
        ensures
            final(self)@ == old(self)@ + signed_decimal(value as int),
    {
        if value < 0 {
            let magnitude = ((-(value + 1)) as u128) + 1;
            let mut chars: Vec<char> = Vec::new();
            chars.push('-');
            let digits = decimal_chars(magnitude);
            let ghost start = self.buffer@;
            self.add_to_buffer(&chars);
            self.add_to_buffer(&digits);
            proof {
                assert(chars@ =~= seq!['-']);
                assert(self.buffer@ =~= start + (seq!['-'] + decimal((-value) as nat)));
            }
        } else {
            let chars = decimal_chars(value as u128);
            self.add_to_buffer(&chars);
        }
    }

    /// Writes an unsigned integer in decimal.
    pub fn serialize_u64(&mut self, value: u64)
        ensures
            final(self)@ == old(self)@ + decimal(value as nat),
    {
        self.serialize_u128(value as u128)
    }

    /// Writes an unsigned integer in decimal.
    pub fn serialize_u32(&mut self, value: u32)
        ensures
            final(self)@ == old(self)@ + decimal(value as nat),
    {
        self.serialize_u64(value as u64)
    }

    /// Writes an unsigned integer in decimal.
    pub fn serialize_u16(&mut self, value: u16)
        ensures
            final(self)@ == old(self)@ + decimal(value as nat),
    {
        self.serialize_u64(value as u64)
    }

    /// Writes an unsigned integer in decimal.
    pub fn serialize_u8(&mut self, value: u8)
        ensures
            final(self)@ == old(self)@ + decimal(value as nat),
    {
        self.serialize_u64(value as u64)
    }

    /// Writes an index or a count in decimal.
    pub fn serialize_usize(&mut self, value: usize)
        ensures
            final(self)@ == old(self)@ + decimal(value as nat),
    {
        self.serialize_u128(value as u128)
    }

    /// Writes a signed integer in decimal.
    pub fn serialize_i64(&mut self, value: i64)
        ensures
            final(self)@ == old(self)@ + signed_decimal(value as int),
    {
        self.serialize_i128(value as i128)
    }

    /// Writes a signed integer in decimal.
    pub fn serialize_i32(&mut self, value: i32)
        ensures
            final(self)@ == old(self)@ + signed_decimal(value as int),
    {
        self.serialize_i64(value as i64)
    }

    /// Writes a signed integer in decimal.
    pub fn serialize_i16(&mut self, value: i16)
        ensures
            final(self)@ == old(self)@ + signed_decimal(value as int),
    {
        self.serialize_i64(value as i64)
    }

    /// Writes a signed integer in decimal.
    pub fn serialize_i8(&mut self, value: i8)
        ensures
            final(self)@ == old(self)@ + signed_decimal(value as int),
    {
        self.serialize_i64(value as i64)
    }

    /// Writes a character.
    pub fn serialize_char(&mut self, value: char)
        ensures
            final(self)@ == old(self)@.push(value),
    {
        self.buffer.push(value);
    }

    /// Writes a string as it is.
    pub fn serialize_str(&mut self, value: &str)
        ensures
            final(self)@ == old(self)@ + value@,
    {
        let chars = chars_of(value);
        self.add_to_buffer(&chars);
    }

    /// Writes bytes as uppercase hex pairs.
    pub fn serialize_bytes(&mut self, value: &[u8])
        ensures
            final(self)@ == old(self)@ + hex_bytes(value@),
    {
        let ghost start = self.buffer@;
        let mut i: usize = 0;
        while i < value.len()
            invariant
                i <= value@.len(),
                self.buffer@ == start + hex_bytes(value@.take(i as int)),
            decreases value@.len() - i,
        {
            let byte = value[i];
            self.buffer.push(hex_char(byte / 16));
            self.buffer.push(hex_char(byte % 16));
            proof {
                let next = value@.take(i + 1);
                assert(next.drop_last() =~= value@.take(i as int));
                assert(next.last() == byte);
                assert(self.buffer@ =~= start + hex_bytes(next));
            }
            i = i + 1;
        }
        proof {
            assert(value@.take(i as int) =~= value@);
        }
    }

    /// Writes the unit marker '-'.
    pub fn serialize_unit(&mut self)
        ensures
            final(self)@ == old(self)@.push('-'),
    {
        self.buffer.push('-');
    }

    /// Writes an absent optional value: the unit marker '-'.
    pub fn serialize_none(&mut self)
        ensures
            final(self)@ == old(self)@.push('-'),
    {
        self.serialize_unit()
    }

    /// Writes a unit struct: the unit marker '-'.
    pub fn serialize_unit_struct(&mut self)
        ensures
            final(self)@ == old(self)@.push('-'),
    {
        self.serialize_unit()
    }

    /// Writes a variant without fields: its name.
    pub fn serialize_unit_variant(&mut self, variant: &str)
        ensures
            final(self)@ == old(self)@ + variant@,
    {
        self.serialize_str(variant)
    }

    /// Starts a variant with one value: its name and a space; the value follows.
    pub fn serialize_newtype_variant(&mut self, variant: &str)
        ensures
            final(self)@ == with_white_space(old(self)@ + variant@),
    {
        self.serialize_str(variant);
        self.ensure_white_space();
    }

    /// Starts a variant with fields: its name; the fields follow.
    pub fn serialize_tuple_variant(&mut self, variant: &str)
        ensures
            final(self)@ == old(self)@ + variant@,
    {
        self.serialize_str(variant)
    }

    /// Starts a variant with named fields: its name; the fields follow.
    pub fn serialize_struct_variant(&mut self, variant: &str)
        ensures
            final(self)@ == old(self)@ + variant@,
    {
        self.serialize_str(variant)
    }

    /// Starts an element of a sequence: each element begins a line.
    pub fn serialize_element(&mut self)
        ensures
            final(self)@ == with_new_line(old(self)@),
    {
        self.ensure_new_line()
    }

    /// Ends a sequence or a map: the line is ended and an empty line follows.
    pub fn end(&mut self)
        ensures
            final(self)@ == with_new_line(old(self)@).push('\n'),
    {
        self.ensure_new_line();
        self.buffer.push('\n');
    }

    /// Starts a field of a tuple, a struct or a variant: fields share a line, apart by spaces.
    pub fn serialize_field(&mut self)
        ensures
            final(self)@ == with_white_space(old(self)@),
    {
        self.ensure_white_space()
    }

    /// Starts a key of a map: each entry begins a line.
    pub fn serialize_key(&mut self)
        ensures
            final(self)@ == with_new_line(old(self)@),
    {
        self.ensure_new_line()
    }

    /// Starts the value of a map entry: after its key, apart by a space.
    pub fn serialize_value(&mut self)
        ensures
            final(self)@ == with_white_space(old(self)@),
    {
        self.ensure_white_space()
    }
}

} // verus!
