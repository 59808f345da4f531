//! Reading the line-and-space-delimited text format.

use crate::error::{chars_of, string_of, Error, Result};
use vstd::prelude::*;

verus! {

/// White space as `char::is_whitespace` has it: the Unicode property White_Space.
pub open spec fn is_white(c: char) -> bool {
    let u = c as u32;
    (9 <= u <= 13) || u == 32 || u == 0x85 || u == 0xA0 || u == 0x1680 || (0x2000 <= u <= 0x200A)
        || u == 0x2028 || u == 0x2029 || u == 0x202F || u == 0x205F || u == 0x3000
}

/// The text without its leading white space.
pub open spec fn trim_start(s: Seq<char>) -> Seq<char>
    decreases s.len(),
{
    if s.len() > 0 && is_white(s[0]) {
        trim_start(s.drop_first())
    } else {
        s
    }
}

/// The text without its trailing white space.
pub open spec fn trim_end(s: Seq<char>) -> Seq<char>
    decreases s.len(),
{
    if s.len() > 0 && is_white(s.last()) {
        trim_end(s.drop_last())
    } else {
        s
    }
}

/// The text without leading and trailing white space.
pub open spec fn trim(s: Seq<char>) -> Seq<char> {
    trim_end(trim_start(s))
}

/// The pieces of the text between single spaces; two spaces in a row give an empty piece.
pub open spec fn split_spaces(s: Seq<char>) -> Seq<Seq<char>>
    decreases s.len(),
{
    if s.len() == 0 {
        seq![Seq::empty()]
    } else if s.last() == ' ' {
        split_spaces(s.drop_last()).push(Seq::empty())
    } else {
        let r = split_spaces(s.drop_last());
        r.update(r.len() - 1, r.last().push(s.last()))
    }
}

/// Length of the first line, its line break included.
pub open spec fn line_end(s: Seq<char>) -> nat
    decreases s.len(),
{
    if s.len() == 0 {
        0
    } else if s[0] == '\n' {
        1
    } else {
        1 + line_end(s.drop_first())
    }
}

/// The tokens of the first line: trimmed, then split at spaces.
pub open spec fn line_tokens(s: Seq<char>) -> Seq<Seq<char>> {
    split_spaces(trim(s.take(line_end(s) as int)))
}

/// A decimal digit.
pub open spec fn is_digit(c: char) -> bool {
    '0' <= c <= '9'
}

/// The value of a decimal digit.
pub open spec fn digit_value(c: char) -> nat {
    (c as u32 - '0' as u32) as nat
}

/// The value of a string of decimal digits.
pub open spec fn digits_value(s: Seq<char>) -> nat
    decreases s.len(),
{
    if s.len() == 0 {
        0
    } else {
        digits_value(s.drop_last()) * 10 + digit_value(s.last())
    }
}

/// One or more decimal digits.
pub open spec fn all_digits(s: Seq<char>) -> bool {
    s.len() > 0 && forall|i: int| 0 <= i < s.len() ==> is_digit(#[trigger] s[i])
}

/// The value of an unsigned integer token: an optional '+', then decimal digits.
pub open spec fn unsigned_value(t: Seq<char>) -> Option<nat> {
    let digits = if t.len() > 0 && t[0] == '+' {
        t.drop_first()
    } else {
        t
    };
    if all_digits(digits) {
        Some(digits_value(digits))
    } else {
        None
    }
}

/// The value of a signed integer token: an optional '+' or '-', then decimal digits.
pub open spec fn signed_value(t: Seq<char>) -> Option<int> {
    if t.len() > 0 && t[0] == '-' {
        if all_digits(t.drop_first()) {
            Some(-digits_value(t.drop_first()))
        } else {
            None
        }
    } else {
        match unsigned_value(t) {
            Some(v) => Some(v as int),
            None => None,
        }
    }
}

/// The value of a hex digit, either case.
pub open spec fn hex_value(c: char) -> Option<nat> {
    if is_digit(c) {
        Some(digit_value(c))
    } else if 'A' <= c <= 'F' {
        Some((c as u32 - 'A' as u32 + 10) as nat)
    } else if 'a' <= c <= 'f' {
        Some((c as u32 - 'a' as u32 + 10) as nat)
    } else {
        None
    }
}

/// The bytes that a token of hex pairs stands for.
pub open spec fn hex_decoded(t: Seq<char>) -> Option<Seq<u8>>
    decreases t.len(),
{
    if t.len() < 2 {
        if t.len() == 0 {
            Some(Seq::empty())
        } else {
            None
        }
    } else {
        match (hex_decoded(t.drop_last().drop_last()), hex_value(t[t.len() - 2]), hex_value(t.last())) {
            (Some(b), Some(h), Some(l)) => Some(b.push((h * 16 + l) as u8)),
            _ => None,
        }
    }
}

/// The word `true`.
pub open spec fn true_word() -> Seq<char> {
    seq!['t', 'r', 'u', 'e']
}

/// The word `false`.
pub open spec fn false_word() -> Seq<char> {
    seq!['f', 'a', 'l', 's', 'e']
}

proof fn lemma_split_nonempty(s: Seq<char>)
    ensures
        split_spaces(s).len() >= 1,
    decreases s.len(),
{
    if s.len() > 0 {
        lemma_split_nonempty(s.drop_last());
    }
}

proof fn lemma_digits_monotone(s: Seq<char>, j: int)
    requires
        0 <= j <= s.len(),
    ensures
        digits_value(s.take(j)) <= digits_value(s),
    decreases s.len() - j,
{
    if j < s.len() {
        lemma_digits_monotone(s, j + 1);
        assert(s.take(j + 1).drop_last() =~= s.take(j));
        assert(digits_value(s.take(j + 1)) == digits_value(s.take(j)) * 10 + digit_value(
            s.take(j + 1).last(),
        ));
    } else {
        assert(s.take(j) =~= s);
    }
}

fn is_white_char(c: char) -> (r: bool)
    ensures
        r == is_white(c),
{
    let u = c as u32;
    (9 <= u && u <= 13) || u == 32 || u == 0x85 || u == 0xA0 || u == 0x1680 || (0x2000 <= u && u
        <= 0x200A) || u == 0x2028 || u == 0x2029 || u == 0x202F || u == 0x205F || u == 0x3000
}

/// The value of a run of decimal digits, if it has one or more digits, only digits, and fits.
fn parse_digits(t: &Vec<char>, from: usize) -> (r: Option<u128>)
    requires
        from <= t@.len(),
    ensures
        r == (if all_digits(t@.skip(from as int)) && digits_value(t@.skip(from as int)) <= u128::MAX {
            Some(digits_value(t@.skip(from as int)) as u128)
        } else {
            None
        }),
{
    let ghost d = t@.skip(from as int);
    if from == t.len() {
        return None;
    }
    let mut value: u128 = 0;
    let mut i: usize = from;
    while i < t.len()
        invariant
            from < t@.len(),
            d == t@.skip(from as int),
            from <= i <= t@.len(),
            forall|k: int| 0 <= k < i - from ==> is_digit(#[trigger] d[k]),
            value == digits_value(d.take(i - from)),
        decreases t@.len() - i,
    {
        let c = t[i];
        if !('0' <= c && c <= '9') {
            assert(!is_digit(d[i - from]));
            return None;
        }
        let digit = (c as u32 - '0' as u32) as u128;
        proof {
            assert(d.take(i - from + 1).drop_last() =~= d.take(i - from));
            assert(d.take(i - from + 1).last() == c);
        }
        match value.checked_mul(10) {
            Some(tens) => match tens.checked_add(digit) {
                Some(next) => {
                    value = next;
                },
                None => {
                    proof {
                        lemma_digits_monotone(d, i - from + 1);
                    }
                    return None;
                },
            },
            None => {
                proof {
                    lemma_digits_monotone(d, i - from + 1);
                }
                return None;
            },
        }
        i = i + 1;
    }
    proof {
        assert(d.take(i - from) =~= d);
    }
    Some(value)
}

proof fn lemma_hex_prefix_fails(t: Seq<char>, k: int)
    requires
        0 <= k <= t.len(),
        k % 2 == 0,
        t.len() % 2 == 0,
        hex_decoded(t.take(k)) is None,
    ensures
        hex_decoded(t) is None,
    decreases t.len() - k,
{
    if k < t.len() {
        assert(t.take(k + 2).drop_last().drop_last() =~= t.take(k));
        lemma_hex_prefix_fails(t, k + 2);
    } else {
        assert(t.take(k) =~= t);
    }
}

fn hex_char_value(c: char) -> (r: Option<u8>)
    ensures
        r == (match hex_value(c) {
            Some(v) => Some(v as u8),
            None => None,
        }),
        r matches Some(v) ==> v < 16,
{
    if '0' <= c && c <= '9' {
        Some((c as u32 - '0' as u32) as u8)
    } else if 'A' <= c && c <= 'F' {
        Some((c as u32 - 'A' as u32 + 10) as u8)
    } else if 'a' <= c && c <= 'f' {
        Some((c as u32 - 'a' as u32 + 10) as u8)
    } else {
        None
    }
}

/// Deserializer from the line-and-space-delimited text format: reads the input one line at a
/// time and hands out its tokens.
pub struct Deserializer {
    input: Vec<char>,
    position: usize,
    buffer: Vec<Vec<char>>,
}

/// The state after making sure that a line is loaded: a new line is read only when no token is
/// pending.
pub open spec fn loaded(rest: Seq<char>, pending: Seq<Seq<char>>) -> (Seq<char>, Seq<Seq<char>>) {
    if pending.len() > 0 || rest.len() == 0 {
        (rest, pending)
    } else {
        (rest.skip(line_end(rest) as int), line_tokens(rest))
    }
}

impl Deserializer {
    /// The input not read yet.
    pub closed spec fn rest(&self) -> Seq<char> {
        self.input@.skip(self.position as int)
    }

    /// The tokens of the current line not handed out yet.
    pub closed spec fn pending(&self) -> Seq<Seq<char>> {
        self.buffer@.map_values(|t: Vec<char>| t@)
    }

    /// The position lies within the input.
    pub closed spec fn wf(&self) -> bool {
        self.position <= self.input@.len()
    }

    /// The next token, if any.
    pub open spec fn next_token(&self) -> Option<Seq<char>> {
        let (r, p) = loaded(self.rest(), self.pending());
        if p.len() > 0 {
            Some(p[0])
        } else {
            None
        }
    }

    /// The unread input and pending tokens once the next token is taken.
    pub open spec fn after_next(&self) -> (Seq<char>, Seq<Seq<char>>) {
        let (r, p) = loaded(self.rest(), self.pending());
        if p.len() > 0 {
            (r, p.drop_first())
        } else {
            (r, p)
        }
    }

    /// The unread input and pending tokens once the next token is looked at.
    pub open spec fn after_peek(&self) -> (Seq<char>, Seq<Seq<char>>) {
        loaded(self.rest(), self.pending())
    }

    /// Creates a new deserializer over the text.
    pub fn new(source: &str) -> (r: Deserializer)
        ensures
            r.wf(),
            r.rest() == source@,
            r.pending().len() == 0,
    {
        let input = chars_of(source);
        let r = Deserializer { input, position: 0, buffer: Vec::new() };
        proof {
            assert(r.input@.skip(0) =~= r.input@);
            assert(r.pending() =~= Seq::<Seq<char>>::empty());
        }
        r
    }

    /// Reads the next line, trimmed and split at spaces, into the pending tokens.
    fn load_line(&mut self) -> (r: Result<()>)
        requires
            old(self).wf(),
            old(self).pending().len() == 0,
        ensures
            final(self).wf(),
            (final(self).rest(), final(self).pending()) == loaded(old(self).rest(), old(self).pending()),
            r is Ok <==> old(self).rest().len() > 0,
            r is Err ==> r == Err::<(), Error>(Error::EndOfInput),
    {
        let n = self.input.len();
        let start = self.position;
        if start == n {
            proof {
                assert(self.rest().len() == 0);
            }
            return Err(Error::EndOfInput);
        }
        let ghost rest = self.rest();
        let mut end = start;
        while end < n && self.input[end] != '\n'
            invariant
                start <= end <= n,
                n == self.input@.len(),
                start == self.position,
                rest == self.input@.skip(start as int),
                line_end(rest) == (end - start) + line_end(self.input@.skip(end as int)),
            decreases n - end,
        {
            proof {
                let here = self.input@.skip(end as int);
                assert(here.drop_first() =~= self.input@.skip(end + 1));
            }
            end = end + 1;
        }
        let ghost stop = end;
        if end < n {
            end = end + 1;
        }
        proof {
            if stop < n {
                assert(self.input@.skip(stop as int)[0] == '\n');
            } else {
                assert(self.input@.skip(stop as int).len() == 0);
            }
            assert(rest.take(line_end(rest) as int) =~= self.input@.subrange(start as int, end as int));
        }
        let ghost line = self.input@.subrange(start as int, end as int);
        let mut low = start;
        while low < end && is_white_char(self.input[low])
            invariant
                start <= low <= end,
                end <= self.input@.len(),
                line == self.input@.subrange(start as int, end as int),
                trim_start(line) == trim_start(self.input@.subrange(low as int, end as int)),
            decreases end - low,
        {
            proof {
                assert(self.input@.subrange(low as int, end as int).drop_first() =~= self.input@.subrange(low + 1, end as int));
            }
            low = low + 1;
        }
        let ghost trimmed_start = self.input@.subrange(low as int, end as int);
        proof {
            assert(trim_start(line) == trimmed_start);
        }
        let mut high = end;
        while high > low && is_white_char(self.input[high - 1])
            invariant
                low <= high <= end,
                end <= self.input@.len(),
                trim_end(trimmed_start) == trim_end(self.input@.subrange(low as int, high as int)),
                trimmed_start == self.input@.subrange(low as int, end as int),
            decreases high - low,
        {
            proof {
                assert(self.input@.subrange(low as int, high as int).drop_last() =~= self.input@.subrange(low as int, high - 1));
            }
            high = high - 1;
        }
        proof {
            assert(trim(line) == self.input@.subrange(low as int, high as int));
        }
        let mut tokens: Vec<Vec<char>> = Vec::new();
        let mut current: Vec<char> = Vec::new();
        let mut i = low;
        while i < high
            invariant
                low <= i <= high,
                high <= self.input@.len(),
                tokens@.map_values(|t: Vec<char>| t@).push(current@) == split_spaces(self.input@.subrange(low as int, i as int)),
            decreases high - i,
        {
            let c = self.input[i];
            let ghost before = tokens@.map_values(|t: Vec<char>| t@).push(current@);
            proof {
                assert(self.input@.subrange(low as int, i + 1).drop_last() =~= self.input@.subrange(low as int, i as int));
                assert(self.input@.subrange(low as int, i + 1).last() == c);
            }
            if c == ' ' {
                let mut done: Vec<char> = Vec::new();
                std::mem::swap(&mut done, &mut current);
                tokens.push(done);
                proof {
                    assert(tokens@.map_values(|t: Vec<char>| t@).push(current@) =~= before.push(Seq::empty()));
                }
            } else {
                current.push(c);
                proof {
                    assert(tokens@.map_values(|t: Vec<char>| t@).push(current@) =~= before.update(before.len() - 1, before.last().push(c)));
                }
            }
            i = i + 1;
        }
        proof {
            assert(split_spaces(self.input@.subrange(low as int, 0 + low)) == seq![Seq::<char>::empty()]) by {
                assert(self.input@.subrange(low as int, low as int).len() == 0);
            }
        }
        tokens.push(current);
        self.buffer = tokens;
        self.position = end;
        proof {
            assert(self.pending() =~= line_tokens(rest));
            assert(self.rest() =~= rest.skip(line_end(rest) as int));
        }
        Ok(())
    }

    /// Hands out the next token, reading a line first when none is pending.
    fn next(&mut self) -> (r: Result<Vec<char>>)
        requires
            old(self).wf(),
        ensures
            final(self).wf(),
            (final(self).rest(), final(self).pending()) == old(self).after_next(),
            match old(self).next_token() {
                Some(t) => r matches Ok(v) && v@ == t,
                None => r == Err::<Vec<char>, Error>(Error::EndOfInput),
            },
    {
        if self.buffer.len() == 0 {
            proof {
                assert(self.pending().len() == 0);
                lemma_split_nonempty(trim(self.rest().take(line_end(self.rest()) as int)));
            }
            match self.load_line() {
                Ok(()) => {},
                Err(e) => {
                    return Err(e);
                },
            }
        }
        if self.buffer.len() == 0 {
            return Err(Error::EmptyLine);
        }
        let ghost before = self.pending();
        let token = self.buffer.remove(0);
        proof {
            assert(self.pending() =~= before.drop_first());
        }
        Ok(token)
    }

    /// Makes sure that a token is pending, reading a line when none is; returns whether one is.
    fn fill(&mut self) -> (r: bool)
        requires
            old(self).wf(),
        ensures
            final(self).wf(),
            (final(self).rest(), final(self).pending()) == old(self).after_peek(),
            r == (old(self).next_token() is Some),
            r ==> final(self).pending().len() > 0,
    {
        if self.buffer.len() == 0 {
            proof {
                lemma_split_nonempty(trim(self.rest().take(line_end(self.rest()) as int)));
            }
            match self.load_line() {
                Ok(()) => {},
                Err(_) => {
                    return false;
                },
            }
        }
        self.buffer.len() > 0
    }

    /// Reads an unsigned integer token of at most `max`.
    fn read_unsigned(&mut self, max: u128) -> (r: Result<u128>)
        requires
            old(self).wf(),
        ensures
            final(self).wf(),
            (final(self).rest(), final(self).pending()) == old(self).after_next(),
            match old(self).next_token() {
                None => r == Err::<u128, Error>(Error::EndOfInput),
                Some(t) => match unsigned_value(t) {
                    Some(v) => if v <= max {
                        r == Ok::<u128, Error>(v as u128)
                    } else {
                        r matches Err(Error::Message(_))
                    },
                    None => r matches Err(Error::Message(_)),
                },
            },
    {
        let token = match self.next() {
            Ok(token) => token,
            Err(e) => {
                return Err(e);
            },
        };
        let from: usize = if token.len() > 0 && token[0] == '+' {
            1
        } else {
            0
        };
        proof {
            if from == 1 {
                assert(token@.skip(1) =~= token@.drop_first());
            } else {
                assert(token@.skip(0) =~= token@);
            }
        }
        match parse_digits(&token, from) {
            Some(v) => if v <= max {
                Ok(v)
            } else {
                Err(Error::Message(String::from_str("number too large to fit in target type")))
            },
            None => Err(Error::Message(String::from_str("invalid digit found in string"))),
        }
    }

    /// Reads a signed integer token between `min` and `max`.
    fn read_signed(&mut self, min: i128, max: i128) -> (r: Result<i128>)
        requires
            old(self).wf(),
            min < 0 < max,
        ensures
            final(self).wf(),
            (final(self).rest(), final(self).pending()) == old(self).after_next(),
            match old(self).next_token() {
                None => r == Err::<i128, Error>(Error::EndOfInput),
                Some(t) => match signed_value(t) {
                    Some(v) => if min <= v <= max {
                        r == Ok::<i128, Error>(v as i128)
                    } else {
                        r matches Err(Error::Message(_))
                    },
                    None => r matches Err(Error::Message(_)),
                },
            },
    {
        let token = match self.next() {
            Ok(token) => token,
            Err(e) => {
                return Err(e);
            },
        };
        let negative = token.len() > 0 && token[0] == '-';
        let from: usize = if token.len() > 0 && (token[0] == '+' || token[0] == '-') {
            1
        } else {
            0
        };
        proof {
            if from == 1 {
                assert(token@.skip(1) =~= token@.drop_first());
            } else {
                assert(token@.skip(0) =~= token@);
            }
        }
        match parse_digits(&token, from) {
            Some(magnitude) => {
                if negative {
                    let limit: u128 = ((-(min + 1)) as u128) + 1;
                    if magnitude <= limit {
                        let value: i128 = if magnitude == 0 {
                            0
                        } else {
                            -((magnitude - 1) as i128) - 1
                        };
                        Ok(value)
                    } else {
                        Err(Error::Message(String::from_str("number too small to fit in target type")))
                    }
                } else {
                    if magnitude <= max as u128 {
                        Ok(magnitude as i128)
                    } else {
                        Err(Error::Message(String::from_str("number too large to fit in target type")))
                    }
                }
            },
            None => Err(Error::Message(String::from_str("invalid digit found in string"))),
        }
    }

    /// Reads an unsigned integer token: an optional '+', then decimal digits, in range.
    pub fn deserialize_u8(&mut self) -> (r: Result<u8>)
        requires
            old(self).wf(),
        ensures
            final(self).wf(),
            (final(self).rest(), final(self).pending()) == old(self).after_next(),
            match old(self).next_token() {
                None => r == Err::<u8, Error>(Error::EndOfInput),
                Some(t) => match unsigned_value(t) {
                    Some(v) => if v <= u8::MAX {
                        r == Ok::<u8, Error>(v as u8)
                    } else {
                        r matches Err(Error::Message(_))
                    },
                    None => r matches Err(Error::Message(_)),
                },
            },
    {
        match self.read_unsigned(u8::MAX as u128) {
            Ok(v) => Ok(v as u8),
            Err(e) => Err(e),
        }
    }

    /// Reads an unsigned integer token: an optional '+', then decimal digits, in range.
    pub fn deserialize_u16(&mut self) -> (r: Result<u16>)
        requires
            old(self).wf(),
        ensures
            final(self).wf(),
            (final(self).rest(), final(self).pending()) == old(self).after_next(),
            match old(self).next_token() {
                None => r == Err::<u16, Error>(Error::EndOfInput),
                Some(t) => match unsigned_value(t) {
                    Some(v) => if v <= u16::MAX {
                        r == Ok::<u16, Error>(v as u16)
                    } else {
                        r matches Err(Error::Message(_))
                    },
                    None => r matches Err(Error::Message(_)),
                },
            },
    {
        match self.read_unsigned(u16::MAX as u128) {
            Ok(v) => Ok(v as u16),
            Err(e) => Err(e),
        }
    }

    /// Reads an unsigned integer token: an optional '+', then decimal digits, in range.
    pub fn deserialize_u32(&mut self) -> (r: Result<u32>)
        requires
            old(self).wf(),
        ensures
            final(self).wf(),
            (final(self).rest(), final(self).pending()) == old(self).after_next(),
            match old(self).next_token() {
                None => r == Err::<u32, Error>(Error::EndOfInput),
                Some(t) => match unsigned_value(t) {
                    Some(v) => if v <= u32::MAX {
                        r == Ok::<u32, Error>(v as u32)
                    } else {
                        r matches Err(Error::Message(_))
                    },
                    None => r matches Err(Error::Message(_)),
                },
            },
    {
        match self.read_unsigned(u32::MAX as u128) {
            Ok(v) => Ok(v as u32),
            Err(e) => Err(e),
        }
    }

    /// Reads an unsigned integer token: an optional '+', then decimal digits, in range.
    pub fn deserialize_u64(&mut self) -> (r: Result<u64>)
        requires
            old(self).wf(),
        ensures
            final(self).wf(),
            (final(self).rest(), final(self).pending()) == old(self).after_next(),
            match old(self).next_token() {
                None => r == Err::<u64, Error>(Error::EndOfInput),
                Some(t) => match unsigned_value(t) {
                    Some(v) => if v <= u64::MAX {
                        r == Ok::<u64, Error>(v as u64)
                    } else {
                        r matches Err(Error::Message(_))
                    },
                    None => r matches Err(Error::Message(_)),
                },
            },
    {
        match self.read_unsigned(u64::MAX as u128) {
            Ok(v) => Ok(v as u64),
            Err(e) => Err(e),
        }
    }

    /// Reads an unsigned integer token: an optional '+', then decimal digits, in range.
    pub fn deserialize_u128(&mut self) -> (r: Result<u128>)
        requires
            old(self).wf(),
        ensures
            final(self).wf(),
            (final(self).rest(), final(self).pending()) == old(self).after_next(),
            match old(self).next_token() {
                None => r == Err::<u128, Error>(Error::EndOfInput),
                Some(t) => match unsigned_value(t) {
                    Some(v) => if v <= u128::MAX {
                        r == Ok::<u128, Error>(v as u128)
                    } else {
                        r matches Err(Error::Message(_))
                    },
                    None => r matches Err(Error::Message(_)),
                },
            },
    {
        match self.read_unsigned(u128::MAX as u128) {
            Ok(v) => Ok(v as u128),
            Err(e) => Err(e),
        }
    }

    /// Reads an unsigned integer token: an optional '+', then decimal digits, in range.
    pub fn deserialize_usize(&mut self) -> (r: Result<usize>)
        requires
            old(self).wf(),
        ensures
            final(self).wf(),
            (final(self).rest(), final(self).pending()) == old(self).after_next(),
            match old(self).next_token() {
                None => r == Err::<usize, Error>(Error::EndOfInput),
                Some(t) => match unsigned_value(t) {
                    Some(v) => if v <= usize::MAX {
                        r == Ok::<usize, Error>(v as usize)
                    } else {
                        r matches Err(Error::Message(_))
                    },
                    None => r matches Err(Error::Message(_)),
                },
            },
    {
        match self.read_unsigned(usize::MAX as u128) {
            Ok(v) => Ok(v as usize),
            Err(e) => Err(e),
        }
    }

    /// Reads a signed integer token: an optional '+' or '-', then decimal digits, in range.
    pub fn deserialize_i8(&mut self) -> (r: Result<i8>)
        requires
            old(self).wf(),
        ensures
            final(self).wf(),
            (final(self).rest(), final(self).pending()) == old(self).after_next(),
            match old(self).next_token() {
                None => r == Err::<i8, Error>(Error::EndOfInput),
                Some(t) => match signed_value(t) {
                    Some(v) => if i8::MIN <= v <= i8::MAX {
                        r == Ok::<i8, Error>(v as i8)
                    } else {
                        r matches Err(Error::Message(_))
                    },
                    None => r matches Err(Error::Message(_)),
                },
            },
    {
        match self.read_signed(i8::MIN as i128, i8::MAX as i128) {
            Ok(v) => Ok(v as i8),
            Err(e) => Err(e),
        }
    }

    /// Reads a signed integer token: an optional '+' or '-', then decimal digits, in range.
    pub fn deserialize_i16(&mut self) -> (r: Result<i16>)
        requires
            old(self).wf(),
        ensures
            final(self).wf(),
            (final(self).rest(), final(self).pending()) == old(self).after_next(),
            match old(self).next_token() {
                None => r == Err::<i16, Error>(Error::EndOfInput),
                Some(t) => match signed_value(t) {
                    Some(v) => if i16::MIN <= v <= i16::MAX {
                        r == Ok::<i16, Error>(v as i16)
                    } else {
                        r matches Err(Error::Message(_))
                    },
                    None => r matches Err(Error::Message(_)),
                },
            },
    {
        match self.read_signed(i16::MIN as i128, i16::MAX as i128) {
            Ok(v) => Ok(v as i16),
            Err(e) => Err(e),
        }
    }

    /// Reads a signed integer token: an optional '+' or '-', then decimal digits, in range.
    pub fn deserialize_i32(&mut self) -> (r: Result<i32>)
        requires
            old(self).wf(),
        ensures
            final(self).wf(),
            (final(self).rest(), final(self).pending()) == old(self).after_next(),
            match old(self).next_token() {
                None => r == Err::<i32, Error>(Error::EndOfInput),
                Some(t) => match signed_value(t) {
                    Some(v) => if i32::MIN <= v <= i32::MAX {
                        r == Ok::<i32, Error>(v as i32)
                    } else {
                        r matches Err(Error::Message(_))
                    },
                    None => r matches Err(Error::Message(_)),
                },
            },
    {
        match self.read_signed(i32::MIN as i128, i32::MAX as i128) {
            Ok(v) => Ok(v as i32),
            Err(e) => Err(e),
        }
    }

    /// Reads a signed integer token: an optional '+' or '-', then decimal digits, in range.
    pub fn deserialize_i64(&mut self) -> (r: Result<i64>)
        requires
            old(self).wf(),
        ensures
            final(self).wf(),
            (final(self).rest(), final(self).pending()) == old(self).after_next(),
            match old(self).next_token() {
                None => r == Err::<i64, Error>(Error::EndOfInput),
                Some(t) => match signed_value(t) {
                    Some(v) => if i64::MIN <= v <= i64::MAX {
                        r == Ok::<i64, Error>(v as i64)
                    } else {
                        r matches Err(Error::Message(_))
                    },
                    None => r matches Err(Error::Message(_)),
                },
            },
    {
        match self.read_signed(i64::MIN as i128, i64::MAX as i128) {
            Ok(v) => Ok(v as i64),
            Err(e) => Err(e),
        }
    }

    /// Reads a signed integer token: an optional '+' or '-', then decimal digits, in range.
    pub fn deserialize_i128(&mut self) -> (r: Result<i128>)
        requires
            old(self).wf(),
        ensures
            final(self).wf(),
            (final(self).rest(), final(self).pending()) == old(self).after_next(),
            match old(self).next_token() {
                None => r == Err::<i128, Error>(Error::EndOfInput),
                Some(t) => match signed_value(t) {
                    Some(v) => if i128::MIN <= v <= i128::MAX {
                        r == Ok::<i128, Error>(v as i128)
                    } else {
                        r matches Err(Error::Message(_))
                    },
                    None => r matches Err(Error::Message(_)),
                },
            },
    {
        match self.read_signed(i128::MIN as i128, i128::MAX as i128) {
            Ok(v) => Ok(v as i128),
            Err(e) => Err(e),
        }
    }

    /// Reads `true` or `false`.
    pub fn deserialize_bool(&mut self) -> (r: Result<bool>)
        requires
            old(self).wf(),
        ensures
            final(self).wf(),
            (final(self).rest(), final(self).pending()) == old(self).after_next(),
            match old(self).next_token() {
                None => r == Err::<bool, Error>(Error::EndOfInput),
                Some(t) => if t == true_word() {
                    r == Ok::<bool, Error>(true)
                } else if t == false_word() {
                    r == Ok::<bool, Error>(false)
                } else {
                    r matches Err(Error::Message(_))
                },
            },
    {
        let t = match self.next() {
            Ok(t) => t,
            Err(e) => {
                return Err(e);
            },
        };
        if t.len() == 4 && t[0] == 't' && t[1] == 'r' && t[2] == 'u' && t[3] == 'e' {
            proof {
                assert(t@ =~= true_word());
            }
            Ok(true)
        } else if t.len() == 5 && t[0] == 'f' && t[1] == 'a' && t[2] == 'l' && t[3] == 's' && t[4] == 'e' {
            proof {
                assert(t@ =~= false_word());
            }
            Ok(false)
        } else {
            proof {
                if t@ == true_word() {
                    assert(t@[0] == 't' && t@[1] == 'r' && t@[2] == 'u' && t@[3] == 'e');
                }
                if t@ == false_word() {
                    assert(t@[0] == 'f' && t@[1] == 'a' && t@[2] == 'l' && t@[3] == 's' && t@[4] == 'e');
                }
            }
            Err(Error::Message(String::from_str("provided string was not `true` or `false`")))
        }
    }

    /// Reads a token of exactly one character.
    pub fn deserialize_char(&mut self) -> (r: Result<char>)
        requires
            old(self).wf(),
        ensures
            final(self).wf(),
            (final(self).rest(), final(self).pending()) == old(self).after_next(),
            match old(self).next_token() {
                None => r == Err::<char, Error>(Error::EndOfInput),
                Some(t) => if t.len() == 1 {
                    r == Ok::<char, Error>(t[0])
                } else {
                    r matches Err(Error::Message(_))
                },
            },
    {
        let t = match self.next() {
            Ok(t) => t,
            Err(e) => {
                return Err(e);
            },
        };
        if t.len() == 1 {
            Ok(t[0])
        } else if t.len() == 0 {
            Err(Error::Message(String::from_str("cannot parse char from empty string")))
        } else {
            Err(Error::Message(String::from_str("too many characters in string")))
        }
    }

    /// Reads a token as a string.
    pub fn deserialize_str(&mut self) -> (r: Result<String>)
        requires
            old(self).wf(),
        ensures
            final(self).wf(),
            (final(self).rest(), final(self).pending()) == old(self).after_next(),
            match old(self).next_token() {
                None => r == Err::<String, Error>(Error::EndOfInput),
                Some(t) => r matches Ok(v) && v@ == t,
            },
    {
        match self.next() {
            Ok(t) => Ok(string_of(t.as_slice())),
            Err(e) => Err(e),
        }
    }

    /// Reads a token as a string.
    pub fn deserialize_string(&mut self) -> (r: Result<String>)
        requires
            old(self).wf(),
        ensures
            final(self).wf(),
            (final(self).rest(), final(self).pending()) == old(self).after_next(),
            match old(self).next_token() {
                None => r == Err::<String, Error>(Error::EndOfInput),
                Some(t) => r matches Ok(v) && v@ == t,
            },
    {
        self.deserialize_str()
    }

    /// Reads a unit value: the token '-'.
    pub fn deserialize_unit(&mut self) -> (r: Result<()>)
        requires
            old(self).wf(),
        ensures
            final(self).wf(),
            (final(self).rest(), final(self).pending()) == old(self).after_next(),
            match old(self).next_token() {
                None => r == Err::<(), Error>(Error::EndOfInput),
                Some(t) => if t == seq!['-'] {
                    r == Ok::<(), Error>(())
                } else {
                    r == Err::<(), Error>(Error::ExpectedUnit)
                },
            },
    {
        let t = match self.next() {
            Ok(t) => t,
            Err(e) => {
                return Err(e);
            },
        };
        if t.len() == 1 && t[0] == '-' {
            proof {
                assert(t@ =~= seq!['-']);
            }
            Ok(())
        } else {
            proof {
                if t@ == seq!['-'] {
                    assert(t@[0] == '-');
                }
            }
            Err(Error::ExpectedUnit)
        }
    }

    /// Reads a unit struct: the token '-'.
    pub fn deserialize_unit_struct(&mut self) -> (r: Result<()>)
        requires
            old(self).wf(),
        ensures
            final(self).wf(),
            (final(self).rest(), final(self).pending()) == old(self).after_next(),
            match old(self).next_token() {
                None => r == Err::<(), Error>(Error::EndOfInput),
                Some(t) => if t == seq!['-'] {
                    r == Ok::<(), Error>(())
                } else {
                    r == Err::<(), Error>(Error::ExpectedUnit)
                },
            },
    {
        self.deserialize_unit()
    }

    /// Reads the start of an optional value: `Ok(true)`, with the token taken, where it is the
    /// absence marker '-'; `Ok(false)`, with the token left for the value, otherwise.
    pub fn deserialize_none(&mut self) -> (r: Result<bool>)
        requires
            old(self).wf(),
        ensures
            final(self).wf(),
            match old(self).next_token() {
                None => r == Err::<bool, Error>(Error::EndOfInput) && (final(self).rest(),
                    final(self).pending()) == old(self).after_peek(),
                Some(t) => if t == seq!['-'] {
                    r == Ok::<bool, Error>(true) && (final(self).rest(), final(self).pending())
                        == old(self).after_next()
                } else {
                    r == Ok::<bool, Error>(false) && (final(self).rest(), final(self).pending())
                        == old(self).after_peek()
                },
            },
    {
        if !self.fill() {
            return Err(Error::EndOfInput);
        }
        let ghost before = self.pending();
        if self.buffer[0].len() == 1 && self.buffer[0][0] == '-' {
            self.buffer.remove(0);
            proof {
                assert(before[0] =~= seq!['-']);
                assert(self.pending() =~= before.drop_first());
            }
            Ok(true)
        } else {
            proof {
                if before[0] == seq!['-'] {
                    assert(before[0][0] == '-');
                }
            }
            Ok(false)
        }
    }

    /// Reads the start of a sequence element or map entry: `Ok(false)`, with the token taken,
    /// where the next token is empty (an empty line ends the sequence); `Ok(true)`, with the
    /// token left, otherwise.
    pub fn next_element(&mut self) -> (r: Result<bool>)
        requires
            old(self).wf(),
        ensures
            final(self).wf(),
            match old(self).next_token() {
                None => r == Err::<bool, Error>(Error::EndOfInput) && (final(self).rest(),
                    final(self).pending()) == old(self).after_peek(),
                Some(t) => if t.len() == 0 {
                    r == Ok::<bool, Error>(false) && (final(self).rest(), final(self).pending())
                        == old(self).after_next()
                } else {
                    r == Ok::<bool, Error>(true) && (final(self).rest(), final(self).pending())
                        == old(self).after_peek()
                },
            },
    {
        if !self.fill() {
            return Err(Error::EndOfInput);
        }
        let ghost before = self.pending();
        if self.buffer[0].len() == 0 {
            self.buffer.remove(0);
            proof {
                assert(self.pending() =~= before.drop_first());
            }
            Ok(false)
        } else {
            Ok(true)
        }
    }

    /// Reading a value without knowing its type is not supported.
    pub fn deserialize_any(&mut self) -> (r: Result<()>)
        ensures
            r == Err::<(), Error>(Error::AnyNotSupported),
    {
        Err(Error::AnyNotSupported)
    }

    /// Reads bytes written as hex pairs.
    pub fn deserialize_bytes(&mut self) -> (r: Result<Vec<u8>>)
        requires
            old(self).wf(),
        ensures
            final(self).wf(),
            (final(self).rest(), final(self).pending()) == old(self).after_next(),
            match old(self).next_token() {
                None => r == Err::<Vec<u8>, Error>(Error::EndOfInput),
                Some(t) => if t.len() % 2 == 1 {
                    r == Err::<Vec<u8>, Error>(Error::InvalidHexLength)
                } else {
                    match hex_decoded(t) {
                        Some(b) => r matches Ok(v) && v@ == b,
                        None => r matches Err(Error::Message(_)),
                    }
                },
            },
    {
        let t = match self.next() {
            Ok(t) => t,
            Err(e) => {
                return Err(e);
            },
        };
        if t.len() % 2 == 1 {
            return Err(Error::InvalidHexLength);
        }
        let mut bytes: Vec<u8> = Vec::new();
        let mut i: usize = 0;
        proof {
            assert(t@.take(0) =~= Seq::<char>::empty());
        }
        let mut valid = true;
        while i < t.len() && valid
            invariant
                i <= t@.len(),
                i % 2 == 0,
                t@.len() % 2 == 0,
                valid ==> hex_decoded(t@.take(i as int)) == Some(bytes@),
                !valid ==> hex_decoded(t@) is None,
            decreases t@.len() - i + (if valid { 1int } else { 0int }),
        {
            let high = hex_char_value(t[i]);
            let low = hex_char_value(t[i + 1]);
            proof {
                let next = t@.take(i + 2);
                assert(next.drop_last().drop_last() =~= t@.take(i as int));
                assert(next[next.len() - 2] == t@[i as int]);
                assert(next.last() == t@[i + 1]);
            }
            match (high, low) {
                (Some(h), Some(l)) => {
                    bytes.push(h * 16 + l);
                    i = i + 2;
                },
                _ => {
                    proof {
                        lemma_hex_prefix_fails(t@, i + 2);
                    }
                    valid = false;
                },
            }
        }
        if !valid {
            return Err(Error::Message(String::from_str("invalid digit found in string")));
        }
        proof {
            assert(t@.take(i as int) =~= t@);
        }
        Ok(bytes)
    }

    /// Reads bytes written as hex pairs.
    pub fn deserialize_byte_buf(&mut self) -> (r: Result<Vec<u8>>)
        requires
            old(self).wf(),
        ensures
            final(self).wf(),
            (final(self).rest(), final(self).pending()) == old(self).after_next(),
            match old(self).next_token() {
                None => r == Err::<Vec<u8>, Error>(Error::EndOfInput),
                Some(t) => if t.len() % 2 == 1 {
                    r == Err::<Vec<u8>, Error>(Error::InvalidHexLength)
                } else {
                    match hex_decoded(t) {
                        Some(b) => r matches Ok(v) && v@ == b,
                        None => r matches Err(Error::Message(_)),
                    }
                },
            },
    {
        self.deserialize_bytes()
    }
}

} // verus!
