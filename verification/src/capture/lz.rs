//! LZ-string's Base64 transport, decoded under a byte budget.
use vstd::arithmetic::power2::*;
use vstd::prelude::*;
use vstd::utf8::*;

use crate::capture::decompress::DecodeError;
use crate::text::{byte_len, chars_of};

verus! {

/// `std::char::from_u32` gives the character of a code point, and nothing for a number that is no
/// Unicode scalar value.
pub assume_specification[ std::char::from_u32 ](i: u32) -> (r: Option<char>)
    ensures
        r == (if is_scalar(i) {
            Some(i as char)
        } else {
            None
        }),
;

/// Under this budget every code stays within 32 bits, whatever the payload.
pub const MAX_BUDGET: usize = 0x7fff_fffc;

/// In a payload of this length every code stays within 32 bits, whatever the budget.
pub const MAX_PAYLOAD: usize = 0x7fff_ffff;

/// Whether every code stays within 32 bits: wider ones have no number.
pub open spec fn codes_fit(payload: Seq<char>, maximum_bytes: nat) -> bool {
    maximum_bytes <= MAX_BUDGET || payload.len() <= MAX_PAYLOAD
}

/// The number of a character in the transport alphabet, or -1 for any other character.
pub open spec fn key_index(c: char) -> int {
    let u = c as int;
    if 'A' as int <= u <= 'Z' as int {
        u - 'A' as int
    } else if 'a' as int <= u <= 'z' as int {
        u - 'a' as int + 26
    } else if '0' as int <= u <= '9' as int {
        u - '0' as int + 52
    } else if c == '+' {
        62
    } else if c == '/' {
        63
    } else if c == '=' {
        64
    } else {
        -1
    }
}

/// Whether every character is in the transport alphabet.
pub open spec fn keyed(input: Seq<char>) -> bool {
    forall|i: int| 0 <= i < input.len() ==> key_index(#[trigger] input[i]) >= 0
}

/// The place value of the k-th of a symbol's six bits.
pub open spec fn place(k: int) -> int {
    if k == 0 {
        32
    } else if k == 1 {
        16
    } else if k == 2 {
        8
    } else if k == 3 {
        4
    } else if k == 4 {
        2
    } else {
        1
    }
}

/// The i-th bit of the transported stream.
pub open spec fn bit_at(input: Seq<char>, i: int) -> int {
    (key_index(input[i / 6]) / place(i % 6)) % 2
}

/// Whether `count` bits can be read from `pos`: the very last bit of the last symbol never can.
pub open spec fn readable(input: Seq<char>, pos: int, count: int) -> bool {
    pos + count <= 6 * input.len() - 1
}

/// The number that `count` bits from `pos` form, least significant bit first.
pub open spec fn bits_value(input: Seq<char>, pos: int, count: nat) -> int
    decreases count,
{
    if count == 0 {
        0
    } else {
        bits_value(input, pos, (count - 1) as nat) + bit_at(input, pos + count - 1) * pow2(
            (count - 1) as nat,
        )
    }
}

/// UTF-16 code units turned into text, with a high surrogate that waits for its low half.
pub struct Utf16State {
    pub text: Seq<char>,
    pub high: Option<u16>,
}

/// The character that a pair of surrogates stands for.
pub open spec fn pair_scalar(high: u16, low: u16) -> u32 {
    (0x1_0000 + (high - 0xd800) * 1024 + (low - 0xdc00)) as u32
}

/// The text with one more character, if it stays within the budget.
pub open spec fn push_char(text: Seq<char>, c: char, max: nat) -> Result<Utf16State, DecodeError> {
    if encode_utf8(text).len() + encode_scalar(c as u32).len() > max {
        Err(DecodeError::TooLarge)
    } else {
        Ok(Utf16State { text: text.push(c), high: None })
    }
}

/// One more code unit.
pub open spec fn push_unit(o: Utf16State, unit: u16, max: nat) -> Result<Utf16State, DecodeError> {
    match o.high {
        Some(high) => if 0xdc00 <= unit <= 0xdfff {
            push_char(o.text, pair_scalar(high, unit) as char, max)
        } else {
            Err(DecodeError::Undecodable)
        },
        None => if 0xd800 <= unit <= 0xdbff {
            Ok(Utf16State { text: o.text, high: Some(unit) })
        } else if 0xdc00 <= unit <= 0xdfff {
            Err(DecodeError::Undecodable)
        } else {
            push_char(o.text, (unit as u32) as char, max)
        },
    }
}

/// Code units one after the other, up to the first that fails.
pub open spec fn push_units(o: Utf16State, units: Seq<u16>, max: nat) -> Result<
    Utf16State,
    DecodeError,
>
    decreases units.len(),
{
    if units.len() == 0 {
        Ok(o)
    } else {
        match push_units(o, units.drop_last(), max) {
            Err(e) => Err(e),
            Ok(before) => push_unit(before, units.last(), max),
        }
    }
}

/// The text, unless half a surrogate pair is left.
pub open spec fn finished(o: Utf16State) -> Result<Seq<char>, DecodeError> {
    match o.high {
        Some(_) => Err(DecodeError::Undecodable),
        None => Ok(o.text),
    }
}

/// The decoder between two codes.
pub struct LzState {
    pub pos: int,
    pub dictionary: Seq<Seq<u16>>,
    pub previous: Seq<u16>,
    pub width: nat,
    pub enlarge: nat,
    pub out: Utf16State,
}

/// What one code leads to.
pub enum LzStep {
    Done(Result<Seq<char>, DecodeError>),
    Next(LzState),
}

/// The code width and the entries left at it, after one more dictionary entry.
pub open spec fn spend(width: nat, enlarge: nat) -> (nat, nat) {
    if enlarge <= 1 {
        (width + 1, pow2(width))
    } else {
        (width, (enlarge - 1) as nat)
    }
}

/// The entry that a code names: a known one, or the one that is about to be added.
pub open spec fn entry_of(dictionary: Seq<Seq<u16>>, previous: Seq<u16>, code: int) -> Option<
    Seq<u16>,
> {
    if 0 <= code < dictionary.len() {
        Some(dictionary[code])
    } else if code == dictionary.len() {
        Some(previous.push(previous[0]))
    } else {
        None
    }
}

/// Emits the entry of a code and adds the previous entry, extended by its first unit.
pub open spec fn lz_emit(st: LzState, code: int, max: nat) -> LzStep {
    match entry_of(st.dictionary, st.previous, code) {
        None => LzStep::Done(Err(DecodeError::Undecodable)),
        Some(entry) => match push_units(st.out, entry, max) {
            Err(e) => LzStep::Done(Err(e)),
            Ok(out) => LzStep::Next(
                LzState {
                    pos: st.pos,
                    dictionary: st.dictionary.push(st.previous.push(entry[0])),
                    previous: entry,
                    width: spend(st.width, st.enlarge).0,
                    enlarge: spend(st.width, st.enlarge).1,
                    out,
                },
            ),
        },
    }
}

/// Reads one code and acts on it.
pub open spec fn lz_step(input: Seq<char>, st: LzState, max: nat) -> LzStep {
    if !readable(input, st.pos, st.width as int) {
        LzStep::Done(Err(DecodeError::Undecodable))
    } else {
        let code = bits_value(input, st.pos, st.width);
        let pos = st.pos + st.width;
        if code == 2 {
            LzStep::Done(finished(st.out))
        } else if code < 2 {
            let literal = (8 * code + 8) as nat;
            if !readable(input, pos, literal as int) {
                LzStep::Done(Err(DecodeError::Undecodable))
            } else {
                lz_emit(
                    LzState {
                        pos: pos + literal,
                        dictionary: st.dictionary.push(
                            seq![bits_value(input, pos, literal) as u16],
                        ),
                        previous: st.previous,
                        width: spend(st.width, st.enlarge).0,
                        enlarge: spend(st.width, st.enlarge).1,
                        out: st.out,
                    },
                    st.dictionary.len() as int,
                    max,
                )
            }
        } else {
            lz_emit(
                LzState {
                    pos,
                    dictionary: st.dictionary,
                    previous: st.previous,
                    width: st.width,
                    enlarge: st.enlarge,
                    out: st.out,
                },
                code,
                max,
            )
        }
    }
}

/// Codes one after the other, up to the end mark or the first failure.
pub open spec fn lz_run(input: Seq<char>, st: LzState, max: nat) -> Result<Seq<char>, DecodeError>
    decreases 6 * input.len() - st.pos,
    when st.width >= 1
{
    match lz_step(input, st, max) {
        LzStep::Done(r) => r,
        LzStep::Next(next) => lz_run(input, next, max),
    }
}

/// The decoder behind its first literal.
pub open spec fn lz_start(pos: int, first: u16, out: Utf16State) -> LzState {
    LzState {
        pos,
        dictionary: seq![seq![0u16], seq![1u16], seq![2u16], seq![first]],
        previous: seq![first],
        width: 3,
        enlarge: 4,
        out,
    }
}

/// The text that a transported payload stands for.
pub open spec fn lz_decoded(input: Seq<char>, max: nat) -> Result<Seq<char>, DecodeError> {
    if !keyed(input) || !readable(input, 0, 2) {
        Err(DecodeError::Undecodable)
    } else {
        let code = bits_value(input, 0, 2);
        if code == 2 {
            Ok(Seq::empty())
        } else if code > 2 || !readable(input, 2, 8 * code + 8) {
            Err(DecodeError::Undecodable)
        } else {
            let first = bits_value(input, 2, (8 * code + 8) as nat) as u16;
            match push_units(Utf16State { text: Seq::empty(), high: None }, seq![first], max) {
                Err(e) => Err(e),
                Ok(out) => lz_run(input, lz_start(10 + 8 * code, first, out), max),
            }
        }
    }
}

/// Appending a character appends its encoding.
pub proof fn lemma_encode_push(s: Seq<char>, c: char)
    ensures
        encode_utf8(s.push(c)) == encode_utf8(s) + encode_scalar(c as u32),
    decreases s.len(),
{
    if s.len() == 0 {
        assert(s.push(c).drop_first() =~= Seq::<char>::empty());
        assert(encode_utf8(Seq::<char>::empty()) =~= Seq::<u8>::empty());
        assert(encode_utf8(s) =~= Seq::<u8>::empty());
        assert(encode_utf8(s.push(c)) =~= encode_utf8(s) + encode_scalar(c as u32));
    } else {
        assert(s.push(c).drop_first() =~= s.drop_first().push(c));
        lemma_encode_push(s.drop_first(), c);
        assert(encode_utf8(s.push(c)) =~= encode_utf8(s) + encode_scalar(c as u32));
    }
}

/// The length of a character in UTF-8.
fn char_width(c: char) -> (r: usize)
    ensures
        r == encode_scalar(c as u32).len(),
        1 <= r <= 4,
{
    let u: u32 = c as u32;
    if u <= 0x7f {
        1
    } else if u <= 0x7ff {
        2
    } else if u <= 0xffff {
        3
    } else {
        4
    }
}

/// Bytes written, and one for half a pair that waits: it grows with every unit.
pub open spec fn weight(o: Utf16State) -> int {
    encode_utf8(o.text).len() + if o.high is Some {
        1int
    } else {
        0int
    }
}

/// What the state of the text always satisfies.
pub open spec fn utf16_ok(o: Utf16State, max: nat) -> bool {
    &&& encode_utf8(o.text).len() <= max
    &&& o.high matches Some(h) ==> 0xd800 <= h <= 0xdbff
}

proof fn lemma_push_units_grows(o: Utf16State, units: Seq<u16>, max: nat)
    requires
        utf16_ok(o, max),
    ensures
        push_units(o, units, max) matches Ok(n) ==> utf16_ok(n, max) && weight(n) >= weight(o)
            + units.len(),
    decreases units.len(),
{
    if units.len() > 0 {
        lemma_push_units_grows(o, units.drop_last(), max);
        if let Ok(before) = push_units(o, units.drop_last(), max) {
            let unit = units.last();
            let c = match before.high {
                Some(high) => pair_scalar(high, unit) as char,
                None => (unit as u32) as char,
            };
            lemma_encode_push(before.text, c);
        }
    }
}

proof fn lemma_push_units_append(o: Utf16State, units: Seq<u16>, k: int, max: nat)
    requires
        0 <= k < units.len(),
    ensures
        push_units(o, units.take(k + 1), max) == (match push_units(o, units.take(k), max) {
            Err(e) => Err(e),
            Ok(before) => push_unit(before, units[k], max),
        }),
        push_units(o, units.take(k + 1), max) is Err ==> push_units(o, units, max) == push_units(
            o,
            units.take(k + 1),
            max,
        ),
    decreases units.len() - k,
{
    assert(units.take(k + 1).drop_last() =~= units.take(k));
    if k + 1 < units.len() {
        lemma_push_units_append(o, units, k + 1, max);
    } else {
        assert(units.take(k + 1) =~= units);
    }
}

/// Decoded text under its budget.
struct Utf16Output {
    text: String,
    high: Option<u16>,
    maximum_bytes: usize,
}

impl Utf16Output {
    spec fn state(&self) -> Utf16State {
        Utf16State { text: self.text@, high: self.high }
    }

    fn push(&mut self, unit: u16) -> (r: Result<(), DecodeError>)
        requires
            utf16_ok(old(self).state(), old(self).maximum_bytes as nat),
        ensures
            final(self).maximum_bytes == old(self).maximum_bytes,
            match push_unit(old(self).state(), unit, old(self).maximum_bytes as nat) {
                Ok(o) => r is Ok && final(self).state() == o,
                Err(e) => r == Err::<(), _>(e),
            },
    {
        let scalar: u32 = match self.high {
            Some(high) => {
                if unit < 0xdc00 || unit > 0xdfff {
                    return Err(DecodeError::Undecodable);
                }
                0x1_0000 + (high as u32 - 0xd800) * 1024 + (unit as u32 - 0xdc00)
            },
            None => {
                if 0xd800 <= unit && unit <= 0xdbff {
                    self.high = Some(unit);
                    return Ok(());
                }
                if 0xdc00 <= unit && unit <= 0xdfff {
                    return Err(DecodeError::Undecodable);
                }
                unit as u32
            },
        };
        match std::char::from_u32(scalar) {
            None => Err(DecodeError::Undecodable),
            Some(character) => {
                let width: usize = char_width(character);
                if width > self.maximum_bytes - byte_len(self.text.as_str()) {
                    return Err(DecodeError::TooLarge);
                }
                self.text.push(character);
                self.high = None;
                Ok(())
            },
        }
    }

    fn append(&mut self, units: &Vec<u16>) -> (r: Result<(), DecodeError>)
        requires
            utf16_ok(old(self).state(), old(self).maximum_bytes as nat),
        ensures
            final(self).maximum_bytes == old(self).maximum_bytes,
            match push_units(old(self).state(), units@, old(self).maximum_bytes as nat) {
                Ok(o) => r is Ok && final(self).state() == o,
                Err(e) => r == Err::<(), _>(e),
            },
    {
        let ghost start = self.state();
        let ghost max = self.maximum_bytes as nat;
        let mut i: usize = 0;
        assert(units@.take(0) =~= Seq::<u16>::empty());
        while i < units.len()
            invariant
                i <= units.len(),
                self.maximum_bytes == max,
                start == old(self).state(),
                self.maximum_bytes == old(self).maximum_bytes,
                utf16_ok(start, max),
                push_units(start, units@.take(i as int), max) == Ok::<_, DecodeError>(self.state()),
            decreases units.len() - i,
        {
            proof {
                lemma_push_units_grows(start, units@.take(i as int), max);
                lemma_push_units_append(start, units@, i as int, max);
            }
            match self.push(units[i]) {
                Ok(()) => {},
                Err(e) => {
                    return Err(e);
                },
            }
            i += 1;
        }
        assert(units@.take(units.len() as int) =~= units@);
        Ok(())
    }
}

/// The number of a character in the transport alphabet.
fn symbol_of(c: char) -> (r: Option<u8>)
    ensures
        match r {
            Some(k) => k == key_index(c) && k <= 64,
            None => key_index(c) < 0,
        },
{
    let u: u32 = crate::text::code_point(c);
    if 65 <= u && u <= 90 {
        Some((u - 65) as u8)
    } else if 97 <= u && u <= 122 {
        Some((u - 97 + 26) as u8)
    } else if 48 <= u && u <= 57 {
        Some((u - 48 + 52) as u8)
    } else if c == '+' {
        Some(62)
    } else if c == '/' {
        Some(63)
    } else if c == '=' {
        Some(64)
    } else {
        None
    }
}

/// The bits of the transported symbols, most significant first within a symbol.
struct Bits {
    symbols: Vec<u8>,
    symbol: usize,
    offset: u8,
}

impl Bits {
    spec fn reads(&self, input: Seq<char>) -> bool {
        &&& self.symbols.len() == input.len()
        &&& forall|i: int|
            0 <= i < input.len() ==> #[trigger] self.symbols@[i] == key_index(input[i])
        &&& self.offset < 6
        &&& self.symbol <= self.symbols.len()
    }

    spec fn pos(&self) -> int {
        6 * self.symbol + self.offset
    }

    fn read_bit(&mut self, Ghost(input): Ghost<Seq<char>>) -> (r: Option<u8>)
        requires
            old(self).reads(input),
        ensures
            match r {
                Some(b) => {
                    &&& readable(input, old(self).pos(), 1)
                    &&& b == bit_at(input, old(self).pos())
                    &&& b <= 1
                    &&& final(self).reads(input)
                    &&& final(self).pos() == old(self).pos() + 1
                },
                None => !readable(input, old(self).pos(), 1),
            },
    {
        if self.symbol >= self.symbols.len() {
            return None;
        }
        let value: u8 = self.symbols[self.symbol];
        let divisor: u8 = match self.offset {
            0 => 32,
            1 => 16,
            2 => 8,
            3 => 4,
            4 => 2,
            _ => 1,
        };
        let bit: u8 = (value / divisor) % 2;
        proof {
            let p = self.pos();
            assert(p / 6 == self.symbol && p % 6 == self.offset);
            assert(key_index(input[p / 6]) == value);
        }
        if self.offset == 5 {
            if self.symbol + 1 >= self.symbols.len() {
                return None;
            }
            self.offset = 0;
            self.symbol = self.symbol + 1;
        } else {
            self.offset = self.offset + 1;
        }
        Some(bit)
    }

    fn read_bits(&mut self, count: u8, Ghost(input): Ghost<Seq<char>>) -> (r: Option<u32>)
        requires
            old(self).reads(input),
            1 <= count <= 32,
        ensures
            match r {
                Some(v) => {
                    &&& readable(input, old(self).pos(), count as int)
                    &&& v == bits_value(input, old(self).pos(), count as nat)
                    &&& v < pow2(count as nat)
                    &&& final(self).reads(input)
                    &&& final(self).pos() == old(self).pos() + count
                },
                None => !readable(input, old(self).pos(), count as int),
            },
    {
        let ghost from = self.pos();
        let mut result: u64 = 0;
        let mut weight: u64 = 1;
        let mut k: u8 = 0;
        proof {
            lemma2_to64();
        }
        while k < count
            invariant
                k <= count <= 32,
                self.reads(input),
                from == old(self).pos(),
                self.pos() == from + k,
                result == bits_value(input, from, k as nat),
                weight == pow2(k as nat),
                result < weight,
                weight <= 0x1_0000_0000,
                k > 0 ==> readable(input, from, k as int),
            decreases count - k,
        {
            proof {
                lemma_pow2_unfold((k + 1) as nat);
                lemma2_to64();
                if k < 31 {
                    lemma_pow2_strictly_increases((k + 1) as nat, 32);
                }
            }
            match self.read_bit(Ghost(input)) {
                None => {
                    return None;
                },
                Some(bit) => {
                    let ghost w = weight as int;
                    if bit == 1 {
                        result = result + weight;
                    }
                    assert(bit * w == (if bit == 1 {
                        w
                    } else {
                        0
                    })) by (nonlinear_arith)
                        requires
                            bit == 0 || bit == 1,
                    ;
                    weight = weight * 2;
                    k += 1;
                },
            }
        }
        Some(result as u32)
    }
}

/// What the dictionary and the code width always satisfy.
spec fn widths_ok(dictionary: nat, width: nat, enlarge: nat) -> bool {
    &&& width >= 1
    &&& dictionary + enlarge == pow2(width)
    &&& 1 <= enlarge <= pow2((width - 1) as nat)
}

proof fn lemma_spend(dictionary: nat, width: nat, enlarge: nat)
    requires
        widths_ok(dictionary, width, enlarge),
    ensures
        widths_ok(dictionary + 1, spend(width, enlarge).0, spend(width, enlarge).1),
{
    lemma_pow2_unfold(width);
    lemma_pow2_unfold(width + 1);
    lemma_pow2_pos((width - 1) as nat);
}

proof fn lemma_width_bound(dictionary: nat, width: nat, enlarge: nat)
    requires
        widths_ok(dictionary, width, enlarge),
        dictionary <= 0xffff_ffff,
    ensures
        width <= 32,
{
    lemma_pow2_unfold(width);
    lemma2_to64();
    if width >= 33 {
        if width > 33 {
            lemma_pow2_strictly_increases(32, (width - 1) as nat);
        }
        assert(dictionary >= pow2((width - 1) as nat));
    }
}

/// Counts one more dictionary entry towards the next code width.
fn spend_one(width: &mut u8, enlarge: &mut u64, full: &mut u64, Ghost(dictionary): Ghost<nat>)
    requires
        widths_ok(dictionary, *old(width) as nat, *old(enlarge) as nat),
        dictionary <= 0xffff_ffff,
        *old(full) == pow2(*old(width) as nat),
    ensures
        *final(width) == spend(*old(width) as nat, *old(enlarge) as nat).0,
        *final(enlarge) == spend(*old(width) as nat, *old(enlarge) as nat).1,
        *final(full) == pow2(*final(width) as nat),
        widths_ok(dictionary + 1, *final(width) as nat, *final(enlarge) as nat),
{
    proof {
        lemma_width_bound(dictionary, *width as nat, *enlarge as nat);
        lemma_spend(dictionary, *width as nat, *enlarge as nat);
        lemma_pow2_unfold((*width + 1) as nat);
        lemma2_to64();
        if *width < 32 {
            lemma_pow2_strictly_increases(*width as nat, 32);
        }
    }
    if *enlarge <= 1 {
        *enlarge = *full;
        *full = *full * 2;
        *width = *width + 1;
    } else {
        *enlarge = *enlarge - 1;
    }
}

/// The view of a dictionary.
spec fn entries(dictionary: Seq<Vec<u16>>) -> Seq<Seq<u16>> {
    dictionary.map_values(|e: Vec<u16>| e@)
}

fn unit_entry(unit: u16) -> (r: Vec<u16>)
    ensures
        r@ == seq![unit],
{
    let mut out: Vec<u16> = Vec::new();
    out.push(unit);
    assert(out@ =~= seq![unit]);
    out
}

fn copy_units(units: &Vec<u16>) -> (r: Vec<u16>)
    ensures
        r@ == units@,
{
    let mut out: Vec<u16> = Vec::new();
    let mut i: usize = 0;
    while i < units.len()
        invariant
            i <= units.len(),
            out@ == units@.take(i as int),
        decreases units.len() - i,
    {
        out.push(units[i]);
        i += 1;
        assert(units@.take(i as int) =~= units@.take(i - 1).push(units@[i - 1]));
    }
    assert(units@.take(units.len() as int) =~= units@);
    out
}

/// Decodes LZ-string's Base64 transport without ever holding more text than the budget.
pub fn decompress_lz64_bounded(payload: &str, maximum_bytes: usize) -> (r: Result<
    String,
    DecodeError,
>)
    requires
        codes_fit(payload@, maximum_bytes as nat),
    ensures
        match lz_decoded(payload@, maximum_bytes as nat) {
            Ok(text) => r matches Ok(s) && s@ == text && encode_utf8(s@).len() <= maximum_bytes,
            Err(e) => r == Err::<String, _>(e),
        },
{
    let chars = chars_of(payload);
    let ghost input = payload@;
    let ghost max = maximum_bytes as nat;
    let mut symbols: Vec<u8> = Vec::new();
    let mut i: usize = 0;
    while i < chars.len()
        invariant
            i <= chars.len(),
            chars@ == input,
            input == payload@,
            symbols.len() == i,
            forall|j: int| 0 <= j < i ==> #[trigger] symbols@[j] == key_index(input[j]),
            forall|j: int| 0 <= j < i ==> key_index(#[trigger] input[j]) >= 0,
        decreases chars.len() - i,
    {
        match symbol_of(chars[i]) {
            None => {
                assert(!keyed(input)) by {
                    assert(key_index(input[i as int]) < 0);
                }
                return Err(DecodeError::Undecodable);
            },
            Some(k) => {
                symbols.push(k);
            },
        }
        i += 1;
    }
    let mut bits = Bits { symbols, symbol: 0, offset: 0 };
    proof {
        lemma2_to64();
    }
    let initial: u32 = match bits.read_bits(2, Ghost(input)) {
        None => {
            return Err(DecodeError::Undecodable);
        },
        Some(code) => code,
    };
    if initial == 2 {
        assert(encode_utf8(Seq::<char>::empty()).len() == 0);
        return Ok(String::new());
    }
    if initial > 2 {
        return Err(DecodeError::Undecodable);
    }
    let first: u16 = match bits.read_bits((8 * initial + 8) as u8, Ghost(input)) {
        None => {
            return Err(DecodeError::Undecodable);
        },
        Some(unit) => unit as u16,
    };
    let mut dictionary: Vec<Vec<u16>> = Vec::new();
    dictionary.push(unit_entry(0));
    dictionary.push(unit_entry(1));
    dictionary.push(unit_entry(2));
    dictionary.push(unit_entry(first));
    let mut previous: Vec<u16> = unit_entry(first);
    let mut output = Utf16Output { text: String::new(), high: None, maximum_bytes };
    let ghost blank = output.state();
    assert(encode_utf8(Seq::<char>::empty()).len() == 0);
    proof {
        lemma_push_units_grows(blank, previous@, max);
    }
    assert(blank =~= Utf16State { text: Seq::empty(), high: None });
    match output.append(&previous) {
        Ok(()) => {},
        Err(e) => {
            return Err(e);
        },
    }
    let mut width: u8 = 3;
    let mut enlarge: u64 = 4;
    let mut full: u64 = 8;
    let ghost mut st = lz_start(bits.pos(), first, output.state());
    proof {
        assert(entries(dictionary@) =~= st.dictionary);
    }
    loop
        invariant
            max == maximum_bytes,
            codes_fit(input, max),
            input == payload@,
            bits.reads(input),
            output.maximum_bytes == maximum_bytes,
            utf16_ok(output.state(), max),
            st == (LzState {
                pos: bits.pos(),
                dictionary: entries(dictionary@),
                previous: previous@,
                width: width as nat,
                enlarge: enlarge as nat,
                out: output.state(),
            }),
            full == pow2(width as nat),
            widths_ok(dictionary@.len(), width as nat, enlarge as nat),
            dictionary@.len() <= 2 * weight(output.state()) + 4,
            3 * dictionary@.len() <= bits.pos() + 2,
            bits.pos() < 6 * input.len(),
            width >= 3,
            forall|i: int| 0 <= i < dictionary@.len() ==> (#[trigger] dictionary@[i])@.len() > 0,
            previous@.len() > 0,
            lz_decoded(input, max) == lz_run(input, st, max),
        decreases 6 * input.len() - bits.pos(),
    {
        let ghost known = dictionary@.len();
        let ghost before = output.state();
        assert(known + 1 <= 0xffff_ffff);
        proof {
            lemma_width_bound(known, width as nat, enlarge as nat);
            lemma2_to64();
        }
        let mut code: u32 = match bits.read_bits(width, Ghost(input)) {
            None => {
                return Err(DecodeError::Undecodable);
            },
            Some(code) => code,
        };
        if code == 2 {
            return match output.high {
                Some(_) => Err(DecodeError::Undecodable),
                None => Ok(output.text),
            };
        }
        if code < 2 {
            let unit: u16 = match bits.read_bits((8 * code + 8) as u8, Ghost(input)) {
                None => {
                    return Err(DecodeError::Undecodable);
                },
                Some(unit) => unit as u16,
            };
            let ghost shown = entries(dictionary@);
            code = dictionary.len() as u32;
            dictionary.push(unit_entry(unit));
            assert(entries(dictionary@) =~= shown.push(seq![unit]));
            spend_one(&mut width, &mut enlarge, &mut full, Ghost(known));
        }
        assert(3 * (dictionary@.len() + 1) <= bits.pos() + 2);
        let ghost here = LzState {
            pos: bits.pos(),
            dictionary: entries(dictionary@),
            previous: previous@,
            width: width as nat,
            enlarge: enlarge as nat,
            out: output.state(),
        };
        assert(lz_step(input, st, max) == lz_emit(here, code as int, max));
        let index: usize = code as usize;
        let entry: Vec<u16> = if index < dictionary.len() {
            assert(entries(dictionary@)[index as int] == dictionary@[index as int]@);
            copy_units(&dictionary[index])
        } else if index == dictionary.len() {
            let mut next = copy_units(&previous);
            next.push(previous[0]);
            next
        } else {
            return Err(DecodeError::Undecodable);
        };
        proof {
            lemma_push_units_grows(before, entry@, max);
        }
        match output.append(&entry) {
            Ok(()) => {},
            Err(e) => {
                return Err(e);
            },
        }
        let ghost shown = entries(dictionary@);
        let ghost count = dictionary@.len();
        let mut next = previous;
        next.push(entry[0]);
        let ghost grown = next@;
        dictionary.push(next);
        assert(entries(dictionary@) =~= shown.push(grown));
        assert(dictionary@.len() <= 2 * weight(output.state()) + 4);
        spend_one(&mut width, &mut enlarge, &mut full, Ghost(count));
        previous = entry;
        proof {
            st = LzState {
                pos: bits.pos(),
                dictionary: entries(dictionary@),
                previous: previous@,
                width: width as nat,
                enlarge: enlarge as nat,
                out: output.state(),
            };
        }
    }
}

// ── Laws ──────────────────────────────────────────────────────────────────────

/// The length of a text in UTF-8.
pub open spec fn text_bytes(text: Seq<char>) -> nat {
    encode_utf8(text).len()
}

/// What another budget makes of a result that one budget allowed.
pub open spec fn under_budget<T>(value: T, bytes: nat, max: nat) -> Result<T, DecodeError> {
    if bytes <= max {
        Ok(value)
    } else {
        Err(DecodeError::TooLarge)
    }
}

proof fn lemma_units_under_budget(o: Utf16State, units: Seq<u16>, max: nat, other: nat)
    requires
        text_bytes(o.text) <= other,
    ensures
        push_units(o, units, max) matches Ok(n) ==> text_bytes(o.text) <= text_bytes(n.text)
            && push_units(o, units, other) == under_budget(n, text_bytes(n.text), other) && (
        text_bytes(o.text) <= max ==> text_bytes(n.text) <= max),
    decreases units.len(),
{
    if units.len() > 0 {
        lemma_units_under_budget(o, units.drop_last(), max, other);
        if let Ok(before) = push_units(o, units.drop_last(), max) {
            let unit = units.last();
            let c = match before.high {
                Some(high) => pair_scalar(high, unit) as char,
                None => (unit as u32) as char,
            };
            lemma_encode_push(before.text, c);
        }
    }
}

proof fn lemma_run_under_budget(input: Seq<char>, st: LzState, max: nat, other: nat)
    requires
        st.width >= 1,
        text_bytes(st.out.text) <= other,
        text_bytes(st.out.text) <= max,
    ensures
        lz_run(input, st, max) matches Ok(text) ==> text_bytes(st.out.text) <= text_bytes(text)
            && text_bytes(text) <= max && lz_run(input, st, other) == under_budget(
            text,
            text_bytes(text),
            other,
        ),
    decreases 6 * input.len() - st.pos,
{
    if readable(input, st.pos, st.width as int) {
        let code = bits_value(input, st.pos, st.width);
        let pos = st.pos + st.width;
        if code != 2 {
            let literal = (8 * code + 8) as nat;
            let (dictionary, chosen) = if code < 2 {
                (
                    st.dictionary.push(seq![bits_value(input, pos, literal) as u16]),
                    st.dictionary.len() as int,
                )
            } else {
                (st.dictionary, code)
            };
            if let Some(entry) = entry_of(dictionary, st.previous, chosen) {
                lemma_units_under_budget(st.out, entry, max, other);
            }
            if let LzStep::Next(next) = lz_step(input, st, max) {
                lemma_bits_nonnegative(input, st.pos, st.width);
                if text_bytes(next.out.text) <= other {
                    lemma_run_under_budget(input, next, max, other);
                    assert(lz_step(input, st, other) == LzStep::Next(next));
                } else {
                    lemma_run_grows(input, next, max);
                }
            }
        }
    }
}

proof fn lemma_run_grows(input: Seq<char>, st: LzState, max: nat)
    requires
        st.width >= 1,
        text_bytes(st.out.text) <= max,
    ensures
        lz_run(input, st, max) matches Ok(text) ==> text_bytes(st.out.text) <= text_bytes(text)
            && text_bytes(text) <= max,
    decreases 6 * input.len() - st.pos,
{
    if readable(input, st.pos, st.width as int) {
        let code = bits_value(input, st.pos, st.width);
        let pos = st.pos + st.width;
        if code != 2 {
            let literal = (8 * code + 8) as nat;
            let (dictionary, chosen) = if code < 2 {
                (
                    st.dictionary.push(seq![bits_value(input, pos, literal) as u16]),
                    st.dictionary.len() as int,
                )
            } else {
                (st.dictionary, code)
            };
            if let Some(entry) = entry_of(dictionary, st.previous, chosen) {
                lemma_units_under_budget(st.out, entry, max, max);
            }
            if let LzStep::Next(next) = lz_step(input, st, max) {
                lemma_bits_nonnegative(input, st.pos, st.width);
                lemma_run_grows(input, next, max);
            }
        }
    }
}

proof fn lemma_bits_nonnegative(input: Seq<char>, pos: int, count: nat)
    ensures
        bits_value(input, pos, count) >= 0,
    decreases count,
{
    if count > 0 {
        lemma_bits_nonnegative(input, pos, (count - 1) as nat);
        let bit = bit_at(input, pos + count - 1);
        let value = pow2((count - 1) as nat);
        assert(bit * value >= 0) by (nonlinear_arith)
            requires
                bit >= 0,
                value >= 0,
        ;
    }
}

/// The budget decides nothing but whether a text is too large: what one budget decodes has at most its bytes,
/// every budget with room for it decodes the same, and every smaller one refuses it as too large.
pub proof fn law_budgets_only_refuse(input: Seq<char>, max: nat, other: nat)
    ensures
        lz_decoded(input, max) matches Ok(text) ==> text_bytes(text) <= max && lz_decoded(
            input,
            other,
        ) == under_budget(text, text_bytes(text), other),
{
    assert(encode_utf8(Seq::<char>::empty()).len() == 0);
    if keyed(input) && readable(input, 0, 2) {
        let code = bits_value(input, 0, 2);
        if code < 2 && readable(input, 2, 8 * code + 8) {
            let first = bits_value(input, 2, (8 * code + 8) as nat) as u16;
            let blank = Utf16State { text: Seq::empty(), high: None };
            lemma_units_under_budget(blank, seq![first], max, other);
            if let Ok(out) = push_units(blank, seq![first], max) {
                let st = lz_start(10 + 8 * code, first, out);
                lemma_run_grows(input, st, max);
                if text_bytes(out.text) <= other {
                    lemma_run_under_budget(input, st, max, other);
                }
            }
        }
    }
}

} // verus!
