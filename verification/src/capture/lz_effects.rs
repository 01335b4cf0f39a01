//! What the compressed form of a body stands for.
use vstd::arithmetic::power2::{lemma_pow2_pos, lemma_pow2_strictly_increases, lemma_pow2_unfold, pow2};
use vstd::prelude::*;
use vstd::utf8::*;

use crate::capture::decompress::DecodeError;
use crate::capture::lz::{
    bit_at, bits_value, entry_of, key_index, keyed, lz_decoded, lz_emit, lz_run, lz_start, lz_step,
    push_unit, push_units, readable, spend, LzState, LzStep, Utf16State,
};

verus! {

// ── Bits ──────────────────────────────────────────────────────────────────────

/// The bits of a character are those of its place in the alphabet, the highest first.
pub proof fn law_symbols_are_six_bits(input: Seq<char>, i: int)
    requires
        0 <= i < input.len(),
        0 <= key_index(input[i]) < 64,
    ensures
        key_index(input[i]) == 32 * bit_at(input, 6 * i) + 16 * bit_at(input, 6 * i + 1) + 8 * bit_at(
            input,
            6 * i + 2,
        ) + 4 * bit_at(input, 6 * i + 3) + 2 * bit_at(input, 6 * i + 4) + bit_at(input, 6 * i + 5),
{
    let v = key_index(input[i]);
    assert((6 * i) / 6 == i && (6 * i) % 6 == 0);
    assert((6 * i + 1) / 6 == i && (6 * i + 1) % 6 == 1);
    assert((6 * i + 2) / 6 == i && (6 * i + 2) % 6 == 2);
    assert((6 * i + 3) / 6 == i && (6 * i + 3) % 6 == 3);
    assert((6 * i + 4) / 6 == i && (6 * i + 4) % 6 == 4);
    assert((6 * i + 5) / 6 == i && (6 * i + 5) % 6 == 5);
}

/// The alphabet: capitals, small letters, digits, the plus sign, the slash; each character its own place.
pub proof fn law_the_alphabet_is_in_order(a: char, b: char)
    ensures
        key_index('A') == 0,
        'A' <= a <= 'Z' ==> key_index(a) == a as int - 'A' as int,
        'a' <= a <= 'z' ==> key_index(a) == 26 + a as int - 'a' as int,
        '0' <= a <= '9' ==> key_index(a) == 52 + a as int - '0' as int,
        key_index('+') == 62,
        key_index('/') == 63,
        key_index(a) == key_index(b) && key_index(a) >= 0 ==> a == b,
{
}

/// A number is read from its lowest bit on.
pub proof fn law_numbers_are_read_from_the_lowest_bit(input: Seq<char>, at: int, a: nat, b: nat)
    ensures
        bits_value(input, at, a + b) == bits_value(input, at, a) + pow2(a) * bits_value(input, at + a, b),
        bits_value(input, at, 1) == bit_at(input, at),
        bits_value(input, at, 0) == 0,
    decreases b,
{
    reveal_with_fuel(bits_value, 2);
    vstd::arithmetic::power2::lemma2_to64();
    let lowest = bit_at(input, at);
    assert(lowest * pow2(0) == lowest) by (nonlinear_arith)
        requires
            pow2(0) == 1,
    ;
    assert(at + 1 - 1 == at);
    if b > 0 {
        let c = (b - 1) as nat;
        law_numbers_are_read_from_the_lowest_bit(input, at, a, c);
        vstd::arithmetic::power2::lemma_pow2_adds(a, c);
        let bit = bit_at(input, at + a + b - 1);
        assert(bits_value(input, at, a + b) == bits_value(input, at, a + c) + bit * pow2(a + c));
        assert(bits_value(input, at + a, b) == bits_value(input, at + a, c) + bit * pow2(c));
        let x = bits_value(input, at + a, c);
        let p = pow2(a) as int;
        let q = pow2(c) as int;
        assert(p * x + bit * (p * q) == p * (x + bit * q)) by (nonlinear_arith);
    } else {
        assert(pow2(a) * bits_value(input, at + a, 0) == 0) by (nonlinear_arith)
            requires
                bits_value(input, at + a, 0) == 0,
        ;
    }
}

// ── Units ─────────────────────────────────────────────────────────────────────

proof fn lemma_one_unit(o: Utf16State, unit: u16, max: nat)
    ensures
        push_units(o, seq![unit], max) == push_unit(o, unit, max),
{
    assert(seq![unit].drop_last() =~= Seq::<u16>::empty());
    assert(push_units(o, Seq::<u16>::empty(), max) == Ok::<Utf16State, DecodeError>(o));
}

proof fn lemma_plain_char(c: char)
    requires
        (c as int) < 128,
    ensures
        ((c as u16) as u32) as char == c,
        (c as int) as u16 == c as u16,
        encode_scalar(c as u32).len() == 1,
{
}

proof fn lemma_no_char_is_negative(c: char)
    ensures
        0 <= c as int,
{
}

proof fn lemma_plain_text(text: Seq<char>)
    requires
        forall|i: int| 0 <= i < text.len() ==> (#[trigger] text[i] as int) < 128,
    ensures
        encode_utf8(text).len() == text.len(),
{
    assert forall|i: int| 0 <= i < text.len() implies '\0' <= #[trigger] text[i] <= '\u{7f}' by {
        assert((text[i] as int) < 128);
        lemma_no_char_is_negative(text[i]);
    }
    is_ascii_chars_encode_utf8(text);
}

// ── Widths ────────────────────────────────────────────────────────────────────

spec fn wide_enough(entries: int, width: nat, enlarge: nat) -> bool {
    &&& width >= 1
    &&& entries + enlarge == pow2(width)
    &&& 1 <= enlarge <= pow2((width - 1) as nat)
}

proof fn lemma_spent(entries: int, width: nat, enlarge: nat)
    requires
        wide_enough(entries, width, enlarge),
    ensures
        wide_enough(entries + 1, spend(width, enlarge).0, spend(width, enlarge).1),
{
    lemma_pow2_unfold(width + 1);
    lemma_pow2_pos(width);
}

proof fn lemma_width(entries: int, width: nat, enlarge: nat, w: nat)
    requires
        wide_enough(entries, width, enlarge),
        w >= 1,
        pow2((w - 1) as nat) <= entries < pow2(w),
    ensures
        w == width,
{
    lemma_pow2_unfold(width);
    if w < width {
        if w < width - 1 {
            lemma_pow2_strictly_increases(w, (width - 1) as nat);
        }
    }
    if width < w {
        if width < w - 1 {
            lemma_pow2_strictly_increases(width, (w - 1) as nat);
        }
    }
}

// ── Texts ─────────────────────────────────────────────────────────────────────

/// How a text is written where each character is spelled out: the code for a short character, which is zero,
/// then the character; at the end the code two. A code is as wide as the number of entries that are known needs,
/// and each character makes two entries more.
pub open spec fn spelled(input: Seq<char>, text: Seq<char>, at: Seq<int>, width: Seq<nat>) -> bool {
    let n = text.len();
    &&& n >= 1 && at.len() == n + 1 && width.len() == n + 1
    &&& forall|i: int| 0 <= i < n ==> (#[trigger] text[i] as int) < 128
    &&& bits_value(input, 0, 2) == 0
    &&& bits_value(input, 2, 8) == text[0] as int
    &&& readable(input, 2, 8)
    &&& at[1] == 10
    &&& forall|i: int| 1 <= i < n ==> at[i + 1] == (#[trigger] at[i]) + width[i] + 8
    &&& forall|i: int|
        1 <= i <= n ==> (#[trigger] width[i]) >= 1 && pow2((width[i] - 1) as nat) <= 2 + 2 * i < pow2(
            width[i],
        )
    &&& forall|i: int|
        1 <= i < n ==> bits_value(input, (#[trigger] at[i]), width[i]) == 0 && bits_value(
            input,
            at[i] + width[i],
            8,
        ) == text[i] as int && readable(input, at[i] + width[i], 8)
    &&& bits_value(input, at[n as int], width[n as int]) == 2
    &&& readable(input, at[n as int], width[n as int] as int)
}

proof fn lemma_spelled_on(
    input: Seq<char>,
    text: Seq<char>,
    at: Seq<int>,
    width: Seq<nat>,
    max: nat,
    i: int,
    st: LzState,
)
    requires
        spelled(input, text, at, width),
        max >= text.len(),
        1 <= i <= text.len(),
        st.pos == at[i],
        st.dictionary.len() == 2 + 2 * i,
        wide_enough(2 + 2 * i, st.width, st.enlarge),
        st.out == (Utf16State { text: text.take(i), high: None }),
    ensures
        lz_run(input, st, max) == Ok::<Seq<char>, DecodeError>(text),
    decreases text.len() - i,
{
    let n = text.len() as int;
    assert(width[i] >= 1);
    lemma_width(2 + 2 * i, st.width, st.enlarge, width[i]);
    if i == n {
        assert(text.take(i) =~= text);
        assert(lz_step(input, st, max) == LzStep::Done(Ok(text)));
    } else {
        assert(at[i + 1] == at[i] + width[i] + 8);
        assert(bits_value(input, at[i], width[i]) == 0);
        let c = text[i];
        assert((c as int) < 128);
        let unit = bits_value(input, at[i] + width[i], 8) as u16;
        lemma_plain_char(c);
        let one = spend(st.width, st.enlarge);
        let two = spend(one.0, one.1);
        lemma_spent(2 + 2 * i, st.width, st.enlarge);
        lemma_spent(3 + 2 * i, one.0, one.1);
        let read = LzState {
            pos: st.pos + st.width + 8,
            dictionary: st.dictionary.push(seq![unit]),
            previous: st.previous,
            width: one.0,
            enlarge: one.1,
            out: st.out,
        };
        lemma_one_unit(st.out, unit, max);
        assert forall|j: int| 0 <= j < text.take(i).len() implies (#[trigger] text.take(i)[j] as int) < 128 by {
            assert((text[j] as int) < 128);
        }
        lemma_plain_text(text.take(i));
        assert(text.take(i).push(c) =~= text.take(i + 1));
        let next = LzState {
            pos: at[i + 1],
            dictionary: read.dictionary.push(st.previous.push(unit)),
            previous: seq![unit],
            width: two.0,
            enlarge: two.1,
            out: Utf16State { text: text.take(i + 1), high: None },
        };
        assert(seq![unit][0] == unit);
        assert(entry_of(read.dictionary, st.previous, st.dictionary.len() as int) == Some(seq![unit]));
        assert(lz_emit(read, st.dictionary.len() as int, max) == LzStep::Next(next));
        assert(lz_step(input, st, max) == LzStep::Next(next));
        lemma_spelled_on(input, text, at, width, max, i + 1, next);
    }
}

/// A text that is spelled out reads back.
pub proof fn law_spelled_texts_read_back(
    input: Seq<char>,
    text: Seq<char>,
    at: Seq<int>,
    width: Seq<nat>,
    max: nat,
)
    requires
        keyed(input),
        spelled(input, text, at, width),
        max >= text.len(),
    ensures
        lz_decoded(input, max) == Ok::<Seq<char>, DecodeError>(text),
{
    let c = text[0];
    assert((c as int) < 128);
    lemma_plain_char(c);
    let unit = bits_value(input, 2, 8) as u16;
    let start = Utf16State { text: Seq::empty(), high: None };
    lemma_one_unit(start, unit, max);
    lemma_plain_text(Seq::empty());
    assert(Seq::<char>::empty().push(c) =~= text.take(1));
    let st = lz_start(10, unit, Utf16State { text: text.take(1), high: None });
    vstd::arithmetic::power2::lemma2_to64();
    lemma_spelled_on(input, text, at, width, max, 1, st);
}

/// A reference repeats what is known under it, or, where it is to the entry that it makes itself, the previous
/// phrase and its first unit; it makes one entry: the previous phrase and the first unit of this one.
pub proof fn law_references_repeat(st: LzState, code: int, max: nat)
    requires
        st.previous.len() > 0,
        0 <= code,
        code < st.dictionary.len() ==> st.dictionary[code].len() > 0,
    ensures
        code > st.dictionary.len() ==> lz_emit(st, code, max) == LzStep::Done(Err(DecodeError::Undecodable)),
        code <= st.dictionary.len() ==> {
            let phrase = if code < st.dictionary.len() {
                st.dictionary[code]
            } else {
                st.previous.push(st.previous[0])
            };
            match lz_emit(st, code, max) {
                LzStep::Done(r) => r is Err && push_units(st.out, phrase, max) is Err,
                LzStep::Next(next) => {
                    &&& push_units(st.out, phrase, max) == Ok::<Utf16State, DecodeError>(next.out)
                    &&& next.previous == phrase
                    &&& next.pos == st.pos
                    &&& next.dictionary == st.dictionary.push(st.previous.push(phrase[0]))
                },
            }
        },
{
}

/// Two halves of a pair make one character, and a half alone makes none.
pub proof fn law_pairs_make_one_character(o: Utf16State, high: u16, low: u16, max: nat)
    requires
        o.high is None,
        0xd800 <= high <= 0xdbff,
        encode_utf8(o.text).len() + 4 <= max,
    ensures
        0xdc00 <= low <= 0xdfff ==> {
            let r = push_units(o, seq![high, low], max);
            &&& r is Ok
            &&& r->Ok_0.high is None
            &&& r->Ok_0.text.len() == o.text.len() + 1
            &&& r->Ok_0.text.drop_last() == o.text
            &&& r->Ok_0.text.last() as int == 0x10000 + 0x400 * (high - 0xd800) + (low - 0xdc00)
        },
        !(0xdc00 <= low <= 0xdfff) ==> push_units(o, seq![high, low], max) is Err,
        push_units(o, seq![low], max) is Err <== 0xdc00 <= low <= 0xdfff,
{
    let both = seq![high, low];
    assert(both.drop_last() =~= seq![high]);
    assert(both.last() == low);
    lemma_one_unit(o, high, max);
    lemma_one_unit(o, low, max);
    if 0xdc00 <= low <= 0xdfff {
        let r = push_units(o, both, max);
        assert(r->Ok_0.text.drop_last() =~= o.text);
    }
}

} // verus!
