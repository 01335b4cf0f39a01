//! What is promised of texts: that numbers, bytes and identifiers read back, how texts are trimmed, ordered and
//! lowered, and how documents are written.
use vstd::prelude::*;
use vstd::string::*;

use crate::digest::{be8, hex_char, hex_number, hex_text, hyphenated, simple_text_of, uuid_text_of};
use crate::json::{escaped, escaped_char, json_quoted, rendered, rendered_items, rendered_members, JsonValue};
use crate::text::{
    blank, decimal, digit_char, digits, has_prefix, has_suffix, lowered, number_of, signed_decimal,
    signed_of, text_le, trim_end, trim_start, trimmed, white_space,
};

verus! {

// ── Numbers ───────────────────────────────────────────────────────────────────

proof fn lemma_digit(d: nat)
    requires
        d < 10,
    ensures
        digit_char(d) as int == '0' as int + d,
        '0' <= digit_char(d) && digit_char(d) <= '9',
{
}

/// The digits of a number read back.
pub proof fn lemma_decimal_reads_back(n: nat)
    ensures
        digits(decimal(n)),
        number_of(decimal(n)) == n,
    decreases n,
{
    if n < 10 {
        lemma_digit(n);
        let text = decimal(n);
        assert(text.drop_last() =~= Seq::<char>::empty());
        assert(number_of(text.drop_last()) == 0);
    } else {
        lemma_decimal_reads_back(n / 10);
        lemma_digit(n % 10);
        let text = decimal(n);
        assert(text.drop_last() =~= decimal(n / 10));
        assert forall|i: int| 0 <= i < text.len() implies crate::text::is_digit(#[trigger] text[i]) by {
            if i < text.len() - 1 {
                assert(text[i] == decimal(n / 10)[i]);
            }
        }
    }
}

/// A number that is written down reads back.
pub proof fn law_numbers_read_back(n: int)
    ensures
        signed_of(signed_decimal(n)) == Some(n),
{
    reveal_strlit("-");
    if n < 0 {
        lemma_decimal_reads_back((-n) as nat);
        assert(signed_decimal(n).skip(1) =~= decimal((-n) as nat));
        assert(signed_decimal(n)[0] == '-');
    } else {
        lemma_decimal_reads_back(n as nat);
        assert(crate::text::is_digit(decimal(n as nat)[0]));
    }
}

/// What a hexadecimal digit is worth.
pub open spec fn worth(c: char) -> int {
    if '0' <= c <= '9' {
        c as int - '0' as int
    } else {
        c as int - 'a' as int + 10
    }
}

proof fn lemma_hex_char(d: int)
    requires
        0 <= d < 16,
    ensures
        worth(hex_char(d)) == d,
        '0' <= hex_char(d) <= '9' || 'a' <= hex_char(d) <= 'f',
{
}

/// Every byte is written as two hexadecimal digits, the higher first, and reads back from them.
pub proof fn law_bytes_read_back(bytes: Seq<u8>, i: int)
    ensures
        hex_text(bytes).len() == 2 * bytes.len(),
        0 <= i < bytes.len() ==> bytes[i] == 16 * worth(hex_text(bytes)[2 * i]) + worth(
            hex_text(bytes)[2 * i + 1],
        ),
{
    if 0 <= i < bytes.len() {
        let b = bytes[i];
        lemma_hex_char(b as int / 16);
        lemma_hex_char(b as int % 16);
    }
}

/// Different bytes are written differently.
pub proof fn law_bytes_are_told_apart(a: Seq<u8>, b: Seq<u8>)
    requires
        hex_text(a) == hex_text(b),
    ensures
        a == b,
{
    law_bytes_read_back(a, 0);
    law_bytes_read_back(b, 0);
    assert forall|i: int| 0 <= i < a.len() implies a[i] == b[i] by {
        law_bytes_read_back(a, i);
        law_bytes_read_back(b, i);
    }
    assert(a =~= b);
}

/// Eight bytes hold a number, the highest byte first.
pub proof fn law_eight_bytes_hold_a_number(n: int)
    requires
        0 <= n < 0x1_0000_0000_0000_0000,
    ensures
        be8(n).len() == 8,
        n == be8(n)[0] * 0x100_0000_0000_0000 + be8(n)[1] * 0x1_0000_0000_0000 + be8(n)[2]
            * 0x100_0000_0000 + be8(n)[3] * 0x1_0000_0000 + be8(n)[4] * 0x100_0000 + be8(n)[5] * 0x1_0000
            + be8(n)[6] * 0x100 + be8(n)[7],
{
    let q1 = n / 0x100;
    let q2 = n / 0x1_0000;
    let q3 = n / 0x100_0000;
    let q4 = n / 0x1_0000_0000;
    let q5 = n / 0x100_0000_0000;
    let q6 = n / 0x1_0000_0000_0000;
    let q7 = n / 0x100_0000_0000_0000;
    lemma_quotient(n, 0x100);
    lemma_quotient(n, 0x1_0000);
    lemma_quotient(n, 0x100_0000);
    lemma_quotient(n, 0x1_0000_0000);
    lemma_quotient(n, 0x100_0000_0000);
    lemma_quotient(n, 0x1_0000_0000_0000);
    assert(n == 256 * q1 + n % 256);
    assert(q1 == 256 * q2 + q1 % 256);
    assert(q2 == 256 * q3 + q2 % 256);
    assert(q3 == 256 * q4 + q3 % 256);
    assert(q4 == 256 * q5 + q4 % 256);
    assert(q5 == 256 * q6 + q5 % 256);
    assert(q6 == 256 * q7 + q6 % 256);
    assert(0 <= q7 < 256);
    assert(be8(n)[0] == q7 && be8(n)[1] == q6 % 256 && be8(n)[2] == q5 % 256 && be8(n)[3] == q4 % 256);
    assert(be8(n)[4] == q3 % 256 && be8(n)[5] == q2 % 256 && be8(n)[6] == q1 % 256 && be8(n)[7] == n
        % 256);
}

proof fn lemma_quotient(n: int, d: int)
    requires
        0 <= n,
        0 < d,
    ensures
        n / (d * 256) == (n / d) / 256,
{
    vstd::arithmetic::div_mod::lemma_div_denominator(n, d, 256);
}

/// A number reads back from its hexadecimal digits.
pub open spec fn hex_value_of(s: Seq<char>) -> int
    decreases s.len(),
{
    if s.len() == 0 {
        0
    } else {
        16 * hex_value_of(s.drop_last()) + worth(s.last())
    }
}

/// A number in hexadecimal digits reads back.
pub proof fn law_hexadecimal_reads_back(n: nat)
    ensures
        hex_value_of(hex_number(n)) == n,
        hex_number(n).len() > 0,
    decreases n,
{
    if n < 16 {
        lemma_hex_char(n as int);
        assert(hex_number(n).drop_last() =~= Seq::<char>::empty());
        assert(hex_value_of(hex_number(n).drop_last()) == 0);
    } else {
        law_hexadecimal_reads_back(n / 16);
        lemma_hex_char((n % 16) as int);
        assert(hex_number(n).drop_last() =~= hex_number(n / 16));
    }
}

/// An identifier is its digits in five groups, with hyphens between them.
pub proof fn law_identifiers_are_hyphenated(uuid: u128)
    ensures
        simple_text_of(uuid).len() == 32,
        uuid_text_of(uuid).len() == 36,
        uuid_text_of(uuid)[8] == '-' && uuid_text_of(uuid)[13] == '-' && uuid_text_of(uuid)[18] == '-'
            && uuid_text_of(uuid)[23] == '-',
        simple_text_of(uuid) == uuid_text_of(uuid).subrange(0, 8) + uuid_text_of(uuid).subrange(9, 13)
            + uuid_text_of(uuid).subrange(14, 18) + uuid_text_of(uuid).subrange(19, 23) + uuid_text_of(
            uuid,
        ).subrange(24, 36),
{
    reveal_strlit("-");
    let digits = simple_text_of(uuid);
    let text = hyphenated(digits);
    assert(text[8] == '-' && text[13] == '-' && text[18] == '-' && text[23] == '-');
    assert(digits =~= text.subrange(0, 8) + text.subrange(9, 13) + text.subrange(14, 18) + text.subrange(
        19,
        23,
    ) + text.subrange(24, 36));
}

/// Different numbers make different identifiers.
pub proof fn law_identifiers_are_told_apart(a: u128, b: u128)
    requires
        uuid_text_of(a) == uuid_text_of(b),
    ensures
        a == b,
{
    law_identifiers_are_hyphenated(a);
    law_identifiers_are_hyphenated(b);
    let (ah, al) = ((a / 0x1_0000_0000_0000_0000) as int, (a % 0x1_0000_0000_0000_0000) as int);
    let (bh, bl) = ((b / 0x1_0000_0000_0000_0000) as int, (b % 0x1_0000_0000_0000_0000) as int);
    law_bytes_are_told_apart(be8(ah) + be8(al), be8(bh) + be8(bl));
    law_eight_bytes_hold_a_number(ah);
    law_eight_bytes_hold_a_number(al);
    law_eight_bytes_hold_a_number(bh);
    law_eight_bytes_hold_a_number(bl);
    let x = be8(ah) + be8(al);
    let y = be8(bh) + be8(bl);
    assert(x.subrange(0, 8) =~= be8(ah) && y.subrange(0, 8) =~= be8(bh));
    assert(x.subrange(8, 16) =~= be8(al) && y.subrange(8, 16) =~= be8(bl));
}

// ── Texts ─────────────────────────────────────────────────────────────────────

/// Trimming takes the white space around a text, and nothing within it.
pub proof fn law_trimming_takes_what_is_around(before: Seq<char>, middle: Seq<char>, after: Seq<char>)
    requires
        blank(before),
        blank(after),
        middle.len() > 0,
        !white_space(middle[0]),
        !white_space(middle.last()),
    ensures
        trimmed(before + middle + after) == middle,
{
    lemma_trim_start(before, middle + after);
    assert(before + middle + after =~= before + (middle + after));
    lemma_trim_end(middle, after);
}

proof fn lemma_trim_start(before: Seq<char>, rest: Seq<char>)
    requires
        blank(before),
        rest.len() > 0,
        !white_space(rest[0]),
    ensures
        trim_start(before + rest) == rest,
    decreases before.len(),
{
    if before.len() == 0 {
        assert(before + rest =~= rest);
    } else {
        assert(white_space(before[0]));
        let less = before.drop_first();
        assert forall|i: int| 0 <= i < less.len() implies white_space(#[trigger] less[i]) by {
            assert(less[i] == before[i + 1]);
        }
        lemma_trim_start(less, rest);
        assert((before + rest).drop_first() =~= less + rest);
    }
}

proof fn lemma_trim_end(rest: Seq<char>, after: Seq<char>)
    requires
        blank(after),
        rest.len() > 0,
        !white_space(rest.last()),
    ensures
        trim_end(rest + after) == rest,
    decreases after.len(),
{
    if after.len() == 0 {
        assert(rest + after =~= rest);
    } else {
        assert(white_space(after[after.len() - 1]));
        let less = after.drop_last();
        assert forall|i: int| 0 <= i < less.len() implies white_space(#[trigger] less[i]) by {
            assert(less[i] == after[i]);
        }
        lemma_trim_end(rest, less);
        assert((rest + after).drop_last() =~= rest + less);
    }
}

/// Lowering turns the capital letters of ASCII into small ones, and leaves everything else.
pub proof fn law_lowering_turns_capitals(s: Seq<char>, i: int)
    requires
        0 <= i < s.len(),
    ensures
        lowered(s).len() == s.len(),
        'A' <= s[i] <= 'Z' ==> lowered(s)[i] as int == s[i] as int + 32,
        !('A' <= s[i] <= 'Z') ==> lowered(s)[i] == s[i],
{
}

/// Texts compare by the first character that differs, and one that another begins with comes before it.
pub proof fn law_texts_compare_by_what_differs(a: Seq<char>, b: Seq<char>, i: int)
    requires
        0 <= i <= a.len(),
        i <= b.len(),
        forall|j: int| 0 <= j < i ==> (#[trigger] a[j]) == b[j],
    ensures
        i < a.len() && i < b.len() && a[i] != b[i] ==> (text_le(a, b) <==> (a[i] as int) < b[i] as int),
        i == a.len() ==> text_le(a, b),
        i == b.len() && i < a.len() ==> !text_le(a, b),
    decreases i,
{
    if i > 0 {
        assert(a[0] == b[0]);
        let c = a.drop_first();
        let d = b.drop_first();
        assert forall|j: int| 0 <= j < i - 1 implies (#[trigger] c[j]) == d[j] by {
            assert(c[j] == a[j + 1] && d[j] == b[j + 1]);
        }
        law_texts_compare_by_what_differs(c, d, i - 1);
        assert(i < a.len() ==> c[i - 1] == a[i]);
        assert(i < b.len() ==> d[i - 1] == b[i]);
    }
}

/// A text begins and ends with what it is put together from.
pub proof fn law_texts_begin_and_end(a: Seq<char>, b: Seq<char>)
    ensures
        has_prefix(a + b, a),
        has_suffix(a + b, b),
        has_prefix(a, b) ==> a == b + a.skip(b.len() as int),
        has_suffix(a, b) ==> a == a.take(a.len() - b.len()) + b,
{
    assert((a + b).take(a.len() as int) =~= a);
    assert((a + b).skip((a + b).len() - b.len()) =~= b);
    if has_prefix(a, b) {
        assert(a =~= a.take(b.len() as int) + a.skip(b.len() as int));
    }
    if has_suffix(a, b) {
        assert(a =~= a.take(a.len() - b.len()) + a.skip(a.len() - b.len()));
    }
}

// ── Documents ─────────────────────────────────────────────────────────────────

/// Null, truth values and numbers are written by name and as they are.
pub proof fn law_plain_values_are_written(text: Seq<char>, whole: Option<i64>)
    ensures
        rendered(JsonValue::Null) == "null"@,
        rendered(JsonValue::Bool(true)) == "true"@,
        rendered(JsonValue::Bool(false)) == "false"@,
        rendered(JsonValue::Number(text, whole)) == text,
{
}

/// A text is written between quotation marks, character by character: what is neither a quotation mark, nor a
/// backslash, nor a control character stands for itself, and no control character is left.
pub proof fn law_texts_are_written_in_quotes(s: Seq<char>, c: char, i: int)
    ensures
        rendered(JsonValue::Text(s)) == seq!['"'] + escaped(s) + seq!['"'],
        escaped(s.push(c)) == escaped(s) + escaped_char(c),
        escaped(Seq::<char>::empty()) == Seq::<char>::empty(),
        c != '"' && c != '\\' && c as int >= 32 ==> escaped_char(c) == seq![c],
        c == '"' || c == '\\' ==> escaped_char(c) == seq!['\\', c],
        (c as int) < 32 ==> escaped_char(c).len() >= 2 && escaped_char(c)[0] == '\\',
        0 <= i < escaped(s).len() ==> escaped(s)[i] as int >= 32,
    decreases s.len(),
{
    assert(s.push(c).drop_last() =~= s);
    if 0 <= i < escaped(s).len() {
        let rest = s.drop_last();
        let before = escaped(rest);
        if i < before.len() {
            law_texts_are_written_in_quotes(rest, c, i);
        } else {
            let last = s.last();
            if (last as int) < 32 {
                lemma_no_char_is_negative(last);
                lemma_hex_char(last as int / 16);
                lemma_hex_char(last as int % 16);
            }
        }
    }
}

proof fn lemma_no_char_is_negative(c: char)
    ensures
        0 <= c as int,
{
}

/// Control characters are told apart by how they are written.
pub proof fn law_control_characters_are_told_apart(a: char, b: char)
    requires
        (a as int) < 32,
        (b as int) < 32,
        escaped_char(a) == escaped_char(b),
    ensures
        a == b,
{
    lemma_no_char_is_negative(a);
    lemma_no_char_is_negative(b);
    lemma_hex_char(a as int / 16);
    lemma_hex_char(a as int % 16);
    lemma_hex_char(b as int / 16);
    lemma_hex_char(b as int % 16);
    let x = escaped_char(a);
    let y = escaped_char(b);
    assert(x[1] == y[1]);
    if x.len() == 6 {
        assert(x[4] == y[4] && x[5] == y[5]);
    }
}

proof fn lemma_items_prefix(items: Seq<JsonValue>, last: JsonValue, n: nat)
    requires
        n <= items.len(),
    ensures
        rendered_items(items.push(last), n) == rendered_items(items, n),
    decreases n,
{
    if n == 1 {
        assert(items.push(last)[0] == items[0]);
    } else if n > 1 {
        lemma_items_prefix(items, last, (n - 1) as nat);
        assert(items.push(last)[n - 1] == items[n - 1]);
    }
}

/// The items of a list are written one after another between brackets, with commas between them.
pub proof fn law_lists_are_written_in_order(items: Seq<JsonValue>, last: JsonValue)
    ensures
        rendered(JsonValue::Array(Seq::empty())) == "["@ + "]"@,
        rendered(JsonValue::Array(seq![last])) == "["@ + rendered(last) + "]"@,
        items.len() > 0 ==> rendered(JsonValue::Array(items.push(last))) == "["@ + (rendered_items(
            items,
            items.len(),
        ) + ","@ + rendered(last)) + "]"@,
        rendered(JsonValue::Array(items)) == "["@ + rendered_items(items, items.len()) + "]"@,
{
    let none = Seq::<JsonValue>::empty();
    assert("["@ + rendered_items(none, none.len()) + "]"@ =~= "["@ + "]"@);
    let one = seq![last];
    assert(one[0] == last);
    lemma_items_prefix(items, last, items.len());
    let all = items.push(last);
    assert(all[all.len() - 1] == last);
}

proof fn lemma_members_prefix(members: Seq<(Seq<char>, JsonValue)>, last: (Seq<char>, JsonValue), n: nat)
    requires
        n <= members.len(),
    ensures
        rendered_members(members.push(last), n) == rendered_members(members, n),
    decreases n,
{
    if n > 0 {
        assert(members.push(last)[n - 1] == members[n - 1]);
        if n > 1 {
            lemma_members_prefix(members, last, (n - 1) as nat);
        }
    }
}

/// The members of an object are written one after another between braces, each as its key and its value, with
/// commas between them.
pub proof fn law_objects_are_written_in_order(
    members: Seq<(Seq<char>, JsonValue)>,
    key: Seq<char>,
    value: JsonValue,
)
    ensures
        rendered(JsonValue::Object(Seq::empty())) == "{"@ + "}"@,
        rendered(JsonValue::Object(seq![(key, value)])) == "{"@ + (json_quoted(key) + ":"@ + rendered(value))
            + "}"@,
        members.len() > 0 ==> rendered(JsonValue::Object(members.push((key, value)))) == "{"@ + (
        rendered_members(members, members.len()) + ","@ + (json_quoted(key) + ":"@ + rendered(value)))
            + "}"@,
        rendered(JsonValue::Object(members)) == "{"@ + rendered_members(members, members.len()) + "}"@,
{
    let none = Seq::<(Seq<char>, JsonValue)>::empty();
    assert("{"@ + rendered_members(none, none.len()) + "}"@ =~= "{"@ + "}"@);
    let one = seq![(key, value)];
    assert(one[0] == (key, value));
    lemma_members_prefix(members, (key, value), members.len());
    let all = members.push((key, value));
    assert(all[all.len() - 1] == (key, value));
}

} // verus!
