//! The text in which a secret key is handed to the host application.
//!
//! A secret key is written as its bytes in decimal, separated by a comma and
//! a space, between square brackets. Reading is more lenient than writing:
//! any number of brackets at either end is dropped, the rest is split at
//! every comma, white space around a piece is dropped, and a piece may start
//! with a plus sign.

use vstd::prelude::*;
use vstd::slice::slice_subrange;
use vstd::string::StringExecFns;

verus! {

/// Tells whether `c` is a square bracket.
pub open spec fn is_bracket(c: char) -> bool {
    c == '[' || c == ']'
}

/// Tells whether `c` is white space: a character with the Unicode property
/// `White_Space`.
pub open spec fn is_space(c: char) -> bool {
    ||| '\u{9}' <= c <= '\u{d}'
    ||| c == ' '
    ||| c == '\u{85}'
    ||| c == '\u{a0}'
    ||| c == '\u{1680}'
    ||| '\u{2000}' <= c <= '\u{200a}'
    ||| c == '\u{2028}'
    ||| c == '\u{2029}'
    ||| c == '\u{202f}'
    ||| c == '\u{205f}'
    ||| c == '\u{3000}'
}

/// Tells whether `c` is dropped from the ends of a text: white space if
/// `spaces` is set, a bracket otherwise.
pub open spec fn trimmable(c: char, spaces: bool) -> bool {
    if spaces {
        is_space(c)
    } else {
        is_bracket(c)
    }
}

/// `text` without the trimmable characters at its front.
pub open spec fn without_front(text: Seq<char>, spaces: bool) -> Seq<char>
    decreases text.len(),
{
    if text.len() > 0 && trimmable(text[0], spaces) {
        without_front(text.drop_first(), spaces)
    } else {
        text
    }
}

/// `text` without the trimmable characters at its end.
pub open spec fn without_back(text: Seq<char>, spaces: bool) -> Seq<char>
    decreases text.len(),
{
    if text.len() > 0 && trimmable(text.last(), spaces) {
        without_back(text.drop_last(), spaces)
    } else {
        text
    }
}

/// `text` without the trimmable characters at both ends.
pub open spec fn trimmed(text: Seq<char>, spaces: bool) -> Seq<char> {
    without_back(without_front(text, spaces), spaces)
}

/// Tells whether `c` is one of the digits 0 to 9.
pub open spec fn is_digit(c: char) -> bool {
    '0' <= c <= '9'
}

/// The number that a digit stands for.
pub open spec fn digit_value(c: char) -> int {
    (c as u32) - 48
}

/// The digit that stands for `d`.
pub open spec fn digit_char(d: u8) -> char {
    ((48 + d) as u8) as char
}

/// Tells whether `text` holds digits only.
pub open spec fn all_digits(text: Seq<char>) -> bool {
    forall|i: int| 0 <= i < text.len() ==> is_digit(#[trigger] text[i])
}

/// The number that the digits of `text` stand for in decimal.
pub open spec fn digits_value(text: Seq<char>) -> int
    decreases text.len(),
{
    if text.len() == 0 {
        0
    } else {
        digits_value(text.drop_last()) * 10 + digit_value(text.last())
    }
}

/// `text` without a plus sign at its front.
pub open spec fn unsigned(text: Seq<char>) -> Seq<char> {
    if text.len() > 0 && text[0] == '+' {
        text.drop_first()
    } else {
        text
    }
}

/// The byte that `text` stands for: after an optional plus sign it must hold
/// one digit or more, and nothing else, and stand for 255 at most.
pub open spec fn byte_of(text: Seq<char>) -> Option<u8> {
    let digits = unsigned(text);
    if digits.len() > 0 && all_digits(digits) && digits_value(digits) <= 255 {
        Some(digits_value(digits) as u8)
    } else {
        None
    }
}

/// The pieces that `text` falls into when it is split at every comma. There
/// is always one piece more than there are commas.
pub open spec fn pieces(text: Seq<char>) -> Seq<Seq<char>>
    decreases text.len(),
{
    if text.len() == 0 {
        seq![Seq::<char>::empty()]
    } else {
        let before = pieces(text.drop_last());
        if text.last() == ',' {
            before.push(Seq::<char>::empty())
        } else {
            before.drop_last().push(before.last().push(text.last()))
        }
    }
}

/// The byte that a piece stands for once the white space around it is
/// dropped.
pub open spec fn piece_byte(piece: Seq<char>) -> Option<u8> {
    byte_of(trimmed(piece, true))
}

/// The bytes that a list of pieces stands for, if every piece stands for
/// one.
pub open spec fn listed_bytes(list: Seq<Seq<char>>) -> Option<Seq<u8>> {
    if forall|k: int| 0 <= k < list.len() ==> (#[trigger] piece_byte(list[k])) is Some {
        Some(Seq::new(list.len(), |k: int| piece_byte(list[k])->0))
    } else {
        None
    }
}

/// The secret key that `text` stands for, if it stands for one.
pub open spec fn key_bytes(text: Seq<char>) -> Option<Seq<u8>> {
    listed_bytes(pieces(trimmed(text, false)))
}

/// The view of bytes that may be missing.
pub open spec fn bytes_view(r: Option<Vec<u8>>) -> Option<Seq<u8>> {
    match r {
        Some(bytes) => Some(bytes@),
        None => None,
    }
}

/// Tells whether `c` is white space.
fn space(c: char) -> (r: bool)
    ensures
        r == is_space(c),
{
    (c >= '\u{9}' && c <= '\u{d}') || c == ' ' || c == '\u{85}' || c == '\u{a0}' || c == '\u{1680}'
        || (c >= '\u{2000}' && c <= '\u{200a}') || c == '\u{2028}' || c == '\u{2029}' || c
        == '\u{202f}' || c == '\u{205f}' || c == '\u{3000}'
}

/// Tells whether `c` is dropped from the ends of a text.
fn dropped(c: char, spaces: bool) -> (r: bool)
    ensures
        r == trimmable(c, spaces),
{
    if spaces {
        space(c)
    } else {
        c == '[' || c == ']'
    }
}

/// Drops the trimmable characters from both ends of `text`.
fn trim<'a>(text: &'a [char], spaces: bool) -> (out: &'a [char])
    ensures
        out@ == trimmed(text@, spaces),
{
    let mut from: usize = 0;
    assert(text@.subrange(0, text@.len() as int) =~= text@);
    while from < text.len() && dropped(text[from], spaces)
        invariant
            from <= text@.len(),
            without_front(text@, spaces) == without_front(
                text@.subrange(from as int, text@.len() as int),
                spaces,
            ),
        decreases text@.len() - from,
    {
        assert(text@.subrange(from as int, text@.len() as int).drop_first() =~= text@.subrange(
            from + 1,
            text@.len() as int,
        ));
        from += 1;
    }
    let ghost front = text@.subrange(from as int, text@.len() as int);
    assert(without_front(text@, spaces) == front);
    let mut to: usize = text.len();
    while from < to && dropped(text[to - 1], spaces)
        invariant
            from <= to <= text@.len(),
            front == text@.subrange(from as int, text@.len() as int),
            without_back(front, spaces) == without_back(
                text@.subrange(from as int, to as int),
                spaces,
            ),
        decreases to,
    {
        assert(text@.subrange(from as int, to as int).drop_last() =~= text@.subrange(
            from as int,
            to - 1,
        ));
        to -= 1;
    }
    slice_subrange(text, from, to)
}

/// Adding a digit to the end of a text adds it to ten times the number that
/// the text stood for.
proof fn lemma_digits_value_bounds(text: Seq<char>)
    requires
        all_digits(text),
    ensures
        digits_value(text) >= 0,
        text.len() > 0 ==> digits_value(text) >= digits_value(text.drop_last()) * 10,
    decreases text.len(),
{
    if text.len() > 0 {
        lemma_digits_value_bounds(text.drop_last());
    }
}

/// Reads the byte that `text` stands for.
fn parse_byte(text: &[char]) -> (r: Option<u8>)
    ensures
        r == byte_of(text@),
{
    let digits = if text.len() > 0 && text[0] == '+' {
        slice_subrange(text, 1, text.len())
    } else {
        text
    };
    assert(digits@ =~= unsigned(text@));
    if digits.len() == 0 {
        return None;
    }
    let mut value: u16 = 0;
    let mut i: usize = 0;
    while i < digits.len()
        invariant
            i <= digits@.len(),
            digits@.len() > 0,
            digits@ == unsigned(text@),
            all_digits(digits@.subrange(0, i as int)),
            value == digits_value(digits@.subrange(0, i as int)),
            value <= 255,
        decreases digits@.len() - i,
    {
        let c = digits[i];
        let ghost next = digits@.subrange(0, i + 1);
        assert(next.drop_last() =~= digits@.subrange(0, i as int));
        if !(c >= '0' && c <= '9') {
            assert(!is_digit(digits@[i as int]));
            return None;
        }
        let d: u16 = ((c as u32) - 48) as u16;
        value = value * 10 + d;
        assert(all_digits(next));
        if value > 255 {
            proof {
                lemma_value_grows(digits@, i + 1);
            }
            return None;
        }
        i += 1;
    }
    assert(digits@.subrange(0, i as int) =~= digits@);
    Some(value as u8)
}

/// What a text of digits stands for is at least what any of its prefixes
/// stands for.
proof fn lemma_value_grows(text: Seq<char>, cut: int)
    requires
        0 <= cut <= text.len(),
        all_digits(text.subrange(0, cut)),
    ensures
        all_digits(text) ==> digits_value(text) >= digits_value(text.subrange(0, cut)),
    decreases text.len() - cut,
{
    if cut < text.len() && all_digits(text) {
        let next = text.subrange(0, cut + 1);
        assert(next.drop_last() =~= text.subrange(0, cut));
        assert(all_digits(next));
        lemma_digits_value_bounds(text.subrange(0, cut));
        lemma_value_grows(text, cut + 1);
    } else if cut == text.len() {
        assert(text.subrange(0, cut) =~= text);
    }
}


/// The characters of `text`.
fn chars_of(text: &str) -> (out: Vec<char>)
    ensures
        out@ == text@,
{
    let mut out: Vec<char> = Vec::new();
    for c in it: text.chars()
        invariant
            out@.len() == it.index(),
            it.seq() == text@,
            forall|i: int| 0 <= i < out@.len() ==> out@[i] == it.seq()[i],
    {
        out.push(c);
    }
    assert(out@ =~= text@);
    out
}

/// What holds while a text is read piece by piece: of the pieces of the
/// first `at` characters, the last starts at `start`, and all before it
/// stand for the bytes in `out`.
spec fn read_so_far(text: Seq<char>, at: int, start: int, out: Seq<u8>) -> bool {
    let list = pieces(text.subrange(0, at));
    &&& list.len() == out.len() + 1
    &&& list.last() == text.subrange(start, at)
    &&& forall|k: int| 0 <= k < out.len() ==> (#[trigger] piece_byte(list[k])) == Some(out[k])
}

/// All pieces of a part of a text that ends at `cut`, but for the last of
/// them, are pieces of the whole text.
proof fn lemma_pieces_settled(text: Seq<char>, cut: int)
    requires
        0 <= cut <= text.len(),
    ensures
        1 <= pieces(text.subrange(0, cut)).len() <= pieces(text).len(),
        forall|k: int|
            0 <= k < pieces(text.subrange(0, cut)).len() - 1 ==> (#[trigger] pieces(text)[k])
                == pieces(text.subrange(0, cut))[k],
    decreases text.len(),
{
    if cut == text.len() {
        assert(text.subrange(0, cut) =~= text);
        if text.len() > 0 {
            lemma_pieces_settled(text.drop_last(), cut - 1);
        }
    } else {
        assert(text.drop_last().subrange(0, cut) =~= text.subrange(0, cut));
        lemma_pieces_settled(text.drop_last(), cut);
    }
}

/// Reads a secret key from its text.
pub fn parse_key_text(text: &str) -> (r: Option<Vec<u8>>)
    ensures
        bytes_view(r) == key_bytes(text@),
{
    let chars = chars_of(text);
    let inner = trim(chars.as_slice(), false);
    let mut out: Vec<u8> = Vec::new();
    let mut start: usize = 0;
    let mut at: usize = 0;
    assert(inner@.subrange(0, 0) =~= Seq::<char>::empty());
    while at < inner.len()
        invariant
            start <= at <= inner@.len(),
            inner@ == trimmed(text@, false),
            read_so_far(inner@, at as int, start as int, out@),
        decreases inner@.len() - at,
    {
        let ghost before = pieces(inner@.subrange(0, at as int));
        let ghost after = pieces(inner@.subrange(0, at + 1));
        assert(inner@.subrange(0, at + 1).drop_last() =~= inner@.subrange(0, at as int));
        if inner[at] == ',' {
            let piece = slice_subrange(inner, start, at);
            match parse_byte(trim(piece, true)) {
                Some(byte) => {
                    out.push(byte);
                },
                None => {
                    proof {
                        lemma_pieces_settled(inner@, at + 1);
                        assert(piece_byte(after[before.len() - 1]) is None);
                        assert(piece_byte(pieces(inner@)[before.len() - 1]) is None);
                    }
                    return None;
                },
            }
            start = at + 1;
            assert(after.last() =~= inner@.subrange(start as int, at + 1));
        } else {
            assert(after.last() =~= inner@.subrange(start as int, at + 1));
        }
        at += 1;
    }
    assert(inner@.subrange(0, at as int) =~= inner@);
    let ghost list = pieces(inner@);
    let piece = slice_subrange(inner, start, at);
    match parse_byte(trim(piece, true)) {
        Some(byte) => {
            out.push(byte);
            assert forall|k: int| 0 <= k < list.len() implies (#[trigger] piece_byte(list[k]))
                == Some(out@[k]) by {}
            assert(out@ =~= Seq::new(list.len(), |k: int| piece_byte(list[k])->0));
            Some(out)
        },
        None => {
            assert(piece_byte(list[list.len() - 1]) is None);
            None
        },
    }
}


/// `byte` in decimal, without leading zeros.
pub open spec fn decimal(byte: u8) -> Seq<char> {
    if byte >= 100 {
        seq![digit_char(byte / 100), digit_char(byte / 10 % 10), digit_char(byte % 10)]
    } else if byte >= 10 {
        seq![digit_char(byte / 10), digit_char(byte % 10)]
    } else {
        seq![digit_char(byte)]
    }
}

/// The bytes in decimal, each but the first after a comma and a space.
pub open spec fn listed(bytes: Seq<u8>) -> Seq<char>
    decreases bytes.len(),
{
    if bytes.len() == 0 {
        Seq::<char>::empty()
    } else if bytes.len() == 1 {
        decimal(bytes[0])
    } else {
        listed(bytes.drop_last()) + seq![',', ' '] + decimal(bytes.last())
    }
}

/// The text of a secret key: its bytes, listed between square brackets.
pub open spec fn key_text(bytes: Seq<u8>) -> Seq<char> {
    seq!['['] + listed(bytes) + seq![']']
}

/// The digit that stands for `d`, as a text.
fn digit_text(d: u8) -> (text: &'static str)
    requires
        d < 10,
    ensures
        text@ == seq![digit_char(d)],
{
    proof {
        reveal_strlit("0");
        reveal_strlit("1");
        reveal_strlit("2");
        reveal_strlit("3");
        reveal_strlit("4");
        reveal_strlit("5");
        reveal_strlit("6");
        reveal_strlit("7");
        reveal_strlit("8");
        reveal_strlit("9");
    }
    let text = match d {
        0 => "0",
        1 => "1",
        2 => "2",
        3 => "3",
        4 => "4",
        5 => "5",
        6 => "6",
        7 => "7",
        8 => "8",
        _ => "9",
    };
    assert(text@ =~= seq![digit_char(d)]);
    text
}

/// Appends `byte` in decimal to `text`.
fn push_decimal(text: &mut String, byte: u8)
    ensures
        final(text)@ == old(text)@ + decimal(byte),
{
    if byte >= 100 {
        text.append(digit_text(byte / 100));
    }
    if byte >= 10 {
        text.append(digit_text(byte / 10 % 10));
    }
    text.append(digit_text(byte % 10));
    assert(text@ =~= old(text)@ + decimal(byte));
}

/// Writes a secret key as text.
pub fn format_key_bytes(bytes: &[u8]) -> (text: String)
    ensures
        text@ == key_text(bytes@),
{
    proof {
        reveal_strlit("[");
        reveal_strlit(", ");
        reveal_strlit("]");
    }
    let mut text = String::new();
    text.append("[");
    let mut i: usize = 0;
    assert(bytes@.subrange(0, 0) =~= Seq::<u8>::empty());
    assert(text@ =~= seq!['['] + listed(bytes@.subrange(0, 0)));
    while i < bytes.len()
        invariant
            i <= bytes@.len(),
            text@ == seq!['['] + listed(bytes@.subrange(0, i as int)),
            ", "@ == seq![',', ' '],
        decreases bytes@.len() - i,
    {
        let ghost done = bytes@.subrange(0, i as int);
        let ghost next = bytes@.subrange(0, i + 1);
        assert(next.drop_last() =~= done);
        if i > 0 {
            text.append(", ");
        }
        push_decimal(&mut text, bytes[i]);
        assert(text@ =~= seq!['['] + listed(next));
        i += 1;
    }
    assert(bytes@.subrange(0, i as int) =~= bytes@);
    text.append("]");
    assert(text@ =~= key_text(bytes@));
    text
}

/// A byte in decimal is one to three digits that stand for the byte.
proof fn lemma_decimal_digits(byte: u8)
    ensures
        1 <= decimal(byte).len() <= 3,
        all_digits(decimal(byte)),
        digits_value(decimal(byte)) == byte,
{
    let text = decimal(byte);
    assert forall|i: int| 0 <= i < text.len() implies is_digit(#[trigger] text[i]) by {}
    reveal_with_fuel(digits_value, 4);
    if byte >= 100 {
        let two = text.drop_last();
        let one = two.drop_last();
        assert(one.drop_last() =~= Seq::<char>::empty());
        assert(digits_value(one) == byte / 100);
        assert(digits_value(two) == (byte / 100) * 10 + (byte / 10 % 10));
    } else if byte >= 10 {
        let one = text.drop_last();
        assert(one.drop_last() =~= Seq::<char>::empty());
        assert(digits_value(one) == byte / 10);
    } else {
        assert(text.drop_last() =~= Seq::<char>::empty());
    }
}

/// Dropping from the ends stops at a text that neither starts nor ends with
/// a trimmable character.
proof fn lemma_trimmed_core(front: Seq<char>, core: Seq<char>, back: Seq<char>, spaces: bool)
    requires
        core.len() > 0,
        !trimmable(core[0], spaces),
        !trimmable(core.last(), spaces),
        forall|i: int| 0 <= i < front.len() ==> trimmable(#[trigger] front[i], spaces),
        forall|i: int| 0 <= i < back.len() ==> trimmable(#[trigger] back[i], spaces),
    ensures
        trimmed(front + core + back, spaces) == core,
    decreases front.len() + back.len(),
{
    let text = front + core + back;
    if front.len() > 0 {
        assert(text.drop_first() =~= front.drop_first() + core + back);
        lemma_trimmed_core(front.drop_first(), core, back, spaces);
    } else if back.len() > 0 {
        assert(text =~= core + back);
        assert(without_front(text, spaces) == text);
        assert(text.drop_last() =~= Seq::<char>::empty() + core + back.drop_last());
        lemma_trimmed_core(Seq::<char>::empty(), core, back.drop_last(), spaces);
        assert(without_front(text.drop_last(), spaces) == text.drop_last());
    } else {
        assert(text =~= core);
    }
}

/// A piece that is a byte in decimal, with or without a space before it,
/// stands for that byte.
proof fn lemma_piece_of_decimal(byte: u8, spaced: bool)
    ensures
        piece_byte(
            if spaced {
                seq![' '] + decimal(byte)
            } else {
                decimal(byte)
            },
        ) == Some(byte),
{
    lemma_decimal_digits(byte);
    let core = decimal(byte);
    assert(is_digit(core[0]) && is_digit(core.last()));
    let front = if spaced {
        seq![' ']
    } else {
        Seq::<char>::empty()
    };
    lemma_trimmed_core(front, core, Seq::<char>::empty(), true);
    assert(front + core + Seq::<char>::empty() =~= if spaced {
        seq![' '] + decimal(byte)
    } else {
        decimal(byte)
    });
    assert(unsigned(core) == core);
}

/// Text without a comma, put behind a text, joins its last piece.
proof fn lemma_pieces_extended(text: Seq<char>, more: Seq<char>)
    requires
        forall|i: int| 0 <= i < more.len() ==> #[trigger] more[i] != ',',
    ensures
        pieces(text).len() >= 1,
        pieces(text + more) == pieces(text).drop_last().push(pieces(text).last() + more),
    decreases more.len(),
{
    lemma_pieces_settled(text, 0);
    let list = pieces(text);
    if more.len() == 0 {
        assert(text + more =~= text);
        assert(list.last() + more =~= list.last());
        assert(list.drop_last().push(list.last()) =~= list);
    } else {
        lemma_pieces_extended(text, more.drop_last());
        assert((text + more).drop_last() =~= text + more.drop_last());
        assert(list.last() + more =~= (list.last() + more.drop_last()).push(more.last()));
        assert(pieces(text + more) =~= list.drop_last().push(list.last() + more));
    }
}

/// The pieces of a list of bytes: one for each byte, its decimal, after a
/// space for all but the first.
spec fn listed_pieces(bytes: Seq<u8>) -> Seq<Seq<char>> {
    Seq::new(
        bytes.len(),
        |k: int|
            if k == 0 {
                decimal(bytes[k])
            } else {
                seq![' '] + decimal(bytes[k])
            },
    )
}

/// A list of bytes falls into the pieces that were written.
proof fn lemma_pieces_of_listed(bytes: Seq<u8>)
    requires
        bytes.len() > 0,
    ensures
        pieces(listed(bytes)) == listed_pieces(bytes),
        listed(bytes).len() > 0,
        is_digit(listed(bytes)[0]),
        is_digit(listed(bytes).last()),
    decreases bytes.len(),
{
    let last = decimal(bytes.last());
    lemma_decimal_digits(bytes.last());
    assert(is_digit(last[0]) && is_digit(last.last()));
    if bytes.len() == 1 {
        assert(pieces(Seq::<char>::empty()) =~= seq![Seq::<char>::empty()]);
        lemma_pieces_extended(Seq::<char>::empty(), last);
        assert(Seq::<char>::empty() + last =~= last);
        assert(pieces(listed(bytes)) =~= listed_pieces(bytes));
    } else {
        let before = bytes.drop_last();
        lemma_pieces_of_listed(before);
        let cut = listed(before).push(',');
        assert(cut.drop_last() =~= listed(before));
        assert(pieces(cut) == listed_pieces(before).push(Seq::<char>::empty()));
        let more = seq![' '] + last;
        lemma_pieces_extended(cut, more);
        assert(cut + more =~= listed(bytes));
        assert(Seq::<char>::empty() + more =~= more);
        assert(pieces(listed(bytes)) =~= listed_pieces(bytes));
    }
}

/// What is written is read back: the text of a secret key of one byte or
/// more stands for that key.
pub proof fn lemma_key_text_read_back(bytes: Seq<u8>)
    requires
        bytes.len() > 0,
    ensures
        key_bytes(key_text(bytes)) == Some(bytes),
{
    lemma_pieces_of_listed(bytes);
    let inner = listed(bytes);
    lemma_trimmed_core(seq!['['], inner, seq![']'], false);
    let list = pieces(inner);
    assert forall|k: int| 0 <= k < list.len() implies (#[trigger] piece_byte(list[k])) == Some(
        bytes[k],
    ) by {
        lemma_piece_of_decimal(bytes[k], k != 0);
    }
    assert(Seq::new(list.len(), |k: int| piece_byte(list[k])->0) =~= bytes);
}

/// The text of an empty secret key stands for no key.
pub proof fn lemma_empty_key_text_not_read()
    ensures
        key_bytes(key_text(Seq::<u8>::empty())) is None,
{
    let text = key_text(Seq::<u8>::empty());
    reveal_with_fuel(without_front, 3);
    assert(text =~= seq!['[', ']']);
    assert(text.drop_first() =~= seq![']']);
    assert(seq![']'].drop_first() =~= Seq::<char>::empty());
    assert(without_front(seq![']'], false) == Seq::<char>::empty());
    assert(without_front(text, false) == Seq::<char>::empty());
    assert(trimmed(text, false) == Seq::<char>::empty());
    let list = pieces(Seq::<char>::empty());
    assert(list[0] == Seq::<char>::empty());
    assert(piece_byte(list[0]) is None);
}

} // verus!
