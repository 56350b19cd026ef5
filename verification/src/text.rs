//! Text: decimal numbers, lists of names, and the readable form of raw bytes.

use vstd::prelude::*;
use vstd::utf8::{decode_utf8, valid_utf8};

verus! {

/// The texts of a list of strings, in order.
pub open spec fn texts(list: Seq<String>) -> Seq<Seq<char>> {
    list.map_values(|text: String| text@)
}

/// The raw contents of a list of byte strings, in order.
pub open spec fn raws(list: Seq<Vec<u8>>) -> Seq<Seq<u8>> {
    list.map_values(|raw: Vec<u8>| raw@)
}

/// The text of an optional string.
pub open spec fn optional_text(text: Option<String>) -> Option<Seq<char>> {
    match text {
        Some(text) => Some(text@),
        None => None,
    }
}

/// One decimal digit.
pub open spec fn digit_text(digit: nat) -> Seq<char> {
    if digit == 0 {
        "0"@
    } else if digit == 1 {
        "1"@
    } else if digit == 2 {
        "2"@
    } else if digit == 3 {
        "3"@
    } else if digit == 4 {
        "4"@
    } else if digit == 5 {
        "5"@
    } else if digit == 6 {
        "6"@
    } else if digit == 7 {
        "7"@
    } else if digit == 8 {
        "8"@
    } else {
        "9"@
    }
}

/// A number in decimal, without leading zeros.
pub open spec fn decimal(number: nat) -> Seq<char>
    decreases number,
{
    if number < 10 {
        digit_text(number)
    } else {
        decimal(number / 10) + digit_text(number % 10)
    }
}

fn digit(value: u64) -> (text: &'static str)
    requires
        value < 10,
    ensures
        text@ == digit_text(value as nat),
{
    if value == 0 {
        "0"
    } else if value == 1 {
        "1"
    } else if value == 2 {
        "2"
    } else if value == 3 {
        "3"
    } else if value == 4 {
        "4"
    } else if value == 5 {
        "5"
    } else if value == 6 {
        "6"
    } else if value == 7 {
        "7"
    } else if value == 8 {
        "8"
    } else {
        "9"
    }
}

/// Writes a number in decimal.
pub fn decimal_text(number: u64) -> (text: String)
    ensures
        text@ == decimal(number as nat),
    decreases number,
{
    if number < 10 {
        digit(number).to_owned()
    } else {
        let mut text = decimal_text(number / 10);
        text.append(digit(number % 10));
        text
    }
}

/// Whether a list of strings holds a given text.
pub fn contains_text(list: &[String], text: &String) -> (found: bool)
    ensures
        found == texts(list@).contains(text@),
{
    let mut i: usize = 0;
    while i < list.len()
        invariant
            i <= list.len(),
            forall|k: int| 0 <= k < i ==> texts(list@)[k] != text@,
        decreases list.len() - i,
    {
        if list[i] == *text {
            assert(texts(list@)[i as int] == text@);
            return true;
        }
        i += 1;
    }
    false
}

/// Whether two byte strings are the same.
pub fn same_bytes(left: &[u8], right: &[u8]) -> (same: bool)
    ensures
        same == (left@ == right@),
{
    if left.len() != right.len() {
        return false;
    }
    let mut i: usize = 0;
    while i < left.len()
        invariant
            i <= left.len(),
            left.len() == right.len(),
            forall|k: int| 0 <= k < i ==> left@[k] == right@[k],
        decreases left.len() - i,
    {
        if left[i] != right[i] {
            return false;
        }
        i += 1;
    }
    assert(left@ =~= right@);
    true
}

/// What `String::from_utf8_lossy` makes of a byte string.
pub uninterp spec fn lossy_text(bytes: Seq<u8>) -> Seq<char>;

/// Calls `String::from_utf8_lossy`: the readable form of raw bytes, with a
/// replacement character for every malformed sequence. Bytes that are valid
/// UTF-8 come back as the text that they encode.
#[verifier::external_body]
pub(crate) fn lossy(bytes: &[u8]) -> (text: String)
    ensures
        text@ == lossy_text(bytes@),
        valid_utf8(bytes@) ==> text@ == decode_utf8(bytes@),
{
    String::from_utf8_lossy(bytes).into_owned()
}

/// Calls `std::str::from_utf8`, which accepts exactly the byte strings that are
/// well-formed UTF-8.
#[verifier::external_body]
pub(crate) fn is_utf8(bytes: &[u8]) -> (valid: bool)
    ensures
        valid == valid_utf8(bytes@),
{
    std::str::from_utf8(bytes).is_ok()
}

/// A list with one item more holds that item, and what it held before.
pub proof fn lemma_push_to_set(list: Seq<Seq<char>>, item: Seq<char>)
    ensures
        list.push(item).to_set() == list.to_set().insert(item),
{
    let more = list.push(item);
    assert forall|x: Seq<char>| list.to_set().insert(item).contains(x) implies more.to_set().contains(
        x,
    ) by {
        if x == item {
            assert(more[list.len() as int] == x);
        } else {
            let k = choose|k: int| 0 <= k < list.len() && list[k] == x;
            assert(more[k] == x);
        }
    }
    assert(more.to_set() =~= list.to_set().insert(item));
}

/// The number that a text of decimal digits is.
pub open spec fn number_of(text: Seq<char>) -> int
    decreases text.len(),
{
    if text.len() == 0 {
        0
    } else {
        number_of(text.drop_last()) * 10 + (text.last() as int - 48)
    }
}

/// A number in decimal reads back as that number; it is made of digits, and starts with
/// zero only where it is zero.
pub proof fn decimal_reads_back(number: nat)
    ensures
        number_of(decimal(number)) == number,
        decimal(number).len() > 0,
        forall|i: int|
            0 <= i < decimal(number).len() ==> 48 <= (#[trigger] decimal(number)[i]) as int <= 57,
        number > 0 ==> decimal(number)[0] != '0',
    decreases number,
{
    reveal_strlit("0");
    reveal_strlit("1");
    reveal_strlit("2");
    reveal_strlit("3");
    reveal_strlit("4");
    reveal_strlit("5");
    reveal_strlit("6");
    reveal_strlit("7");
    reveal_strlit("8");
    reveal_strlit("9");
    let text = decimal(number);
    let last = digit_text(number % 10);
    assert(last.len() == 1);
    assert(last[0] as int == 48 + number % 10);
    assert(last.drop_last() =~= Seq::<char>::empty());
    if number < 10 {
        assert(text == last);
        assert(number_of(text.drop_last()) == 0);
    } else {
        decimal_reads_back(number / 10);
        assert(text.drop_last() =~= decimal(number / 10));
        assert(text.last() == last[0]);
        assert forall|i: int| 0 <= i < text.len() implies 48 <= (#[trigger] text[i]) as int
            <= 57 by {
            if i < decimal(number / 10).len() {
                assert(text[i] == decimal(number / 10)[i]);
            }
        }
    }
}

/// The mathematical form of a list has the form of each of its items, in their places.
pub proof fn lists_keep_their_order(strings: Seq<String>, bytes: Seq<Vec<u8>>, index: int)
    ensures
        texts(strings).len() == strings.len(),
        0 <= index < strings.len() ==> texts(strings)[index] == strings[index]@,
        raws(bytes).len() == bytes.len(),
        0 <= index < bytes.len() ==> raws(bytes)[index] == bytes[index]@,
        forall|text: String| #[trigger] optional_text(Some(text)) == Some(text@),
        optional_text(None) is None,
{
}

} // verus!
