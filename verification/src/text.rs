//! Text as sequences of characters: splitting into fields, trimming, and
//! reading and writing decimal numbers.

use vstd::prelude::*;
use vstd::slice::slice_subrange;
use vstd::std_specs::iter::IteratorSpec;
use vstd::string::*;

verus! {

broadcast use group_string_axioms;

/// The characters of `text`, one by one.
pub fn chars_of(text: &str) -> (chars: Vec<char>)
    ensures
        chars@ == text@,
{
    let mut chars: Vec<char> = Vec::new();
    let ghost mut done: int = 0;
    for c in it: text.chars()
        invariant
            it.seq() == text@,
            done == it.index(),
            chars@ == text@.take(done),
    {
        assert(text@.take(done + 1) =~= text@.take(done).push(c));
        chars.push(c);
        proof {
            done = done + 1;
        }
    }
    assert(text@.take(text@.len() as int) =~= text@);
    chars
}

/// The value of the decimal digit `c`, if it is one.
pub open spec fn digit_of(c: char) -> Option<nat> {
    if '0' <= c <= '9' {
        Some((c as u32 - '0' as u32) as nat)
    } else {
        None
    }
}

/// Whether `text` is made of decimal digits only.
pub open spec fn all_digits(text: Seq<char>) -> bool {
    forall|i: int| 0 <= i < text.len() ==> digit_of(#[trigger] text[i]) is Some
}

/// The number that the decimal digits `text` write, the empty text writing 0.
pub open spec fn digits_value(text: Seq<char>) -> nat
    decreases text.len(),
{
    if text.len() == 0 {
        0
    } else {
        10 * digits_value(text.drop_last()) + match digit_of(text.last()) {
            Some(d) => d,
            None => 0,
        }
    }
}

/// The number that `text` writes, read as an unsigned 32-bit number: an
/// optional `+`, then at least one decimal digit and nothing else. Text that
/// is not of this form, or writes a number that does not fit, gives `None`.
pub open spec fn unsigned_of(text: Seq<char>) -> Option<u32> {
    let digits = if text.len() > 0 && text[0] == '+' {
        text.skip(1)
    } else {
        text
    };
    if digits.len() > 0 && all_digits(digits) && digits_value(digits) <= u32::MAX {
        Some(digits_value(digits) as u32)
    } else {
        None
    }
}

/// The number that `text` writes, read as a signed 32-bit number: an optional
/// `+` or `-`, then at least one decimal digit and nothing else. Text that is
/// not of this form, or writes a number that does not fit, gives `None`.
pub open spec fn signed_of(text: Seq<char>) -> Option<i32> {
    let negative = text.len() > 0 && text[0] == '-';
    let digits = if text.len() > 0 && (text[0] == '+' || text[0] == '-') {
        text.skip(1)
    } else {
        text
    };
    if digits.len() > 0 && all_digits(digits) {
        if negative && digits_value(digits) <= 0x8000_0000 {
            Some((-(digits_value(digits) as int)) as i32)
        } else if !negative && digits_value(digits) <= i32::MAX {
            Some(digits_value(digits) as i32)
        } else {
            None
        }
    } else {
        None
    }
}

/// Longer digit texts write numbers that are no smaller than shorter ones do.
pub proof fn lemma_digits_value_grows(text: Seq<char>, upto: int)
    requires
        0 <= upto <= text.len(),
    ensures
        digits_value(text.take(upto)) <= digits_value(text),
    decreases text.len() - upto,
{
    if upto == text.len() {
        assert(text.take(upto) =~= text);
    } else {
        assert(text.take(upto + 1).drop_last() =~= text.take(upto));
        lemma_digits_value_grows(text, upto + 1);
    }
}

/// The value of the decimal digit `c`, if it is one.
pub fn digit_value(c: char) -> (d: Option<u32>)
    ensures
        match d {
            Some(v) => digit_of(c) == Some(v as nat) && v <= 9,
            None => digit_of(c) is None,
        },
{
    match c {
        '0' => Some(0),
        '1' => Some(1),
        '2' => Some(2),
        '3' => Some(3),
        '4' => Some(4),
        '5' => Some(5),
        '6' => Some(6),
        '7' => Some(7),
        '8' => Some(8),
        '9' => Some(9),
        _ => None,
    }
}

/// Reads the digits `text[from..]` as a number below `limit`, which `None`
/// stands for when there is no digit, another character, or a number above
/// `limit`.
fn read_digits(text: &[char], from: usize, limit: u64) -> (value: Option<u64>)
    requires
        from <= text@.len(),
        limit <= 0x1_0000_0000,
    ensures
        match value {
            Some(v) => {
                &&& text@.len() > from
                &&& all_digits(text@.skip(from as int))
                &&& v == digits_value(text@.skip(from as int))
                &&& v <= limit
            },
            None => text@.len() == from || !all_digits(text@.skip(from as int)) || digits_value(
                text@.skip(from as int),
            ) > limit,
        },
{
    let ghost digits = text@.skip(from as int);
    if text.len() == from {
        return None;
    }
    let mut value: u64 = 0;
    let mut at: usize = from;
    assert(digits.take(0) =~= Seq::<char>::empty());
    while at < text.len()
        invariant
            from <= at <= text@.len(),
            digits == text@.skip(from as int),
            limit <= 0x1_0000_0000,
            all_digits(digits.take(at - from)),
            value == digits_value(digits.take(at - from)),
            value <= limit,
        decreases text@.len() - at,
    {
        let ghost shorter = digits.take(at - from);
        let ghost longer = digits.take(at - from + 1);
        proof {
            assert(longer.drop_last() =~= shorter);
            assert(longer.last() == text@[at as int]);
        }
        match digit_value(text[at]) {
            Some(d) => {
                value = 10 * value + d as u64;
                proof {
                    assert forall|i: int| 0 <= i < longer.len() implies digit_of(
                        #[trigger] longer[i],
                    ) is Some by {
                        if i < shorter.len() {
                            assert(shorter[i] == longer[i]);
                        }
                    }
                }
                if value > limit {
                    proof {
                        lemma_digits_value_grows(digits, at - from + 1);
                    }
                    return None;
                }
            },
            None => {
                assert(digits[at - from] == text@[at as int]);
                return None;
            },
        }
        at += 1;
    }
    assert(digits.take(at - from) =~= digits);
    Some(value)
}

/// Reads `text` as an unsigned 32-bit decimal number.
pub fn parse_u32(text: &[char]) -> (value: Option<u32>)
    ensures
        value == unsigned_of(text@),
{
    let from: usize = if text.len() > 0 && text[0] == '+' {
        1
    } else {
        0
    };
    assert(text@.skip(0) =~= text@);
    match read_digits(text, from, 0xffff_ffff) {
        Some(v) => Some(v as u32),
        None => None,
    }
}

/// Reads `text` as a signed 32-bit decimal number.
pub fn parse_i32(text: &[char]) -> (value: Option<i32>)
    ensures
        value == signed_of(text@),
{
    let negative = text.len() > 0 && text[0] == '-';
    let from: usize = if text.len() > 0 && (text[0] == '+' || text[0] == '-') {
        1
    } else {
        0
    };
    assert(text@.skip(0) =~= text@);
    if negative {
        match read_digits(text, from, 0x8000_0000) {
            Some(v) => {
                if v == 0x8000_0000 {
                    Some(i32::MIN)
                } else {
                    Some(-(v as i32))
                }
            },
            None => None,
        }
    } else {
        match read_digits(text, from, 0x7fff_ffff) {
            Some(v) => Some(v as i32),
            None => None,
        }
    }
}

/// Whether a position right after `text` lies inside a quoted stretch: an
/// odd number of `"` came before it. Nothing is quoted when `quoting` is off.
pub open spec fn in_quotes(text: Seq<char>, quoting: bool) -> bool
    decreases text.len(),
{
    if text.len() == 0 {
        false
    } else if quoting && text.last() == '"' {
        !in_quotes(text.drop_last(), quoting)
    } else {
        in_quotes(text.drop_last(), quoting)
    }
}

/// The fields of `text`: the stretches between the separators `sep`. With
/// `quoting` on, a separator inside a quoted stretch does not end a field.
/// The `"` stay in the fields. A text without separator is one field, so
/// there is always at least one.
pub open spec fn fields_of(text: Seq<char>, sep: char, quoting: bool) -> Seq<Seq<char>>
    decreases text.len(),
{
    if text.len() == 0 {
        seq![Seq::<char>::empty()]
    } else {
        let before = fields_of(text.drop_last(), sep, quoting);
        if text.last() == sep && !in_quotes(text.drop_last(), quoting) {
            before.push(Seq::<char>::empty())
        } else {
            before.update(before.len() - 1, before.last().push(text.last()))
        }
    }
}

/// Whether `ranges` mark the fields of `text`: range `k` runs from the start
/// of field `k` to its end.
pub open spec fn marks_fields(
    ranges: Seq<(usize, usize)>,
    text: Seq<char>,
    sep: char,
    quoting: bool,
) -> bool {
    &&& ranges.len() == fields_of(text, sep, quoting).len()
    &&& forall|k: int|
        0 <= k < ranges.len() ==> {
            &&& (#[trigger] ranges[k]).0 <= ranges[k].1 <= text.len()
            &&& text.subrange(ranges[k].0 as int, ranges[k].1 as int) == fields_of(
                text,
                sep,
                quoting,
            )[k]
        }
}

/// Cuts `text` into its fields and says where each field starts and ends.
pub fn split_fields(text: &[char], sep: char, quoting: bool) -> (ranges: Vec<(usize, usize)>)
    ensures
        marks_fields(ranges@, text@, sep, quoting),
        ranges@.len() >= 1,
{
    let mut ranges: Vec<(usize, usize)> = Vec::new();
    let mut start: usize = 0;
    let mut quoted = false;
    let mut at: usize = 0;
    proof {
        assert(text@.take(0) =~= Seq::<char>::empty());
        assert(text@.subrange(0, 0) =~= Seq::<char>::empty());
    }
    while at < text.len()
        invariant
            start <= at <= text@.len(),
            quoted == in_quotes(text@.take(at as int), quoting),
            fields_of(text@.take(at as int), sep, quoting).len() == ranges@.len() + 1,
            fields_of(text@.take(at as int), sep, quoting).last() == text@.subrange(
                start as int,
                at as int,
            ),
            forall|k: int|
                0 <= k < ranges@.len() ==> {
                    &&& (#[trigger] ranges@[k]).0 <= ranges@[k].1 <= at
                    &&& text@.subrange(ranges@[k].0 as int, ranges@[k].1 as int) == fields_of(
                        text@.take(at as int),
                        sep,
                        quoting,
                    )[k]
                },
        decreases text@.len() - at,
    {
        let c = text[at];
        proof {
            assert(text@.take(at + 1).drop_last() =~= text@.take(at as int));
            assert(text@.take(at + 1).last() == c);
        }
        if c == sep && !quoted {
            ranges.push((start, at));
            start = at + 1;
            proof {
                assert(text@.subrange(at + 1, at + 1) =~= Seq::<char>::empty());
            }
        } else {
            proof {
                assert(text@.subrange(start as int, at + 1) =~= text@.subrange(
                    start as int,
                    at as int,
                ).push(c));
            }
        }
        if quoting && c == '"' {
            quoted = !quoted;
        }
        at += 1;
    }
    proof {
        assert(text@.take(at as int) =~= text@);
    }
    ranges.push((start, at));
    ranges
}

/// The position of the last `c` in `text`, if there is any.
pub open spec fn last_position(text: Seq<char>, c: char) -> Option<int>
    decreases text.len(),
{
    if text.len() == 0 {
        None
    } else if text.last() == c {
        Some(text.len() - 1)
    } else {
        last_position(text.drop_last(), c)
    }
}

/// Where `last_position` finds `c`, `c` stands there and nowhere after.
pub proof fn lemma_last_position(text: Seq<char>, c: char)
    ensures
        match last_position(text, c) {
            Some(at) => 0 <= at < text.len() && text[at] == c && forall|i: int|
                at < i < text.len() ==> text[i] != c,
            None => forall|i: int| 0 <= i < text.len() ==> text[i] != c,
        },
    decreases text.len(),
{
    if text.len() > 0 && text.last() != c {
        lemma_last_position(text.drop_last(), c);
        assert forall|i: int| 0 <= i < text.len() - 1 implies text.drop_last()[i] == text[i] by {}
        match last_position(text, c) {
            Some(at) => {
                assert forall|i: int| at < i < text.len() implies text[i] != c by {
                    if i < text.len() - 1 {
                        assert(text.drop_last()[i] == text[i]);
                    }
                }
            },
            None => {
                assert forall|i: int| 0 <= i < text.len() implies text[i] != c by {
                    if i < text.len() - 1 {
                        assert(text.drop_last()[i] == text[i]);
                    }
                }
            },
        }
    }
}

/// Finds the last `c` in `text`.
pub fn find_last(text: &[char], c: char) -> (found: Option<usize>)
    ensures
        match found {
            Some(at) => last_position(text@, c) == Some(at as int),
            None => last_position(text@, c) is None,
        },
{
    let mut at: usize = text.len();
    assert(text@.take(at as int) =~= text@);
    while at > 0
        invariant
            at <= text@.len(),
            last_position(text@, c) == last_position(text@.take(at as int), c),
        decreases at,
    {
        proof {
            assert(text@.take(at as int).drop_last() =~= text@.take(at - 1));
            assert(text@.take(at as int).last() == text@[at - 1]);
        }
        if text[at - 1] == c {
            return Some(at - 1);
        }
        at -= 1;
    }
    None
}

/// Whether `c` is white space, as Unicode defines it.
pub open spec fn is_space(c: char) -> bool {
    let code = c as u32;
    (0x09 <= code <= 0x0d) || code == 0x20 || code == 0x85 || code == 0xa0 || code == 0x1680 || (
    0x2000 <= code <= 0x200a) || code == 0x2028 || code == 0x2029 || code == 0x202f || code
        == 0x205f || code == 0x3000
}

/// Whether `c` is taken away when trimming: white space if `spaces` is on,
/// and `"` otherwise.
pub open spec fn is_dropped(c: char, spaces: bool) -> bool {
    if spaces {
        is_space(c)
    } else {
        c == '"'
    }
}

/// What is left of `text` once white space, or else `"`, is taken away at
/// both ends.
pub open spec fn trimmed(text: Seq<char>, spaces: bool) -> Seq<char>
    decreases text.len(),
{
    if text.len() == 0 {
        text
    } else if is_dropped(text.first(), spaces) {
        trimmed(text.drop_first(), spaces)
    } else if is_dropped(text.last(), spaces) {
        trimmed(text.drop_last(), spaces)
    } else {
        text
    }
}

/// Whether `c` is taken away when trimming.
pub fn drops(c: char, spaces: bool) -> (dropped: bool)
    ensures
        dropped == is_dropped(c, spaces),
{
    if spaces {
        let code = c as u32;
        (0x09 <= code && code <= 0x0d) || code == 0x20 || code == 0x85 || code == 0xa0 || code
            == 0x1680 || (0x2000 <= code && code <= 0x200a) || code == 0x2028 || code == 0x2029
            || code == 0x202f || code == 0x205f || code == 0x3000
    } else {
        c == '"'
    }
}

/// Finds what is left of `text[from..to]` once white space, or else `"`, is
/// taken away at both ends.
pub fn trim_range(text: &[char], from: usize, to: usize, spaces: bool) -> (kept: (usize, usize))
    requires
        from <= to <= text@.len(),
    ensures
        from <= kept.0 <= kept.1 <= to,
        text@.subrange(kept.0 as int, kept.1 as int) == trimmed(
            text@.subrange(from as int, to as int),
            spaces,
        ),
{
    let ghost whole = text@.subrange(from as int, to as int);
    let mut start = from;
    let mut end = to;
    while start < end && drops(text[start], spaces)
        invariant
            from <= start <= end <= to <= text@.len(),
            end == to,
            trimmed(whole, spaces) == trimmed(text@.subrange(start as int, end as int), spaces),
        decreases end - start,
    {
        proof {
            let now = text@.subrange(start as int, end as int);
            assert(now.first() == text@[start as int]);
            assert(now.drop_first() =~= text@.subrange(start + 1, end as int));
        }
        start += 1;
    }
    while start < end && drops(text[end - 1], spaces)
        invariant
            from <= start <= end <= to <= text@.len(),
            start < end ==> !is_dropped(text@[start as int], spaces),
            trimmed(whole, spaces) == trimmed(text@.subrange(start as int, end as int), spaces),
        decreases end - start,
    {
        proof {
            let now = text@.subrange(start as int, end as int);
            assert(now.first() == text@[start as int]);
            assert(now.last() == text@[end - 1]);
            assert(now.drop_last() =~= text@.subrange(start as int, end - 1));
        }
        end -= 1;
    }
    proof {
        let now = text@.subrange(start as int, end as int);
        if start < end {
            assert(now.first() == text@[start as int]);
            assert(now.last() == text@[end - 1]);
        }
        assert(trimmed(now, spaces) == now);
    }
    (start, end)
}

/// Whether two texts are the same, character by character.
pub fn same_text(first: &[char], second: &[char]) -> (same: bool)
    ensures
        same == (first@ == second@),
{
    if first.len() != second.len() {
        return false;
    }
    for i in 0..first.len()
        invariant
            first@.len() == second@.len(),
            forall|k: int| 0 <= k < i ==> first@[k] == second@[k],
    {
        if first[i] != second[i] {
            return false;
        }
    }
    assert(first@ =~= second@);
    true
}

} // verus!
