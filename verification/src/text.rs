//! Byte-level building blocks of the line protocol: separators, fields and
//! decimal numbers.

use vstd::prelude::*;

verus! {

/// The byte that separates the fields of a line.
pub const SPACE: u8 = 0x20;

/// The byte that ends a line.
pub const LINE_FEED: u8 = 0x0a;

/// The index of the first `byte` in `s` at or after `from`, or `s.len()` when
/// there is none.
pub open spec fn find_from(s: Seq<u8>, from: int, byte: u8) -> int
    recommends
        0 <= from,
    decreases s.len() - from,
{
    if from >= s.len() {
        s.len() as int
    } else if s[from] == byte {
        from
    } else {
        find_from(s, from + 1, byte)
    }
}

/// `find_from` stays inside the sequence and passes over no `byte`.
pub proof fn lemma_find_from(s: Seq<u8>, from: int, byte: u8)
    requires
        0 <= from <= s.len(),
    ensures
        from <= find_from(s, from, byte) <= s.len(),
        find_from(s, from, byte) < s.len() ==> s[find_from(s, from, byte)] == byte,
        forall|i: int| from <= i < find_from(s, from, byte) ==> s[i] != byte,
    decreases s.len() - from,
{
    if from < s.len() && s[from] != byte {
        lemma_find_from(s, from + 1, byte);
    }
}

/// The index that `find_from` returns is the only one with these properties.
pub proof fn lemma_find_from_is(s: Seq<u8>, from: int, byte: u8, at: int)
    requires
        0 <= from <= at <= s.len(),
        at < s.len() ==> s[at] == byte,
        forall|i: int| from <= i < at ==> s[i] != byte,
    ensures
        find_from(s, from, byte) == at,
    decreases at - from,
{
    if from < at {
        lemma_find_from_is(s, from + 1, byte, at);
    }
}

/// The start of the field that follows the field starting at `start`: one
/// past the next separator, if there is a separator.
pub open spec fn following(line: Seq<u8>, start: int) -> Option<int> {
    let end = find_from(line, start, SPACE);
    if end < line.len() {
        Some(end + 1)
    } else {
        None
    }
}

/// The index at which field number `k` of `line` starts. Fields are counted
/// from zero and separated by single spaces; `None` when the line has fewer
/// than `k` separators.
pub open spec fn field_start(line: Seq<u8>, k: nat) -> Option<int>
    decreases k,
{
    if k == 0 {
        Some(0int)
    } else {
        match field_start(line, (k - 1) as nat) {
            Some(start) => following(line, start),
            None => None,
        }
    }
}

/// Field number `k` of `line`: the bytes from its start up to the next
/// separator or the end of the line.
pub open spec fn field(line: Seq<u8>, k: nat) -> Option<Seq<u8>> {
    match field_start(line, k) {
        Some(start) => Some(line.subrange(start, find_from(line, start, SPACE))),
        None => None,
    }
}

/// Everything from the start of field number `k` to the end of the line.
pub open spec fn tail(line: Seq<u8>, k: nat) -> Option<Seq<u8>> {
    match field_start(line, k) {
        Some(start) => Some(line.skip(start)),
        None => None,
    }
}

/// Whether `b` is an ASCII decimal digit.
pub open spec fn is_digit(b: u8) -> bool {
    0x30 <= b <= 0x39
}

/// The value of one digit; zero for any other byte.
pub open spec fn digit_value(b: u8) -> nat {
    if is_digit(b) {
        (b - 0x30) as nat
    } else {
        0
    }
}

/// Whether `text` is a non-empty run of decimal digits.
pub open spec fn is_digits(text: Seq<u8>) -> bool {
    text.len() > 0 && forall|i: int| 0 <= i < text.len() ==> is_digit(#[trigger] text[i])
}

/// The number that the digits of `text` spell in base ten.
pub open spec fn decimal_value(text: Seq<u8>) -> nat
    decreases text.len(),
{
    if text.len() == 0 {
        0
    } else {
        decimal_value(text.drop_last()) * 10 + digit_value(text.last())
    }
}

/// The number that `text` spells, when `text` is a non-empty run of digits
/// whose value is at most `max`. Leading zeros are accepted.
pub open spec fn number(text: Seq<u8>, max: nat) -> Option<nat> {
    if is_digits(text) && decimal_value(text) <= max {
        Some(decimal_value(text))
    } else {
        None
    }
}

/// The number in field `k` of `line`, when the field exists and spells one.
pub open spec fn number_field(line: Seq<u8>, k: nat, max: nat) -> Option<nat> {
    match field(line, k) {
        Some(text) => number(text, max),
        None => None,
    }
}

/// The shortest decimal spelling of `n`.
pub open spec fn decimal(n: nat) -> Seq<u8>
    decreases n,
{
    if n < 10 {
        seq![(0x30 + n) as u8]
    } else {
        decimal(n / 10).push((0x30 + n % 10) as u8)
    }
}

/// A prefix of a digit string never spells more than the whole string.
pub proof fn lemma_decimal_value_prefix(text: Seq<u8>, n: int)
    requires
        0 <= n <= text.len(),
    ensures
        decimal_value(text.take(n)) <= decimal_value(text),
    decreases text.len() - n,
{
    if n == text.len() {
        assert(text.take(n) =~= text);
    } else {
        lemma_decimal_value_prefix(text, n + 1);
        let longer = text.take(n + 1);
        assert(longer.drop_last() =~= text.take(n));
    }
}

/// Reading back the spelling of a number gives the number: `decimal(n)` is a
/// run of digits with value `n`.
pub proof fn lemma_number_of_decimal(n: nat)
    ensures
        is_digits(decimal(n)),
        decimal_value(decimal(n)) == n,
        forall|max: nat| n <= max ==> number(decimal(n), max) == Some(n),
    decreases n,
{
    let text = decimal(n);
    if n < 10 {
        assert(text.drop_last().len() == 0);
        assert(decimal_value(text.drop_last()) == 0);
        assert(text.last() == (0x30 + n) as u8);
    } else {
        lemma_number_of_decimal(n / 10);
        assert(text.drop_last() =~= decimal(n / 10));
        assert(text.last() == (0x30 + n % 10) as u8);
        assert forall|i: int| 0 <= i < text.len() implies is_digit(#[trigger] text[i]) by {
            if i < text.len() - 1 {
                assert(text[i] == decimal(n / 10)[i]);
            }
        }
    }
}

/// Whether no byte of `bytes` is a line feed.
pub open spec fn unbroken(bytes: Seq<u8>) -> bool {
    forall|i: int| 0 <= i < bytes.len() ==> #[trigger] bytes[i] != LINE_FEED
}

/// Two texts without a line feed, put together with a separator, hold no
/// line feed.
pub proof fn lemma_unbroken_joined(a: Seq<u8>, b: Seq<u8>)
    requires
        unbroken(a),
        unbroken(b),
    ensures
        unbroken(joined(a, b)),
{
    let line = joined(a, b);
    assert forall|i: int| 0 <= i < line.len() implies #[trigger] line[i] != LINE_FEED by {
        if i < a.len() {
            assert(line[i] == a[i]);
        } else if i == a.len() {
            assert(line[i] == SPACE);
        } else {
            assert(line[i] == b[i - a.len() - 1]);
        }
    }
}

/// The spelling of a number holds no line feed.
pub proof fn lemma_decimal_unbroken(n: nat)
    ensures
        unbroken(decimal(n)),
{
    lemma_number_of_decimal(n);
    assert forall|i: int| 0 <= i < decimal(n).len() implies #[trigger] decimal(n)[i]
        != LINE_FEED by {
        assert(is_digit(decimal(n)[i]));
    }
}

/// Whether `text` can stand as one field: it holds no separator.
pub open spec fn is_field(text: Seq<u8>) -> bool {
    forall|i: int| 0 <= i < text.len() ==> #[trigger] text[i] != SPACE
}

/// `head` and `rest` with one separator between them.
pub open spec fn joined(head: Seq<u8>, rest: Seq<u8>) -> Seq<u8> {
    head + seq![SPACE] + rest
}

/// The spelling of a number is one field.
pub proof fn lemma_decimal_is_field(n: nat)
    ensures
        is_field(decimal(n)),
{
    lemma_number_of_decimal(n);
    assert forall|i: int| 0 <= i < decimal(n).len() implies #[trigger] decimal(n)[i] != SPACE by {
        assert(is_digit(decimal(n)[i]));
    }
}

/// Searching behind a prefix is searching without it, moved by its length.
pub proof fn lemma_find_from_shift(prefix: Seq<u8>, s: Seq<u8>, from: int, byte: u8)
    requires
        0 <= from <= s.len(),
    ensures
        find_from(prefix + s, prefix.len() + from, byte) == prefix.len() + find_from(
            s,
            from,
            byte,
        ),
    decreases s.len() - from,
{
    let line = prefix + s;
    if from < s.len() {
        assert(line[prefix.len() + from] == s[from]);
        if s[from] != byte {
            lemma_find_from_shift(prefix, s, from + 1, byte);
        }
    }
}

/// A field starts inside the line or right at its end.
pub proof fn lemma_field_start_bounds(line: Seq<u8>, k: nat)
    ensures
        field_start(line, k) matches Some(start) ==> 0 <= start <= line.len(),
    decreases k,
{
    if k > 0 {
        lemma_field_start_bounds(line, (k - 1) as nat);
        if let Some(start) = field_start(line, (k - 1) as nat) {
            lemma_find_from(line, start, SPACE);
        }
    }
}

/// The fields of a line that was put together from a first field and a
/// rest: field 0 is the first field, and field `k + 1` of the line is field
/// `k` of the rest.
pub proof fn lemma_fields_of_joined(head: Seq<u8>, rest: Seq<u8>, k: nat)
    requires
        is_field(head),
    ensures
        find_from(joined(head, rest), 0, SPACE) == head.len(),
        field(joined(head, rest), 0) == Some(head),
        field_start(joined(head, rest), k + 1) == match field_start(rest, k) {
            Some(start) => Some(head.len() + 1 + start),
            None => None,
        },
        field(joined(head, rest), k + 1) == field(rest, k),
        tail(joined(head, rest), k + 1) == tail(rest, k),
    decreases k,
{
    let line = joined(head, rest);
    let prefix = head + seq![SPACE];
    assert(line =~= prefix + rest);
    assert(line[head.len() as int] == SPACE);
    assert forall|i: int| 0 <= i < head.len() implies line[i] != SPACE by {
        assert(line[i] == head[i]);
    }
    lemma_find_from_is(line, 0, SPACE, head.len() as int);
    assert(line.subrange(0, head.len() as int) =~= head);
    assert(field_start(line, 0) == Some(0int));
    if k == 0 {
        assert(field_start(line, 1) == following(line, 0));
        assert(field_start(rest, 0) == Some(0int));
    } else {
        lemma_fields_of_joined(head, rest, (k - 1) as nat);
        lemma_field_start_bounds(rest, (k - 1) as nat);
        if let Some(before) = field_start(rest, (k - 1) as nat) {
            lemma_find_from_shift(prefix, rest, before, SPACE);
        }
    }
    lemma_field_start_bounds(rest, k);
    if let Some(start) = field_start(rest, k) {
        lemma_find_from_shift(prefix, rest, start, SPACE);
        lemma_find_from(rest, start, SPACE);
        let end = find_from(rest, start, SPACE);
        assert(line.subrange(prefix.len() + start, prefix.len() + end) =~= rest.subrange(
            start,
            end,
        ));
        assert(line.skip(prefix.len() + start) =~= rest.skip(start));
    }
}

/// A text without a separator is a line of one field.
pub proof fn lemma_single_field(text: Seq<u8>, k: nat)
    requires
        is_field(text),
    ensures
        find_from(text, 0, SPACE) == text.len(),
        field(text, 0) == Some(text),
        tail(text, 0) == Some(text),
        k > 0 ==> field_start(text, k) is None,
    decreases k,
{
    lemma_find_from_is(text, 0, SPACE, text.len() as int);
    assert(text.subrange(0, text.len() as int) =~= text);
    assert(text.skip(0) =~= text);
    assert(field_start(text, 0) == Some(0int));
    if k > 1 {
        lemma_single_field(text, (k - 1) as nat);
    } else if k == 1 {
        assert(field_start(text, 1) == following(text, 0));
    }
}

/// Every field of a line put together from a first field and a rest, in one
/// statement over all field numbers.
pub proof fn lemma_joined(head: Seq<u8>, rest: Seq<u8>)
    requires
        is_field(head),
    ensures
        find_from(joined(head, rest), 0, SPACE) == head.len(),
        joined(head, rest).subrange(0, head.len() as int) == head,
        field(joined(head, rest), 0) == Some(head),
        forall|k: nat| #[trigger] field(rest, k) == field(joined(head, rest), k + 1),
        forall|k: nat| #[trigger] tail(rest, k) == tail(joined(head, rest), k + 1),
{
    lemma_fields_of_joined(head, rest, 0);
    assert(field_start(joined(head, rest), 0) == Some(0int));
    assert forall|k: nat| #[trigger] field(rest, k) == field(joined(head, rest), k + 1) by {
        lemma_fields_of_joined(head, rest, k);
    }
    assert forall|k: nat| #[trigger] tail(rest, k) == tail(joined(head, rest), k + 1) by {
        lemma_fields_of_joined(head, rest, k);
    }
}

/// A number's spelling as the last field of a line: it reads back as the
/// number, and no field follows it.
pub proof fn lemma_last_number(n: nat, max: nat)
    requires
        n <= max,
    ensures
        is_field(decimal(n)),
        number_field(decimal(n), 0, max) == Some(n),
        forall|k: nat| k > 0 ==> (#[trigger] field(decimal(n), k)) is None,
{
    lemma_decimal_is_field(n);
    lemma_number_of_decimal(n);
    lemma_single_field(decimal(n), 0);
    assert forall|k: nat| k > 0 implies (#[trigger] field(decimal(n), k)) is None by {
        lemma_single_field(decimal(n), k);
    }
}

/// A number's spelling as the first field of a line reads back as the
/// number.
pub proof fn lemma_first_number(n: nat, max: nat, rest: Seq<u8>)
    requires
        n <= max,
    ensures
        is_field(decimal(n)),
        number_field(joined(decimal(n), rest), 0, max) == Some(n),
        forall|k: nat| #[trigger] field(rest, k) == field(joined(decimal(n), rest), k + 1),
        forall|k: nat| #[trigger] tail(rest, k) == tail(joined(decimal(n), rest), k + 1),
{
    lemma_decimal_is_field(n);
    lemma_number_of_decimal(n);
    lemma_joined(decimal(n), rest);
}

/// The index of the first `byte` in `line` at or after `from`, or the length
/// of `line` when there is none.
pub fn find(line: &[u8], from: usize, byte: u8) -> (at: usize)
    requires
        from <= line.len(),
    ensures
        at == find_from(line@, from as int, byte),
        from <= at <= line.len(),
        at < line.len() ==> line@[at as int] == byte,
        forall|i: int| from <= i < at ==> line@[i] != byte,
{
    proof {
        lemma_find_from(line@, from as int, byte);
    }
    let mut i: usize = from;
    while i < line.len() && line[i] != byte
        invariant
            from <= i <= line.len(),
            find_from(line@, from as int, byte) == find_from(line@, i as int, byte),
        decreases line.len() - i,
    {
        i += 1;
    }
    i
}

/// Whether the bytes of `line` from `from` up to `to` are exactly `word`.
pub fn range_is(line: &[u8], from: usize, to: usize, word: &[u8]) -> (same: bool)
    requires
        from <= to <= line.len(),
    ensures
        same == (line@.subrange(from as int, to as int) == word@),
{
    let ghost part = line@.subrange(from as int, to as int);
    if to - from != word.len() {
        return false;
    }
    let mut i: usize = 0;
    while i < word.len()
        invariant
            from <= to <= line.len(),
            to - from == word.len(),
            i <= word.len(),
            part == line@.subrange(from as int, to as int),
            forall|j: int| 0 <= j < i ==> part[j] == word@[j],
        decreases word.len() - i,
    {
        if line[from + i] != word[i] {
            assert(part[i as int] != word@[i as int]);
            return false;
        }
        i += 1;
    }
    assert(part =~= word@);
    true
}

/// A copy of the bytes of `line` from `from` up to `to`.
pub fn copy_range(line: &[u8], from: usize, to: usize) -> (copy: Vec<u8>)
    requires
        from <= to <= line.len(),
    ensures
        copy@ == line@.subrange(from as int, to as int),
{
    let mut out: Vec<u8> = Vec::new();
    let mut i: usize = from;
    while i < to
        invariant
            from <= i <= to <= line.len(),
            out@ == line@.subrange(from as int, i as int),
        decreases to - i,
    {
        out.push(line[i]);
        assert(out@ =~= line@.subrange(from as int, i + 1));
        i += 1;
    }
    out
}

/// Appends `bytes` to `out`.
pub fn append(out: &mut Vec<u8>, bytes: &[u8])
    ensures
        final(out)@ == old(out)@ + bytes@,
{
    let mut i: usize = 0;
    assert(out@ =~= old(out)@ + bytes@.take(0));
    while i < bytes.len()
        invariant
            i <= bytes.len(),
            out@ == old(out)@ + bytes@.take(i as int),
        decreases bytes.len() - i,
    {
        out.push(bytes[i]);
        assert(out@ =~= old(out)@ + bytes@.take(i + 1));
        i += 1;
    }
    assert(bytes@.take(bytes.len() as int) =~= bytes@);
}

/// The number that the bytes of `line` from `from` up to `to` spell, when they
/// are a non-empty run of digits whose value is at most `max`.
pub fn parse_number(line: &[u8], from: usize, to: usize, max: u64) -> (value: Option<u64>)
    requires
        from <= to <= line.len(),
    ensures
        value matches Some(v) ==> v <= max,
        number(line@.subrange(from as int, to as int), max as nat) == match value {
            Some(v) => Some(v as nat),
            None => None,
        },
{
    let ghost text = line@.subrange(from as int, to as int);
    if from == to {
        return None;
    }
    let mut acc: u64 = 0;
    let mut i: usize = from;
    assert(text.take(0) =~= Seq::<u8>::empty());
    while i < to
        invariant
            from <= i <= to <= line.len(),
            from < to,
            text == line@.subrange(from as int, to as int),
            acc == decimal_value(text.take(i - from)),
            acc <= max,
            forall|j: int| 0 <= j < i - from ==> is_digit(#[trigger] text[j]),
        decreases to - i,
    {
        let b = line[i];
        assert(text[i - from] == b);
        if b < 0x30 || b > 0x39 {
            return None;
        }
        let d: u64 = (b - 0x30) as u64;
        proof {
            let longer = text.take(i - from + 1);
            assert(longer.drop_last() =~= text.take(i - from));
            assert(longer.last() == b);
            assert(decimal_value(longer) == acc * 10 + d);
            lemma_decimal_value_prefix(text, i - from + 1);
        }
        if d > max || acc > (max - d) / 10 {
            return None;
        }
        acc = acc * 10 + d;
        i += 1;
    }
    assert(text.take(to - from) =~= text);
    Some(acc)
}

/// Appends the shortest decimal spelling of `n` to `out`.
pub fn push_decimal(out: &mut Vec<u8>, n: u64)
    ensures
        final(out)@ == old(out)@ + decimal(n as nat),
    decreases n,
{
    if n >= 10 {
        push_decimal(out, n / 10);
    }
    out.push(0x30 + (n % 10) as u8);
    assert(out@ =~= old(out)@ + decimal(n as nat));
}

} // verus!
