//! MIDI commands: the live text payload format, and the per-tick replay and
//! state tracking of commands.
//!
//! Command values are carried as a type parameter: the library never
//! computes with them, it stores, orders and hands them back.

use vstd::prelude::*;

use crate::text::{
    all_space, chars_of, lemma_trim_ignores_outer_space, unicode_white_space, find_from, is_space, range_equals, split_comma_bounds, split_commas,
    split_commas_from, str_chars, string_of, trim, trim_bounds, trim_start, utf8_text,
};

verus! {

/// MIDI command category.
#[derive(Clone, Copy, Debug, PartialEq, Eq, Structural)]
pub enum MidiCommandKind {
    /// Note on/off command.
    Note,
    /// Continuous controller command.
    ControlChange,
    /// Program change command.
    Program,
}

/// Normalized MIDI command; `V` is the type of its value.
#[derive(Clone, Copy, Debug, PartialEq)]
pub struct MidiCommand<V> {
    /// MIDI device index.
    pub device_index: u8,
    /// Command kind.
    pub kind: MidiCommandKind,
    /// Note/controller/program index.
    pub index: u8,
    /// The value (normalized to `[0.0, 1.0]` once it is a number).
    pub value: V,
}

/// `c` is one of `0`..`9`.
pub open spec fn is_ascii_digit(c: char) -> bool {
    0x30 <= c as u32 <= 0x39
}

/// The number the decimal digits `ds` spell.
pub open spec fn digits_value(ds: Seq<char>) -> int
    decreases ds.len(),
{
    if ds.len() == 0 {
        0
    } else {
        digits_value(ds.drop_last()) * 10 + (ds.last() as u32 - 0x30)
    }
}

/// Every character of `ds` is a decimal digit.
pub open spec fn all_digits(ds: Seq<char>) -> bool {
    forall|i: int| 0 <= i < ds.len() ==> is_ascii_digit(#[trigger] ds[i])
}

/// `t` without one leading `+`, if it has one.
pub open spec fn unsigned_digits(t: Seq<char>) -> Seq<char> {
    if t.len() > 0 && t[0] == '+' {
        t.drop_first()
    } else {
        t
    }
}

/// `u8::from_str`: an optional `+`, then one or more decimal digits whose
/// value fits in a `u8`.
pub open spec fn parse_u8_text(t: Seq<char>) -> Option<u8> {
    let digits = unsigned_digits(t);
    if digits.len() > 0 && all_digits(digits) && digits_value(digits) <= 255 {
        Some(digits_value(digits) as u8)
    } else {
        None
    }
}

/// The command kind a keyword names.
pub open spec fn midi_kind(t: Seq<char>) -> Option<MidiCommandKind> {
    if t == "note"@ {
        Some(MidiCommandKind::Note)
    } else if t == "cc"@ || t == "control_change"@ {
        Some(MidiCommandKind::ControlChange)
    } else if t == "program"@ {
        Some(MidiCommandKind::Program)
    } else {
        None
    }
}

/// The trimmed comma-separated fields of the trimmed payload text.
pub open spec fn midi_parts(text: Seq<char>) -> Seq<Seq<char>> {
    split_commas(trim(text)).map_values(|p: Seq<char>| trim(p))
}

/// A command from exactly three fields: kind keyword, index, value.
pub open spec fn command_from_fields(device: u8, fields: Seq<Seq<char>>) -> Option<
    MidiCommand<Seq<char>>,
> {
    if fields.len() != 3 {
        None
    } else {
        match (midi_kind(fields[0]), parse_u8_text(fields[1])) {
            (Some(kind), Some(index)) => Some(
                MidiCommand { device_index: device, kind, index, value: fields[2] },
            ),
            _ => None,
        }
    }
}

/// The command a payload text describes, its value still as text:
/// `kind,index,value`, or `device,<device>,kind,index,value`.
pub open spec fn parse_midi_text(text: Seq<char>) -> Option<MidiCommand<Seq<char>>> {
    let parts = midi_parts(text);
    if parts.len() == 0 {
        None
    } else if parts[0] == "device"@ {
        if parts.len() < 2 {
            None
        } else {
            match parse_u8_text(parts[1]) {
                None => None,
                Some(device) => command_from_fields(device, parts.skip(2)),
            }
        }
    } else {
        command_from_fields(0, parts)
    }
}

/// A parsed command with its value text taken by its characters.
pub open spec fn text_command_view(command: MidiCommand<String>) -> MidiCommand<Seq<char>> {
    MidiCommand {
        device_index: command.device_index,
        kind: command.kind,
        index: command.index,
        value: command.value@,
    }
}

proof fn lemma_digits_value_grows(ds: Seq<char>, k: int)
    requires
        0 <= k <= ds.len(),
        forall|i: int| 0 <= i < ds.len() ==> is_ascii_digit(#[trigger] ds[i]),
    ensures
        0 <= digits_value(ds.take(k)) <= digits_value(ds),
    decreases ds.len(),
{
    if ds.len() > 0 {
        let init = ds.drop_last();
        assert forall|i: int| 0 <= i < init.len() implies is_ascii_digit(#[trigger] init[i]) by {
            assert(init[i] == ds[i]);
        }
        if k == ds.len() {
            assert(ds.take(k) =~= ds);
            lemma_digits_value_grows(init, init.len() as int);
            assert(init.take(init.len() as int) =~= init);
        } else {
            lemma_digits_value_grows(init, k);
            assert(init.take(k) =~= ds.take(k));
            lemma_digits_value_grows(init, init.len() as int);
            assert(init.take(init.len() as int) =~= init);
            assert(is_ascii_digit(ds[ds.len() - 1]));
        }
    } else {
        assert(ds.take(k) =~= ds);
    }
}

/// `u8::from_str` on `chars[from..to]`.
fn parse_u8_range(chars: &Vec<char>, from: usize, to: usize) -> (value: Option<u8>)
    requires
        from <= to <= chars@.len(),
    ensures
        value == parse_u8_text(chars@.subrange(from as int, to as int)),
{
    let ghost t = chars@.subrange(from as int, to as int);
    let mut i: usize = from;
    if i < to && chars[i] == '+' {
        i += 1;
    }
    let ghost digits = chars@.subrange(i as int, to as int);
    assert(digits =~= unsigned_digits(t));
    if i == to {
        return None;
    }
    let start = i;
    let mut value: u32 = 0;
    while i < to
        invariant
            from <= start <= i <= to <= chars@.len(),
            t == chars@.subrange(from as int, to as int),
            digits == unsigned_digits(t),
            digits == chars@.subrange(start as int, to as int),
            digits.len() > 0,
            forall|m: int| start <= m < i ==> is_ascii_digit(#[trigger] chars@[m]),
            value == digits_value(chars@.subrange(start as int, i as int)),
            value <= 255,
        decreases to - i,
    {
        let c = chars[i];
        let code = c as u32;
        if code < 0x30 || code > 0x39 {
            assert(!is_ascii_digit(digits[i - start]));
            assert(!all_digits(digits));
            assert(parse_u8_text(t) is None);
            return None;
        }
        let ghost prefix = chars@.subrange(start as int, i + 1);
        assert(prefix.drop_last() =~= chars@.subrange(start as int, i as int));
        value = value * 10 + (code - 0x30);
        if value > 255 {
            proof {
                assert forall|m: int| 0 <= m < prefix.len() implies is_ascii_digit(
                    #[trigger] prefix[m],
                ) by {
                    assert(prefix[m] == chars@[start + m]);
                }
                if all_digits(digits) {
                    lemma_digits_value_grows(digits, prefix.len() as int);
                    assert(digits.take(prefix.len() as int) =~= prefix);
                    assert(digits_value(digits) > 255);
                }
                assert(parse_u8_text(t) is None);
            }
            return None;
        }
        i += 1;
    }
    assert(chars@.subrange(start as int, to as int) =~= digits);
    assert forall|m: int| 0 <= m < digits.len() implies is_ascii_digit(#[trigger] digits[m]) by {
        assert(digits[m] == chars@[start + m]);
    }
    assert(all_digits(digits));
    Some(value as u8)
}

fn kind_of_range(chars: &Vec<char>, from: usize, to: usize) -> (kind: Option<MidiCommandKind>)
    requires
        from <= to <= chars@.len(),
    ensures
        kind == midi_kind(chars@.subrange(from as int, to as int)),
{
    if range_equals(chars, from, to, &str_chars("note")) {
        Some(MidiCommandKind::Note)
    } else if range_equals(chars, from, to, &str_chars("cc")) || range_equals(
        chars,
        from,
        to,
        &str_chars("control_change"),
    ) {
        Some(MidiCommandKind::ControlChange)
    } else if range_equals(chars, from, to, &str_chars("program")) {
        Some(MidiCommandKind::Program)
    } else {
        None
    }
}

/// Parse one live MIDI command payload, keeping its value as text.
///
/// Accepted shape: `note,64,1.0`, `cc,1,0.5`, `program,3,1.0`, or
/// `device,2,note,64,1.0`: UTF-8 text whose comma-separated fields, each
/// trimmed of whitespace, are an optional `device` keyword with a device
/// index, then a kind keyword (`note`, `cc`, `control_change`, `program`),
/// an index and a value. Indexes are `u8` numbers; the device defaults to 0.
pub fn parse_midi_payload(payload: &[u8]) -> (command: Option<MidiCommand<String>>)
    ensures
        command matches Some(c) ==> vstd::utf8::valid_utf8(payload@) && parse_midi_text(
            vstd::utf8::decode_utf8(payload@),
        ) == Some(text_command_view(c)),
        command is None ==> !vstd::utf8::valid_utf8(payload@) || parse_midi_text(
            vstd::utf8::decode_utf8(payload@),
        ) is None,
{
    let text = match utf8_text(payload) {
        None => {
            return None;
        },
        Some(text) => text,
    };
    let chars = str_chars(text);
    let (a, b) = trim_bounds(&chars, 0, chars.len());
    assert(chars@.subrange(0, chars@.len() as int) =~= chars@);
    let trimmed = chars_of(&chars, a, b);
    let pieces = split_comma_bounds(&trimmed);
    let ghost parts = midi_parts(text@);
    let mut bounds: Vec<(usize, usize)> = Vec::new();
    let mut k: usize = 0;
    while k < pieces.len()
        invariant
            trimmed@ == trim(text@),
            pieces@.len() == split_commas(trimmed@).len(),
            forall|m: int|
                0 <= m < pieces@.len() ==> #[trigger] pieces@[m].0 <= pieces@[m].1 <= trimmed@.len()
                    && trimmed@.subrange(pieces@[m].0 as int, pieces@[m].1 as int) == split_commas(
                    trimmed@,
                )[m],
            parts == midi_parts(text@),
            k <= pieces@.len(),
            bounds@.len() == k,
            forall|m: int|
                0 <= m < k ==> #[trigger] bounds@[m].0 <= bounds@[m].1 <= trimmed@.len()
                    && trimmed@.subrange(bounds@[m].0 as int, bounds@[m].1 as int) == parts[m],
        decreases pieces@.len() - k,
    {
        let (s, e) = pieces[k];
        let (x, y) = trim_bounds(&trimmed, s, e);
        bounds.push((x, y));
        k += 1;
    }
    assert(bounds@.len() == parts.len());
    if bounds.len() == 0 {
        return None;
    }
    let mut device: u8 = 0;
    let mut first: usize = 0;
    if range_equals(&trimmed, bounds[0].0, bounds[0].1, &str_chars("device")) {
        if bounds.len() < 2 {
            return None;
        }
        match parse_u8_range(&trimmed, bounds[1].0, bounds[1].1) {
            None => {
                return None;
            },
            Some(d) => {
                device = d;
                first = 2;
            },
        }
    }
    let ghost fields = parts.skip(first as int);
    if bounds.len() - first != 3 {
        return None;
    }
    assert(fields[0] == parts[first as int]);
    assert(fields[1] == parts[first + 1]);
    assert(fields[2] == parts[first + 2]);
    let kind = match kind_of_range(&trimmed, bounds[first].0, bounds[first].1) {
        None => {
            return None;
        },
        Some(kind) => kind,
    };
    let index = match parse_u8_range(&trimmed, bounds[first + 1].0, bounds[first + 1].1) {
        None => {
            return None;
        },
        Some(index) => index,
    };
    let value = string_of(&trimmed, bounds[first + 2].0, bounds[first + 2].1);
    Some(MidiCommand { device_index: device, kind, index, value })
}

/// The option a discrete knob selects, given how many whole steps of size
/// `1 / (num_possible_values + 2)` its value spans: the first step selects
/// nothing (option 0), each further step the next option, up to the last.
pub fn discrete_knob_slot(num_steps: u8, num_possible_values: u8) -> (slot: u8)
    ensures
        num_possible_values == 0 || num_steps == 0 ==> slot == 0,
        num_possible_values > 0 && num_steps > 0 ==> slot == if num_steps <= num_possible_values {
            num_steps - 1
        } else {
            num_possible_values - 1
        },
{
    if num_possible_values == 0 || num_steps == 0 {
        return 0;
    }
    let below = num_steps - 1;
    if below < num_possible_values - 1 {
        below
    } else {
        num_possible_values - 1
    }
}

} // verus!

verus! {

/// The fields joined with commas between them.
pub open spec fn join_commas(fields: Seq<Seq<char>>) -> Seq<char>
    decreases fields.len(),
{
    if fields.len() == 0 {
        Seq::empty()
    } else if fields.len() == 1 {
        fields[0]
    } else {
        fields[0] + seq![','] + join_commas(fields.drop_first())
    }
}

/// `field` holds no comma.
pub open spec fn comma_free(field: Seq<char>) -> bool {
    forall|i: int| 0 <= i < field.len() ==> field[i] != ','
}

/// `field` is non-empty and neither starts nor ends with whitespace.
pub open spec fn trimmed_field(field: Seq<char>) -> bool {
    field.len() > 0 && !is_space(field[0]) && !is_space(field.last())
}

proof fn lemma_trim_keeps(s: Seq<char>)
    requires
        trimmed_field(s),
    ensures
        trim(s) == s,
{
    assert(trim_start(s) == s);
}

proof fn lemma_find_comma(s: Seq<char>, start: int, i: int)
    requires
        0 <= start <= i < s.len(),
        s[i] == ',',
        forall|j: int| start <= j < i ==> s[j] != ',',
    ensures
        find_from(s, seq![','], start) == Some(i),
    decreases i - start,
{
    if start == i {
        assert(s.subrange(start, start + 1) =~= seq![',']);
    } else {
        assert(s.subrange(start, start + 1)[0] != ',');
        assert(s.subrange(start, start + 1) != seq![',']);
        lemma_find_comma(s, start + 1, i);
    }
}

proof fn lemma_no_comma(s: Seq<char>, start: int)
    requires
        0 <= start <= s.len(),
        forall|j: int| start <= j < s.len() ==> s[j] != ',',
    ensures
        find_from(s, seq![','], start) is None,
    decreases s.len() - start,
{
    if start + 1 <= s.len() {
        assert(s.subrange(start, start + 1)[0] != ',');
        assert(s.subrange(start, start + 1) != seq![',']);
        lemma_no_comma(s, start + 1);
    }
}

proof fn lemma_split_join(s: Seq<char>, start: int, fields: Seq<Seq<char>>)
    requires
        0 <= start <= s.len(),
        fields.len() > 0,
        forall|k: int| 0 <= k < fields.len() ==> comma_free(#[trigger] fields[k]),
        s.skip(start) == join_commas(fields),
    ensures
        split_commas_from(s, start) == fields,
    decreases fields.len(),
{
    let first = fields[0];
    if fields.len() == 1 {
        assert forall|j: int| start <= j < s.len() implies s[j] != ',' by {
            assert(s[j] == s.skip(start)[j - start]);
        }
        lemma_no_comma(s, start);
        assert(s.subrange(start, s.len() as int) =~= first);
        assert(split_commas_from(s, start) =~= fields);
    } else {
        let rest = fields.drop_first();
        let cut = start + first.len();
        assert(s.skip(start) == first + seq![','] + join_commas(rest));
        assert forall|j: int| start <= j < cut implies s[j] != ',' by {
            assert(s[j] == s.skip(start)[j - start]);
            assert(comma_free(fields[0]));
        }
        assert(s[cut] == s.skip(start)[first.len() as int]);
        lemma_find_comma(s, start, cut);
        let tail = join_commas(rest);
        assert(s.skip(start).len() == first.len() + 1 + tail.len());
        assert forall|j: int| 0 <= j < tail.len() implies #[trigger] s.skip(cut + 1)[j] == tail[j] by {
            assert(s.skip(cut + 1)[j] == s[cut + 1 + j]);
            assert(s[cut + 1 + j] == s.skip(start)[first.len() + 1 + j]);
            assert((first + seq![','] + tail)[first.len() + 1 + j] == tail[j]);
        }
        assert(s.skip(cut + 1) =~= tail);
        assert forall|k: int| 0 <= k < rest.len() implies comma_free(#[trigger] rest[k]) by {
            assert(rest[k] == fields[k + 1]);
        }
        lemma_split_join(s, cut + 1, rest);
        assert(s.subrange(start, cut) =~= first);
        assert(split_commas_from(s, start) =~= fields);
    }
}

proof fn lemma_join_trimmed(fields: Seq<Seq<char>>)
    requires
        fields.len() > 0,
        forall|k: int| 0 <= k < fields.len() ==> trimmed_field(#[trigger] fields[k]),
    ensures
        join_commas(fields).len() > 0,
        join_commas(fields)[0] == fields[0][0],
        join_commas(fields).last() == fields.last().last(),
    decreases fields.len(),
{
    if fields.len() > 1 {
        let rest = fields.drop_first();
        assert forall|k: int| 0 <= k < rest.len() implies trimmed_field(#[trigger] rest[k]) by {
            assert(rest[k] == fields[k + 1]);
        }
        lemma_join_trimmed(rest);
        assert(trimmed_field(fields[0]));
    }
}

/// A text made of trimmed, comma-free fields joined by commas has exactly
/// those fields.
proof fn lemma_parts_of_join(fields: Seq<Seq<char>>)
    requires
        fields.len() > 0,
        forall|k: int|
            0 <= k < fields.len() ==> trimmed_field(#[trigger] fields[k]) && comma_free(
                fields[k],
            ),
    ensures
        midi_parts(join_commas(fields)) == fields,
{
    let text = join_commas(fields);
    lemma_join_trimmed(fields);
    assert(trimmed_field(fields[0]));
    assert(trimmed_field(fields.last()));
    lemma_trim_keeps(text);
    assert(text.skip(0) =~= text);
    lemma_split_join(text, 0, fields);
    assert forall|k: int| 0 <= k < fields.len() implies trim(#[trigger] fields[k]) == fields[k] by {
        lemma_trim_keeps(fields[k]);
    }
    assert(midi_parts(text) =~= fields);
}

proof fn lemma_decimal_parses(n: nat)
    requires
        n <= 255,
    ensures
        trimmed_field(crate::midi_state::decimal(n)),
        comma_free(crate::midi_state::decimal(n)),
        parse_u8_text(crate::midi_state::decimal(n)) == Some(n as u8),
    decreases n,
{
    let d = crate::midi_state::decimal(n);
    lemma_decimal_digits(n);
    assert(unsigned_digits(d) == d);
}

proof fn lemma_decimal_digits(n: nat)
    ensures
        crate::midi_state::decimal(n).len() > 0,
        all_digits(crate::midi_state::decimal(n)),
        digits_value(crate::midi_state::decimal(n)) == n,
    decreases n,
{
    let d = crate::midi_state::decimal(n);
    if n >= 10 {
        lemma_decimal_digits(n / 10);
        let init = crate::midi_state::decimal(n / 10);
        lemma_digit_char((n % 10) as int);
        assert(d.drop_last() =~= init);
        assert(d.last() == crate::midi_state::digit_char((n % 10) as int));
        assert forall|i: int| 0 <= i < d.len() implies is_ascii_digit(#[trigger] d[i]) by {
            if i < init.len() {
                assert(d[i] == init[i]);
            }
        }
        assert(digits_value(d) == digits_value(init) * 10 + (d.last() as u32 - 0x30));
        assert(digits_value(init) == n / 10);
        assert(d.last() as u32 - 0x30 == n % 10);
        assert(n == (n / 10) * 10 + n % 10);
    } else {
        lemma_digit_char(n as int);
        assert(d.drop_last() =~= Seq::<char>::empty());
        assert(digits_value(d) == digits_value(d.drop_last()) * 10 + (d.last() as u32 - 0x30));
        assert(digits_value(Seq::<char>::empty()) == 0);
    }
}

proof fn lemma_digit_char(x: int)
    requires
        0 <= x < 10,
    ensures
        crate::midi_state::digit_char(x) as u32 == 0x30 + x,
{
    let b: u8 = (0x30 + x) as u8;
    assert(b == 0x30 + x);
    assert((b as char) as u32 == b);
}

/// The payload shapes are accepted as documented: `kind,index,value` and
/// `device,<device>,kind,index,value`, with `kind` one of the keywords,
/// indexes written in decimal and a value without commas or surrounding
/// whitespace, parse to that command (device 0 when it is not given). The
/// kind keywords are `note`, `cc` and `control_change`, and `program`.
pub proof fn lemma_documented_shapes_parse(
    kind_word: Seq<char>,
    device: u8,
    index: u8,
    value: Seq<char>,
)
    requires
        midi_kind(kind_word) is Some,
        trimmed_field(value),
        comma_free(value),
    ensures
        midi_kind("note"@) == Some(MidiCommandKind::Note),
        midi_kind("cc"@) == Some(MidiCommandKind::ControlChange),
        midi_kind("control_change"@) == Some(MidiCommandKind::ControlChange),
        midi_kind("program"@) == Some(MidiCommandKind::Program),
        parse_midi_text(join_commas(seq![kind_word, crate::midi_state::decimal(index as nat), value]))
            == Some(
            MidiCommand { device_index: 0, kind: midi_kind(kind_word).unwrap(), index, value },
        ),
        parse_midi_text(
            join_commas(
                seq![
                    "device"@,
                    crate::midi_state::decimal(device as nat),
                    kind_word,
                    crate::midi_state::decimal(index as nat),
                    value,
                ],
            ),
        ) == Some(
            MidiCommand {
                device_index: device,
                kind: midi_kind(kind_word).unwrap(),
                index,
                value,
            },
        ),
{
    reveal_strlit("note");
    reveal_strlit("cc");
    reveal_strlit("control_change");
    reveal_strlit("program");
    reveal_strlit("device");
    assert("note"@.len() == 4 && "cc"@.len() == 2 && "control_change"@.len() == 14
        && "program"@.len() == 7);
    let idx = crate::midi_state::decimal(index as nat);
    let dev = crate::midi_state::decimal(device as nat);
    lemma_decimal_parses(index as nat);
    lemma_decimal_parses(device as nat);
    assert(trimmed_field(kind_word) && comma_free(kind_word));
    assert(kind_word != "device"@);
    assert(trimmed_field("device"@) && comma_free("device"@));
    let short = seq![kind_word, idx, value];
    assert forall|k: int| 0 <= k < short.len() implies trimmed_field(#[trigger] short[k])
        && comma_free(short[k]) by {
        if k == 0 {
        } else if k == 1 {
        } else {
        }
    }
    lemma_parts_of_join(short);
    let long = seq!["device"@, dev, kind_word, idx, value];
    assert forall|k: int| 0 <= k < long.len() implies trimmed_field(#[trigger] long[k])
        && comma_free(long[k]) by {
        if k == 0 {
        } else if k == 1 {
        } else if k == 2 {
        } else if k == 3 {
        } else {
        }
    }
    lemma_parts_of_join(long);
    assert(long.skip(2) =~= short);
}

/// Whitespace around a payload's text does not change the command it
/// describes: Unicode `White_Space` before and after it, such as the `\r\n`
/// that ends a line, is ignored.
pub proof fn lemma_payload_padding_ignored(before: Seq<char>, text: Seq<char>, after: Seq<char>)
    requires
        forall|k: int| 0 <= k < before.len() ==> unicode_white_space(#[trigger] before[k]),
        forall|k: int| 0 <= k < after.len() ==> unicode_white_space(#[trigger] after[k]),
    ensures
        parse_midi_text(before + text + after) == parse_midi_text(text),
        parse_midi_text(text + "\r\n"@) == parse_midi_text(text),
{
    assert(all_space(before));
    assert(all_space(after));
    lemma_trim_ignores_outer_space(before, text, after);
    assert(midi_parts(before + text + after) == midi_parts(text));
    reveal_strlit("\r\n");
    let crlf = "\r\n"@;
    assert(all_space(crlf));
    assert(Seq::<char>::empty() + text + crlf =~= text + crlf);
    lemma_trim_ignores_outer_space(Seq::<char>::empty(), text, crlf);
    assert(midi_parts(text + crlf) == midi_parts(text));
}

/// Index fields read as `u8::from_str` reads them: a number written in
/// decimal, with or without a leading `+`, is that number when it is at most
/// 255 and is refused above; an empty field or a lone `+` is refused.
pub proof fn lemma_u8_fields(n: nat)
    ensures
        n <= 255 ==> parse_u8_text(crate::midi_state::decimal(n)) == Some(n as u8),
        n <= 255 ==> parse_u8_text(seq!['+'] + crate::midi_state::decimal(n)) == Some(n as u8),
        n > 255 ==> parse_u8_text(crate::midi_state::decimal(n)) is None,
        parse_u8_text(Seq::<char>::empty()) is None,
        parse_u8_text(seq!['+']) is None,
{
    let d = crate::midi_state::decimal(n);
    lemma_decimal_digits(n);
    assert(is_ascii_digit(d[0]));
    assert(unsigned_digits(d) == d);
    assert((seq!['+'] + d)[0] == '+');
    assert((seq!['+'] + d).drop_first() =~= d);
    assert(unsigned_digits(seq!['+']) =~= Seq::<char>::empty());
}

} // verus!
