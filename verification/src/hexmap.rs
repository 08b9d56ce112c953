//! Maps from event codes, with keys in hexadecimal notation.
use std::collections::BTreeMap;
use vstd::prelude::*;
use vstd::std_specs::iter::IteratorSpec;
use vstd::string::*;
use vstd::utf8::*;
use crate::ledger::{
    ascending, lemma_ascending, lemma_ascending_unique, lemma_increasing, lists_ascending,
};
use crate::text::{digit_char, hex, push_hex};

verus! {

/// Writes and reads maps from event codes to numbers, with keys such as `0x0300002A`.
pub struct HexInnerMap;

/// A key that does not have eight hexadecimal digits after its prefix.
#[derive(Debug, PartialEq, Eq)]
pub struct HexKeyError {
    pub key: String,
}

/// The key for an event code.
pub open spec fn key_text(k: u32) -> Seq<char> {
    "0x"@ + hex(k as nat, 8)
}

/// The entries of a map, by ascending key.
pub open spec fn hex_entries(m: Map<u32, u32>) -> Seq<(Seq<char>, u32)> {
    let keys = ascending(m.dom());
    Seq::new(keys.len(), |k: int| (key_text(keys[k]), m[keys[k]]))
}

pub open spec fn entry_views(entries: Seq<(String, u32)>) -> Seq<(Seq<char>, u32)> {
    Seq::new(entries.len(), |k: int| (entries[k].0@, entries[k].1))
}

/// The value of a hexadecimal digit, in upper or lower case.
pub open spec fn digit_value(b: u8) -> Option<nat> {
    if 0x30 <= b <= 0x39 {
        Some((b - 0x30) as nat)
    } else if 0x41 <= b <= 0x46 {
        Some((b - 0x41 + 10) as nat)
    } else if 0x61 <= b <= 0x66 {
        Some((b - 0x61 + 10) as nat)
    } else {
        None
    }
}

/// The number that digits stand for.
pub open spec fn digits_value(digits: Seq<u8>) -> Option<nat>
    decreases digits.len(),
{
    if digits.len() == 0 {
        Some(0)
    } else {
        match (digits_value(digits.drop_last()), digit_value(digits.last())) {
            (Some(high), Some(low)) => Some(16 * high + low),
            _ => None,
        }
    }
}

/// The number that digits after an optional plus sign stand for.
pub open spec fn number_value(text: Seq<u8>) -> Option<nat> {
    if text.len() > 0 && text[0] == 0x2B {
        digits_value(text.drop_first())
    } else {
        digits_value(text)
    }
}

/// Eight bytes can be cut out of the key behind its prefix.
pub open spec fn sliceable(key: Seq<char>) -> bool {
    &&& encode_utf8(key).len() >= 10
    &&& is_char_boundary(encode_utf8(key), 2)
    &&& is_char_boundary(encode_utf8(key), 10)
}

/// The number in a key: the eight bytes behind the prefix. What the prefix is, and what follows
/// the eight bytes, does not matter.
pub open spec fn key_value(key: Seq<char>) -> Option<nat> {
    number_value(encode_utf8(key).subrange(2, 10))
}

/// All keys can be read.
pub open spec fn all_read(entries: Seq<(Seq<char>, u32)>) -> bool {
    forall|k: int| 0 <= k < entries.len() ==> key_value((#[trigger] entries[k]).0) is Some
}

/// The map that entries stand for; a later entry replaces an earlier one with the same key.
pub open spec fn map_of(entries: Seq<(Seq<char>, u32)>) -> Map<u32, u32>
    decreases entries.len(),
{
    if entries.len() == 0 {
        Map::empty()
    } else {
        map_of(entries.drop_last()).insert(
            key_value(entries.last().0).unwrap() as u32,
            entries.last().1,
        )
    }
}

spec fn pow16(n: nat) -> nat
    decreases n,
{
    if n == 0 {
        1
    } else {
        16 * pow16((n - 1) as nat)
    }
}

proof fn lemma_digits_value(digits: Seq<u8>)
    ensures
        digits_value(digits) matches Some(v) ==> v < pow16(digits.len()),
    decreases digits.len(),
{
    if digits.len() > 0 {
        lemma_digits_value(digits.drop_last());
    }
}

proof fn lemma_pow16(n: nat)
    requires
        n <= 8,
    ensures
        pow16(n) <= 0x1_0000_0000,
{
    reveal_with_fuel(pow16, 9);
}

/// The eight bytes of a key stand for at most 32 bits.
pub proof fn lemma_key_value(key: Seq<char>)
    requires
        encode_utf8(key).len() >= 10,
    ensures
        key_value(key) matches Some(v) ==> v <= u32::MAX,
{
    let text = encode_utf8(key).subrange(2, 10);
    lemma_digits_value(text);
    lemma_digits_value(text.drop_first());
    lemma_pow16(8);
    lemma_pow16(7);
}

fn digit(b: u8) -> (value: Option<u64>)
    ensures
        match value {
            Some(v) => digit_value(b) == Some(v as nat) && v < 16,
            None => digit_value(b) is None,
        },
{
    if b >= 0x30 && b <= 0x39 {
        Some((b - 0x30) as u64)
    } else if b >= 0x41 && b <= 0x46 {
        Some((b - 0x41 + 10) as u64)
    } else if b >= 0x61 && b <= 0x66 {
        Some((b - 0x61 + 10) as u64)
    } else {
        None
    }
}

fn read_key(key: &String) -> (value: Option<u32>)
    requires
        sliceable(key@),
    ensures
        match value {
            Some(v) => key_value(key@) == Some(v as nat),
            None => key_value(key@) is None,
        },
{
    let bytes = key.as_str().as_bytes();
    let ghost text = encode_utf8(key@).subrange(2, 10);
    let start: usize = if bytes[2] == 0x2B {
        3
    } else {
        2
    };
    let ghost digits = text.skip(start - 2);
    let mut value: u64 = 0;
    let mut k: usize = start;
    proof {
        assert(text.skip(0) == text);
        assert(text.skip(1) == text.drop_first());
        assert(digits.take(0) == Seq::<u8>::empty());
    }
    while k < 10
        invariant
            2 <= start <= 3,
            start <= k <= 10,
            bytes@.len() >= 10,
            digits == bytes@.subrange(2, 10).skip(start - 2),
            key_value(key@) == digits_value(digits),
            digits_value(digits.take(k - start)) == Some(value as nat),
        decreases 10 - k,
    {
        let ghost done = digits.take(k - start);
        proof {
            assert(digits.take(k + 1 - start).drop_last() == done);
            assert(digits.take(k + 1 - start).last() == bytes@[k as int]);
            lemma_digits_value(done);
            lemma_pow16(done.len());
        }
        match digit(bytes[k]) {
            Some(low) => {
                value = 16 * value + low;
            },
            None => {
                proof {
                    lemma_bad_digit(digits, k - start);
                }
                return None;
            },
        }
        k += 1;
    }
    proof {
        assert(digits.take(k - start) == digits);
        lemma_key_value(key@);
    }
    Some(value as u32)
}

/// One wrong digit spoils the number.
proof fn lemma_bad_digit(digits: Seq<u8>, k: int)
    requires
        0 <= k < digits.len(),
        digit_value(digits[k]) is None,
    ensures
        digits_value(digits) is None,
    decreases digits.len(),
{
    if k < digits.len() - 1 {
        lemma_bad_digit(digits.drop_last(), k);
    }
}

impl HexKeyError {
    pub fn message(&self) -> (text: String)
        ensures
            text@ == "invalid hex key "@ + self.key@ + ": invalid digit found in string"@,
    {
        let mut text = String::from_str("invalid hex key ");
        text.append(self.key.as_str());
        text.append(": invalid digit found in string");
        text
    }
}

impl HexInnerMap {
    /// The entries of a map, by ascending key, with keys in hexadecimal notation.
    pub fn serialize_as(value: &BTreeMap<u32, u32>) -> (entries: Vec<(String, u32)>)
        ensures
            entry_views(entries@) == hex_entries(value@),
    {
        let mut out: Vec<(String, u32)> = Vec::new();
        let ghost entries = value.iter().remaining();
        let ghost listed: Seq<u32> = Seq::new(entries.len(), |k: int| *entries[k].0);
        for entry in it: value.iter()
            invariant
                it.seq() == entries,
                listed == Seq::new(entries.len(), |k: int| *entries[k].0),
                forall|k: int|
                    0 <= k < entries.len() ==> value@.contains_key(*(#[trigger] entries[k]).0)
                        && value@[*entries[k].0] == *entries[k].1,
                entry_views(out@) == Seq::new(
                    it.index() as nat,
                    |k: int| (key_text(listed[k]), value@[listed[k]]),
                ),
        {
            let (k, v) = entry;
            let ghost before = entry_views(out@);
            let mut key = String::from_str("0x");
            push_hex(&mut key, *k as u64, 8);
            out.push((key, *v));
            assert(entry_views(out@) =~= before.push((key_text(*k), *v)));
        }
        proof {
            assert(listed =~= entries.map_values(|kv: (&u32, &u32)| *kv.0));
            lemma_increasing(listed);
            assert forall|x: u32| value@.dom().contains(x) <==> #[trigger] listed.contains(x) by {
                if value@.contains_key(x) {
                    let i = choose|i: int|
                        0 <= i < entries.len() && entries[i] == (&x, &value@[x]);
                    assert(listed[i] == x);
                }
            }
            assert(lists_ascending(listed, value@.dom()));
            lemma_ascending_unique(listed, ascending(value@.dom()), value@.dom());
        }
        out
    }

    /// The map that entries stand for, or the first key that cannot be read.
    pub fn deserialize_as(entries: &Vec<(String, u32)>) -> (result: Result<
        BTreeMap<u32, u32>,
        HexKeyError,
    >)
        requires
            forall|k: int|
                0 <= k < entries@.len() && all_read(entry_views(entries@).take(k)) ==> sliceable(
                    (#[trigger] entries@[k]).0@,
                ),
        ensures
            match result {
                Ok(map) => all_read(entry_views(entries@)) && map@ == map_of(entry_views(entries@)),
                Err(error) => exists|k: int|
                    0 <= k < entries@.len() && all_read(entry_views(entries@).take(k)) && key_value(
                        (#[trigger] entries@[k]).0@,
                    ) is None && error.key@ == entries@[k].0@,
            },
    {
        let mut out: BTreeMap<u32, u32> = BTreeMap::new();
        let ghost all = entry_views(entries@);
        let mut k: usize = 0;
        assert(all.take(0) == Seq::<(Seq<char>, u32)>::empty());
        while k < entries.len()
            invariant
                k <= entries@.len(),
                all == entry_views(entries@),
                all_read(all.take(k as int)),
                out@ == map_of(all.take(k as int)),
                forall|k: int|
                    0 <= k < entries@.len() && all_read(entry_views(entries@).take(k))
                        ==> sliceable((#[trigger] entries@[k]).0@),
            decreases entries.len() - k,
        {
            let ghost next = all.take(k + 1);
            proof {
                assert(sliceable(entries@[k as int].0@));
                assert(next.drop_last() == all.take(k as int));
                assert(next.last() == all[k as int]);
            }
            match read_key(&entries[k].0) {
                Some(key) => {
                    out.insert(key, entries[k].1);
                    assert forall|j: int| 0 <= j < next.len() implies key_value(
                        (#[trigger] next[j]).0,
                    ) is Some by {
                        if j < k {
                            assert(next[j] == all.take(k as int)[j]);
                        }
                    }
                },
                None => {
                    return Err(HexKeyError { key: entries[k].0.clone() });
                },
            }
            k += 1;
        }
        assert(all.take(k as int) == all);
        Ok(out)
    }
}

proof fn lemma_digit_char(d: nat)
    requires
        d < 16,
    ensures
        digit_char(d) as u8 != 0x2B,
        '\0' <= digit_char(d) <= '\u{7f}',
        digit_value(digit_char(d) as u8) == Some(d),
{
}

/// Hexadecimal notation is ASCII, and reading it gives back the number.
proof fn lemma_hex(n: nat, width: nat, bytes: Seq<u8>)
    requires
        n < pow16(width),
        bytes.len() == width,
        forall|i: int| 0 <= i < width ==> #[trigger] bytes[i] == hex(n, width)[i] as u8,
    ensures
        hex(n, width).len() == width,
        is_ascii_chars(hex(n, width)),
        digits_value(bytes) == Some(n),
    decreases width,
{
    if width > 0 {
        let text = hex(n, width);
        let high = hex(n / 16, (width - 1) as nat);
        lemma_hex_len(n / 16, (width - 1) as nat);
        let rest = bytes.drop_last();
        assert forall|i: int| 0 <= i < width - 1 implies #[trigger] rest[i] == high[i] as u8 by {
            assert(bytes[i] == text[i] as u8);
        }
        lemma_hex(n / 16, (width - 1) as nat, rest);
        lemma_digit_char(n % 16);
        assert(bytes[width - 1] == text[width - 1] as u8);
        assert forall|i: int| 0 <= i < text.len() implies '\0' <= #[trigger] text[i]
            <= '\u{7f}' by {
            if i < width - 1 {
                assert(text[i] == high[i]);
            }
        }
    }
}

proof fn lemma_hex_len(n: nat, width: nat)
    ensures
        hex(n, width).len() == width,
    decreases width,
{
    if width > 0 {
        lemma_hex_len(n / 16, (width - 1) as nat);
    }
}

/// The key of an event code can be read, and stands for the code.
pub proof fn hex_key_round_trip(k: u32)
    ensures
        sliceable(key_text(k)),
        key_value(key_text(k)) == Some(k as nat),
{
    let key = key_text(k);
    reveal_strlit("0x");
    lemma_hex_len(k as nat, 8);
    assert(pow16(8) == 0x1_0000_0000) by {
        reveal_with_fuel(pow16, 9);
    }
    let plain = Seq::new(8, |i: int| hex(k as nat, 8)[i] as u8);
    lemma_hex(k as nat, 8, plain);
    assert(key.len() == 10);
    assert(is_ascii_chars(key)) by {
        assert forall|i: int| 0 <= i < key.len() implies '\0' <= #[trigger] key[i]
            <= '\u{7f}' by {
            if i >= 2 {
                assert(key[i] == hex(k as nat, 8)[i - 2]);
            }
        }
    }
    is_ascii_chars_encode_utf8(key);
    let bytes = encode_utf8(key);
    encode_utf8_valid_utf8(key);
    is_char_boundary_start_end_of_seq(bytes);
    assert(bytes.subrange(2, 10) =~= plain) by {
        assert forall|i: int| 0 <= i < 8 implies bytes.subrange(2, 10)[i] == plain[i] by {
            assert(key[i + 2] as u8 == bytes[i + 2]);
            assert(key[i + 2] == hex(k as nat, 8)[i]);
        }
    }
    assert(hex(k as nat, 8)[0] == digit_char(k as nat / 0x1000_0000 % 16)) by {
        reveal_with_fuel(hex, 9);
    }
    lemma_digit_char(k as nat / 0x1000_0000 % 16);
    assert(key[2] as u8 == bytes[2]);
    is_char_boundary_iff_not_is_continuation_byte(bytes, 2);
}

/// Reading the entries of a map gives back the map.
pub proof fn hex_map_round_trip(m: Map<u32, u32>)
    requires
        m.dom().finite(),
    ensures
        forall|k: int|
            0 <= k < hex_entries(m).len() ==> sliceable((#[trigger] hex_entries(m)[k]).0),
        all_read(hex_entries(m)),
        map_of(hex_entries(m)) == m,
{
    let entries = hex_entries(m);
    let keys = ascending(m.dom());
    lemma_ascending(m.dom());
    assert forall|k: int| 0 <= k < entries.len() implies sliceable((#[trigger] entries[k]).0)
        && key_value(entries[k].0) == Some(keys[k] as nat) by {
        hex_key_round_trip(keys[k]);
    }
    assert forall|k: int| 0 <= k < keys.len() implies m.contains_key(#[trigger] keys[k]) by {
        assert(keys.contains(keys[k]));
    }
    lemma_map_of(m, keys, entries, entries.len());
    assert(entries.take(entries.len() as int) == entries);
    assert(keys.take(keys.len() as int) == keys);
    assert forall|x: u32| m.contains_key(x) implies map_of(entries).contains_key(x) by {
        assert(keys.contains(x));
    }
    assert(map_of(entries) =~= m);
}

proof fn lemma_map_of(
    m: Map<u32, u32>,
    keys: Seq<u32>,
    entries: Seq<(Seq<char>, u32)>,
    count: nat,
)
    requires
        keys.len() == entries.len(),
        count <= entries.len(),
        forall|k: int|
            0 <= k < entries.len() ==> key_value((#[trigger] entries[k]).0) == Some(keys[k] as nat)
                && entries[k].1 == m[keys[k]],
    ensures
        forall|x: u32| #[trigger]
            map_of(entries.take(count as int)).contains_key(x) <==> keys.take(
                count as int,
            ).contains(x),
        forall|x: u32| #[trigger]
            map_of(entries.take(count as int)).contains_key(x) ==> map_of(
                entries.take(count as int),
            )[x] == m[x],
    decreases count,
{
    let part = entries.take(count as int);
    let listed = keys.take(count as int);
    if count > 0 {
        let less = (count - 1) as nat;
        lemma_map_of(m, keys, entries, less);
        assert(part.drop_last() == entries.take(less as int));
        assert(part.last() == entries[less as int]);
        assert(key_value(entries[less as int].0) == Some(keys[less as int] as nat));
        let before = map_of(entries.take(less as int));
        assert(map_of(part) == before.insert(keys[less as int], m[keys[less as int]]));
        assert forall|x: u32| #[trigger] map_of(part).contains_key(x) <==> listed.contains(x) by {
            assert(listed == keys.take(less as int).push(keys[less as int]));
            assert(listed[less as int] == keys[less as int]);
            assert(before.contains_key(x) <==> keys.take(less as int).contains(x));
            if keys.take(less as int).contains(x) {
                let i = choose|i: int| 0 <= i < less && keys.take(less as int)[i] == x;
                assert(listed[i] == x);
            }
            if listed.contains(x) && x != keys[less as int] {
                let i = choose|i: int| 0 <= i < count && listed[i] == x;
                assert(keys.take(less as int)[i] == x);
            }
        }
        assert forall|x: u32| #[trigger] map_of(part).contains_key(x) implies map_of(part)[x]
            == m[x] by {
            if x != keys[less as int] {
                assert(before.contains_key(x));
            }
        }
    }
}

/// The key of an event code is `0x` and the code in hexadecimal notation, with eight digits.
pub proof fn key_of_code(k: u32)
    ensures
        key_text(k) == "0x"@ + hex(k as nat, 8),
        key_text(k).len() == 10,
{
    reveal_strlit("0x");
    lemma_hex_len(k as nat, 8);
}

/// Digits are read as the characters `0` to `9`, and `A` to `F` or `a` to `f` for those past nine.
pub proof fn value_of_digit(b: u8)
    ensures
        '0' as int <= b <= '9' as int ==> digit_value(b) == Some((b - '0' as int) as nat),
        'A' as int <= b <= 'F' as int ==> digit_value(b) == Some((b - 'A' as int + 10) as nat),
        'a' as int <= b <= 'f' as int ==> digit_value(b) == Some((b - 'a' as int + 10) as nat),
        digit_value(b) is Some <==> '0' as int <= b <= '9' as int || 'A' as int <= b <= 'F' as int
            || 'a' as int <= b <= 'f' as int,
{
}

/// Each further digit makes a number sixteen times as large, and adds its value. A number cannot
/// be read where one of its digits cannot.
pub proof fn value_of_digits(digits: Seq<u8>, b: u8)
    ensures
        digits_value(Seq::empty()) == Some(0nat),
        digits_value(digits) is Some && digit_value(b) is Some ==> digits_value(digits.push(b))
            == Some(16 * digits_value(digits).unwrap() + digit_value(b).unwrap()),
        digits_value(digits) is None || digit_value(b) is None ==> digits_value(digits.push(b))
            is None,
        digits_value(digits) is Some <==> forall|k: int|
            0 <= k < digits.len() ==> digit_value(#[trigger] digits[k]) is Some,
    decreases digits.len(),
{
    assert(digits.push(b).drop_last() =~= digits);
    if digits.len() > 0 {
        let rest = digits.drop_last();
        value_of_digits(rest, b);
        if digits_value(digits) is Some {
            assert forall|k: int| 0 <= k < digits.len() implies digit_value(
                #[trigger] digits[k],
            ) is Some by {
                if k < rest.len() {
                    assert(rest[k] == digits[k]);
                }
            }
        }
        if forall|k: int| 0 <= k < digits.len() ==> digit_value(#[trigger] digits[k]) is Some {
            assert forall|k: int| 0 <= k < rest.len() implies digit_value(
                #[trigger] rest[k],
            ) is Some by {
                assert(rest[k] == digits[k]);
            }
            assert(digit_value(digits[digits.len() - 1]) is Some);
        }
    }
}

/// The value of a key is that of its eight bytes behind the first two, without a plus sign if they
/// start with one.
pub proof fn value_of_key(key: Seq<char>)
    ensures
        ({
            let text = encode_utf8(key).subrange(2, 10);
            key_value(key) == if text.len() > 0 && text[0] == '+' as u8 {
                digits_value(text.subrange(1, text.len() as int))
            } else {
                digits_value(text)
            }
        }),
        sliceable(key) <==> encode_utf8(key).len() >= 10 && is_char_boundary(encode_utf8(key), 2)
            && is_char_boundary(encode_utf8(key), 10),
{
    let text = encode_utf8(key).subrange(2, 10);
    if text.len() > 0 {
        assert(text.subrange(1, text.len() as int) =~= text.drop_first());
    }
    assert('+' as u8 == 0x2B);
}

/// The map that entries stand for has the values of their keys, and no others. The value under a
/// key is that of the last entry with the key.
pub proof fn last_entry_counts(entries: Seq<(Seq<char>, u32)>, x: u32, k: int)
    requires
        forall|i: int|
            0 <= i < entries.len() ==> (key_value((#[trigger] entries[i]).0) matches Some(v)
                && v <= u32::MAX),
    ensures
        all_read(entries),
        map_of(entries).contains_key(x) <==> exists|i: int|
            0 <= i < entries.len() && key_value((#[trigger] entries[i]).0) == Some(x as nat),
        0 <= k < entries.len() && key_value(entries[k].0) == Some(x as nat) && (forall|i: int|
            k < i < entries.len() ==> key_value((#[trigger] entries[i]).0) != Some(x as nat))
            ==> map_of(entries)[x] == entries[k].1,
    decreases entries.len(),
{
    if entries.len() > 0 {
        let rest = entries.drop_last();
        let last = entries.last();
        assert forall|i: int| 0 <= i < rest.len() implies (key_value(
            (#[trigger] rest[i]).0,
        ) matches Some(v) && v <= u32::MAX) by {
            assert(rest[i] == entries[i]);
        }
        last_entry_counts(rest, x, k);
        assert(entries[entries.len() - 1] == last);
        assert(key_value(entries[entries.len() - 1].0) is Some);
        if map_of(rest).contains_key(x) {
            let i = choose|i: int|
                0 <= i < rest.len() && key_value((#[trigger] rest[i]).0) == Some(x as nat);
            assert(entries[i] == rest[i]);
        }
        if exists|i: int|
            0 <= i < entries.len() && key_value((#[trigger] entries[i]).0) == Some(x as nat) {
            let i = choose|i: int|
                0 <= i < entries.len() && key_value((#[trigger] entries[i]).0) == Some(x as nat);
            if i < rest.len() {
                assert(rest[i] == entries[i]);
            }
        }
        if 0 <= k < entries.len() && key_value(entries[k].0) == Some(x as nat) && (forall|i: int|
            k < i < entries.len() ==> key_value((#[trigger] entries[i]).0) != Some(x as nat)) {
            if k < rest.len() {
                assert(key_value(entries[entries.len() - 1].0) != Some(x as nat));
                assert forall|i: int| k < i < rest.len() implies key_value(
                    (#[trigger] rest[i]).0,
                ) != Some(x as nat) by {
                    assert(rest[i] == entries[i]);
                }
                assert(rest[k] == entries[k]);
            }
        }
    }
}

/// A map is written entry by entry, in ascending order of its keys: each key with its value, and
/// nothing else.
pub proof fn map_is_written(m: Map<u32, u32>, x: u32) -> (keys: Seq<u32>)
    requires
        m.dom().finite(),
    ensures
        keys.len() == hex_entries(m).len(),
        forall|i: int, j: int| 0 <= i < j < keys.len() ==> (#[trigger] keys[i]) < (
        #[trigger] keys[j]),
        m.contains_key(x) <==> exists|i: int| 0 <= i < keys.len() && keys[i] == x,
        forall|i: int|
            0 <= i < keys.len() ==> m.contains_key(#[trigger] keys[i]) && hex_entries(m)[i].0
                == "0x"@ + hex(keys[i] as nat, 8) && hex_entries(m)[i].1 == m[keys[i]],
{
    let keys = ascending(m.dom());
    lemma_ascending(m.dom());
    assert forall|i: int| 0 <= i < keys.len() implies m.contains_key(#[trigger] keys[i]) by {
        assert(keys.contains(keys[i]));
    }
    assert(keys.contains(x) <==> m.dom().contains(x));
    keys
}

/// Entries are seen one by one: the text of the key, and the value.
pub proof fn model_of_entries(entries: Seq<(String, u32)>, k: int)
    requires
        0 <= k < entries.len(),
    ensures
        entry_views(entries).len() == entries.len(),
        entry_views(entries)[k].0 == entries[k].0@,
        entry_views(entries)[k].1 == entries[k].1,
{
}

/// Entries are all read where each of their keys is.
pub proof fn what_is_read(entries: Seq<(Seq<char>, u32)>)
    ensures
        all_read(entries) <==> forall|k: int|
            0 <= k < entries.len() ==> key_value((#[trigger] entries[k]).0) is Some,
{
}

} // verus!
