//! Numbers and labels as text.
use thousands::Separable;
use vstd::prelude::*;
use vstd::string::*;

verus! {

/// The character for a digit of a number to a base of at most sixteen.
pub open spec fn digit_char(d: nat) -> char {
    seq!['0', '1', '2', '3', '4', '5', '6', '7', '8', '9', 'A', 'B', 'C', 'D', 'E', 'F'][d as int]
}

/// A number in decimal notation.
pub open spec fn decimal(n: nat) -> Seq<char>
    decreases n,
{
    if n < 10 {
        seq![digit_char(n)]
    } else {
        decimal(n / 10).push(digit_char(n % 10))
    }
}

/// The lowest `width` digits of a number in hexadecimal notation.
pub open spec fn hex(n: nat, width: nat) -> Seq<char>
    decreases width,
{
    if width == 0 {
        Seq::empty()
    } else {
        hex(n / 16, (width - 1) as nat).push(digit_char(n % 16))
    }
}

/// The lowest three digits of a number in decimal notation.
pub open spec fn three_digits(n: nat) -> Seq<char> {
    seq![digit_char(n / 100 % 10), digit_char(n / 10 % 10), digit_char(n % 10)]
}

/// A number in decimal notation, with a comma before every three digits from the right that
/// other digits come before.
pub open spec fn with_commas(n: nat) -> Seq<char>
    decreases n,
{
    if n < 1000 {
        decimal(n)
    } else {
        with_commas(n / 1000) + seq![','] + three_digits(n)
    }
}

/// The text with a backslash before every vertical bar.
pub open spec fn escape_bars(s: Seq<char>) -> Seq<char>
    decreases s.len(),
{
    if s.len() == 0 {
        Seq::empty()
    } else {
        escape_bars(s.drop_last()) + if s.last() == '|' {
            seq!['\\', '|']
        } else {
            seq![s.last()]
        }
    }
}

/// The text of a digit.
pub fn digit_text(d: u64) -> (text: &'static str)
    requires
        d < 16,
    ensures
        text@ == seq![digit_char(d as nat)],
{
    proof {
        reveal_strlit("0");
        reveal_strlit("1");
        reveal_strlit("2");
        reveal_strlit("3");
        reveal_strlit("4");
        reveal_strlit("5");
        reveal_strlit("6");
        reveal_strlit("7");
        reveal_strlit("8");
        reveal_strlit("9");
        reveal_strlit("A");
        reveal_strlit("B");
        reveal_strlit("C");
        reveal_strlit("D");
        reveal_strlit("E");
        reveal_strlit("F");
    }
    match d {
        0 => "0",
        1 => "1",
        2 => "2",
        3 => "3",
        4 => "4",
        5 => "5",
        6 => "6",
        7 => "7",
        8 => "8",
        9 => "9",
        10 => "A",
        11 => "B",
        12 => "C",
        13 => "D",
        14 => "E",
        _ => "F",
    }
}

/// Appends a number in decimal notation.
pub fn push_decimal(text: &mut String, n: u64)
    ensures
        final(text)@ == old(text)@ + decimal(n as nat),
    decreases n,
{
    let ghost before = text@;
    if n >= 10 {
        push_decimal(text, n / 10);
    }
    text.append(digit_text(n % 10));
    assert(text@ =~= before + decimal(n as nat));
}

/// Appends the lowest `width` digits of a number in hexadecimal notation.
pub fn push_hex(text: &mut String, n: u64, width: u32)
    ensures
        final(text)@ == old(text)@ + hex(n as nat, width as nat),
    decreases width,
{
    let ghost before = text@;
    if width > 0 {
        push_hex(text, n / 16, width - 1);
        text.append(digit_text(n % 16));
    }
    assert(text@ =~= before + hex(n as nat, width as nat));
}

/// Appends a label, with a backslash before every vertical bar.
pub fn push_escaped(text: &mut String, label: &String)
    ensures
        final(text)@ == old(text)@ + escape_bars(label@),
{
    let label = label.as_str();
    let count = label.unicode_len();
    let ghost start = text@;
    let mut k: usize = 0;
    proof {
        reveal_strlit("\\|");
        assert(label@.take(0) == Seq::<char>::empty());
        assert(start + escape_bars(label@.take(0)) =~= start);
    }
    while k < count
        invariant
            k <= count,
            count == label@.len(),
            text@ == start + escape_bars(label@.take(k as int)),
        decreases count - k,
    {
        let ghost before = text@;
        proof {
            reveal_strlit("\\|");
            assert(label@.take(k + 1).drop_last() == label@.take(k as int));
            assert("\\|"@ =~= seq!['\\', '|']);
            assert(label@.subrange(k as int, k + 1) =~= seq![label@[k as int]]);
        }
        if label.get_char(k) == '|' {
            text.append("\\|");
        } else {
            text.append(label.substring_char(k, k + 1));
        }
        assert(text@ =~= start + escape_bars(label@.take(k + 1)));
        k += 1;
    }
    assert(label@.take(k as int) == label@);
}

/// Calls `Separable::separate_with_commas` of the crate thousands: the number in decimal
/// notation, with a comma every three digits from the right.
#[verifier::external_body]
pub(crate) fn separate_with_commas(n: usize) -> (text: String)
    ensures
        text@ == with_commas(n as nat),
{
    n.separate_with_commas()
}

/// Digits are the characters `0` to `9`, and `A` to `F` for those past nine.
pub proof fn digits_are_characters(d: nat)
    requires
        d < 16,
    ensures
        d < 10 ==> digit_char(d) as int == '0' as int + d,
        10 <= d ==> digit_char(d) as int == 'A' as int + d - 10,
{
}

/// A number in decimal notation has a last digit, which counts ones, behind the digits that count
/// tens, if there are any. It does not start with a zero, unless it is zero.
pub proof fn decimal_is_by_tens(tens: nat, ones: nat)
    requires
        ones < 10,
    ensures
        tens > 0 ==> decimal(10 * tens + ones) == decimal(tens).push(digit_char(ones)),
        decimal(ones) == seq![digit_char(ones)],
        tens > 0 ==> decimal(tens)[0] != '0',
        decimal(tens).len() > 0,
    decreases tens,
{
    assert((10 * tens + ones) / 10 == tens);
    assert((10 * tens + ones) % 10 == ones);
    if tens >= 10 {
        decimal_is_by_tens(tens / 10, tens % 10);
        assert(10 * (tens / 10) + tens % 10 == tens);
    }
}

/// Hexadecimal notation has as many digits as asked for, the last of which counts ones, and those
/// before it sixteens.
pub proof fn hex_is_by_sixteens(sixteens: nat, ones: nat, width: nat)
    requires
        ones < 16,
    ensures
        hex(16 * sixteens + ones, width + 1) == hex(sixteens, width).push(digit_char(ones)),
        hex(sixteens, 0) == Seq::<char>::empty(),
        hex(sixteens, width).len() == width,
    decreases width,
{
    assert((16 * sixteens + ones) / 16 == sixteens);
    assert((16 * sixteens + ones) % 16 == ones);
    if width > 0 {
        hex_is_by_sixteens(sixteens / 16, 0, (width - 1) as nat);
    }
}

proof fn lemma_no_commas(s: Seq<char>)
    requires
        forall|i: int| 0 <= i < s.len() ==> #[trigger] s[i] != ',',
    ensures
        s.filter(|c: char| c != ',') == s,
    decreases s.len(),
{
    reveal(Seq::filter);
    if s.len() > 0 {
        let rest = s.drop_last();
        assert forall|i: int| 0 <= i < rest.len() implies #[trigger] rest[i] != ',' by {
            assert(rest[i] == s[i]);
        }
        lemma_no_commas(rest);
        assert(s[s.len() - 1] != ',');
        assert(rest.push(s.last()) =~= s);
    }
}

proof fn lemma_filter_concat(s: Seq<char>, t: Seq<char>)
    ensures
        (s + t).filter(|c: char| c != ',') == s.filter(|c: char| c != ',') + t.filter(
            |c: char| c != ',',
        ),
    decreases t.len(),
{
    reveal(Seq::filter);
    let test = |c: char| c != ',';
    if t.len() == 0 {
        assert(s + t =~= s);
        assert(s.filter(test) + t.filter(test) =~= s.filter(test));
    } else {
        lemma_filter_concat(s, t.drop_last());
        assert((s + t).drop_last() =~= s + t.drop_last());
        assert((s + t).filter(test) =~= s.filter(test) + t.filter(test));
    }
}

proof fn lemma_decimal_digits(n: nat)
    ensures
        forall|i: int| 0 <= i < decimal(n).len() ==> #[trigger] decimal(n)[i] != ',',
        decimal(n).len() > 0,
        n < 10 ==> decimal(n).len() == 1,
        10 <= n < 100 ==> decimal(n).len() == 2,
        100 <= n < 1000 ==> decimal(n).len() == 3,
    decreases n,
{
    if n >= 10 {
        lemma_decimal_digits(n / 10);
    }
}

proof fn lemma_decimal_thousands(n: nat)
    requires
        n >= 1000,
    ensures
        decimal(n) == decimal(n / 1000) + three_digits(n),
{
    assert(n / 10 / 10 == n / 100);
    assert(n / 100 / 10 == n / 1000);
    assert(decimal(n) == decimal(n / 10).push(digit_char(n % 10)));
    assert(decimal(n / 10) == decimal(n / 100).push(digit_char(n / 10 % 10)));
    assert(decimal(n / 100) == decimal(n / 1000).push(digit_char(n / 100 % 10)));
    assert(decimal(n) =~= decimal(n / 1000) + three_digits(n));
}

/// A number with commas is the number in decimal notation, with commas put in: every fourth
/// character from the right is a comma, and no other is.
pub proof fn commas_group_digits(n: nat)
    ensures
        with_commas(n).filter(|c: char| c != ',') == decimal(n),
        forall|i: int|
            0 <= i < with_commas(n).len() ==> (#[trigger] with_commas(n)[i] == ',' <==> (
            with_commas(n).len() - 1 - i) % 4 == 3),
        with_commas(n).len() % 4 != 0,
    decreases n,
{
    let text = with_commas(n);
    if n < 1000 {
        lemma_decimal_digits(n);
        lemma_no_commas(decimal(n));
    } else {
        let high = with_commas(n / 1000);
        let low = three_digits(n);
        commas_group_digits(n / 1000);
        lemma_decimal_thousands(n);
        assert forall|i: int| 0 <= i < low.len() implies #[trigger] low[i] != ',' by {}
        lemma_no_commas(low);
        lemma_filter_concat(high + seq![','], low);
        lemma_filter_concat(high, seq![',']);
        assert(seq![','].filter(|c: char| c != ',') =~= Seq::<char>::empty()) by {
            reveal(Seq::filter);
            let test = |c: char| c != ',';
            assert(seq![','].drop_last() =~= Seq::<char>::empty());
            assert(seq![','].drop_last().filter(test) =~= Seq::<char>::empty());
            assert(seq![','].filter(test) == seq![','].drop_last().filter(test));
        }
        assert(high.filter(|c: char| c != ',') + Seq::<char>::empty() =~= high.filter(
            |c: char| c != ',',
        ));
        assert(text.filter(|c: char| c != ',') == decimal(n));
        assert(text.len() == high.len() + 4);
        assert forall|i: int| 0 <= i < text.len() implies (#[trigger] text[i] == ',' <==> (
        text.len() - 1 - i) % 4 == 3) by {
            if i < high.len() {
                assert(text[i] == high[i]);
                assert((text.len() - 1 - i) % 4 == (high.len() - 1 - i) % 4);
            } else if i == high.len() {
                assert(text[i] == ',');
            } else {
                assert(text[i] == low[i - high.len() - 1]);
            }
        }
    }
}

/// A text is escaped character by character: a vertical bar gets a backslash before it, and all
/// other characters stay as they are.
pub proof fn escaping_is_by_character(s: Seq<char>, t: Seq<char>, c: char)
    ensures
        escape_bars(s + t) == escape_bars(s) + escape_bars(t),
        escape_bars(seq![c]) == (if c == '|' {
            seq!['\\', '|']
        } else {
            seq![c]
        }),
        escape_bars(Seq::empty()) == Seq::<char>::empty(),
    decreases t.len(),
{
    assert(seq![c].drop_last() =~= Seq::<char>::empty());
    assert(escape_bars(seq![c].drop_last()) =~= Seq::<char>::empty());
    assert(escape_bars(seq![c]) =~= (if c == '|' {
        seq!['\\', '|']
    } else {
        seq![c]
    }));
    if t.len() == 0 {
        assert(s + t =~= s);
        assert(escape_bars(s) + escape_bars(t) =~= escape_bars(s));
    } else {
        escaping_is_by_character(s, t.drop_last(), c);
        assert((s + t).drop_last() =~= s + t.drop_last());
        assert(escape_bars(s + t) =~= escape_bars(s) + escape_bars(t));
    }
}

} // verus!
