//! Comparing names and building text.

use vstd::prelude::*;
use vstd::string::*;
use vstd::utf8::*;

verus! {

/// The UTF-8 bytes of a name determine the name.
pub proof fn lemma_utf8_injective(a: Seq<char>, b: Seq<char>)
    requires
        encode_utf8(a) == encode_utf8(b),
    ensures
        a == b,
{
    encode_utf8_decode_utf8(a);
    encode_utf8_decode_utf8(b);
}

/// True iff the two strings hold the same characters.
pub fn same_text(a: &str, b: &str) -> (r: bool)
    ensures
        r == (a@ == b@),
{
    let x = a.as_bytes();
    let y = b.as_bytes();
    if x.len() != y.len() {
        return false;
    }
    let mut i: usize = 0;
    while i < x.len()
        invariant
            x@ == a.spec_bytes(),
            y@ == b.spec_bytes(),
            x@.len() == y@.len(),
            i <= x@.len(),
            forall|k: int| 0 <= k < i ==> x@[k] == y@[k],
        decreases x@.len() - i,
    {
        if x[i] != y[i] {
            return false;
        }
        i += 1;
    }
    proof {
        assert(x@ =~= y@);
        lemma_utf8_injective(a@, b@);
    }
    true
}

/// The digit for `d`, with letters from ten on.
pub open spec fn digit(d: int, upper: bool) -> char {
    if d < 10 {
        ('0' as int + d) as char
    } else if upper {
        ('A' as int + d - 10) as char
    } else {
        ('a' as int + d - 10) as char
    }
}

/// `v` in decimal, as `{}` writes it.
pub open spec fn decimal(v: nat) -> Seq<char>
    decreases v,
{
    if v < 10 {
        seq![digit(v as int, false)]
    } else {
        decimal(v / 10).push(digit((v % 10) as int, false))
    }
}

/// `v` in lowercase hexadecimal, as `{:x}` writes it.
pub open spec fn hex(v: nat) -> Seq<char>
    decreases v,
{
    if v < 16 {
        seq![digit(v as int, false)]
    } else {
        hex(v / 16).push(digit((v % 16) as int, false))
    }
}

/// The low `width` hexadecimal digits of `v`.
pub open spec fn hex_digits(v: nat, width: nat, upper: bool) -> Seq<char>
    decreases width,
{
    if width == 0 {
        Seq::empty()
    } else {
        hex_digits(v / 16, (width - 1) as nat, upper).push(digit((v % 16) as int, upper))
    }
}

/// A 64-bit number, as `{:016X}` writes it.
pub open spec fn hex16(v: u64) -> Seq<char> {
    hex_digits(v as nat, 16, true)
}

/// A 64-bit number, as `{:016x}` writes it.
pub open spec fn lower_hex16(v: u64) -> Seq<char> {
    hex_digits(v as nat, 16, false)
}

/// A 32-bit number, as `{:08X}` writes it.
pub open spec fn hex8(v: u32) -> Seq<char> {
    hex_digits(v as nat, 8, true)
}

/// A signed number in decimal, as `{}` writes it.
pub open spec fn signed_decimal(v: int) -> Seq<char> {
    if v < 0 {
        "-"@ + decimal((-v) as nat)
    } else {
        decimal(v as nat)
    }
}

/// `n` spaces.
pub open spec fn spaces(n: int) -> Seq<char> {
    Seq::new(if n < 0 { 0 } else { n as nat }, |i: int| ' ')
}

/// `s`, then spaces up to `width` characters.
pub open spec fn left_aligned(s: Seq<char>, width: int) -> Seq<char> {
    s + spaces(width - s.len())
}

/// `s` after spaces up to `width` characters.
pub open spec fn right_aligned(s: Seq<char>, width: int) -> Seq<char> {
    spaces(width - s.len()) + s
}

/// The number that a digit stands for, with letters of either case from ten on; none where the
/// character is no digit.
pub open spec fn digit_value(c: char) -> Option<int> {
    if '0' <= c <= '9' {
        Some(c as int - '0' as int)
    } else if 'A' <= c <= 'F' {
        Some(c as int - 'A' as int + 10)
    } else if 'a' <= c <= 'f' {
        Some(c as int - 'a' as int + 10)
    } else {
        None
    }
}

/// The number that a sequence of digits spells in this base, most significant first.
pub open spec fn spelled(s: Seq<char>, base: int) -> int
    decreases s.len(),
{
    if s.len() == 0 {
        0
    } else {
        base * spelled(s.drop_last(), base) + digit_value(s.last()).unwrap()
    }
}

/// All characters are digits of this base, and no letter is of the other case.
pub open spec fn all_digits(s: Seq<char>, base: int, upper: bool) -> bool {
    forall|i: int|
        0 <= i < s.len() ==> {
            &&& digit_value(#[trigger] s[i]) matches Some(d) && 0 <= d < base
            &&& upper ==> s[i] < 'a'
            &&& !upper ==> !('A' <= s[i] <= 'F')
        }
}

/// `s` spells `v` in capital hexadecimal digits.
pub open spec fn is_hex_of(s: Seq<char>, v: int) -> bool {
    all_digits(s, 16, true) && spelled(s, 16) == v
}

/// Sixteen to the `n`th.
spec fn power16(n: nat) -> nat
    decreases n,
{
    if n == 0 {
        1
    } else {
        16 * power16((n - 1) as nat)
    }
}

proof fn lemma_hex_digits(v: nat, width: nat, upper: bool)
    requires
        v < power16(width),
    ensures
        hex_digits(v, width, upper).len() == width,
        all_digits(hex_digits(v, width, upper), 16, upper),
        spelled(hex_digits(v, width, upper), 16) == v,
    decreases width,
{
    if width > 0 {
        lemma_hex_digits(v / 16, (width - 1) as nat, upper);
        let s = hex_digits(v, width, upper);
        let init = hex_digits(v / 16, (width - 1) as nat, upper);
        assert(s.drop_last() =~= init);
        assert forall|i: int| 0 <= i < s.len() implies {
            &&& digit_value(#[trigger] s[i]) matches Some(d) && 0 <= d < 16
            &&& upper ==> s[i] < 'a'
            &&& !upper ==> !('A' <= s[i] <= 'F')
        } by {
            if i < init.len() {
                assert(s[i] == init[i]);
            }
        }
    }
}

/// Sixteen digits spell a 64-bit number, and eight a 32-bit number.
pub proof fn hex_digits_spell_the_number(v: u64, w: u32)
    ensures
        hex16(v).len() == 16,
        is_hex_of(hex16(v), v as int),
        lower_hex16(v).len() == 16,
        all_digits(lower_hex16(v), 16, false),
        spelled(lower_hex16(v), 16) == v,
        hex8(w).len() == 8,
        is_hex_of(hex8(w), w as int),
{
    reveal_with_fuel(power16, 17);
    assert(power16(8) == 0x1_0000_0000);
    assert(power16(16) == 0x1_0000_0000_0000_0000);
    lemma_hex_digits(v as nat, 16, true);
    lemma_hex_digits(v as nat, 16, false);
    lemma_hex_digits(w as nat, 8, true);
}

/// Decimal digits spell the number, without a zero in front unless it is zero.
pub proof fn decimal_spells_the_number(v: nat)
    ensures
        decimal(v).len() >= 1,
        all_digits(decimal(v), 10, true),
        spelled(decimal(v), 10) == v,
        v > 0 ==> decimal(v)[0] != '0',
        v < 10 ==> decimal(v).len() == 1,
    decreases v,
{
    if v >= 10 {
        decimal_spells_the_number(v / 10);
        let s = decimal(v);
        let init = decimal(v / 10);
        assert(s.drop_last() =~= init);
        assert(s[0] == init[0]);
        assert forall|i: int| 0 <= i < s.len() implies {
            &&& digit_value(#[trigger] s[i]) matches Some(d) && 0 <= d < 10
            &&& s[i] < 'a'
        } by {
            if i < init.len() {
                assert(s[i] == init[i]);
            }
        }
    } else {
        assert(decimal(v).drop_last() =~= Seq::<char>::empty());
        assert(spelled(Seq::<char>::empty(), 10) == 0);
    }
}

/// Hexadecimal digits spell the number in small letters, without a zero in front unless it is
/// zero.
pub proof fn hex_spells_the_number(v: nat)
    ensures
        hex(v).len() >= 1,
        all_digits(hex(v), 16, false),
        spelled(hex(v), 16) == v,
        v > 0 ==> hex(v)[0] != '0',
        v < 16 ==> hex(v).len() == 1,
    decreases v,
{
    if v >= 16 {
        hex_spells_the_number(v / 16);
        let s = hex(v);
        let init = hex(v / 16);
        assert(s.drop_last() =~= init);
        assert(s[0] == init[0]);
        assert forall|i: int| 0 <= i < s.len() implies {
            &&& digit_value(#[trigger] s[i]) matches Some(d) && 0 <= d < 16
            &&& !('A' <= s[i] <= 'F')
        } by {
            if i < init.len() {
                assert(s[i] == init[i]);
            }
        }
    } else {
        assert(hex(v).drop_last() =~= Seq::<char>::empty());
        assert(spelled(Seq::<char>::empty(), 16) == 0);
    }
}

/// A signed number has a minus sign where it is negative, and then the digits of its magnitude.
pub proof fn signed_decimal_spells_the_number(v: int)
    ensures
        v >= 0 ==> all_digits(signed_decimal(v), 10, true) && spelled(signed_decimal(v), 10) == v,
        v < 0 ==> signed_decimal(v)[0] == '-' && all_digits(signed_decimal(v).skip(1), 10, true)
            && spelled(signed_decimal(v).skip(1), 10) == -v,
{
    reveal_strlit("-");
    if v < 0 {
        decimal_spells_the_number((-v) as nat);
        assert(signed_decimal(v).skip(1) =~= decimal((-v) as nat));
    } else {
        decimal_spells_the_number(v as nat);
    }
}

/// Aligned text is the text with nothing but spaces on one side, up to the width.
pub proof fn alignment_adds_spaces(s: Seq<char>, width: int)
    ensures
        left_aligned(s, width).len() == if s.len() < width { width } else { s.len() as int },
        right_aligned(s, width).len() == left_aligned(s, width).len(),
        forall|i: int| 0 <= i < s.len() ==> #[trigger] left_aligned(s, width)[i] == s[i],
        forall|i: int|
            s.len() <= i < left_aligned(s, width).len() ==> #[trigger] left_aligned(s, width)[i]
                == ' ',
        forall|i: int|
            0 <= i < right_aligned(s, width).len() ==> #[trigger] right_aligned(s, width)[i] == if i
                < right_aligned(s, width).len() - s.len() {
                ' '
            } else {
                s[i - (right_aligned(s, width).len() - s.len())]
            },
{
}

fn digit_text(d: u8, upper: bool) -> (s: &'static str)
    requires
        d < 16,
    ensures
        s@ == seq![digit(d as int, upper)],
{
    proof {
        reveal_strlit("0");
        reveal_strlit("1");
        reveal_strlit("2");
        reveal_strlit("3");
        reveal_strlit("4");
        reveal_strlit("5");
        reveal_strlit("6");
        reveal_strlit("7");
        reveal_strlit("8");
        reveal_strlit("9");
        reveal_strlit("A");
        reveal_strlit("B");
        reveal_strlit("C");
        reveal_strlit("D");
        reveal_strlit("E");
        reveal_strlit("F");
        reveal_strlit("a");
        reveal_strlit("b");
        reveal_strlit("c");
        reveal_strlit("d");
        reveal_strlit("e");
        reveal_strlit("f");
    }
    match (d, upper) {
        (0, _) => "0",
        (1, _) => "1",
        (2, _) => "2",
        (3, _) => "3",
        (4, _) => "4",
        (5, _) => "5",
        (6, _) => "6",
        (7, _) => "7",
        (8, _) => "8",
        (9, _) => "9",
        (10, true) => "A",
        (11, true) => "B",
        (12, true) => "C",
        (13, true) => "D",
        (14, true) => "E",
        (15, true) => "F",
        (10, false) => "a",
        (11, false) => "b",
        (12, false) => "c",
        (13, false) => "d",
        (14, false) => "e",
        _ => "f",
    }
}

pub fn push_decimal(out: &mut String, v: u64)
    ensures
        final(out)@ == old(out)@ + decimal(v as nat),
    decreases v,
{
    if v >= 10 {
        push_decimal(out, v / 10);
    }
    out.append(digit_text((v % 10) as u8, false));
    assert(out@ =~= old(out)@ + decimal(v as nat));
}

pub fn push_hex(out: &mut String, v: u64)
    ensures
        final(out)@ == old(out)@ + hex(v as nat),
    decreases v,
{
    if v >= 16 {
        push_hex(out, v / 16);
    }
    out.append(digit_text((v % 16) as u8, false));
    assert(out@ =~= old(out)@ + hex(v as nat));
}

/// Appends the low `width` hexadecimal digits of `v`.
pub fn push_hex_digits(out: &mut String, v: u64, width: u8, upper: bool)
    ensures
        final(out)@ == old(out)@ + hex_digits(v as nat, width as nat, upper),
    decreases width,
{
    if width > 0 {
        push_hex_digits(out, v / 16, width - 1, upper);
        out.append(digit_text((v % 16) as u8, upper));
    }
    assert(out@ =~= old(out)@ + hex_digits(v as nat, width as nat, upper));
}

pub fn push_hex16(out: &mut String, v: u64)
    ensures
        final(out)@ == old(out)@ + hex16(v),
{
    push_hex_digits(out, v, 16, true);
}

pub fn push_lower_hex16(out: &mut String, v: u64)
    ensures
        final(out)@ == old(out)@ + lower_hex16(v),
{
    push_hex_digits(out, v, 16, false);
}

pub fn push_hex8(out: &mut String, v: u32)
    ensures
        final(out)@ == old(out)@ + hex8(v),
{
    push_hex_digits(out, v as u64, 8, true);
}

pub fn push_signed(out: &mut String, v: i64)
    ensures
        final(out)@ == old(out)@ + signed_decimal(v as int),
{
    if v < 0 {
        out.append("-");
        // The magnitude of the least number is no `i64`.
        let magnitude: u64 = (-(v + 1)) as u64 + 1;
        push_decimal(out, magnitude);
        assert(out@ =~= old(out)@ + signed_decimal(v as int));
    } else {
        push_decimal(out, v as u64);
    }
}

fn push_spaces(out: &mut String, n: usize)
    ensures
        final(out)@ == old(out)@ + spaces(n as int),
{
    proof {
        reveal_strlit(" ");
    }
    let mut i: usize = 0;
    assert(out@ =~= old(out)@ + spaces(0));
    while i < n
        invariant
            i <= n,
            " "@ == seq![' '],
            out@ == old(out)@ + spaces(i as int),
        decreases n - i,
    {
        out.append(" ");
        i += 1;
        assert(out@ =~= old(out)@ + spaces(i as int));
    }
}

/// Appends `s`, then spaces up to `width` characters.
pub fn push_left_aligned(out: &mut String, s: &str, width: usize)
    ensures
        final(out)@ == old(out)@ + left_aligned(s@, width as int),
{
    let n: usize = s.unicode_len();
    out.append(s);
    if n < width {
        push_spaces(out, width - n);
    }
    assert(out@ =~= old(out)@ + left_aligned(s@, width as int));
}

/// Appends spaces up to `width` characters, then `s`.
pub fn push_right_aligned(out: &mut String, s: &str, width: usize)
    ensures
        final(out)@ == old(out)@ + right_aligned(s@, width as int),
{
    let n: usize = s.unicode_len();
    if n < width {
        push_spaces(out, width - n);
    }
    out.append(s);
    assert(out@ =~= old(out)@ + right_aligned(s@, width as int));
}

/// The characters of `s`.
pub fn chars_of(s: &str) -> (v: Vec<char>)
    ensures
        v@ == s@,
{
    broadcast use vstd::string::axiom_spec_iter;

    let mut v: Vec<char> = Vec::new();
    for c in it: s.chars()
        invariant
            it.seq() == s@,
            v@ == s@.take(it.index()),
    {
        v.push(c);
        assert(v@ =~= s@.take(it.index() + 1));
    }
    assert(s@.take(s@.len() as int) =~= s@);
    v
}

/// `part` stands somewhere in `s`.
pub open spec fn has_part(s: Seq<char>, part: Seq<char>) -> bool {
    exists|i: int| part_at(s, part, i)
}

/// `part` stands in `s` at index `i`.
pub open spec fn part_at(s: Seq<char>, part: Seq<char>, i: int) -> bool {
    0 <= i && i + part.len() <= s.len() && s.subrange(i, i + part.len()) == part
}

fn chars_match(s: &Vec<char>, part: &Vec<char>, at: usize) -> (b: bool)
    requires
        at + part.len() <= s.len(),
    ensures
        b == part_at(s@, part@, at as int),
{
    let mut k: usize = 0;
    while k < part.len()
        invariant
            k <= part@.len(),
            at + part.len() <= s.len(),
            forall|j: int| 0 <= j < k ==> s@[at + j] == part@[j],
        decreases part@.len() - k,
    {
        if s[at + k] != part[k] {
            assert(s@.subrange(at as int, at + part@.len())[k as int] != part@[k as int]);
            return false;
        }
        k += 1;
    }
    assert(s@.subrange(at as int, at + part@.len()) =~= part@);
    true
}

/// Whether `part` stands somewhere in `s`.
pub fn contains(s: &str, part: &str) -> (b: bool)
    ensures
        b == has_part(s@, part@),
{
    let x: Vec<char> = chars_of(s);
    let y: Vec<char> = chars_of(part);
    if y.len() > x.len() {
        return false;
    }
    let last: usize = x.len() - y.len();
    let mut i: usize = 0;
    while i < last && !chars_match(&x, &y, i)
        invariant
            x@ == s@,
            y@ == part@,
            i <= last == x@.len() - y@.len(),
            forall|j: int| 0 <= j < i ==> !part_at(s@, part@, j),
        decreases last - i,
    {
        i += 1;
    }
    chars_match(&x, &y, i)
}

/// Whether `s` starts with `part`.
pub fn starts_with(s: &str, part: &str) -> (b: bool)
    ensures
        b == part_at(s@, part@, 0),
{
    let x: Vec<char> = chars_of(s);
    let y: Vec<char> = chars_of(part);
    y.len() <= x.len() && chars_match(&x, &y, 0)
}

/// Whether `s` ends with a newline.
pub fn ends_with_newline(s: &str) -> (b: bool)
    ensures
        b == (s@.len() > 0 && s@.last() == '\n'),
{
    let n: usize = s.unicode_len();
    n > 0 && s.get_char(n - 1) == '\n'
}

/// `s` holds a NUL character.
pub open spec fn holds_nul(s: Seq<char>) -> bool {
    exists|i: int| 0 <= i < s.len() && #[trigger] s[i] == '\0'
}

/// Whether `s` holds a NUL character, which no C string can.
pub fn has_nul(s: &str) -> (b: bool)
    ensures
        b == holds_nul(s@),
{
    let x: Vec<char> = chars_of(s);
    let mut i: usize = 0;
    while i < x.len()
        invariant
            x@ == s@,
            i <= x@.len(),
            forall|j: int| 0 <= j < i ==> s@[j] != '\0',
        decreases x@.len() - i,
    {
        if x[i] == '\0' {
            return true;
        }
        i += 1;
    }
    false
}

/// The texts of `v`, with `sep` between them.
pub open spec fn joined(v: Seq<String>, sep: Seq<char>) -> Seq<char>
    decreases v.len(),
{
    if v.len() == 0 {
        Seq::empty()
    } else if v.len() == 1 {
        v[0]@
    } else {
        joined(v.drop_last(), sep) + sep + v.last()@
    }
}

/// The texts of `v` in one, with `sep` between them.
pub fn join(v: &Vec<String>, sep: &str) -> (s: String)
    ensures
        s@ == joined(v@, sep@),
{
    let mut s = String::new();
    let mut i: usize = 0;
    while i < v.len()
        invariant
            i <= v@.len(),
            s@ == joined(v@.take(i as int), sep@),
        decreases v@.len() - i,
    {
        if i > 0 {
            s.append(sep);
        }
        s.append(v[i].as_str());
        i += 1;
        assert(v@.take(i as int).drop_last() =~= v@.take(i - 1));
        assert(s@ =~= joined(v@.take(i as int), sep@));
    }
    assert(v@.take(i as int) =~= v@);
    s
}

/// How `{:?}` writes a string.
pub uninterp spec fn debug_text(s: Seq<char>) -> Seq<char>;

/// The `Debug` form of a string, as `format!("{:?}", s)` gives it: the text is [`debug_text`] of
/// the string. What it escapes and how is left unsaid.
#[verifier::external_body]
pub(crate) fn quoted(s: &str) -> (r: String)
    ensures
        r@ == debug_text(s@),
{
    format!("{:?}", s)
}

/// Joined texts stand one behind the other in their order, with the separator between them and
/// nothing else.
pub proof fn joined_texts_keep_their_order(v: Seq<String>, sep: Seq<char>, s: String)
    ensures
        joined(Seq::empty(), sep) == Seq::<char>::empty(),
        joined(seq![s], sep) == s@,
        v.len() > 0 ==> joined(v.push(s), sep) == joined(v, sep) + sep + s@,
{
    assert(v.push(s).drop_last() =~= v);
}

} // verus!
