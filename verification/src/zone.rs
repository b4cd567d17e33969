//! Location codes of the form `A-12.3B`: cluster, aisle, level, column.

use vstd::prelude::*;
use vstd::string::*;
use crate::error::FormatError;

verus! {

/// The address of one storage location.
#[derive(Clone, Copy, Debug, PartialEq, Eq, Structural)]
pub struct SortZone {
    pub cluster: char,
    pub aisle: u32,
    pub level: u32,
    pub column: char,
}

/// Whether `c` is one of `A` to `Z`.
pub open spec fn is_upper(c: char) -> bool {
    'A' <= c && c <= 'Z'
}

/// Whether `c` is one of `0` to `9`.
pub open spec fn is_digit(c: char) -> bool {
    '0' <= c && c <= '9'
}

/// The number that a decimal digit stands for.
pub open spec fn digit_value(c: char) -> int {
    c as int - 48
}

/// The character of a number below ten.
pub open spec fn digit_char(d: int) -> char {
    if d == 0 {
        '0'
    } else if d == 1 {
        '1'
    } else if d == 2 {
        '2'
    } else if d == 3 {
        '3'
    } else if d == 4 {
        '4'
    } else if d == 5 {
        '5'
    } else if d == 6 {
        '6'
    } else if d == 7 {
        '7'
    } else if d == 8 {
        '8'
    } else {
        '9'
    }
}

/// The decimal digits of `n`, most significant first, without padding.
pub open spec fn decimal(n: nat) -> Seq<char>
    decreases n,
{
    if n < 10 {
        seq![digit_char(n as int)]
    } else {
        decimal(n / 10).push(digit_char((n % 10) as int))
    }
}

/// A whole number as text: its decimal digits, behind `-` where it is
/// below zero.
pub open spec fn int_text(i: int) -> Seq<char> {
    if i < 0 {
        seq!['-'] + decimal((-i) as nat)
    } else {
        decimal(i as nat)
    }
}

/// The number that a run of decimal digits stands for.
pub open spec fn decimal_value(s: Seq<char>) -> nat
    decreases s.len(),
{
    if s.len() == 0 {
        0
    } else {
        (decimal_value(s.drop_last()) * 10 + digit_value(s.last())) as nat
    }
}

/// Whether every character of `s` is a decimal digit.
pub open spec fn all_digits(s: Seq<char>) -> bool {
    forall|i: int| 0 <= i < s.len() ==> is_digit(#[trigger] s[i])
}

/// The index of the first `c` in `s`, or the length of `s` where it holds none.
pub open spec fn position(s: Seq<char>, c: char) -> int
    decreases s.len(),
{
    if s.len() == 0 {
        0
    } else {
        let before = position(s.drop_last(), c);
        if before < s.len() - 1 {
            before
        } else if s.last() == c {
            s.len() - 1
        } else {
            s.len() as int
        }
    }
}

/// What a location code stands for, or the part of it that is malformed.
///
/// A code is one upper-case letter, `-`, a run of decimal digits that fits
/// 32 bits, `.`, one decimal digit and one upper-case letter.
pub open spec fn parse_spec(s: Seq<char>) -> Result<SortZone, FormatError> {
    let dash = position(s, '-');
    if dash >= s.len() {
        Err(FormatError::Dash)
    } else if dash != 1 || !is_upper(s[0]) {
        Err(FormatError::Cluster)
    } else {
        let rest = s.skip(2);
        let dot = position(rest, '.');
        let aisle = rest.take(dot);
        let tail = rest.skip(dot + 1);
        if dot >= rest.len() {
            Err(FormatError::Dot)
        } else if aisle.len() == 0 || !all_digits(aisle) || decimal_value(aisle) > u32::MAX {
            Err(FormatError::Aisle)
        } else if tail.len() != 2 {
            Err(FormatError::LevelColumn)
        } else if !is_digit(tail[0]) {
            Err(FormatError::Level)
        } else if !is_upper(tail[1]) {
            Err(FormatError::Column)
        } else {
            Ok(
                SortZone {
                    cluster: s[0],
                    aisle: decimal_value(aisle) as u32,
                    level: digit_value(tail[0]) as u32,
                    column: tail[1],
                },
            )
        }
    }
}

/// `String::push` of std appends the given character to the end of the string.
pub assume_specification[ String::push ](s: &mut String, ch: char)
    ensures
        final(s)@ == old(s)@.push(ch),
;

/// `position` gives `k` where no character before `k` is `c` and the
/// character at `k`, if there is one, is.
pub proof fn lemma_position(s: Seq<char>, c: char, k: int)
    requires
        0 <= k <= s.len(),
        forall|j: int| 0 <= j < k ==> s[j] != c,
        k < s.len() ==> s[k] == c,
    ensures
        position(s, c) == k,
    decreases s.len(),
{
    if s.len() > 0 {
        let t = s.drop_last();
        if k < s.len() - 1 {
            lemma_position(t, c, k);
        } else {
            lemma_position(t, c, s.len() - 1);
        }
    }
}

/// The decimal digits of a number are digits, at least one, and stand
/// for the number.
pub proof fn lemma_decimal_digits(n: nat)
    ensures
        decimal(n).len() >= 1,
        all_digits(decimal(n)),
        decimal_value(decimal(n)) == n,
    decreases n,
{
    if n < 10 {
        let s = decimal(n);
        assert(s.drop_last() =~= Seq::<char>::empty());
        assert(decimal_value(s.drop_last()) == 0);
    } else {
        lemma_decimal_digits(n / 10);
        let s = decimal(n);
        assert(s.drop_last() =~= decimal(n / 10));
        assert(s.last() == digit_char((n % 10) as int));
    }
}

/// A run of digits stands for no less than any of its prefixes.
pub proof fn lemma_value_grows(s: Seq<char>, k: int)
    requires
        0 <= k <= s.len(),
        all_digits(s),
    ensures
        decimal_value(s.take(k)) <= decimal_value(s),
    decreases s.len() - k,
{
    if k < s.len() {
        lemma_value_grows(s, k + 1);
        let t = s.take(k + 1);
        assert(t.drop_last() =~= s.take(k));
        assert(is_digit(s[k]));
        assert(t.last() == s[k]);
    } else {
        assert(s.take(k) =~= s);
    }
}

impl SortZone {
    /// Whether this address can be written as a location code.
    pub open spec fn valid(self) -> bool {
        is_upper(self.cluster) && self.level <= 9 && is_upper(self.column)
    }

    /// The text of this address: cluster, `-`, aisle, `.`, level, column.
    pub open spec fn render(self) -> Seq<char> {
        seq![self.cluster, '-'] + decimal(self.aisle as nat) + seq!['.'] + decimal(
            self.level as nat,
        ) + seq![self.column]
    }

    /// Writes this address as text.
    pub fn display(&self) -> (r: String)
        ensures
            r@ == self.render(),
    {
        let mut out = String::new();
        out.push(self.cluster);
        out.push('-');
        push_decimal(&mut out, self.aisle);
        out.push('.');
        push_decimal(&mut out, self.level);
        out.push(self.column);
        assert(out@ =~= self.render());
        out
    }

    /// Reads a location code.
    pub fn parse(code: &str) -> (r: Result<SortZone, FormatError>)
        ensures
            r == parse_spec(code@),
    {
        let chars = chars_of(code);
        parse_chars(&chars)
    }
}

/// Writing an address that can be written and reading the text back gives
/// the address again.
pub proof fn lemma_parse_render(zone: SortZone)
    requires
        zone.valid(),
    ensures
        parse_spec(zone.render()) == Ok::<SortZone, FormatError>(zone),
{
    let s = zone.render();
    let digits = decimal(zone.aisle as nat);
    lemma_decimal_digits(zone.aisle as nat);
    assert(s[0] == zone.cluster);
    assert(s[1] == '-');
    lemma_position(s, '-', 1);
    let rest = s.skip(2);
    let level = seq![digit_char(zone.level as int)];
    assert(decimal(zone.level as nat) =~= level);
    assert(rest =~= digits + seq!['.'] + level + seq![zone.column]);
    assert forall|j: int| 0 <= j < digits.len() implies rest[j] != '.' by {
        assert(is_digit(digits[j]));
    }
    lemma_position(rest, '.', digits.len() as int);
    assert(rest.take(digits.len() as int) =~= digits);
    let tail = rest.skip(digits.len() as int + 1);
    assert(tail =~= seq![digit_char(zone.level as int), zone.column]);
    assert(digit_value(tail[0]) == zone.level);
}

fn digit_of(d: u32) -> (c: char)
    requires
        d < 10,
    ensures
        c == digit_char(d as int),
{
    if d == 0 {
        '0'
    } else if d == 1 {
        '1'
    } else if d == 2 {
        '2'
    } else if d == 3 {
        '3'
    } else if d == 4 {
        '4'
    } else if d == 5 {
        '5'
    } else if d == 6 {
        '6'
    } else if d == 7 {
        '7'
    } else if d == 8 {
        '8'
    } else {
        '9'
    }
}

/// Appends the decimal digits of `n`.
pub(crate) fn push_decimal(out: &mut String, n: u32)
    ensures
        final(out)@ == old(out)@ + decimal(n as nat),
    decreases n,
{
    if n >= 10 {
        push_decimal(out, n / 10);
    }
    out.push(digit_of(n % 10));
    assert(out@ =~= old(out)@ + decimal(n as nat));
}

/// Appends a whole number as text.
pub(crate) fn push_int(out: &mut String, i: i32)
    ensures
        final(out)@ == old(out)@ + int_text(i as int),
{
    if i < 0 {
        let size: u32 = (-(i as i64)) as u32;
        out.push('-');
        push_decimal(out, size);
        assert(out@ =~= old(out)@ + int_text(i as int));
    } else {
        push_decimal(out, i as u32);
    }
}

fn chars_of(code: &str) -> (v: Vec<char>)
    ensures
        v@ == code@,
{
    let n = code.unicode_len();
    let mut v: Vec<char> = Vec::new();
    let mut i: usize = 0;
    while i < n
        invariant
            n == code@.len(),
            i <= n,
            v@ == code@.take(i as int),
        decreases n - i,
    {
        v.push(code.get_char(i));
        i = i + 1;
        assert(v@ =~= code@.take(i as int));
    }
    assert(code@.take(n as int) =~= code@);
    v
}

fn find(v: &Vec<char>, from: usize, c: char) -> (r: usize)
    requires
        from <= v@.len(),
    ensures
        from <= r <= v@.len(),
        r - from == position(v@.skip(from as int), c),
{
    let mut i: usize = from;
    while i < v.len() && v[i] != c
        invariant
            from <= i <= v@.len(),
            forall|j: int| from <= j < i ==> v@[j] != c,
        decreases v@.len() - i,
    {
        i = i + 1;
    }
    proof {
        lemma_position(v@.skip(from as int), c, i - from);
    }
    i
}

#[verifier::loop_isolation(false)]
fn parse_chars(v: &Vec<char>) -> (r: Result<SortZone, FormatError>)
    ensures
        r == parse_spec(v@),
{
    let n = v.len();
    let dash = find(v, 0, '-');
    assert(v@.skip(0) =~= v@);
    if dash >= n {
        return Err(FormatError::Dash);
    }
    if dash != 1 || !(v[0] >= 'A' && v[0] <= 'Z') {
        return Err(FormatError::Cluster);
    }
    let stop = find(v, 2, '.');
    let ghost rest = v@.skip(2);
    let ghost dot = stop - 2;
    let ghost aisle = rest.take(dot);
    let ghost tail = rest.skip(dot + 1);
    if stop >= n {
        return Err(FormatError::Dot);
    }
    if stop == 2 {
        return Err(FormatError::Aisle);
    }
    let mut value: u64 = 0;
    let mut i: usize = 2;
    while i < stop
        invariant
            2 <= i <= stop < n,
            n == v@.len(),
            rest == v@.skip(2),
            aisle == rest.take(stop - 2),
            all_digits(aisle.take(i - 2)),
            value == decimal_value(aisle.take(i - 2)),
            value <= u32::MAX,
        decreases stop - i,
    {
        let c = v[i];
        assert(aisle[i - 2] == c);
        if !(c >= '0' && c <= '9') {
            return Err(FormatError::Aisle);
        }
        let ghost next = aisle.take(i - 2 + 1);
        assert(next.drop_last() =~= aisle.take(i - 2));
        assert(next.last() == c);
        value = value * 10 + (c as u64 - 48);
        assert(all_digits(next)) by {
            assert forall|j: int| 0 <= j < next.len() implies is_digit(#[trigger] next[j]) by {
                if j < i - 2 {
                    assert(aisle.take(i - 2)[j] == next[j]);
                }
            }
        }
        if value > 0xffff_ffff {
            proof {
                if all_digits(aisle) {
                    lemma_value_grows(aisle, i - 2 + 1);
                }
            }
            return Err(FormatError::Aisle);
        }
        i = i + 1;
    }
    assert(aisle.take(stop - 2) =~= aisle);
    if n - stop != 3 {
        return Err(FormatError::LevelColumn);
    }
    let level = v[stop + 1];
    let column = v[stop + 2];
    assert(tail[0] == level && tail[1] == column);
    if !(level >= '0' && level <= '9') {
        return Err(FormatError::Level);
    }
    if !(column >= 'A' && column <= 'Z') {
        return Err(FormatError::Column);
    }
    Ok(SortZone { cluster: v[0], aisle: value as u32, level: level as u32 - 48, column })
}

} // verus!
