//! Character-level helpers: splitting, searching, decimal and hexadecimal
//! digits, and the decimal integer syntax of prefix lengths.
use vstd::prelude::*;

verus! {

broadcast use vstd::string::group_string_axioms;

/// The characters of `s`, in order.
pub fn chars_of(s: &str) -> (v: Vec<char>)
    ensures
        v@ == s@,
{
    let mut v: Vec<char> = Vec::new();
    for c in it: s.chars()
        invariant
            it.seq() == s@,
            v@ == it.seq().take(it.index() as int),
    {
        v.push(c);
    }
    v
}

/// `String::push`: appends the character `c` to `s`.
#[verifier::external_body]
fn push_char(s: &mut String, c: char)
    ensures
        final(s)@ == old(s)@.push(c),
{
    s.push(c);
}

/// Appends every character of `cs` to `s`.
pub fn push_chars(s: &mut String, cs: &Vec<char>)
    ensures
        final(s)@ == old(s)@ + cs@,
{
    let ghost start = s@;
    for i in 0..cs.len()
        invariant
            s@ == start + cs@.take(i as int),
    {
        push_char(s, cs[i]);
        assert(cs@.take(i + 1) == cs@.take(i as int).push(cs@[i as int]));
    }
    assert(cs@.take(cs.len() as int) == cs@);
}

/// Appends the characters of `t` to `out`.
pub fn push_text(out: &mut Vec<char>, t: &str)
    ensures
        final(out)@ == old(out)@ + t@,
{
    let cs = chars_of(t);
    let ghost start = out@;
    for i in 0..cs.len()
        invariant
            out@ == start + cs@.take(i as int),
    {
        out.push(cs[i]);
        assert(cs@.take(i + 1) == cs@.take(i as int).push(cs@[i as int]));
    }
    assert(cs@.take(cs.len() as int) == cs@);
}

/// The string whose characters are `cs`.
pub fn string_from_chars(cs: &Vec<char>) -> (s: String)
    ensures
        s@ == cs@,
{
    let mut s = String::new();
    push_chars(&mut s, cs);
    s
}

// ---------------------------------------------------------------------------
// Splitting

/// The pieces of `s` between occurrences of `sep`, as `str::split` yields
/// them: an empty `s` gives one empty piece, and two adjacent separators give
/// an empty piece between them.
pub open spec fn split_spec(s: Seq<char>, sep: char) -> Seq<Seq<char>>
    decreases s.len(),
{
    if s.len() == 0 {
        seq![Seq::<char>::empty()]
    } else {
        let init = split_spec(s.drop_last(), sep);
        if s.last() == sep {
            init.push(Seq::<char>::empty())
        } else {
            init.update(init.len() - 1, init.last().push(s.last()))
        }
    }
}

/// Splitting always yields at least one piece.
pub proof fn lemma_split_nonempty(s: Seq<char>, sep: char)
    ensures
        split_spec(s, sep).len() >= 1,
    decreases s.len(),
{
    if s.len() > 0 {
        lemma_split_nonempty(s.drop_last(), sep);
    }
}

/// Splitting at a separator that joins two texts splits each text apart.
pub proof fn lemma_split_join(x: Seq<char>, y: Seq<char>, sep: char)
    ensures
        split_spec(x + seq![sep] + y, sep) == split_spec(x, sep) + split_spec(y, sep),
    decreases y.len(),
{
    let xs = x + seq![sep];
    if y.len() == 0 {
        assert(x + seq![sep] + y == xs);
        assert(xs.drop_last() == x);
        assert(split_spec(y, sep) == seq![Seq::<char>::empty()]);
    } else {
        let y0 = y.drop_last();
        lemma_split_join(x, y0, sep);
        lemma_split_nonempty(y0, sep);
        lemma_split_nonempty(x, sep);
        let whole = x + seq![sep] + y;
        assert(whole.drop_last() == x + seq![sep] + y0);
        assert(whole.last() == y.last());
        let a = split_spec(x, sep);
        let b = split_spec(y0, sep);
        if y.last() == sep {
            assert((a + b).push(Seq::<char>::empty()) == a + b.push(Seq::<char>::empty()));
        } else {
            let ab = a + b;
            assert(ab.last() == b.last());
            assert(ab.update(ab.len() - 1, ab.last().push(y.last())) == a + b.update(
                b.len() - 1,
                b.last().push(y.last()),
            ));
        }
    }
}

/// A text without the separator is a single piece.
pub proof fn lemma_split_none(x: Seq<char>, sep: char)
    requires
        forall|i: int| 0 <= i < x.len() ==> x[i] != sep,
    ensures
        split_spec(x, sep) == seq![x],
    decreases x.len(),
{
    if x.len() > 0 {
        let x0 = x.drop_last();
        assert forall|i: int| 0 <= i < x0.len() implies x0[i] != sep by {
            assert(x0[i] == x[i]);
        }
        lemma_split_none(x0, sep);
        assert(x0.push(x.last()) == x);
    } else {
        assert(x == Seq::<char>::empty());
    }
}

/// The pieces `parts` put back together with `sep` between each two.
pub open spec fn join_spec(parts: Seq<Seq<char>>, sep: char) -> Seq<char>
    decreases parts.len(),
{
    if parts.len() == 0 {
        Seq::empty()
    } else if parts.len() == 1 {
        parts[0]
    } else {
        join_spec(parts.drop_last(), sep) + seq![sep] + parts.last()
    }
}

/// Putting the pieces of a split back together gives the text that was
/// split.
pub proof fn lemma_split_then_join(s: Seq<char>, sep: char)
    ensures
        join_spec(split_spec(s, sep), sep) == s,
    decreases s.len(),
{
    if s.len() > 0 {
        let s0 = s.drop_last();
        let c = s.last();
        lemma_split_then_join(s0, sep);
        lemma_split_nonempty(s0, sep);
        let init = split_spec(s0, sep);
        if c == sep {
            let parts = init.push(Seq::<char>::empty());
            assert(parts.drop_last() == init);
            assert(s0 + seq![sep] + Seq::<char>::empty() == s);
        } else {
            let parts = init.update(init.len() - 1, init.last().push(c));
            if init.len() == 1 {
                assert(init[0] == s0);
                assert(s0.push(c) == s);
            } else {
                assert(parts.drop_last() == init.drop_last());
                assert(join_spec(init, sep) == join_spec(init.drop_last(), sep) + seq![sep]
                    + init.last());
                assert(join_spec(init.drop_last(), sep) + seq![sep] + init.last().push(c) == (
                join_spec(init.drop_last(), sep) + seq![sep] + init.last()).push(c));
                assert(s0.push(c) == s);
            }
        }
    } else {
        assert(split_spec(s, sep) == seq![Seq::<char>::empty()]);
        assert(s == Seq::<char>::empty());
    }
}

/// `c` does not occur in `s`.
pub open spec fn lacks(s: Seq<char>, c: char) -> bool {
    forall|i: int| 0 <= i < s.len() ==> s[i] != c
}

/// A character that occurs in neither of two texts does not occur in
/// their concatenation.
pub proof fn lemma_lacks_concat(a: Seq<char>, b: Seq<char>, c: char)
    requires
        lacks(a, c),
        lacks(b, c),
    ensures
        lacks(a + b, c),
{
    assert forall|i: int| 0 <= i < (a + b).len() implies (a + b)[i] != c by {
        if i < a.len() {
            assert((a + b)[i] == a[i]);
        } else {
            assert((a + b)[i] == b[i - a.len()]);
        }
    }
}

/// The views of a vector of character vectors.
pub open spec fn views_of(parts: Seq<Vec<char>>) -> Seq<Seq<char>> {
    parts.map_values(|p: Vec<char>| p@)
}

/// Splits `s` at every occurrence of `sep`.
pub fn split_chars(s: &Vec<char>, sep: char) -> (parts: Vec<Vec<char>>)
    ensures
        views_of(parts@) == split_spec(s@, sep),
{
    let mut parts: Vec<Vec<char>> = Vec::new();
    let mut cur: Vec<char> = Vec::new();
    assert(s@.take(0) == Seq::<char>::empty());
    assert(views_of(parts@).push(cur@) == split_spec(s@.take(0), sep));
    for i in 0..s.len()
        invariant
            views_of(parts@).push(cur@) == split_spec(s@.take(i as int), sep),
    {
        let c = s[i];
        let ghost pre = s@.take(i as int);
        let ghost next = s@.take(i + 1);
        assert(next.drop_last() == pre);
        assert(next.last() == c);
        proof {
            lemma_split_nonempty(pre, sep);
        }
        if c == sep {
            let done = cur;
            parts.push(done);
            cur = Vec::new();
            assert(views_of(parts@) == views_of(parts@).drop_last().push(done@));
            assert(views_of(parts@).push(cur@) == split_spec(next, sep));
        } else {
            cur.push(c);
            assert(views_of(parts@).push(cur@) == split_spec(next, sep));
        }
    }
    assert(s@.take(s.len() as int) == s@);
    parts.push(cur);
    assert(views_of(parts@) == split_spec(s@, sep));
    parts
}

// ---------------------------------------------------------------------------
// Searching

/// `needle` occurs in `hay` starting at position `i`.
pub open spec fn occurs_at(hay: Seq<char>, needle: Seq<char>, i: int) -> bool {
    0 <= i && i + needle.len() <= hay.len() && hay.subrange(i, i + needle.len()) == needle
}

/// `needle` occurs somewhere in `hay` (`str::contains`).
pub open spec fn contains_spec(hay: Seq<char>, needle: Seq<char>) -> bool {
    exists|i: int| occurs_at(hay, needle, i)
}

/// Whether `needle` occurs at position `i` of `hay`.
fn matches_at(hay: &Vec<char>, needle: &Vec<char>, i: usize) -> (r: bool)
    requires
        i + needle.len() <= hay.len(),
    ensures
        r == occurs_at(hay@, needle@, i as int),
{
    let mut j: usize = 0;
    while j < needle.len()
        invariant
            i + needle.len() <= hay.len(),
            j <= needle.len(),
            forall|k: int| 0 <= k < j ==> hay@[i + k] == needle@[k],
        decreases needle.len() - j,
    {
        if hay[i + j] != needle[j] {
            assert(hay@.subrange(i as int, i + needle.len())[j as int] != needle@[j as int]);
            return false;
        }
        j = j + 1;
    }
    assert(hay@.subrange(i as int, i + needle.len()) =~= needle@);
    true
}

/// Whether `needle` occurs in `hay`.
pub fn contains_chars(hay: &Vec<char>, needle: &Vec<char>) -> (r: bool)
    ensures
        r == contains_spec(hay@, needle@),
{
    if needle.len() > hay.len() {
        return false;
    }
    let last = hay.len() - needle.len();
    let mut i: usize = 0;
    loop
        invariant
            last == hay.len() - needle.len(),
            needle.len() <= hay.len(),
            i <= last,
            forall|k: int| 0 <= k < i ==> !occurs_at(hay@, needle@, k),
        decreases last - i,
    {
        if matches_at(hay, needle, i) {
            return true;
        }
        if i == last {
            assert forall|k: int| occurs_at(hay@, needle@, k) implies k < i + 1 by {}
            return false;
        }
        i = i + 1;
    }
}

// ---------------------------------------------------------------------------
// Decimal digits

/// `c` is one of the ASCII digits `0`..`9`.
pub open spec fn is_digit(c: char) -> bool {
    '0' <= c <= '9'
}

/// The value of the ASCII digit `c`.
pub open spec fn digit_value(c: char) -> nat {
    (c as int - '0' as int) as nat
}

/// The ASCII digit for `d`, where `d < 10`.
pub open spec fn digit_char(d: nat) -> char {
    (d + '0' as int) as char
}

/// The shortest decimal spelling of `n`: no sign and no leading zero.
pub open spec fn decimal(n: nat) -> Seq<char>
    decreases n,
{
    if n < 10 {
        seq![digit_char(n)]
    } else {
        decimal(n / 10).push(digit_char(n % 10))
    }
}

/// The decimal spelling of a number is a non-empty run of digits without
/// a leading zero, and at most three digits long below 1000.
pub proof fn lemma_decimal_shape(n: nat)
    ensures
        decimal(n).len() >= 1,
        forall|i: int| 0 <= i < decimal(n).len() ==> is_digit(#[trigger] decimal(n)[i]),
        decimal(n).len() > 1 ==> decimal(n)[0] != '0',
        n < 10 ==> decimal(n).len() == 1,
        n >= 10 ==> decimal(n).len() >= 2,
        n < 100 ==> decimal(n).len() <= 2,
        n < 1000 ==> decimal(n).len() <= 3,
    decreases n,
{
    if n >= 10 {
        lemma_decimal_shape(n / 10);
        let d = decimal(n / 10);
        assert(decimal(n) == d.push(digit_char(n % 10)));
        assert forall|i: int| 0 <= i < decimal(n).len() implies is_digit(#[trigger] decimal(n)[i]) by {
            if i < d.len() {
                assert(decimal(n)[i] == d[i]);
            }
        }
        if d.len() == 1 {
            assert(n / 10 < 10);
            assert(d == seq![digit_char(n / 10)]);
            assert(n / 10 >= 1);
            assert(d[0] == digit_char(n / 10));
        }
        assert(decimal(n)[0] == d[0]);
    }
}

/// A decimal spelling holds no character other than digits.
pub proof fn lemma_decimal_no(n: nat, c: char)
    requires
        !is_digit(c),
    ensures
        forall|i: int| 0 <= i < decimal(n).len() ==> decimal(n)[i] != c,
{
    lemma_decimal_shape(n);
    assert forall|i: int| 0 <= i < decimal(n).len() implies decimal(n)[i] != c by {
        assert(is_digit(decimal(n)[i]));
    }
}

/// The ASCII digit for `d`.
fn digit_to_char(d: u32) -> (c: char)
    requires
        d < 10,
    ensures
        c == digit_char(d as nat),
{
    match d {
        0 => '0',
        1 => '1',
        2 => '2',
        3 => '3',
        4 => '4',
        5 => '5',
        6 => '6',
        7 => '7',
        8 => '8',
        _ => '9',
    }
}

/// Appends the decimal spelling of `n` to `out`.
pub fn push_decimal(out: &mut Vec<char>, n: u32)
    ensures
        final(out)@ == old(out)@ + decimal(n as nat),
    decreases n,
{
    if n < 10 {
        out.push(digit_to_char(n));
        assert(decimal(n as nat) == seq![digit_char(n as nat)]);
    } else {
        push_decimal(out, n / 10);
        out.push(digit_to_char(n % 10));
        assert(decimal(n as nat) == decimal((n / 10) as nat).push(digit_char((n % 10) as nat)));
    }
}

// ---------------------------------------------------------------------------
// Hexadecimal digits

/// The lower-case hexadecimal digit for `d`, where `d < 16`.
pub open spec fn hex_char(d: nat) -> char {
    if d < 10 {
        digit_char(d)
    } else {
        (d - 10 + 'a' as int) as char
    }
}

/// The two lower-case hexadecimal digits of a byte (`{:02x}`).
pub open spec fn hex_byte(b: u8) -> Seq<char> {
    seq![hex_char((b / 16) as nat), hex_char((b % 16) as nat)]
}

/// The lower-case hexadecimal digit for `d`.
fn hex_digit(d: u8) -> (c: char)
    requires
        d < 16,
    ensures
        c == hex_char(d as nat),
{
    match d {
        0 => '0',
        1 => '1',
        2 => '2',
        3 => '3',
        4 => '4',
        5 => '5',
        6 => '6',
        7 => '7',
        8 => '8',
        9 => '9',
        10 => 'a',
        11 => 'b',
        12 => 'c',
        13 => 'd',
        14 => 'e',
        _ => 'f',
    }
}

/// Appends the two hexadecimal digits of `b` to `out`.
pub fn push_hex_byte(out: &mut Vec<char>, b: u8)
    ensures
        final(out)@ == old(out)@ + hex_byte(b),
{
    out.push(hex_digit(b / 16));
    out.push(hex_digit(b % 16));
}

// ---------------------------------------------------------------------------
// Integer syntax

/// Why a string is not the decimal spelling of a `u8` (the kinds of
/// `std::num::ParseIntError` that such a parse can give).
#[derive(Debug, Clone, Copy, PartialEq, Eq, Structural)]
pub enum IntError {
    /// The string is empty.
    Empty,
    /// A character is not a digit, or the string is a lone sign.
    InvalidDigit,
    /// The value is larger than 255.
    PosOverflow,
}

/// Reads the digits `ds` left to right onto `acc`, stopping at the first
/// character that is not a digit or at the first step past 255.
pub open spec fn scan_u8(ds: Seq<char>, acc: nat) -> Result<nat, IntError>
    decreases ds.len(),
{
    if ds.len() == 0 {
        Ok(acc)
    } else if !is_digit(ds[0]) {
        Err(IntError::InvalidDigit)
    } else if acc * 10 + digit_value(ds[0]) > 255 {
        Err(IntError::PosOverflow)
    } else {
        scan_u8(ds.drop_first(), acc * 10 + digit_value(ds[0]))
    }
}

/// `str::parse::<u8>`: an optional leading `+`, then decimal digits.
pub open spec fn parse_u8_spec(s: Seq<char>) -> Result<u8, IntError> {
    if s.len() == 0 {
        Err(IntError::Empty)
    } else if s == seq!['+'] || s == seq!['-'] {
        Err(IntError::InvalidDigit)
    } else {
        let ds = if s[0] == '+' {
            s.drop_first()
        } else {
            s
        };
        match scan_u8(ds, 0) {
            Ok(v) => Ok(v as u8),
            Err(e) => Err(e),
        }
    }
}

/// Reading `x + y` reads `x`, then goes on with `y` from where `x` ended.
pub proof fn lemma_scan_concat(x: Seq<char>, y: Seq<char>, acc: nat)
    ensures
        scan_u8(x + y, acc) == (match scan_u8(x, acc) {
            Ok(v) => scan_u8(y, v),
            Err(e) => Err(e),
        }),
    decreases x.len(),
{
    if x.len() == 0 {
        assert(x + y == y);
    } else {
        assert((x + y)[0] == x[0]);
        assert((x + y).drop_first() == x.drop_first() + y);
        if is_digit(x[0]) && acc * 10 + digit_value(x[0]) <= 255 {
            lemma_scan_concat(x.drop_first(), y, acc * 10 + digit_value(x[0]));
        }
    }
}

/// The decimal spelling of a byte reads back as that byte.
pub proof fn lemma_parse_u8_decimal(n: u8)
    ensures
        parse_u8_spec(decimal(n as nat)) == Ok::<u8, IntError>(n),
{
    lemma_scan_decimal(n as nat);
    lemma_decimal_shape(n as nat);
    let t = decimal(n as nat);
    assert(is_digit(t[0]));
    assert(t != seq!['+'] && t != seq!['-']) by {
        if t == seq!['+'] || t == seq!['-'] {
            assert(t[0] == '+' || t[0] == '-');
        }
    }
}

proof fn lemma_scan_decimal(n: nat)
    requires
        n <= 255,
    ensures
        scan_u8(decimal(n), 0) == Ok::<nat, IntError>(n),
    decreases n,
{
    let t = decimal(n);
    if n < 10 {
        assert(t == seq![digit_char(n)]);
        assert(digit_value(digit_char(n)) == n);
        assert(is_digit(digit_char(n)));
        assert(t.drop_first() == Seq::<char>::empty());
        assert(scan_u8(Seq::<char>::empty(), n) == Ok::<nat, IntError>(n));
    } else {
        lemma_scan_decimal(n / 10);
        let d = digit_char(n % 10);
        assert(t == decimal(n / 10) + seq![d]);
        lemma_scan_concat(decimal(n / 10), seq![d], 0);
        assert(digit_value(d) == n % 10);
        assert(seq![d].drop_first() == Seq::<char>::empty());
        assert(is_digit(d));
        assert((n / 10) * 10 + n % 10 == n);
        assert(scan_u8(Seq::<char>::empty(), n) == Ok::<nat, IntError>(n));
        assert(seq![d][0] == d);
        assert(scan_u8(seq![d], n / 10) == Ok::<nat, IntError>(n));
    }
}

/// The value of the ASCII digit `c`.
fn digit_of(c: char) -> (d: u32)
    requires
        is_digit(c),
    ensures
        d == digit_value(c),
{
    (c as u32) - ('0' as u32)
}

/// Parses a `u8` as `str::parse::<u8>` does.
pub fn parse_u8(s: &Vec<char>) -> (r: Result<u8, IntError>)
    ensures
        r == parse_u8_spec(s@),
{
    if s.len() == 0 {
        return Err(IntError::Empty);
    }
    if s.len() == 1 && (s[0] == '+' || s[0] == '-') {
        assert(s@ == seq![s@[0]]);
        return Err(IntError::InvalidDigit);
    }
    assert(!(s@ == seq!['+'] || s@ == seq!['-']) ) by {
        if s@ == seq!['+'] || s@ == seq!['-'] {
            assert(s@.len() == 1);
        }
    }
    let start: usize = if s[0] == '+' { 1 } else { 0 };
    let ghost ds = if s@[0] == '+' { s@.drop_first() } else { s@ };
    assert(ds == s@.skip(start as int));
    assert(parse_u8_spec(s@) == (match scan_u8(ds, 0) {
        Ok(v) => Ok(v as u8),
        Err(e) => Err(e),
    }));
    let mut acc: u32 = 0;
    let mut i: usize = start;
    while i < s.len()
        invariant
            start <= i <= s.len(),
            ds == s@.skip(start as int),
            parse_u8_spec(s@) == (match scan_u8(ds, 0) {
                Ok(v) => Ok(v as u8),
                Err(e) => Err(e),
            }),
            acc <= 255,
            scan_u8(ds, 0) == scan_u8(s@.skip(i as int), acc as nat),
        decreases s.len() - i,
    {
        let c = s[i];
        let ghost rest = s@.skip(i as int);
        assert(rest[0] == c);
        assert(rest.drop_first() == s@.skip(i + 1));
        if !('0' <= c && c <= '9') {
            assert(scan_u8(rest, acc as nat) == Err::<nat, IntError>(IntError::InvalidDigit));
            return Err(IntError::InvalidDigit);
        }
        let d = digit_of(c);
        if acc * 10 + d > 255 {
            assert(scan_u8(rest, acc as nat) == Err::<nat, IntError>(IntError::PosOverflow));
            return Err(IntError::PosOverflow);
        }
        acc = acc * 10 + d;
        i = i + 1;
    }
    assert(s@.skip(i as int).len() == 0);
    Ok(acc as u8)
}

} // verus!
