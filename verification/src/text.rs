//! Text helpers: characters of a string, decimal numbers, blank and line
//! handling. Everything is stated over `Seq<char>`, the view of a string.

use vstd::prelude::*;
use vstd::string::*;

verus! {

/// `String::push` appends one character to the end of the string.
pub assume_specification[ String::push ](s: &mut String, c: char)
    ensures
        final(s)@ == old(s)@.push(c),
;

/// The characters of `s`, in order.
pub fn chars_of(s: &str) -> (v: Vec<char>)
    ensures
        v@ == s@,
{
    broadcast use axiom_spec_iter;
    let mut v: Vec<char> = Vec::new();
    for c in it: s.chars()
        invariant
            v@ == it.history(),
            it.seq() == s@,
    {
        v.push(c);
    }
    assert(v@ =~= s@);
    v
}

/// The string made of the characters `v[from..to]`.
pub fn string_of(v: &Vec<char>, from: usize, to: usize) -> (s: String)
    requires
        from <= to <= v.len(),
    ensures
        s@ == v@.subrange(from as int, to as int),
{
    let mut s = String::new();
    let mut i: usize = from;
    while i < to
        invariant
            from <= i <= to <= v.len(),
            s@ == v@.subrange(from as int, i as int),
        decreases to - i,
    {
        s.push(v[i]);
        assert(v@.subrange(from as int, i + 1) =~= v@.subrange(from as int, i as int).push(v@[i as int]));
        i += 1;
    }
    s
}

/// The character of a decimal digit.
pub open spec fn digit_char(d: nat) -> char {
    if d == 0 {
        '0'
    } else if d == 1 {
        '1'
    } else if d == 2 {
        '2'
    } else if d == 3 {
        '3'
    } else if d == 4 {
        '4'
    } else if d == 5 {
        '5'
    } else if d == 6 {
        '6'
    } else if d == 7 {
        '7'
    } else if d == 8 {
        '8'
    } else {
        '9'
    }
}

/// The value of a decimal digit, if `c` is one.
pub open spec fn digit_value(c: char) -> Option<nat> {
    if c == '0' {
        Some(0)
    } else if c == '1' {
        Some(1)
    } else if c == '2' {
        Some(2)
    } else if c == '3' {
        Some(3)
    } else if c == '4' {
        Some(4)
    } else if c == '5' {
        Some(5)
    } else if c == '6' {
        Some(6)
    } else if c == '7' {
        Some(7)
    } else if c == '8' {
        Some(8)
    } else if c == '9' {
        Some(9)
    } else {
        None
    }
}

/// The decimal digits of a natural number, most significant first, without
/// leading zeros.
pub open spec fn digits_text(n: nat) -> Seq<char>
    decreases n,
{
    if n < 10 {
        seq![digit_char(n)]
    } else {
        digits_text(n / 10).push(digit_char(n % 10))
    }
}

/// An integer written in decimal, with a leading `-` if it is negative.
pub open spec fn decimal_text(n: int) -> Seq<char> {
    if n < 0 {
        seq!['-'] + digits_text((-n) as nat)
    } else {
        digits_text(n as nat)
    }
}

fn digit(d: u8) -> (c: char)
    requires
        d < 10,
    ensures
        c == digit_char(d as nat),
{
    match d {
        0 => '0',
        1 => '1',
        2 => '2',
        3 => '3',
        4 => '4',
        5 => '5',
        6 => '6',
        7 => '7',
        8 => '8',
        _ => '9',
    }
}

/// Appends the decimal digits of `n` to `out`.
pub fn push_digits(out: &mut Vec<char>, n: u64)
    ensures
        final(out)@ == old(out)@ + digits_text(n as nat),
    decreases n,
{
    if n < 10 {
        out.push(digit(n as u8));
        assert(out@ =~= old(out)@ + digits_text(n as nat));
    } else {
        push_digits(out, n / 10);
        out.push(digit((n % 10) as u8));
        assert(out@ =~= old(out)@ + digits_text(n as nat));
    }
}

/// Appends `n` in decimal to `out`.
pub fn push_decimal(out: &mut Vec<char>, n: i64)
    ensures
        final(out)@ == old(out)@ + decimal_text(n as int),
{
    if n < 0 {
        out.push('-');
        let m: u64 = (-(n as i128)) as u64;
        push_digits(out, m);
        assert(out@ =~= old(out)@ + decimal_text(n as int));
    } else {
        push_digits(out, n as u64);
    }
}

/// Appends the characters of `s` to `out`.
pub fn push_str(out: &mut Vec<char>, s: &str)
    ensures
        final(out)@ == old(out)@ + s@,
{
    broadcast use axiom_spec_iter;
    for c in it: s.chars()
        invariant
            out@ == old(out)@ + it.history(),
            it.seq() == s@,
    {
        out.push(c);
        assert(old(out)@ + it.history().push(c) =~= (old(out)@ + it.history()).push(c));
    }
    assert(out@ =~= old(out)@ + s@);
}

/// Appends the characters `v[from..to]` to `out`.
pub fn push_range(out: &mut Vec<char>, v: &Vec<char>, from: usize, to: usize)
    requires
        from <= to <= v.len(),
    ensures
        final(out)@ == old(out)@ + v@.subrange(from as int, to as int),
{
    let mut i: usize = from;
    while i < to
        invariant
            from <= i <= to <= v.len(),
            out@ == old(out)@ + v@.subrange(from as int, i as int),
        decreases to - i,
    {
        out.push(v[i]);
        assert(out@ =~= old(out)@ + v@.subrange(from as int, i + 1));
        i += 1;
    }
}


/// Every character of `s` is a decimal digit.
pub open spec fn all_digits(s: Seq<char>) -> bool {
    forall|i: int| 0 <= i < s.len() ==> (#[trigger] digit_value(s[i])) is Some
}

/// The number that a sequence of decimal digits denotes; leading zeros count
/// for nothing.
pub open spec fn digits_value(s: Seq<char>) -> nat
    decreases s.len(),
{
    if s.len() == 0 {
        0
    } else {
        digits_value(s.drop_last()) * 10 + match digit_value(s.last()) {
            Some(d) => d,
            None => 0,
        }
    }
}

/// The number that `digits` denotes, negated if `negative`. There is none
/// if `digits` is empty or holds anything but decimal digits.
pub open spec fn number_text(digits: Seq<char>, negative: bool) -> Option<int> {
    if digits.len() > 0 && all_digits(digits) {
        Some(
            if negative {
                -(digits_value(digits) as int)
            } else {
                digits_value(digits) as int
            },
        )
    } else {
        None
    }
}

/// The integer that `s` denotes: an optional `+` (or, if `signed`, `-`) and
/// then one or more decimal digits, nothing before, between or after.
pub open spec fn int_text(s: Seq<char>, signed: bool) -> Option<int> {
    if s.len() > 0 && s[0] == '+' {
        number_text(s.skip(1), false)
    } else if signed && s.len() > 0 && s[0] == '-' {
        number_text(s.skip(1), true)
    } else {
        number_text(s, false)
    }
}

/// The integer that `s` denotes, if it lies in `lo..=hi`.
pub open spec fn int_in_range(s: Seq<char>, signed: bool, lo: int, hi: int) -> Option<int> {
    match int_text(s, signed) {
        Some(v) => if lo <= v <= hi {
            Some(v)
        } else {
            None
        },
        None => None,
    }
}

/// The largest magnitude that `parse_int` takes as a bound: two to the 64.
pub const PARSE_LIMIT: u128 = 18446744073709551616u128;

fn digit_of(c: char) -> (d: Option<u8>)
    ensures
        match d {
            Some(x) => digit_value(c) == Some(x as nat) && x < 10,
            None => digit_value(c) is None,
        },
{
    match c {
        '0' => Some(0),
        '1' => Some(1),
        '2' => Some(2),
        '3' => Some(3),
        '4' => Some(4),
        '5' => Some(5),
        '6' => Some(6),
        '7' => Some(7),
        '8' => Some(8),
        '9' => Some(9),
        _ => None,
    }
}

/// A longer run of digits denotes no less than its beginning.
pub proof fn lemma_digits_value_grows(s: Seq<char>, k: int)
    requires
        0 <= k <= s.len(),
    ensures
        digits_value(s.take(k)) <= digits_value(s),
    decreases s.len(),
{
    if k == s.len() {
        assert(s.take(k) =~= s);
    } else {
        lemma_digits_value_grows(s.drop_last(), k);
        assert(s.drop_last().take(k) =~= s.take(k));
    }
}

/// Reads `s` as an integer in `lo..=hi`.
pub fn parse_int(s: &str, signed: bool, lo: i128, hi: i128) -> (r: Option<i128>)
    requires
        -PARSE_LIMIT <= lo,
        hi <= PARSE_LIMIT,
    ensures
        match r {
            Some(v) => int_in_range(s@, signed, lo as int, hi as int) == Some(v as int),
            None => int_in_range(s@, signed, lo as int, hi as int) is None,
        },
{
    let v = chars_of(s);
    let n = v.len();
    let mut negative = false;
    let mut start: usize = 0;
    if n > 0 && v[0] == '+' {
        start = 1;
    } else if signed && n > 0 && v[0] == '-' {
        start = 1;
        negative = true;
    }
    let ghost digits = v@.skip(start as int);
    assert(int_text(s@, signed) == number_text(digits, negative)) by {
        if start == 0 {
            assert(digits =~= s@);
        }
    }
    if start == n {
        return None;
    }
    let mut acc: u128 = 0;
    let mut i: usize = start;
    while i < n
        invariant
            start <= i <= n,
            n == v.len(),
            digits == v@.skip(start as int),
            all_digits(digits.take(i - start)),
            acc == digits_value(digits.take(i - start)),
            acc <= PARSE_LIMIT,
            -PARSE_LIMIT <= lo,
            hi <= PARSE_LIMIT,
            int_text(s@, signed) == number_text(digits, negative),
        decreases n - i,
    {
        let ghost before = digits.take(i - start);
        let ghost after = digits.take(i + 1 - start);
        proof {
            assert(after.drop_last() =~= before);
            assert(after.last() == v@[i as int]);
            assert(digits[i - start] == v@[i as int]);
        }
        match digit_of(v[i]) {
            None => {
                return None;
            },
            Some(d) => {
                acc = acc * 10 + (d as u128);
                proof {
                    assert forall|j: int| 0 <= j < after.len() implies (#[trigger] digit_value(
                        after[j],
                    )) is Some by {
                        if j < before.len() {
                            assert(after[j] == before[j]);
                        }
                    }
                }
                if acc > PARSE_LIMIT {
                    proof {
                        lemma_digits_value_grows(digits, i + 1 - start);
                    }
                    return None;
                }
            },
        }
        i += 1;
    }
    assert(digits.take(n - start) =~= digits);
    let value: i128 = if negative {
        -(acc as i128)
    } else {
        acc as i128
    };
    if lo <= value && value <= hi {
        Some(value)
    } else {
        None
    }
}

/// `c` is white space as Unicode defines it (`White_Space`).
pub open spec fn is_white_space(c: char) -> bool {
    let u = c as u32;
    ||| 0x09 <= u <= 0x0D
    ||| u == 0x20
    ||| u == 0x85
    ||| u == 0xA0
    ||| u == 0x1680
    ||| 0x2000 <= u <= 0x200A
    ||| u == 0x2028
    ||| u == 0x2029
    ||| u == 0x202F
    ||| u == 0x205F
    ||| u == 0x3000
}

/// Nothing is left of `s` once white space is trimmed from both ends.
pub open spec fn blank_text(s: Seq<char>) -> bool {
    forall|i: int| 0 <= i < s.len() ==> is_white_space(#[trigger] s[i])
}

/// Tells whether `c` is white space.
pub fn white_space(c: char) -> (b: bool)
    ensures
        b == is_white_space(c),
{
    let u = c as u32;
    (0x09 <= u && u <= 0x0D) || u == 0x20 || u == 0x85 || u == 0xA0 || u == 0x1680 || (0x2000 <= u
        && u <= 0x200A) || u == 0x2028 || u == 0x2029 || u == 0x202F || u == 0x205F || u == 0x3000
}

/// Tells whether `v` holds white space only.
pub fn blank(v: &Vec<char>) -> (b: bool)
    ensures
        b == blank_text(v@),
{
    let mut i: usize = 0;
    while i < v.len()
        invariant
            i <= v.len(),
            forall|j: int| 0 <= j < i ==> is_white_space(#[trigger] v@[j]),
        decreases v.len() - i,
    {
        if !white_space(v[i]) {
            return false;
        }
        i += 1;
    }
    true
}


/// The views of a list of texts.
pub open spec fn texts(v: Seq<Vec<char>>) -> Seq<Seq<char>> {
    Seq::new(v.len(), |i: int| v[i]@)
}

/// The views of a list of strings.
pub open spec fn strings(v: Seq<String>) -> Seq<Seq<char>> {
    Seq::new(v.len(), |i: int| v[i]@)
}

/// How many characters stand before the first line feed of `s`; its length
/// if it holds none.
pub open spec fn first_newline(s: Seq<char>) -> nat
    decreases s.len(),
{
    if s.len() == 0 || s[0] == '\n' {
        0
    } else {
        1 + first_newline(s.skip(1))
    }
}

/// `line` without a carriage return at its end.
pub open spec fn without_cr(line: Seq<char>) -> Seq<char> {
    if line.len() > 0 && line.last() == '\r' {
        line.drop_last()
    } else {
        line
    }
}

/// The lines of `s`. A line ends with a line feed, or a carriage return and
/// a line feed; neither belongs to the line. The last line needs no ending,
/// and an ending at the very end opens no further line.
pub open spec fn lines_of(s: Seq<char>) -> Seq<Seq<char>>
    decreases s.len(),
{
    if s.len() == 0 {
        Seq::empty()
    } else {
        let k = first_newline(s);
        if k >= s.len() {
            seq![s]
        } else {
            seq![without_cr(s.take(k as int))] + lines_of(s.skip(k as int + 1))
        }
    }
}

/// `k` is where the first line feed of `s` stands, if none stands before
/// it and one stands there or `s` ends there.
pub proof fn lemma_first_newline(s: Seq<char>, k: int)
    requires
        0 <= k <= s.len(),
        forall|i: int| 0 <= i < k ==> s[i] != '\n',
        k == s.len() || s[k] == '\n',
    ensures
        first_newline(s) == k,
    decreases k,
{
    if k > 0 {
        lemma_first_newline(s.skip(1), k - 1);
    }
}

/// Splits `v` into its lines.
pub fn lines(v: &Vec<char>) -> (out: Vec<Vec<char>>)
    ensures
        texts(out@) == lines_of(v@),
{
    let n = v.len();
    let mut out: Vec<Vec<char>> = Vec::new();
    let mut start: usize = 0;
    let mut j: usize = 0;
    assert(v@.skip(0) =~= v@);
    assert(texts(out@) + lines_of(v@.skip(0)) =~= lines_of(v@));
    while j < n
        invariant
            start <= j <= n,
            n == v.len(),
            forall|i: int| start <= i < j ==> v@[i] != '\n',
            texts(out@) + lines_of(v@.skip(start as int)) == lines_of(v@),
        decreases n - j,
    {
        if v[j] == '\n' {
            let ghost rest = v@.skip(start as int);
            let end = if j > start && v[j - 1] == '\r' {
                j - 1
            } else {
                j
            };
            let mut line: Vec<char> = Vec::new();
            push_range(&mut line, v, start, end);
            proof {
                lemma_first_newline(rest, j - start);
                assert(rest.take(j - start) =~= v@.subrange(start as int, j as int));
                assert(line@ =~= without_cr(rest.take(j - start)));
                assert(rest.skip(j - start + 1) =~= v@.skip(j + 1));
                assert(texts(out@.push(line)) =~= texts(out@) + seq![line@]);
            }
            out.push(line);
            start = j + 1;
        }
        j += 1;
    }
    if start < n {
        let ghost rest = v@.skip(start as int);
        let mut line: Vec<char> = Vec::new();
        push_range(&mut line, v, start, n);
        proof {
            lemma_first_newline(rest, n - start);
            assert(line@ =~= rest);
            assert(texts(out@.push(line)) =~= texts(out@) + seq![line@]);
        }
        out.push(line);
    } else {
        assert(texts(out@) + Seq::<Seq<char>>::empty() =~= texts(out@));
    }
    out
}

/// The texts of `parts` one after the other, with `sep` between each two.
pub open spec fn joined(parts: Seq<Seq<char>>, sep: Seq<char>) -> Seq<char>
    decreases parts.len(),
{
    if parts.len() == 0 {
        Seq::empty()
    } else if parts.len() == 1 {
        parts[0]
    } else {
        joined(parts.drop_last(), sep) + sep + parts.last()
    }
}

/// Joins `parts` with `sep` between each two.
pub fn join(parts: &Vec<Vec<char>>, sep: &str) -> (out: Vec<char>)
    ensures
        out@ == joined(texts(parts@), sep@),
{
    let mut out: Vec<char> = Vec::new();
    let mut i: usize = 0;
    while i < parts.len()
        invariant
            i <= parts.len(),
            out@ == joined(texts(parts@).take(i as int), sep@),
        decreases parts.len() - i,
    {
        let ghost done = texts(parts@).take(i as int);
        let ghost next = texts(parts@).take(i + 1);
        proof {
            assert(next.drop_last() =~= done);
            assert(next.last() == parts@[i as int]@);
        }
        if i > 0 {
            push_str(&mut out, sep);
        }
        push_range(&mut out, &parts[i], 0, parts[i].len());
        proof {
            assert(parts@[i as int]@.subrange(0, parts@[i as int]@.len() as int) =~= parts@[i as int]@);
            if i == 0 {
                assert(out@ =~= next[0]);
            }
        }
        i += 1;
    }
    assert(texts(parts@).take(parts.len() as int) =~= texts(parts@));
    out
}


/// What the `{:?}` format of std writes for a string with the characters
/// `s`: the text between double quotes, with its escapes.
pub uninterp spec fn quoted_text(s: Seq<char>) -> Seq<char>;

/// The `{:?}` format of std, applied to a string. Its result is named, not
/// described: it is the same for the same characters.
#[verifier::external_body]
pub(crate) fn quoted(s: &str) -> (r: String)
    ensures
        r@ == quoted_text(s@),
{
    format!("{:?}", s)
}

/// `head` followed by `tail`.
pub fn concat(head: &str, tail: &str) -> (r: String)
    ensures
        r@ == head@ + tail@,
{
    let mut out: Vec<char> = Vec::new();
    push_str(&mut out, head);
    push_str(&mut out, tail);
    let r = string_of(&out, 0, out.len());
    assert(out@.subrange(0, out@.len() as int) =~= out@);
    assert(out@ =~= head@ + tail@);
    r
}

/// `head` followed by `n` in decimal.
pub fn concat_decimal(head: &str, n: i64) -> (r: String)
    ensures
        r@ == head@ + decimal_text(n as int),
{
    let mut out: Vec<char> = Vec::new();
    push_str(&mut out, head);
    push_decimal(&mut out, n);
    let r = string_of(&out, 0, out.len());
    assert(out@.subrange(0, out@.len() as int) =~= out@);
    assert(out@ =~= head@ + decimal_text(n as int));
    r
}


/// The decimal digits of a number are digits, and denote that number.
pub proof fn lemma_digits_text(n: nat)
    ensures
        digits_text(n).len() > 0,
        all_digits(digits_text(n)),
        digits_value(digits_text(n)) == n,
    decreases n,
{
    if n >= 10 {
        lemma_digits_text(n / 10);
        let s = digits_text(n);
        assert(s.drop_last() =~= digits_text(n / 10));
        assert(digit_value(s.last()) == Some(n % 10));
        assert forall|i: int| 0 <= i < s.len() implies (#[trigger] digit_value(s[i])) is Some by {
            if i < s.len() - 1 {
                assert(s[i] == digits_text(n / 10)[i]);
            }
        }
    } else {
        let s = digits_text(n);
        assert(s.drop_last() =~= Seq::<char>::empty());
        assert(digits_value(s.drop_last()) == 0);
        assert(digit_value(s.last()) == Some(n));
    }
}

/// An integer written in decimal denotes that integer.
pub proof fn lemma_decimal_text(n: int)
    ensures
        int_text(decimal_text(n), true) == Some(n),
{
    if n < 0 {
        lemma_digits_text((-n) as nat);
        let s = decimal_text(n);
        assert(s[0] == '-');
        assert(s.skip(1) =~= digits_text((-n) as nat));
    } else {
        lemma_digits_text(n as nat);
        let s = decimal_text(n);
        assert(digit_value(s[0]) is Some);
    }
}

} // verus!
