use vstd::prelude::*;

verus! {

pub assume_specification[ String::push ](s: &mut String, ch: char)
    ensures
        final(s)@ == old(s)@.push(ch),
;

/// The characters of a string, in order.
pub fn chars_of(s: &str) -> (out: Vec<char>)
    ensures
        out@ == s@,
{
    let mut out: Vec<char> = Vec::new();
    let n = s.unicode_len();
    let mut i: usize = 0;
    while i < n
        invariant
            n == s@.len(),
            i <= n,
            out@ == s@.subrange(0, i as int),
        decreases n - i,
    {
        out.push(s.get_char(i));
        i = i + 1;
    }
    out
}

/// A string holding exactly the given characters.
pub fn string_of(cs: &[char]) -> (out: String)
    ensures
        out@ == cs@,
{
    let mut out = String::new();
    let mut i: usize = 0;
    while i < cs.len()
        invariant
            i <= cs.len(),
            out@ == cs@.subrange(0, i as int),
        decreases cs.len() - i,
    {
        out.push(cs[i]);
        i = i + 1;
    }
    out
}


/// The character of a decimal digit.
pub open spec fn digit_char(d: nat) -> char
    recommends
        d < 10,
{
    if d == 0 { '0' } else if d == 1 { '1' } else if d == 2 { '2' } else if d == 3 { '3' }
    else if d == 4 { '4' } else if d == 5 { '5' } else if d == 6 { '6' } else if d == 7 { '7' }
    else if d == 8 { '8' } else { '9' }
}

pub open spec fn is_digit(c: char) -> bool {
    '0' <= c && c <= '9'
}

/// The value of a decimal digit character.
pub open spec fn digit_value(c: char) -> nat {
    (c as u32 - '0' as u32) as nat
}

/// The shortest decimal spelling of `n`: no leading zeros, and "0" for zero.
pub open spec fn decimal(n: nat) -> Seq<char>
    decreases n,
{
    if n < 10 {
        seq![digit_char(n)]
    } else {
        decimal(n / 10).push(digit_char(n % 10))
    }
}

/// The value of a run of decimal digits, read most significant first.
pub open spec fn digits_value(s: Seq<char>) -> nat
    decreases s.len(),
{
    if s.len() == 0 {
        0
    } else {
        digits_value(s.drop_last()) * 10 + digit_value(s.last())
    }
}

pub open spec fn all_digits(s: Seq<char>) -> bool {
    forall|i: int| 0 <= i < s.len() ==> is_digit(#[trigger] s[i])
}

/// `n` copies of `c`.
pub open spec fn repeat(c: char, n: nat) -> Seq<char> {
    Seq::new(n, |_i: int| c)
}

/// `digits` left-padded with zeros to `width` characters.
pub open spec fn zero_pad(digits: Seq<char>, width: nat) -> Seq<char> {
    if digits.len() >= width {
        digits
    } else {
        repeat('0', (width - digits.len()) as nat) + digits
    }
}

/// A signed integer as `{:0width}` prints it: the sign, then zeros, then the digits, the
/// sign counting towards the width.
pub open spec fn signed_decimal(x: int, width: nat) -> Seq<char> {
    if x < 0 {
        seq!['-'] + zero_pad(decimal((-x) as nat), if width > 0 { (width - 1) as nat } else { 0 })
    } else {
        zero_pad(decimal(x as nat), width)
    }
}

/// What `str::parse::<i32>` makes of `s`: an optional sign, then one or more digits, whose
/// value must fit.
pub open spec fn parse_i32(s: Seq<char>) -> Option<i32> {
    let negative = s.len() > 0 && s[0] == '-';
    let signed = s.len() > 0 && (s[0] == '-' || s[0] == '+');
    let body = if signed { s.drop_first() } else { s };
    if body.len() == 0 || !all_digits(body) {
        None
    } else {
        let v: int = if negative { -(digits_value(body) as int) } else { digits_value(body) as int };
        if i32::MIN <= v <= i32::MAX { Some(v as i32) } else { None }
    }
}

pub proof fn lemma_digit_char(d: nat)
    requires
        d < 10,
    ensures
        is_digit(digit_char(d)),
        digit_value(digit_char(d)) == d,
{
}

pub proof fn lemma_decimal(n: nat)
    ensures
        decimal(n).len() >= 1,
        all_digits(decimal(n)),
        digits_value(decimal(n)) == n,
    decreases n,
{
    if n < 10 {
        lemma_digit_char(n);
        assert(decimal(n).drop_last() =~= Seq::<char>::empty());
        assert(digits_value(Seq::<char>::empty()) == 0);
        assert(decimal(n).last() == digit_char(n));
    } else {
        lemma_decimal(n / 10);
        lemma_digit_char(n % 10);
        assert(decimal(n).drop_last() =~= decimal(n / 10));
        assert(digits_value(decimal(n)) == digits_value(decimal(n / 10)) * 10 + (n % 10));
        assert(n == (n / 10) * 10 + n % 10);
    }
}

/// Zeros in front of a run of digits do not change its value.
pub proof fn lemma_leading_zeros(k: nat, s: Seq<char>)
    ensures
        digits_value(repeat('0', k) + s) == digits_value(s),
        all_digits(s) ==> all_digits(repeat('0', k) + s),
    decreases s.len() + k,
{
    if s.len() == 0 {
        assert(repeat('0', k) + s =~= repeat('0', k));
        if k > 0 {
            lemma_leading_zeros((k - 1) as nat, s);
            assert(repeat('0', k).drop_last() =~= repeat('0', (k - 1) as nat) + s);
        }
    } else {
        lemma_leading_zeros(k, s.drop_last());
        assert((repeat('0', k) + s).drop_last() =~= repeat('0', k) + s.drop_last());
    }
}

pub proof fn lemma_zero_pad(n: nat, width: nat)
    ensures
        zero_pad(decimal(n), width).len() >= 1,
        all_digits(zero_pad(decimal(n), width)),
        digits_value(zero_pad(decimal(n), width)) == n,
{
    lemma_decimal(n);
    if decimal(n).len() < width {
        lemma_leading_zeros((width - decimal(n).len()) as nat, decimal(n));
    }
}

/// Printing a number with `{:0width}` and parsing it back gives the number.
pub proof fn lemma_parse_signed_decimal(x: i32, width: nat)
    ensures
        parse_i32(signed_decimal(x as int, width)) == Some(x),
{
    let s = signed_decimal(x as int, width);
    if x < 0 {
        let w = if width > 0 { (width - 1) as nat } else { 0 };
        lemma_zero_pad((-x) as nat, w);
        assert(s.drop_first() =~= zero_pad(decimal((-x) as nat), w));
    } else {
        lemma_zero_pad(x as nat, width);
        let body = zero_pad(decimal(x as nat), width);
        assert(is_digit(body[0]));
    }
}

/// Append the decimal digits of `n`.
pub fn push_decimal(out: &mut String, n: u64)
    ensures
        final(out)@ == old(out)@ + decimal(n as nat),
    decreases n,
{
    if n >= 10 {
        push_decimal(out, n / 10);
    }
    let d = n % 10;
    let c = if d == 0 { '0' } else if d == 1 { '1' } else if d == 2 { '2' } else if d == 3 { '3' }
        else if d == 4 { '4' } else if d == 5 { '5' } else if d == 6 { '6' } else if d == 7 { '7' }
        else if d == 8 { '8' } else { '9' };
    out.push(c);
    proof {
        if n >= 10 {
            assert(decimal(n as nat) == decimal((n / 10) as nat).push(digit_char((n % 10) as nat)));
        }
    }
}

/// Append `n` decimal digits of zero.
pub fn push_zeros(out: &mut String, n: usize)
    ensures
        final(out)@ == old(out)@ + repeat('0', n as nat),
{
    let mut i: usize = 0;
    while i < n
        invariant
            i <= n,
            out@ == old(out)@ + repeat('0', i as nat),
        decreases n - i,
    {
        out.push('0');
        i = i + 1;
        assert(out@ =~= old(out)@ + repeat('0', i as nat));
    }
}

pub open spec fn pow10(k: nat) -> nat
    decreases k,
{
    if k == 0 { 1 } else { 10 * pow10((k - 1) as nat) }
}

pub proof fn lemma_decimal_len_bound(n: nat, k: nat)
    requires
        k >= 1,
        n < pow10(k),
    ensures
        decimal(n).len() <= k,
    decreases k,
{
    if n >= 10 {
        assert(k >= 2) by {
            if k == 1 {
                assert(pow10(1) == 10 * pow10(0));
            }
        }
        assert(pow10(k) == 10 * pow10((k - 1) as nat));
        lemma_decimal_len_bound(n / 10, (k - 1) as nat);
    }
}

/// The number of decimal digits of `n`.
pub fn decimal_len(n: u64) -> (len: usize)
    ensures
        len == decimal(n as nat).len(),
        len <= 20,
    decreases n,
{
    proof {
        reveal_with_fuel(pow10, 21);
        assert(pow10(20) == 100000000000000000000);
        lemma_decimal_len_bound(n as nat, 20);
    }
    if n < 10 {
        1
    } else {
        let l = decimal_len(n / 10);
        proof {
            assert(decimal(n as nat) == decimal((n / 10) as nat).push(digit_char((n % 10) as nat)));
        }
        l + 1
    }
}

/// Append `x` as `{:0width}` prints it.
pub fn push_signed_padded(out: &mut String, x: i32, width: usize)
    ensures
        final(out)@ == old(out)@ + signed_decimal(x as int, width as nat),
{
    if x < 0 {
        out.push('-');
        let mag: u64 = if x == i32::MIN { 2147483648u64 } else { (-x) as u64 };
        let len = decimal_len(mag);
        let w = if width > 0 { width - 1 } else { 0 };
        if len < w {
            push_zeros(out, w - len);
        }
        push_decimal(out, mag);
        proof {
            let d = decimal(mag as nat);
            assert(mag as int == -(x as int));
            if len < w {
                assert(out@ =~= old(out)@ + (seq!['-'] + (repeat('0', (w - len) as nat) + d)));
            } else {
                assert(out@ =~= old(out)@ + (seq!['-'] + d));
            }
        }
    } else {
        let mag = x as u64;
        let len = decimal_len(mag);
        if len < width {
            push_zeros(out, width - len);
        }
        push_decimal(out, mag);
        proof {
            let d = decimal(mag as nat);
            if len < width {
                assert(out@ =~= old(out)@ + (repeat('0', (width - len) as nat) + d));
            } else {
                assert(out@ =~= old(out)@ + d);
            }
        }
    }
}

/// Append every character of `s`.
pub fn push_str(out: &mut String, s: &str)
    ensures
        final(out)@ == old(out)@ + s@,
{
    out.append(s);
}


/// `s` cut at every `sep`: one more piece than there are separators, each possibly empty,
/// as `str::split` cuts it.
pub open spec fn split(s: Seq<char>, sep: char) -> Seq<Seq<char>>
    decreases s.len(),
{
    if s.len() == 0 {
        seq![Seq::<char>::empty()]
    } else {
        let init = split(s.drop_last(), sep);
        if s.last() == sep {
            init.push(Seq::<char>::empty())
        } else {
            init.update(init.len() - 1, init.last().push(s.last()))
        }
    }
}

pub proof fn lemma_split_nonempty(s: Seq<char>, sep: char)
    ensures
        split(s, sep).len() >= 1,
    decreases s.len(),
{
    if s.len() > 0 {
        lemma_split_nonempty(s.drop_last(), sep);
    }
}

/// Splitting `a` followed by a separator-free `b` ends with `b` appended to the last piece.
pub proof fn lemma_split_append_plain(a: Seq<char>, b: Seq<char>, sep: char)
    requires
        !b.contains(sep),
    ensures
        split(a + b, sep) == split(a, sep).update(
            split(a, sep).len() - 1,
            split(a, sep).last() + b,
        ),
    decreases b.len(),
{
    lemma_split_nonempty(a, sep);
    if b.len() == 0 {
        assert(a + b =~= a);
        assert(split(a, sep).last() + b =~= split(a, sep).last());
        assert(split(a, sep).update(split(a, sep).len() - 1, split(a, sep).last())
            =~= split(a, sep));
    } else {
        assert(!b.drop_last().contains(sep)) by {
            if b.drop_last().contains(sep) {
                let i = choose|i: int| 0 <= i < b.drop_last().len() && b.drop_last()[i] == sep;
                assert(b[i] == sep);
            }
        }
        lemma_split_append_plain(a, b.drop_last(), sep);
        assert((a + b).drop_last() =~= a + b.drop_last());
        assert(b.last() != sep) by {
            assert(b[b.len() - 1] == b.last());
        }
        assert((split(a, sep).last() + b.drop_last()).push(b.last()) =~= split(a, sep).last() + b);
        lemma_split_nonempty(a + b.drop_last(), sep);
        assert(split(a + b, sep) =~= split(a, sep).update(
            split(a, sep).len() - 1,
            split(a, sep).last() + b,
        ));
    }
}

/// Splitting `a`, a separator, then a separator-free `b` gives the pieces of `a` and `b`.
pub proof fn lemma_split_append_piece(a: Seq<char>, b: Seq<char>, sep: char)
    requires
        !b.contains(sep),
    ensures
        split(a.push(sep) + b, sep) == split(a, sep).push(b),
{
    lemma_split_nonempty(a, sep);
    assert(a.push(sep).drop_last() =~= a);
    assert(split(a.push(sep), sep) == split(a, sep).push(Seq::<char>::empty()));
    lemma_split_append_plain(a.push(sep), b, sep);
    assert(Seq::<char>::empty() + b =~= b);
    assert(split(a, sep).push(Seq::<char>::empty()).update(split(a, sep).len() as int, b)
        =~= split(a, sep).push(b));
}

/// The pieces held by a vector of character vectors.
pub open spec fn pieces(v: Seq<Vec<char>>) -> Seq<Seq<char>> {
    Seq::new(v.len(), |i: int| v[i]@)
}

/// Cut a run of characters at every `sep`.
pub fn split_chars(cs: &[char], sep: char) -> (out: Vec<Vec<char>>)
    ensures
        pieces(out@) == split(cs@, sep),
{
    let mut out: Vec<Vec<char>> = Vec::new();
    let mut cur: Vec<char> = Vec::new();
    let mut i: usize = 0;
    while i < cs.len()
        invariant
            i <= cs.len(),
            pieces(out@).push(cur@) == split(cs@.subrange(0, i as int), sep),
        decreases cs.len() - i,
    {
        let c = cs[i];
        let ghost before = pieces(out@).push(cur@);
        proof {
            assert(cs@.subrange(0, i + 1).drop_last() =~= cs@.subrange(0, i as int));
            assert(cs@.subrange(0, i + 1).last() == c);
        }
        if c == sep {
            out.push(cur);
            cur = Vec::new();
            assert(pieces(out@).push(cur@) =~= before.push(Seq::<char>::empty()));
        } else {
            cur.push(c);
            assert(pieces(out@).push(cur@) =~= before.update(before.len() - 1, before.last().push(c)));
        }
        i = i + 1;
    }
    out.push(cur);
    assert(cs@.subrange(0, cs.len() as int) =~= cs@);
    assert(pieces(out@) =~= split(cs@, sep));
    out
}

pub proof fn lemma_digits_value_prefix(s: Seq<char>, i: int)
    requires
        0 <= i <= s.len(),
    ensures
        digits_value(s) >= digits_value(s.subrange(0, i)),
    decreases s.len(),
{
    if i < s.len() {
        lemma_digits_value_prefix(s.drop_last(), i);
        assert(s.drop_last().subrange(0, i) =~= s.subrange(0, i));
    } else {
        assert(s.subrange(0, i) =~= s);
    }
}

/// What `str::parse::<i32>` makes of these characters.
pub fn parse_i32_chars(cs: &[char]) -> (r: Option<i32>)
    ensures
        r == parse_i32(cs@),
{
    let n = cs.len();
    let negative = n > 0 && cs[0] == '-';
    let signed = n > 0 && (cs[0] == '-' || cs[0] == '+');
    let start: usize = if signed { 1 } else { 0 };
    let ghost body = if signed { cs@.drop_first() } else { cs@ };
    proof {
        assert(body =~= cs@.subrange(start as int, n as int));
    }
    if start == n {
        return None;
    }
    let mut acc: u64 = 0;
    let mut i: usize = start;
    while i < n
        invariant
            n == cs.len(),
            negative == (cs@.len() > 0 && cs@[0] == '-'),
            signed == (cs@.len() > 0 && (cs@[0] == '-' || cs@[0] == '+')),
            body == (if signed { cs@.drop_first() } else { cs@ }),
            start <= i <= n,
            body == cs@.subrange(start as int, n as int),
            acc <= 2147483648,
            acc == digits_value(body.subrange(0, i - start)),
            all_digits(body.subrange(0, i - start)),
        decreases n - i,
    {
        let c = cs[i];
        let ghost k = i - start;
        proof {
            assert(body[k] == c);
            assert(body.subrange(0, k + 1).drop_last() =~= body.subrange(0, k));
            assert(body.subrange(0, k + 1).last() == c);
        }
        if c < '0' || c > '9' {
            assert(!all_digits(body)) by {
                assert(!is_digit(body[k]));
            }
            return None;
        }
        let d: u64 = (c as u32 - '0' as u32) as u64;
        acc = acc * 10 + d;
        i = i + 1;
        proof {
            assert(all_digits(body.subrange(0, i - start))) by {
                assert forall|j: int| 0 <= j < i - start implies is_digit(#[trigger] body.subrange(0, i - start)[j]) by {
                    if j < k {
                        assert(body.subrange(0, i - start)[j] == body.subrange(0, k)[j]);
                    }
                }
            }
        }
        if acc > 2147483648 {
            proof {
                if all_digits(body) {
                    lemma_digits_value_prefix(body, i - start);
                }
            }
            return None;
        }
    }
    assert(body.subrange(0, n - start) =~= body);
    if negative {
        let v: i64 = -(acc as i64);
        Some(v as i32)
    } else if acc <= 2147483647 {
        Some(acc as i32)
    } else {
        None
    }
}

/// Whether `c` has Unicode's White_Space property, as `char::is_whitespace` tests.
pub open spec fn is_white(c: char) -> bool {
    ('\u{9}' <= c && c <= '\u{d}') || c == ' ' || c == '\u{85}' || c == '\u{a0}' || c
        == '\u{1680}' || ('\u{2000}' <= c && c <= '\u{200a}') || c == '\u{2028}' || c
        == '\u{2029}' || c == '\u{202f}' || c == '\u{205f}' || c == '\u{3000}'
}

/// `char::is_whitespace`.
pub fn is_white_char(c: char) -> (b: bool)
    ensures
        b == is_white(c),
{
    ('\u{9}' <= c && c <= '\u{d}') || c == ' ' || c == '\u{85}' || c == '\u{a0}' || c
        == '\u{1680}' || ('\u{2000}' <= c && c <= '\u{200a}') || c == '\u{2028}' || c
        == '\u{2029}' || c == '\u{202f}' || c == '\u{205f}' || c == '\u{3000}'
}

/// `s` without the whitespace it starts with.
pub open spec fn trim_white_start(s: Seq<char>) -> Seq<char>
    decreases s.len(),
{
    if s.len() > 0 && is_white(s[0]) {
        trim_white_start(s.drop_first())
    } else {
        s
    }
}

/// `s` without the whitespace it ends with.
pub open spec fn trim_white_end(s: Seq<char>) -> Seq<char>
    decreases s.len(),
{
    if s.len() > 0 && is_white(s.last()) {
        trim_white_end(s.drop_last())
    } else {
        s
    }
}

/// `s` without whitespace at either end, as `str::trim` gives it.
pub open spec fn trim_white(s: Seq<char>) -> Seq<char> {
    trim_white_end(trim_white_start(s))
}

/// Where the run `cs[lo..hi]` that `str::trim` keeps begins and ends.
pub fn trim_white_bounds(cs: &[char], lo: usize, hi: usize) -> (r: (usize, usize))
    requires
        lo <= hi <= cs@.len(),
    ensures
        lo <= r.0 <= r.1 <= hi,
        cs@.subrange(r.0 as int, r.1 as int) == trim_white(cs@.subrange(lo as int, hi as int)),
{
    let ghost whole = cs@.subrange(lo as int, hi as int);
    let mut a: usize = lo;
    while a < hi && is_white_char(cs[a])
        invariant
            lo <= a <= hi <= cs@.len(),
            trim_white_start(whole) == trim_white_start(cs@.subrange(a as int, hi as int)),
        decreases hi - a,
    {
        assert(cs@.subrange(a as int, hi as int).drop_first() =~= cs@.subrange(a + 1, hi as int));
        a = a + 1;
    }
    let ghost started = cs@.subrange(a as int, hi as int);
    assert(trim_white_start(started) == started);
    let mut b: usize = hi;
    while b > a && is_white_char(cs[b - 1])
        invariant
            lo <= a <= b <= hi <= cs@.len(),
            started == cs@.subrange(a as int, hi as int),
            trim_white_end(started) == trim_white_end(cs@.subrange(a as int, b as int)),
        decreases b - a,
    {
        assert(cs@.subrange(a as int, b as int).drop_last() =~= cs@.subrange(a as int, b - 1));
        b = b - 1;
    }
    (a, b)
}

/// `c` with an ASCII capital letter made small.
pub open spec fn ascii_lower(c: char) -> char {
    if 'A' <= c && c <= 'Z' {
        ((c as u32) + 32) as char
    } else {
        c
    }
}

/// Whether `a` and `b` are equal once ASCII letters are compared regardless of case, as
/// `str::eq_ignore_ascii_case` tests.
pub open spec fn eq_ignore_case(a: Seq<char>, b: Seq<char>) -> bool {
    a.len() == b.len() && forall|i: int| 0 <= i < a.len() ==> ascii_lower(#[trigger] a[i])
        == ascii_lower(b[i])
}

/// `str::eq_ignore_ascii_case` on `cs[lo..hi]` and `other`.
pub fn eq_ignore_case_at(cs: &[char], lo: usize, hi: usize, other: &[char]) -> (b: bool)
    requires
        lo <= hi <= cs@.len(),
    ensures
        b == eq_ignore_case(cs@.subrange(lo as int, hi as int), other@),
{
    if hi - lo != other.len() {
        return false;
    }
    let ghost a = cs@.subrange(lo as int, hi as int);
    let mut i: usize = 0;
    while i < other.len()
        invariant
            hi - lo == other@.len(),
            lo <= hi <= cs@.len(),
            a == cs@.subrange(lo as int, hi as int),
            i <= other@.len(),
            forall|j: int| 0 <= j < i ==> ascii_lower(#[trigger] a[j]) == ascii_lower(other@[j]),
        decreases other@.len() - i,
    {
        let x = cs[lo + i];
        let y = other[i];
        let lx = if 'A' <= x && x <= 'Z' {
            (x as u32) + 32
        } else {
            x as u32
        };
        let ly = if 'A' <= y && y <= 'Z' {
            (y as u32) + 32
        } else {
            y as u32
        };
        assert(a[i as int] == x);
        if lx != ly {
            assert(ascii_lower(x) as u32 == lx) by {
                if 'A' <= x && x <= 'Z' {
                    assert(((x as u32) + 32) as char as u32 == (x as u32) + 32);
                }
            }
            assert(ascii_lower(y) as u32 == ly) by {
                if 'A' <= y && y <= 'Z' {
                    assert(((y as u32) + 32) as char as u32 == (y as u32) + 32);
                }
            }
            return false;
        }
        assert(ascii_lower(x) == ascii_lower(y)) by {
            if 'A' <= x && x <= 'Z' {
                assert(((x as u32) + 32) as char as u32 == (x as u32) + 32);
            }
            if 'A' <= y && y <= 'Z' {
                assert(((y as u32) + 32) as char as u32 == (y as u32) + 32);
            }
        }
        i = i + 1;
    }
    true
}

/// Where `c` first occurs in `s`; -1 when it does not.
pub open spec fn first_index(s: Seq<char>, c: char) -> int
    decreases s.len(),
{
    if s.len() == 0 {
        -1
    } else if first_index(s.drop_last(), c) >= 0 {
        first_index(s.drop_last(), c)
    } else if s.last() == c {
        s.len() - 1
    } else {
        -1
    }
}

pub proof fn lemma_first_index(s: Seq<char>, c: char)
    ensures
        -1 <= first_index(s, c) < s.len(),
        first_index(s, c) >= 0 ==> s[first_index(s, c)] == c,
        forall|j: int| 0 <= j < s.len() && (first_index(s, c) < 0 || j < first_index(s, c))
            ==> s[j] != c,
    decreases s.len(),
{
    if s.len() > 0 {
        lemma_first_index(s.drop_last(), c);
        assert forall|j: int| 0 <= j < s.len() && (first_index(s, c) < 0 || j < first_index(s, c))
            implies s[j] != c by {
            if j < s.len() - 1 {
                assert(s[j] == s.drop_last()[j]);
            }
        }
    }
}

/// Where `c` first occurs in `cs[lo..hi]`, counted from `lo`.
pub fn find_char(cs: &[char], lo: usize, hi: usize, c: char) -> (r: Option<usize>)
    requires
        lo <= hi <= cs@.len(),
    ensures
        r matches Some(k) ==> k as int == first_index(cs@.subrange(lo as int, hi as int), c),
        r is None ==> first_index(cs@.subrange(lo as int, hi as int), c) == -1,
{
    let ghost s = cs@.subrange(lo as int, hi as int);
    proof {
        lemma_first_index(s, c);
    }
    let mut i: usize = lo;
    while i < hi
        invariant
            lo <= i <= hi <= cs@.len(),
            s == cs@.subrange(lo as int, hi as int),
            forall|j: int| lo <= j < i ==> cs@[j] != c,
            -1 <= first_index(s, c) < s.len(),
            first_index(s, c) >= 0 ==> s[first_index(s, c)] == c,
            forall|j: int| 0 <= j < s.len() && (first_index(s, c) < 0 || j < first_index(s, c))
                ==> s[j] != c,
        decreases hi - i,
    {
        if cs[i] == c {
            let k = i - lo;
            assert(s[k as int] == c);
            assert(first_index(s, c) == k) by {
                if first_index(s, c) < 0 || first_index(s, c) > k {
                    assert(s[k as int] != c);
                }
                if first_index(s, c) >= 0 && first_index(s, c) < k {
                    assert(cs@[lo + first_index(s, c)] == s[first_index(s, c)]);
                }
            }
            return Some(k);
        }
        i = i + 1;
    }
    assert(first_index(s, c) == -1) by {
        if first_index(s, c) >= 0 {
            assert(cs@[lo + first_index(s, c)] == s[first_index(s, c)]);
        }
    }
    None
}

} // verus!
