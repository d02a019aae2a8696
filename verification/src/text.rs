//! Character-level text operations: white space, trimming, splitting, comparison.
use vstd::prelude::*;

verus! {

/// The Unicode `White_Space` property: the chars that `char::is_whitespace`
/// accepts and that `str::trim` removes.
pub open spec fn is_white_space(c: char) -> bool {
    let u = c as u32;
    ||| 0x09 <= u && u <= 0x0d
    ||| u == 0x20
    ||| u == 0x85
    ||| u == 0xa0
    ||| u == 0x1680
    ||| 0x2000 <= u && u <= 0x200a
    ||| u == 0x2028
    ||| u == 0x2029
    ||| u == 0x202f
    ||| u == 0x205f
    ||| u == 0x3000
}

pub fn is_white_space_char(c: char) -> (b: bool)
    ensures
        b == is_white_space(c),
{
    let u = c as u32;
    (0x09 <= u && u <= 0x0d) || u == 0x20 || u == 0x85 || u == 0xa0 || u == 0x1680 || (0x2000 <= u
        && u <= 0x200a) || u == 0x2028 || u == 0x2029 || u == 0x202f || u == 0x205f || u == 0x3000
}

/// Index of the first char at or after `i` that is not white space (or the length).
pub open spec fn skip_ws(s: Seq<char>, i: int) -> int
    decreases s.len() - i,
{
    if 0 <= i < s.len() && is_white_space(s[i]) {
        skip_ws(s, i + 1)
    } else {
        i
    }
}

/// One past the last char before `j` that is not white space (or zero).
pub open spec fn skip_ws_back(s: Seq<char>, j: int) -> int
    decreases j,
{
    if 0 < j <= s.len() && is_white_space(s[j - 1]) {
        skip_ws_back(s, j - 1)
    } else {
        j
    }
}

/// `str::trim`: the text without leading and trailing white space.
pub open spec fn trim(s: Seq<char>) -> Seq<char> {
    let i = skip_ws(s, 0);
    let j = skip_ws_back(s, s.len() as int);
    if i < j {
        s.subrange(i, j)
    } else {
        Seq::empty()
    }
}

/// Appends one char (`String::push`).
#[verifier::external_body]
pub(crate) fn push_char(s: &mut String, c: char)
    ensures
        final(s)@ == old(s)@.push(c),
{
    s.push(c);
}

/// The chars of a string slice, in order.
pub fn chars_of(s: &str) -> (v: Vec<char>)
    ensures
        v@ == s@,
{
    let mut v: Vec<char> = Vec::new();
    for c in it: s.chars()
        invariant
            v@ == it.seq().take(it.index() as int),
    {
        v.push(c);
    }
    v
}


/// A copy of `s[i..j]`.
pub fn slice_chars(s: &Vec<char>, i: usize, j: usize) -> (r: Vec<char>)
    requires
        i <= j <= s.len(),
    ensures
        r@ == s@.subrange(i as int, j as int),
{
    let mut r: Vec<char> = Vec::new();
    let mut k = i;
    while k < j
        invariant
            i <= k <= j <= s.len(),
            r@ == s@.subrange(i as int, k as int),
        decreases j - k,
    {
        r.push(s[k]);
        k += 1;
    }
    r
}

/// `str::trim` on a char vector.
pub fn trim_chars(s: &Vec<char>) -> (r: Vec<char>)
    ensures
        r@ == trim(s@),
{
    let mut i: usize = 0;
    while i < s.len() && is_white_space_char(s[i])
        invariant
            i <= s.len(),
            skip_ws(s@, i as int) == skip_ws(s@, 0),
        decreases s.len() - i,
    {
        i += 1;
    }
    let mut j: usize = s.len();
    while j > 0 && is_white_space_char(s[j - 1])
        invariant
            j <= s.len(),
            skip_ws_back(s@, j as int) == skip_ws_back(s@, s.len() as int),
        decreases j,
    {
        j -= 1;
    }
    if i < j {
        slice_chars(s, i, j)
    } else {
        Vec::new()
    }
}

/// A string holding the given chars.
pub fn string_from_chars(v: &Vec<char>) -> (s: String)
    ensures
        s@ == v@,
{
    let mut s = String::new();
    let mut k: usize = 0;
    while k < v.len()
        invariant
            k <= v.len(),
            s@ == v@.subrange(0, k as int),
        decreases v.len() - k,
    {
        push_char(&mut s, v[k]);
        k += 1;
    }
    s
}

/// Appends the chars of `v` to `s`.
pub fn push_chars(s: &mut String, v: &Vec<char>)
    ensures
        final(s)@ == old(s)@ + v@,
{
    let mut k: usize = 0;
    while k < v.len()
        invariant
            k <= v.len(),
            s@ == old(s)@ + v@.subrange(0, k as int),
        decreases v.len() - k,
    {
        push_char(s, v[k]);
        k += 1;
    }
}

pub fn chars_eq(a: &Vec<char>, b: &Vec<char>) -> (r: bool)
    ensures
        r == (a@ == b@),
{
    if a.len() != b.len() {
        return false;
    }
    let mut k: usize = 0;
    while k < a.len()
        invariant
            a.len() == b.len(),
            k <= a.len(),
            a@.subrange(0, k as int) == b@.subrange(0, k as int),
        decreases a.len() - k,
    {
        if a[k] != b[k] {
            return false;
        }
        k += 1;
    }
    assert(a@ == a@.subrange(0, a.len() as int));
    assert(b@ == b@.subrange(0, b.len() as int));
    true
}

/// Whether the chars of `a` are those of the string `b`.
pub fn chars_eq_str(a: &Vec<char>, b: &str) -> (r: bool)
    ensures
        r == (a@ == b@),
{
    let bv = chars_of(b);
    chars_eq(a, &bv)
}

/// The index of the first `c` at or after `i`, or the length when there is none.
pub open spec fn find_char_from(s: Seq<char>, c: char, i: int) -> int
    decreases s.len() - i,
{
    if i < 0 || i >= s.len() {
        s.len() as int
    } else if s[i] == c {
        i
    } else {
        find_char_from(s, c, i + 1)
    }
}

pub proof fn lemma_find_char_from(s: Seq<char>, c: char, i: int)
    requires
        0 <= i <= s.len(),
    ensures
        i <= find_char_from(s, c, i) <= s.len(),
        find_char_from(s, c, i) < s.len() ==> s[find_char_from(s, c, i)] == c,
        forall|k: int| i <= k < find_char_from(s, c, i) ==> s[k] != c,
    decreases s.len() - i,
{
    if i < s.len() && s[i] != c {
        lemma_find_char_from(s, c, i + 1);
    }
}

pub fn find_char(s: &Vec<char>, c: char, i: usize) -> (r: usize)
    requires
        i <= s.len(),
    ensures
        r == find_char_from(s@, c, i as int),
        i <= r <= s.len(),
{
    proof {
        lemma_find_char_from(s@, c, i as int);
    }
    let mut k = i;
    while k < s.len() && s[k] != c
        invariant
            i <= k <= s.len(),
            find_char_from(s@, c, k as int) == find_char_from(s@, c, i as int),
        decreases s.len() - k,
    {
        k += 1;
    }
    k
}

// ---------------------------------------------------------------------------
// Lines, as `str::lines` gives them: split at `\n`, a `\r` right before the
// `\n` dropped, and no empty last line after a final line ending.

/// The line that starts at `i` (without its line ending).
pub open spec fn line_at(s: Seq<char>, i: int) -> Seq<char> {
    let k = find_char_from(s, '\n', i);
    if k < s.len() && k > i && s[k - 1] == '\r' {
        s.subrange(i, k - 1)
    } else {
        s.subrange(i, k)
    }
}

/// Where the line after the one at `i` starts.
pub open spec fn next_line_start(s: Seq<char>, i: int) -> int {
    let k = find_char_from(s, '\n', i);
    if k < s.len() {
        k + 1
    } else {
        s.len() as int
    }
}

pub open spec fn lines_from(s: Seq<char>, i: int) -> Seq<Seq<char>>
    decreases s.len() - i,
{
    if 0 <= i < s.len() {
        proof {
            lemma_find_char_from(s, '\n', i);
        }
        seq![line_at(s, i)] + lines_from(s, next_line_start(s, i))
    } else {
        Seq::empty()
    }
}

/// `str::lines`.
pub open spec fn lines(s: Seq<char>) -> Seq<Seq<char>> {
    lines_from(s, 0)
}

/// `find_char_from` stops at the first `c` from `i` on.
pub proof fn lemma_find_char_at(s: Seq<char>, c: char, i: int, k: int)
    requires
        0 <= i <= k <= s.len(),
        forall|j: int| i <= j < k ==> s[j] != c,
        k == s.len() || s[k] == c,
    ensures
        find_char_from(s, c, i) == k,
    decreases k - i,
{
    if i < k {
        lemma_find_char_at(s, c, i + 1, k);
    }
}

/// The lines of a text after a prefix are the lines of the text.
pub proof fn lemma_lines_from_shift(a: Seq<char>, b: Seq<char>, i: int)
    requires
        0 <= i <= b.len(),
    ensures
        lines_from(a + b, a.len() + i) == lines_from(b, i),
    decreases b.len() - i,
{
    let s = a + b;
    if i < b.len() {
        lemma_find_char_from(b, '\n', i);
        let k = find_char_from(b, '\n', i);
        assert forall|j: int| a.len() + i <= j < a.len() + k implies s[j] != '\n' by {
            assert(s[j] == b[j - a.len()]);
        }
        if k < b.len() {
            assert(s[a.len() + k] == b[k]);
        }
        lemma_find_char_at(s, '\n', a.len() + i, a.len() + k);
        if k > i {
            assert(s[a.len() + k - 1] == b[k - 1]);
        }
        assert(line_at(s, a.len() + i) =~= line_at(b, i));
        lemma_lines_from_shift(a, b, next_line_start(b, i));
    }
}

/// The lines of `a + b`, where `a` is empty or ends a line, are the lines
/// of `a` (from `i` on) and then those of `b`.
pub proof fn lemma_lines_concat(a: Seq<char>, b: Seq<char>, i: int)
    requires
        0 <= i <= a.len(),
        a.len() == 0 || a.last() == '\n',
    ensures
        lines_from(a + b, i) == lines_from(a, i) + lines(b),
    decreases a.len() - i,
{
    let s = a + b;
    if i == a.len() {
        lemma_lines_from_shift(a, b, 0);
        assert(lines_from(a, i) =~= Seq::<Seq<char>>::empty());
        assert(lines_from(a + b, i) =~= lines_from(a, i) + lines(b));
    } else {
        lemma_find_char_from(a, '\n', i);
        let k = find_char_from(a, '\n', i);
        if k == a.len() {
            assert(a[a.len() - 1] != '\n');
        }
        assert forall|j: int| i <= j < k implies s[j] != '\n' by {
            assert(s[j] == a[j]);
        }
        assert(s[k] == a[k]);
        lemma_find_char_at(s, '\n', i, k);
        if k > i {
            assert(s[k - 1] == a[k - 1]);
        }
        assert(line_at(s, i) =~= line_at(a, i));
        lemma_lines_concat(a, b, k + 1);
        assert(lines_from(a + b, i) =~= lines_from(a, i) + lines(b));
    }
}

/// A line without a line break, ended by `\n`, is one line.
pub proof fn lemma_lines_single(l: Seq<char>)
    requires
        !l.contains('\n'),
        l.len() > 0 ==> l.last() != '\r',
    ensures
        lines(l + seq!['\n']) == seq![l],
{
    let s = l + seq!['\n'];
    assert forall|j: int| 0 <= j < l.len() implies s[j] != '\n' by {
        assert(s[j] == l[j]);
        if l[j] == '\n' {
            assert(l.contains('\n'));
        }
    }
    lemma_find_char_at(s, '\n', 0, l.len() as int);
    if l.len() > 0 {
        assert(s[l.len() - 1] == l.last());
    }
    assert(line_at(s, 0) =~= l);
    assert(lines_from(s, s.len() as int) =~= Seq::<Seq<char>>::empty());
    assert(lines(s) =~= seq![l]);
}

proof fn lemma_skip_ws_bounds(s: Seq<char>, i: int, j: int)
    requires
        0 <= i <= s.len(),
        0 <= j <= s.len(),
    ensures
        i <= skip_ws(s, i) <= s.len(),
        0 <= skip_ws_back(s, j) <= j,
    decreases s.len() - i + j,
{
    if i < s.len() && is_white_space(s[i]) {
        lemma_skip_ws_bounds(s, i + 1, j);
    }
    if 0 < j && is_white_space(s[j - 1]) {
        lemma_skip_ws_bounds(s, i, j - 1);
    }
}

/// A text that `trim` leaves as it is has no white space at either end.
pub proof fn lemma_trimmed_ends(v: Seq<char>)
    requires
        trim(v) == v,
        v.len() > 0,
    ensures
        !is_white_space(v[0]),
        !is_white_space(v.last()),
{
    lemma_skip_ws_bounds(v, 0, v.len() as int);
    lemma_skip_ws_bounds(v, 1, v.len() - 1);
    lemma_skip_ws_bounds(v, 0, v.len() as int - 1);
}

/// A space in front of a trimmed text is trimmed away.
pub proof fn lemma_trim_space_prefix(v: Seq<char>)
    requires
        trim(v) == v,
    ensures
        trim(seq![' '] + v) == v,
{
    let s = seq![' '] + v;
    if v.len() == 0 {
        assert(skip_ws(s, 1) == 1);
        assert(skip_ws_back(s, 0) == 0);
        assert(trim(s) =~= v);
    } else {
        lemma_trimmed_ends(v);
        assert(s[1] == v[0]);
        assert(skip_ws(s, 1) == 1);
        assert(s[s.len() - 1] == v.last());
        assert(skip_ws_back(s, s.len() as int) == s.len());
        assert(trim(s) =~= v);
    }
}

/// The line at `i` and where the next one starts.
pub fn next_line(s: &Vec<char>, i: usize) -> (r: (Vec<char>, usize))
    requires
        i < s.len(),
    ensures
        r.0@ == line_at(s@, i as int),
        r.1 == next_line_start(s@, i as int),
        i < r.1 <= s.len(),
{
    let k = find_char(s, '\n', i);
    proof {
        lemma_find_char_from(s@, '\n', i as int);
    }
    let line = if k < s.len() && k > i && s[k - 1] == '\r' {
        slice_chars(s, i, k - 1)
    } else {
        slice_chars(s, i, k)
    };
    let next = if k < s.len() {
        k + 1
    } else {
        s.len()
    };
    (line, next)
}

/// `str::split_once(':')`.
pub open spec fn split_once(s: Seq<char>, c: char) -> Option<(Seq<char>, Seq<char>)> {
    let k = find_char_from(s, c, 0);
    if k < s.len() {
        Some((s.subrange(0, k), s.subrange(k + 1, s.len() as int)))
    } else {
        None
    }
}

pub fn split_once_char(s: &Vec<char>, c: char) -> (r: Option<(Vec<char>, Vec<char>)>)
    ensures
        match r {
            Some((a, b)) => split_once(s@, c) == Some((a@, b@)),
            None => split_once(s@, c) is None,
        },
{
    let k = find_char(s, c, 0);
    if k < s.len() {
        Some((slice_chars(s, 0, k), slice_chars(s, k + 1, s.len())))
    } else {
        None
    }
}


// ---------------------------------------------------------------------------
// Decimal numbers

pub open spec fn is_digit(c: char) -> bool {
    '0' <= c && c <= '9'
}

pub open spec fn digit_char(d: nat) -> char {
    (48 + d) as char
}

/// The decimal digits of `n`, most significant first, without leading zeros.
pub open spec fn digits(n: nat) -> Seq<char>
    decreases n,
{
    if n < 10 {
        seq![digit_char(n)]
    } else {
        digits(n / 10).push(digit_char(n % 10))
    }
}

/// `digits(n)`, with zeros in front up to `w` chars.
pub open spec fn zero_pad(n: nat, w: nat) -> Seq<char> {
    let d = digits(n);
    if d.len() >= w {
        d
    } else {
        Seq::new((w - d.len()) as nat, |i: int| '0') + d
    }
}

/// The value of a run of decimal digits.
pub open spec fn digits_value(s: Seq<char>) -> nat
    decreases s.len(),
{
    if s.len() == 0 {
        0
    } else {
        digits_value(s.drop_last()) * 10 + ((s.last() as nat) - 48) as nat
    }
}

/// The text after an optional leading `+`.
pub open spec fn strip_plus(s: Seq<char>) -> Seq<char> {
    if s.len() > 0 && s[0] == '+' {
        s.subrange(1, s.len() as int)
    } else {
        s
    }
}

pub open spec fn all_digits(d: Seq<char>) -> bool {
    forall|i: int| 0 <= i < d.len() ==> is_digit(#[trigger] d[i])
}

/// `u8::from_str`: an optional `+`, then one or more decimal digits whose
/// value is at most 255.
pub open spec fn parse_u8(s: Seq<char>) -> Option<u8> {
    let d = strip_plus(s);
    if d.len() > 0 && all_digits(d) && digits_value(d) <= 255 {
        Some(digits_value(d) as u8)
    } else {
        None
    }
}

/// The digits of a number are decimal digits, none of them white space or a
/// line break, and read back as the number.
pub proof fn lemma_digits(n: nat)
    ensures
        digits(n).len() > 0,
        all_digits(digits(n)),
        digits_value(digits(n)) == n,
        forall|i: int| 0 <= i < digits(n).len() ==> !is_white_space(#[trigger] digits(n)[i]),
        !digits(n).contains('\n'),
        !digits(n).contains(':'),
        digits(n)[0] != '+',
    decreases n,
{
    let d = digits(n);
    if n >= 10 {
        lemma_digits(n / 10);
        let p = digits(n / 10);
        assert(d == p.push(digit_char(n % 10)));
        assert(d.drop_last() =~= p);
        assert(digits_value(d) == digits_value(p) * 10 + (n % 10)) by {
            assert(d.last() == digit_char(n % 10));
            assert((digit_char(n % 10) as nat) == 48 + n % 10);
        }
        assert((n / 10) * 10 + n % 10 == n) by (nonlinear_arith);
        assert forall|i: int| 0 <= i < d.len() implies is_digit(#[trigger] d[i]) by {
            if i < p.len() {
                assert(d[i] == p[i]);
            }
        }
        assert forall|i: int| 0 <= i < d.len() implies !is_white_space(#[trigger] d[i]) by {
            if i < p.len() {
                assert(d[i] == p[i]);
            }
        }
        assert(d[0] == p[0]);
    } else {
        assert(d.drop_last() =~= Seq::<char>::empty());
        assert(digits_value(d.drop_last()) == 0);
        assert(d.last() == digit_char(n));
        assert((digit_char(n) as nat) == 48 + n);
    }
    assert forall|i: int| 0 <= i < d.len() implies is_digit(#[trigger] d[i]) && d[i] != '\n' && d[i] != ':' by {
        assert(is_digit(d[i]));
    }
}

/// `u8::from_str` reads the digits of a `u8` back as it.
pub proof fn lemma_parse_u8_digits(n: u8)
    ensures
        parse_u8(digits(n as nat)) == Some(n),
{
    lemma_digits(n as nat);
}

/// Digits have no white space at either end, so `trim` keeps them.
pub proof fn lemma_trim_no_ws_ends(v: Seq<char>)
    requires
        v.len() > 0,
        !is_white_space(v[0]),
        !is_white_space(v.last()),
    ensures
        trim(v) == v,
{
    assert(skip_ws(v, 0) == 0);
    assert(skip_ws_back(v, v.len() as int) == v.len());
    assert(v.subrange(0, v.len() as int) =~= v);
}

pub fn parse_u8_chars(s: &Vec<char>) -> (r: Option<u8>)
    ensures
        r == parse_u8(s@),
{
    let start: usize = if s.len() > 0 && s[0] == '+' {
        1
    } else {
        0
    };
    let ghost d = s@.subrange(start as int, s.len() as int);
    assert(d == strip_plus(s@));
    let mut k = start;
    let mut value: u32 = 0;
    let mut ok = true;
    while k < s.len()
        invariant
            start <= k <= s.len(),
            d == s@.subrange(start as int, s.len() as int),
            ok == (forall|i: int| start <= i < k ==> is_digit(#[trigger] s@[i])),
            ok ==> value == (if digits_value(s@.subrange(start as int, k as int)) < 256 {
                digits_value(s@.subrange(start as int, k as int))
            } else {
                256
            }),
        decreases s.len() - k,
    {
        let c = s[k];
        let ghost pre = s@.subrange(start as int, k as int);
        let ghost next = s@.subrange(start as int, k + 1);
        assert(next.drop_last() == pre);
        if '0' <= c && c <= '9' {
            let dv = (c as u32) - 48;
            if ok {
                let nv = value * 10 + dv;
                value = if nv < 256 {
                    nv
                } else {
                    256
                };
            }
        } else {
            ok = false;
        }
        k += 1;
    }
    assert(d == s@.subrange(start as int, k as int));
    assert(ok == all_digits(d)) by {
        if ok {
            assert forall|i: int| 0 <= i < d.len() implies is_digit(#[trigger] d[i]) by {
                assert(d[i] == s@[start + i]);
            }
        } else {
            let w = choose|i: int| start <= i < k && !is_digit(#[trigger] s@[i]);
            assert(d[w - start] == s@[w]);
        }
    }
    assert(d.len() == k - start);
    if ok && k > start && value < 256 {
        assert(digits_value(d) == value);
        Some(value as u8)
    } else {
        None
    }
}

pub fn digit_of(d: u32) -> (c: char)
    requires
        d < 10,
    ensures
        c == digit_char(d as nat),
{
    ((48 + d) as u8) as char
}

/// Appends the decimal digits of `n`.
pub fn push_decimal(s: &mut String, n: u32)
    ensures
        final(s)@ == old(s)@ + digits(n as nat),
    decreases n,
{
    if n >= 10 {
        push_decimal(s, n / 10);
    }
    push_char(s, digit_of(n % 10));
}


// ---------------------------------------------------------------------------
// Block ids

/// What `char::is_alphanumeric` answers (the Unicode `Alphabetic` or
/// `Numeric` properties).
pub uninterp spec fn char_is_alphanumeric(c: char) -> bool;

/// `char::is_alphanumeric`; the contract names the result (the Unicode
/// tables are not restated).
#[verifier::external_body]
fn is_alphanumeric(c: char) -> (b: bool)
    ensures
        b == char_is_alphanumeric(c),
{
    c.is_alphanumeric()
}

/// An ASCII letter or digit.
pub open spec fn is_ascii_alnum(c: char) -> bool {
    ('a' <= c <= 'z') || ('A' <= c <= 'Z') || ('0' <= c <= '9')
}

/// What `char::is_alphanumeric` answers: among ASCII chars, the letters and
/// digits (the ASCII chars with the `Alphabetic` or `Numeric` property);
/// beyond ASCII, what the Unicode tables say.
pub open spec fn is_id_char(c: char) -> bool {
    if (c as u32) < 128 {
        is_ascii_alnum(c)
    } else {
        char_is_alphanumeric(c)
    }
}

/// `char::is_alphanumeric`, with the ASCII chars decided here.
pub fn id_char(c: char) -> (b: bool)
    ensures
        b == is_id_char(c),
{
    if (c as u32) < 128 {
        ('a' <= c && c <= 'z') || ('A' <= c && c <= 'Z') || ('0' <= c && c <= '9')
    } else {
        is_alphanumeric(c)
    }
}

/// The start of the last ` ^` that begins at or before `p`.
pub open spec fn rfind_caret_from(s: Seq<char>, p: int) -> Option<int>
    decreases p + 1,
{
    if p < 0 {
        None
    } else if p + 1 < s.len() && s[p] == ' ' && s[p + 1] == '^' {
        Some(p)
    } else {
        rfind_caret_from(s, p - 1)
    }
}

/// `rfind(" ^")`.
pub open spec fn rfind_caret(s: Seq<char>) -> Option<int> {
    rfind_caret_from(s, s.len() - 2)
}

/// The end of the run of alphanumeric chars that starts at `i`.
pub open spec fn alnum_end(s: Seq<char>, i: int) -> int
    decreases s.len() - i,
{
    if 0 <= i < s.len() && is_id_char(s[i]) {
        alnum_end(s, i + 1)
    } else {
        i
    }
}

/// A block id at the end of a title: the last ` ^` followed by one or more
/// `is_id_char` chars that run to the end of the title. Gives the title cut
/// before that ` ^` and the id, or the title unchanged and no id when there
/// is no ` ^`, or when what follows the last one is not such a run to the end.
pub open spec fn split_block_id(s: Seq<char>) -> (Seq<char>, Option<Seq<char>>) {
    match rfind_caret(s) {
        None => (s, None),
        Some(k) => {
            let e = alnum_end(s, k + 2);
            if e <= k + 2 || e != s.len() {
                (s, None)
            } else {
                (s.subrange(0, k), Some(s.subrange(k + 2, e)))
            }
        },
    }
}

proof fn lemma_rfind_caret_from(s: Seq<char>, p: int)
    ensures
        rfind_caret_from(s, p) matches Some(k) ==> 0 <= k <= p && k + 1 < s.len(),
    decreases p + 1,
{
    if p >= 0 {
        lemma_rfind_caret_from(s, p - 1);
    }
}

proof fn lemma_alnum_end(s: Seq<char>, i: int)
    requires
        0 <= i <= s.len(),
    ensures
        i <= alnum_end(s, i) <= s.len(),
    decreases s.len() - i,
{
    if i < s.len() && is_id_char(s[i]) {
        lemma_alnum_end(s, i + 1);
    }
}

/// A title written with a block id after it (` ^` and the id) is split back
/// into that title and that id.
pub proof fn lemma_block_id_round_trip(t: Seq<char>, id: Seq<char>)
    requires
        id.len() > 0,
        forall|i: int| 0 <= i < id.len() ==> is_id_char(#[trigger] id[i]),
    ensures
        split_block_id(t + " ^"@ + id) == (t, Some(id)),
{
    reveal_strlit(" ^");
    let s = t + " ^"@ + id;
    let k = t.len() as int;
    assert(s[k] == ' ' && s[k + 1] == '^');
    assert forall|p: int| k < p <= s.len() - 2 implies !(#[trigger] s[p] == ' ' && s[p + 1] == '^') by {
        assert(s[p + 1] == id[p + 1 - k - 2]);
        assert(is_id_char(id[p + 1 - k - 2]));
    }
    lemma_rfind_caret_down(s, s.len() - 2, k);
    assert forall|j: int| k + 2 <= j < s.len() implies is_id_char(#[trigger] s[j]) by {
        assert(s[j] == id[j - k - 2]);
    }
    lemma_alnum_run(s, k + 2);
    assert(s.subrange(0, k) =~= t);
    assert(s.subrange(k + 2, s.len() as int) =~= id);
}

proof fn lemma_rfind_caret_down(s: Seq<char>, p: int, k: int)
    requires
        0 <= k <= p,
        k + 1 < s.len(),
        s[k] == ' ' && s[k + 1] == '^',
        forall|q: int| k < q <= p ==> !(#[trigger] s[q] == ' ' && s[q + 1] == '^'),
    ensures
        rfind_caret_from(s, p) == Some(k),
    decreases p - k,
{
    if p > k {
        lemma_rfind_caret_down(s, p - 1, k);
    }
}

proof fn lemma_alnum_run(s: Seq<char>, i: int)
    requires
        0 <= i <= s.len(),
        forall|j: int| i <= j < s.len() ==> is_id_char(#[trigger] s[j]),
    ensures
        alnum_end(s, i) == s.len(),
    decreases s.len() - i,
{
    if i < s.len() {
        lemma_alnum_run(s, i + 1);
    }
}

/// Takes a block id off the end of a title (only an id that ends the title
/// is one): `title` keeps what comes before the id's ` ^`.
pub fn extract_id(title: &mut String) -> (id: Option<String>)
    ensures
        (final(title)@, crate::model::opt_view(id)) == split_block_id(old(title)@),
{
    let s = chars_of(title.as_str());
    let ghost sv = s@;
    if s.len() < 2 {
        return None;
    }
    let mut p: usize = s.len() - 1;
    // p is one past the candidate position
    while p > 0 && !(s[p - 1] == ' ' && s[p] == '^')
        invariant
            p <= s.len() - 1,
            s@ == sv,
            s.len() >= 2,
            rfind_caret_from(sv, p as int - 1) == rfind_caret(sv),
        decreases p,
    {
        p -= 1;
    }
    proof {
        lemma_rfind_caret_from(sv, sv.len() - 2);
    }
    if p == 0 {
        return None;
    }
    let k = p - 1;
    assert(rfind_caret(sv) == Some(k as int));
    proof {
        lemma_alnum_end(sv, k + 2);
    }
    let mut e: usize = k + 2;
    while e < s.len() && id_char(s[e])
        invariant
            k + 2 <= e <= s.len(),
            s@ == sv,
            alnum_end(sv, e as int) == alnum_end(sv, k + 2),
        decreases s.len() - e,
    {
        e += 1;
    }
    if e == k + 2 || e != s.len() {
        return None;
    }
    let id = slice_chars(&s, k + 2, e);
    let prefix = slice_chars(&s, 0, k);
    *title = string_from_chars(&prefix);
    Some(string_from_chars(&id))
}

} // verus!
