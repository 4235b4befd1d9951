//! Character-level helpers shared by the subtitle reader and writer:
//! line splitting, whitespace trimming, and decimal numbers.
use vstd::prelude::*;

verus! {

broadcast use vstd::string::group_string_axioms;

/// Relies on `String::push`: the character is appended at the end.
pub assume_specification[ String::push ](s: &mut String, ch: char)
    ensures
        final(s)@ == old(s)@.push(ch),
;

/// The characters of `s`, in order.
pub fn chars_of(s: &str) -> (r: Vec<char>)
    ensures
        r@ == s@,
{
    let mut r: Vec<char> = Vec::new();
    for c in it: s.chars()
        invariant
            r@ == it.seq().take(it.index() as int),
    {
        r.push(c);
    }
    r
}

/// Appends the characters of `v` to `out`.
pub fn push_chars(out: &mut String, v: &Vec<char>)
    ensures
        final(out)@ == old(out)@ + v@,
{
    let mut i: usize = 0;
    while i < v.len()
        invariant
            i <= v.len(),
            out@ == old(out)@ + v@.take(i as int),
        decreases v.len() - i,
    {
        out.push(v[i]);
        i = i + 1;
        assert(v@.take(i as int) == v@.take(i - 1 as int).push(v@[i - 1]));
    }
    assert(v@.take(v.len() as int) == v@);
}

/// Appends the characters of `s` to `out`.
pub fn push_str_chars(out: &mut String, s: &str)
    ensures
        final(out)@ == old(out)@ + s@,
{
    let v = chars_of(s);
    push_chars(out, &v);
}

/// A `String` holding the characters of `v`.
pub fn string_of(v: &Vec<char>) -> (r: String)
    ensures
        r@ == v@,
{
    let mut r = String::new();
    push_chars(&mut r, v);
    r
}

/// A `String` holding the characters of `s`.
pub fn string_from(s: &str) -> (r: String)
    ensures
        r@ == s@,
{
    let mut r = String::new();
    push_str_chars(&mut r, s);
    r
}

// ---------------------------------------------------------------------------
// Whitespace
// ---------------------------------------------------------------------------

/// Unicode `White_Space`, the set that `char::is_whitespace` tests.
pub open spec fn is_ws(c: char) -> bool {
    let u = c as u32;
    (0x09 <= u && u <= 0x0D) || u == 0x20 || u == 0x85 || u == 0xA0 || u == 0x1680
        || (0x2000 <= u && u <= 0x200A) || u == 0x2028 || u == 0x2029 || u == 0x202F
        || u == 0x205F || u == 0x3000
}

pub fn is_ws_exec(c: char) -> (r: bool)
    ensures
        r == is_ws(c),
{
    let u = c as u32;
    (0x09 <= u && u <= 0x0D) || u == 0x20 || u == 0x85 || u == 0xA0 || u == 0x1680 || (0x2000
        <= u && u <= 0x200A) || u == 0x2028 || u == 0x2029 || u == 0x202F || u == 0x205F || u
        == 0x3000
}

/// `s` without its leading whitespace.
pub open spec fn trim_front(s: Seq<char>) -> Seq<char>
    decreases s.len(),
{
    if s.len() > 0 && is_ws(s[0]) {
        trim_front(s.drop_first())
    } else {
        s
    }
}

/// `s` without its trailing whitespace.
pub open spec fn trim_back(s: Seq<char>) -> Seq<char>
    decreases s.len(),
{
    if s.len() > 0 && is_ws(s.last()) {
        trim_back(s.drop_last())
    } else {
        s
    }
}

/// `s` without leading and trailing whitespace, as `str::trim` gives it.
pub open spec fn trim(s: Seq<char>) -> Seq<char> {
    trim_back(trim_front(s))
}

/// A line is blank when it holds whitespace only.
pub open spec fn is_blank(s: Seq<char>) -> bool {
    trim(s).len() == 0
}

proof fn lemma_trim_front_from(s: Seq<char>, i: int)
    requires
        0 <= i <= s.len(),
        forall|k: int| 0 <= k < i ==> is_ws(#[trigger] s[k]),
    ensures
        trim_front(s) == trim_front(s.subrange(i, s.len() as int)),
    decreases i,
{
    if i > 0 {
        assert(is_ws(s[0]));
        assert(s.drop_first() == s.subrange(1, s.len() as int));
        assert forall|k: int| 0 <= k < i - 1 implies is_ws(#[trigger] s.drop_first()[k]) by {
            assert(s.drop_first()[k] == s[k + 1]);
        }
        lemma_trim_front_from(s.drop_first(), i - 1);
        assert(s.drop_first().subrange(i - 1, s.drop_first().len() as int) == s.subrange(
            i,
            s.len() as int,
        ));
    } else {
        assert(s.subrange(0, s.len() as int) == s);
    }
}

proof fn lemma_trim_back_to(s: Seq<char>, j: int)
    requires
        0 <= j <= s.len(),
        forall|k: int| j <= k < s.len() ==> is_ws(#[trigger] s[k]),
    ensures
        trim_back(s) == trim_back(s.subrange(0, j)),
    decreases s.len() - j,
{
    if j < s.len() {
        assert(is_ws(s.last()));
        assert(s.drop_last() == s.subrange(0, s.len() - 1));
        assert forall|k: int| j <= k < s.drop_last().len() implies is_ws(
            #[trigger] s.drop_last()[k],
        ) by {
            assert(s.drop_last()[k] == s[k]);
        }
        lemma_trim_back_to(s.drop_last(), j);
        assert(s.drop_last().subrange(0, j) == s.subrange(0, j));
    } else {
        assert(s.subrange(0, j) == s);
    }
}

/// The characters of `v` without leading and trailing whitespace.
pub fn trim_chars(v: &Vec<char>) -> (r: Vec<char>)
    ensures
        r@ == trim(v@),
{
    let n = v.len();
    let mut i: usize = 0;
    while i < n && is_ws_exec(v[i])
        invariant
            i <= n == v.len(),
            forall|k: int| 0 <= k < i ==> is_ws(#[trigger] v@[k]),
        decreases n - i,
    {
        i = i + 1;
    }
    proof {
        lemma_trim_front_from(v@, i as int);
    }
    let mut j: usize = n;
    while j > i && is_ws_exec(v[j - 1])
        invariant
            i <= j <= n == v.len(),
            forall|k: int| j <= k < n ==> is_ws(#[trigger] v@[k]),
        decreases j,
    {
        j = j - 1;
    }
    let ghost t = v@.subrange(i as int, n as int);
    proof {
        assert(trim_front(t) == t) by {
            if t.len() > 0 {
                assert(t[0] == v@[i as int]);
            }
        }
        assert forall|k: int| j - i <= k < t.len() implies is_ws(#[trigger] t[k]) by {
            assert(t[k] == v@[k + i]);
        }
        lemma_trim_back_to(t, j - i);
        let u = t.subrange(0, j - i);
        if u.len() > 0 {
            assert(u.last() == v@[j - 1]);
        }
        assert(trim_back(u) == u);
        assert(u == v@.subrange(i as int, j as int));
    }
    let mut r: Vec<char> = Vec::new();
    let mut k: usize = i;
    while k < j
        invariant
            i <= k <= j <= n == v.len(),
            r@ == v@.subrange(i as int, k as int),
        decreases j - k,
    {
        r.push(v[k]);
        k = k + 1;
    }
    r
}

/// Whether `v` holds whitespace only.
pub fn is_blank_chars(v: &Vec<char>) -> (r: bool)
    ensures
        r == is_blank(v@),
{
    let t = trim_chars(v);
    t.len() == 0
}

// ---------------------------------------------------------------------------
// Lines
// ---------------------------------------------------------------------------

/// Splits `s` at each `'\n'`: the finished lines, and the line still open at
/// the end of `s`.
pub open spec fn split_state(s: Seq<char>) -> (Seq<Seq<char>>, Seq<char>)
    decreases s.len(),
{
    if s.len() == 0 {
        (Seq::empty(), Seq::empty())
    } else {
        let (done, cur) = split_state(s.drop_last());
        if s.last() == '\n' {
            (done.push(strip_cr(cur)), Seq::empty())
        } else {
            (done, cur.push(s.last()))
        }
    }
}

/// A line ended by `"\r\n"` loses its `'\r'`.
pub open spec fn strip_cr(l: Seq<char>) -> Seq<char> {
    if l.len() > 0 && l.last() == '\r' {
        l.drop_last()
    } else {
        l
    }
}

/// The lines of `s` as `BufRead::lines` yields them: split at `'\n'`, a
/// `'\r'` before the `'\n'` dropped, and a last line without `'\n'` kept when
/// it is not empty.
pub open spec fn lines_of(s: Seq<char>) -> Seq<Seq<char>> {
    let (done, cur) = split_state(s);
    if cur.len() > 0 {
        done.push(cur)
    } else {
        done
    }
}

pub open spec fn views_of(v: Seq<Vec<char>>) -> Seq<Seq<char>> {
    v.map_values(|l: Vec<char>| l@)
}

fn strip_cr_vec(l: Vec<char>) -> (r: Vec<char>)
    ensures
        r@ == strip_cr(l@),
{
    let mut l = l;
    if l.len() > 0 && l[l.len() - 1] == '\r' {
        l.pop();
    }
    l
}

/// The lines of `s`, as `lines_of` states them.
pub fn split_lines(s: &Vec<char>) -> (r: Vec<Vec<char>>)
    ensures
        views_of(r@) == lines_of(s@),
{
    let mut done: Vec<Vec<char>> = Vec::new();
    let mut cur: Vec<char> = Vec::new();
    let mut i: usize = 0;
    while i < s.len()
        invariant
            i <= s.len(),
            (views_of(done@), cur@) == split_state(s@.take(i as int)),
        decreases s.len() - i,
    {
        let c = s[i];
        proof {
            assert(s@.take(i + 1 as int).drop_last() == s@.take(i as int));
        }
        if c == '\n' {
            let line = strip_cr_vec(cur);
            let ghost before = done@;
            done.push(line);
            cur = Vec::new();
            assert(views_of(done@) =~= views_of(before).push(line@));
        } else {
            cur.push(c);
        }
        i = i + 1;
    }
    assert(s@.take(s.len() as int) == s@);
    if cur.len() > 0 {
        let ghost before = done@;
        done.push(cur);
        assert(views_of(done@) =~= views_of(before).push(cur@));
    }
    done
}

// ---------------------------------------------------------------------------
// Decimal numbers
// ---------------------------------------------------------------------------

pub open spec fn is_digit(c: char) -> bool {
    '0' <= c && c <= '9'
}

pub open spec fn digit_value(c: char) -> int {
    (c as u32) - ('0' as u32)
}

pub open spec fn digit_char(d: int) -> char {
    (d + ('0' as u32)) as char
}

pub open spec fn all_digits(s: Seq<char>) -> bool {
    forall|i: int| 0 <= i < s.len() ==> is_digit(#[trigger] s[i])
}

/// The value of a run of decimal digits.
pub open spec fn digits_value(s: Seq<char>) -> int
    decreases s.len(),
{
    if s.len() == 0 {
        0
    } else {
        10 * digits_value(s.drop_last()) + digit_value(s.last())
    }
}

/// The shortest decimal rendering of `n`.
pub open spec fn decimal(n: nat) -> Seq<char>
    decreases n,
{
    if n < 10 {
        seq![digit_char(n as int)]
    } else {
        decimal(n / 10).push(digit_char((n % 10) as int))
    }
}

/// `s` padded on the left with `'0'` to at least `w` characters.
pub open spec fn zero_pad(s: Seq<char>, w: nat) -> Seq<char> {
    if s.len() >= w {
        s
    } else {
        Seq::new((w - s.len()) as nat, |k: int| '0') + s
    }
}

/// How `format!("{:0w$}", n)` renders a signed integer: the sign, then the
/// digits padded with `'0'` so that the whole is at least `w` wide.
pub open spec fn signed_padded(n: int, w: nat) -> Seq<char> {
    if n < 0 {
        seq!['-'] + zero_pad(decimal((-n) as nat), if w > 0 { (w - 1) as nat } else { 0 })
    } else {
        zero_pad(decimal(n as nat), w)
    }
}

/// What `u32::from_str` accepts: an optional `'+'`, then one or more digits
/// whose value fits in a `u32`.
pub open spec fn parse_u32_spec(s: Seq<char>) -> Option<u32> {
    let d = if s.len() > 0 && s[0] == '+' {
        s.drop_first()
    } else {
        s
    };
    if d.len() > 0 && all_digits(d) && digits_value(d) <= u32::MAX {
        Some(digits_value(d) as u32)
    } else {
        None
    }
}

/// What `i64::from_str` accepts: an optional sign, then one or more digits
/// whose signed value fits in an `i64`.
pub open spec fn parse_i64_spec(s: Seq<char>) -> Option<i64> {
    let neg = s.len() > 0 && s[0] == '-';
    let d = if s.len() > 0 && (s[0] == '+' || s[0] == '-') {
        s.drop_first()
    } else {
        s
    };
    let v = if neg {
        -digits_value(d)
    } else {
        digits_value(d)
    };
    if d.len() > 0 && all_digits(d) && i64::MIN <= v <= i64::MAX {
        Some(v as i64)
    } else {
        None
    }
}

pub proof fn lemma_digits_value_nonneg(s: Seq<char>)
    requires
        all_digits(s),
    ensures
        digits_value(s) >= 0,
    decreases s.len(),
{
    if s.len() > 0 {
        lemma_digits_value_nonneg(s.drop_last());
    }
}

/// A longer run of digits is worth at least as much as its prefix.
pub proof fn lemma_digits_value_prefix(s: Seq<char>, i: int)
    requires
        all_digits(s),
        0 <= i <= s.len(),
    ensures
        digits_value(s.take(i)) <= digits_value(s),
    decreases s.len() - i,
{
    if i < s.len() {
        assert(s.drop_last().take(i) == s.take(i));
        if i < s.len() {
            lemma_digits_value_prefix(s.drop_last(), i);
            lemma_digits_value_nonneg(s.drop_last());
        }
    } else {
        assert(s.take(i) == s);
    }
}

/// The value of the digits of `d`, or `None` when `d` is empty, holds a
/// character that is not a digit, or is worth more than `bound`.
fn digits_upto(d: &Vec<char>, start: usize, bound: u64) -> (r: Option<u64>)
    requires
        start <= d.len(),
    ensures
        ({
            let s = d@.subrange(start as int, d.len() as int);
            match r {
                Some(v) => s.len() > 0 && all_digits(s) && v == digits_value(s) && v <= bound,
                None => !(s.len() > 0 && all_digits(s) && digits_value(s) <= bound),
            }
        }),
{
    let ghost s = d@.subrange(start as int, d.len() as int);
    if start == d.len() {
        return None;
    }
    let mut acc: u128 = 0;
    let mut i: usize = start;
    while i < d.len()
        invariant
            start <= i <= d.len(),
            s == d@.subrange(start as int, d.len() as int),
            all_digits(s.take(i - start)),
            acc == digits_value(s.take(i - start)),
            acc <= bound,
        decreases d.len() - i,
    {
        let c = d[i];
        let ghost k = i - start;
        assert(s[k] == c);
        if !('0' <= c && c <= '9') {
            return None;
        }
        let dv = (c as u32 - '0' as u32) as u128;
        assert(s.take(k + 1).drop_last() == s.take(k));
        assert(s.take(k + 1).last() == c);
        let next = acc * 10 + dv;
        assert(all_digits(s.take(k + 1))) by {
            assert forall|j: int| 0 <= j < k + 1 implies is_digit(#[trigger] s.take(k + 1)[j]) by {
                if j < k {
                    assert(s.take(k + 1)[j] == s.take(k)[j]);
                }
            }
        }
        if next > bound as u128 {
            proof {
                if all_digits(s) {
                    lemma_digits_value_prefix(s, k + 1);
                }
            }
            return None;
        }
        acc = next;
        i = i + 1;
    }
    assert(s.take(s.len() as int) == s);
    Some(acc as u64)
}

/// Parses an index line, as `u32::from_str` does.
pub fn parse_u32(s: &Vec<char>) -> (r: Option<u32>)
    ensures
        r == parse_u32_spec(s@),
{
    let start: usize = if s.len() > 0 && s[0] == '+' {
        1
    } else {
        0
    };
    let ghost d = s@.subrange(start as int, s.len() as int);
    assert(d == if s@.len() > 0 && s@[0] == '+' {
        s@.drop_first()
    } else {
        s@
    });
    match digits_upto(s, start, 0xFFFF_FFFF) {
        Some(v) => Some(v as u32),
        None => None,
    }
}

/// Parses a number field, as `i64::from_str` does.
pub fn parse_i64(s: &Vec<char>) -> (r: Option<i64>)
    ensures
        r == parse_i64_spec(s@),
{
    let neg = s.len() > 0 && s[0] == '-';
    let start: usize = if s.len() > 0 && (s[0] == '+' || s[0] == '-') {
        1
    } else {
        0
    };
    let ghost d = s@.subrange(start as int, s.len() as int);
    assert(d == if s@.len() > 0 && (s@[0] == '+' || s@[0] == '-') {
        s@.drop_first()
    } else {
        s@
    });
    let bound: u64 = if neg {
        0x8000_0000_0000_0000
    } else {
        0x7FFF_FFFF_FFFF_FFFF
    };
    match digits_upto(s, start, bound) {
        Some(v) => {
            if neg {
                if v == 0x8000_0000_0000_0000 {
                    Some(i64::MIN)
                } else {
                    Some(-(v as i64))
                }
            } else {
                Some(v as i64)
            }
        },
        None => None,
    }
}

/// Appends the shortest decimal rendering of `n`.
pub fn push_decimal(out: &mut String, n: u64)
    ensures
        final(out)@ == old(out)@ + decimal(n as nat),
    decreases n,
{
    if n >= 10 {
        push_decimal(out, n / 10);
    }
    let c = ((n % 10) as u32 + '0' as u32) as u8 as char;
    assert(c == digit_char((n % 10) as int));
    out.push(c);
    assert(decimal(n as nat) == if n < 10 { seq![digit_char(n as int)] } else { decimal((n / 10) as nat).push(digit_char((n % 10) as int)) });
}

/// The number of characters in the decimal rendering of `n`.
pub fn decimal_len(n: u64) -> (r: u64)
    ensures
        r == decimal(n as nat).len(),
        1 <= r <= n as int + 1,
    decreases n,
{
    if n < 10 {
        1
    } else {
        decimal_len(n / 10) + 1
    }
}

/// Appends `n` padded with `'0'` to at least `w` characters.
pub fn push_padded(out: &mut String, n: u64, w: usize)
    ensures
        final(out)@ == old(out)@ + zero_pad(decimal(n as nat), w as nat),
{
    let len: u64 = decimal_len(n);
    let wide: u64 = w as u64;
    let ghost start = out@;
    let ghost dec = decimal(n as nat);
    if len < wide {
        let mut k: u64 = len;
        while k < wide
            invariant
                len <= k <= wide,
                out@ == start + Seq::new((k - len) as nat, |j: int| '0'),
            decreases wide - k,
        {
            out.push('0');
            k = k + 1;
            assert(out@ =~= start + Seq::new((k - len) as nat, |j: int| '0'));
        }
        let ghost zeros = Seq::new((wide - len) as nat, |j: int| '0');
        push_decimal(out, n);
        assert(zero_pad(dec, w as nat) == zeros + dec);
        assert(out@ =~= start + (zeros + dec));
    } else {
        push_decimal(out, n);
        assert(zero_pad(dec, w as nat) == dec);
    }
}

/// Appends `n` as `format!("{:0w$}", n)` renders it.
pub fn push_signed_padded(out: &mut String, n: i64, w: usize)
    ensures
        final(out)@ == old(out)@ + signed_padded(n as int, w as nat),
{
    let ghost start = out@;
    if n < 0 {
        out.push('-');
        let mag: u64 = if n == i64::MIN {
            0x8000_0000_0000_0000
        } else {
            (-n) as u64
        };
        let w1: usize = if w > 0 {
            w - 1
        } else {
            0
        };
        push_padded(out, mag, w1);
        assert(out@ =~= start + signed_padded(n as int, w as nat));
    } else {
        push_padded(out, n as u64, w);
    }
}


/// A digit character is a digit and has its value.
pub proof fn lemma_digit_char(d: int)
    requires
        0 <= d <= 9,
    ensures
        is_digit(digit_char(d)),
        digit_value(digit_char(d)) == d,
{
}

/// A number below 100, padded to two places, is its two digits.
pub proof fn lemma_two_places(n: nat)
    requires
        n < 100,
    ensures
        zero_pad(decimal(n), 2) == seq![digit_char((n / 10) as int), digit_char((n % 10) as int)],
{
    if n < 10 {
        assert(decimal(n) == seq![digit_char(n as int)]);
        assert(digit_char(0) == '0');
        assert(zero_pad(decimal(n), 2) =~= seq!['0', digit_char(n as int)]);
    } else {
        assert(decimal((n / 10) as nat) == seq![digit_char((n / 10) as int)]);
        assert(decimal(n) =~= seq![digit_char((n / 10) as int), digit_char((n % 10) as int)]);
    }
}

/// A number below 1000, padded to three places, is its three digits.
pub proof fn lemma_three_places(n: nat)
    requires
        n < 1000,
    ensures
        zero_pad(decimal(n), 3) == seq![
            digit_char((n / 100) as int),
            digit_char(((n / 10) % 10) as int),
            digit_char((n % 10) as int),
        ],
{
    assert(digit_char(0) == '0');
    if n < 10 {
        assert(decimal(n) == seq![digit_char(n as int)]);
        assert(zero_pad(decimal(n), 3) =~= seq!['0', '0', digit_char(n as int)]);
    } else if n < 100 {
        assert(decimal((n / 10) as nat) == seq![digit_char((n / 10) as int)]);
        assert(decimal(n) =~= seq![digit_char((n / 10) as int), digit_char((n % 10) as int)]);
        assert(zero_pad(decimal(n), 3) =~= seq!['0', digit_char((n / 10) as int), digit_char((n % 10) as int)]);
    } else {
        let q = (n / 10) as nat;
        assert(decimal((q / 10) as nat) == seq![digit_char((q / 10) as int)]);
        assert(decimal(q) =~= seq![digit_char((q / 10) as int), digit_char((q % 10) as int)]);
        assert(decimal(n) =~= seq![digit_char((q / 10) as int), digit_char((q % 10) as int), digit_char((n % 10) as int)]);
        assert(q / 10 == n / 100);
    }
}


/// Neither `'\n'` nor `'\r'` occurs in `s`.
pub open spec fn plain(s: Seq<char>) -> bool {
    forall|i: int| 0 <= i < s.len() ==> s[i] != '\n' && s[i] != '\r'
}

pub proof fn lemma_plain_concat(a: Seq<char>, b: Seq<char>)
    requires
        plain(a),
        plain(b),
    ensures
        plain(a + b),
{
    assert forall|i: int| 0 <= i < (a + b).len() implies (a + b)[i] != '\n' && (a + b)[i] != '\r' by {
        if i < a.len() {
            assert((a + b)[i] == a[i]);
        } else {
            assert((a + b)[i] == b[i - a.len()]);
        }
    }
}

/// Decimal renderings hold digits only.
pub proof fn lemma_decimal_digits(n: nat)
    ensures
        all_digits(decimal(n)),
        plain(decimal(n)),
        decimal(n).len() > 0,
    decreases n,
{
    lemma_digit_char((n % 10) as int);
    if n >= 10 {
        lemma_decimal_digits(n / 10);
        let d = decimal(n / 10);
        assert forall|i: int| 0 <= i < decimal(n).len() implies is_digit(#[trigger] decimal(n)[i]) by {
            if i < d.len() {
                assert(decimal(n)[i] == d[i]);
            }
        }
    } else {
        lemma_digit_char(n as int);
    }
}

/// A decimal rendering reads back as its number.
pub proof fn lemma_decimal_value(n: nat)
    ensures
        digits_value(decimal(n)) == n,
    decreases n,
{
    lemma_digit_char((n % 10) as int);
    let d = decimal(n);
    if n >= 10 {
        lemma_decimal_value(n / 10);
        assert(d.drop_last() == decimal(n / 10));
        assert(d.last() == digit_char((n % 10) as int));
        assert(digits_value(d) == 10 * digits_value(d.drop_last()) + digit_value(d.last()));
    } else {
        lemma_digit_char(n as int);
        assert(d.drop_last() =~= Seq::<char>::empty());
        assert(digits_value(d) == 10 * digits_value(d.drop_last()) + digit_value(d.last()));
    }
}

pub proof fn lemma_plain_zero_pad(s: Seq<char>, w: nat)
    requires
        plain(s),
    ensures
        plain(zero_pad(s, w)),
{
    if s.len() < w {
        let z = Seq::new((w - s.len()) as nat, |k: int| '0');
        assert(plain(z));
        lemma_plain_concat(z, s);
    }
}

/// Every `'\r'` in `s` that has a next character is followed by `'\n'`.
pub open spec fn cr_before_lf(s: Seq<char>) -> bool {
    forall|p: int| 0 <= p < s.len() - 1 && #[trigger] s[p] == '\r' ==> s[p + 1] == '\n'
}

/// Every `'\r'` in `s` ends a line: it is followed by `'\n'`.
pub open spec fn cr_ends_lines(s: Seq<char>) -> bool {
    forall|p: int| 0 <= p < s.len() && #[trigger] s[p] == '\r' ==> p + 1 < s.len() && s[p + 1] == '\n'
}

proof fn lemma_split_plain_lines(s: Seq<char>)
    requires
        cr_before_lf(s),
    ensures
        forall|k: int| 0 <= k < split_state(s).0.len() ==> plain(#[trigger] split_state(s).0[k]),
        forall|p: int| 0 <= p < split_state(s).1.len() ==> split_state(s).1[p] != '\n',
        forall|p: int| 0 <= p < split_state(s).1.len() - 1 ==> split_state(s).1[p] != '\r',
        split_state(s).1.len() > 0 ==> split_state(s).1.last() == s.last(),
    decreases s.len(),
{
    if s.len() > 0 {
        let t = s.drop_last();
        assert forall|p: int| 0 <= p < t.len() - 1 && #[trigger] t[p] == '\r' implies t[p + 1] == '\n' by {
            assert(t[p] == s[p] && t[p + 1] == s[p + 1]);
        }
        lemma_split_plain_lines(t);
        let (d, c) = split_state(t);
        if s.last() == '\n' {
            let l = strip_cr(c);
            assert(plain(l)) by {
                assert forall|p: int| 0 <= p < l.len() implies l[p] != '\n' && l[p] != '\r' by {
                    assert(l[p] == c[p]);
                }
            }
            assert forall|k: int| 0 <= k < d.push(l).len() implies plain(#[trigger] d.push(l)[k]) by {
                if k < d.len() {
                    assert(d.push(l)[k] == d[k]);
                }
            }
        } else {
            let c2 = c.push(s.last());
            if c.len() > 0 {
                assert(c.last() == t.last());
                assert(t.last() == s[s.len() - 2]);
            }
            assert forall|p: int| 0 <= p < c2.len() - 1 implies c2[p] != '\r' by {
                assert(c2[p] == c[p]);
                if p == c.len() - 1 {
                    assert(s[s.len() - 2] == c[p]);
                }
            }
            assert forall|p: int| 0 <= p < c2.len() implies c2[p] != '\n' by {
                if p < c.len() {
                    assert(c2[p] == c[p]);
                }
            }
        }
    }
}

/// The lines of a text whose carriage returns all end lines hold neither
/// `'\n'` nor `'\r'`.
pub proof fn lemma_lines_plain(s: Seq<char>)
    requires
        cr_ends_lines(s),
    ensures
        forall|k: int| 0 <= k < lines_of(s).len() ==> plain(#[trigger] lines_of(s)[k]),
{
    lemma_split_plain_lines(s);
    let (d, c) = split_state(s);
    if c.len() > 0 {
        assert(s.last() != '\r');
        assert(plain(c)) by {
            assert forall|p: int| 0 <= p < c.len() implies c[p] != '\n' && c[p] != '\r' by {
                if p == c.len() - 1 {
                    assert(c[p] == s.last());
                }
            }
        }
        assert forall|k: int| 0 <= k < d.push(c).len() implies plain(#[trigger] d.push(c)[k]) by {
            if k < d.len() {
                assert(d.push(c)[k] == d[k]);
            }
        }
    }
}

/// Splitting `a + b`, where `a` is empty or ends a line, carries on with a
/// fresh line.
pub proof fn lemma_split_concat(a: Seq<char>, b: Seq<char>)
    requires
        split_state(a).1.len() == 0,
    ensures
        split_state(a + b) == (split_state(a).0 + split_state(b).0, split_state(b).1),
    decreases b.len(),
{
    if b.len() == 0 {
        assert(a + b =~= a);
        assert(split_state(a).0 + split_state(b).0 =~= split_state(a).0);
        assert(split_state(a).1 =~= split_state(b).1);
    } else {
        lemma_split_concat(a, b.drop_last());
        assert((a + b).drop_last() =~= a + b.drop_last());
        assert((a + b).last() == b.last());
        let (d, c) = split_state(b.drop_last());
        assert(split_state(a).0 + d.push(strip_cr(c)) =~= (split_state(a).0 + d).push(strip_cr(c)));
    }
}

/// A piece without line breaks stays one open line.
pub proof fn lemma_split_plain(x: Seq<char>)
    requires
        plain(x),
    ensures
        split_state(x) == (Seq::<Seq<char>>::empty(), x),
    decreases x.len(),
{
    if x.len() > 0 {
        assert(plain(x.drop_last()));
        lemma_split_plain(x.drop_last());
        assert(x.drop_last().push(x.last()) =~= x);
    }
}

/// A piece without line breaks, ended by `'\n'`, is one line.
pub proof fn lemma_one_line(x: Seq<char>)
    requires
        plain(x),
    ensures
        split_state(x.push('\n')) == (seq![x], Seq::<char>::empty()),
{
    lemma_split_plain(x);
    assert(x.push('\n').drop_last() =~= x);
    if x.len() > 0 {
        assert(x.last() != '\r');
    }
    assert(strip_cr(x) == x);
    assert(Seq::<Seq<char>>::empty().push(x) =~= seq![x]);
}

/// Digits are not whitespace, so a decimal rendering is not blank and
/// trims to itself.
pub proof fn lemma_decimal_trim(n: nat)
    ensures
        trim(decimal(n)) == decimal(n),
        !is_blank(decimal(n)),
        parse_u32_spec(decimal(n)) == (if n <= u32::MAX { Some(n as u32) } else { None::<u32> }),
{
    let d = decimal(n);
    lemma_decimal_digits(n);
    lemma_decimal_value(n);
    assert(is_digit(d[0]));
    assert(is_digit(d.last()));
    assert(trim_front(d) == d);
    assert(trim_back(d) == d);
}

} // verus!
