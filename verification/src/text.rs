//! Character-level text handling: whitespace, decimal numbers, and the
//! splitting rules that object headers, ignore files and paths rely on.
use vstd::prelude::*;
use crate::path::is_piece_of;

verus! {

/// Unicode `White_Space` property, the definition behind `char::is_whitespace`.
pub open spec fn is_ws(c: char) -> bool {
    let u = c as u32;
    ||| 0x09 <= u <= 0x0D
    ||| u == 0x20
    ||| u == 0x85
    ||| u == 0xA0
    ||| u == 0x1680
    ||| 0x2000 <= u <= 0x200A
    ||| u == 0x2028
    ||| u == 0x2029
    ||| u == 0x202F
    ||| u == 0x205F
    ||| u == 0x3000
}

pub fn is_whitespace(c: char) -> (r: bool)
    ensures
        r == is_ws(c),
{
    let u = c as u32;
    (0x09 <= u && u <= 0x0D) || u == 0x20 || u == 0x85 || u == 0xA0 || u == 0x1680 || (0x2000
        <= u && u <= 0x200A) || u == 0x2028 || u == 0x2029 || u == 0x202F || u == 0x205F || u
        == 0x3000
}

/// The characters of a string slice, in order.
pub fn chars_of(s: &str) -> (v: Vec<char>)
    ensures
        v@ == s@,
{
    let mut v: Vec<char> = Vec::new();
    for c in it: s.chars()
        invariant
            v@ == it.seq().take(it.index() as int),
    {
        v.push(c);
    }
    v
}

/// `String::push`: appends one character.
#[verifier::external_body]
pub(crate) fn push_char(s: &mut String, c: char)
    ensures
        final(s)@ == old(s)@.push(c),
{
    s.push(c);
}

/// Appends the characters of `v` to `s`.
pub fn push_chars(s: &mut String, v: &[char])
    ensures
        final(s)@ == old(s)@ + v@,
{
    let mut i: usize = 0;
    while i < v.len()
        invariant
            i <= v@.len(),
            s@ == old(s)@ + v@.take(i as int),
        decreases v@.len() - i,
    {
        push_char(s, v[i]);
        assert(v@.take(i + 1) == v@.take(i as int).push(v@[i as int]));
        i = i + 1;
    }
    assert(v@.take(v@.len() as int) == v@);
}

/// A `String` holding exactly the characters of `v`.
pub fn string_of(v: &[char]) -> (s: String)
    ensures
        s@ == v@,
{
    let mut s = String::new();
    push_chars(&mut s, v);
    s
}

/// Appends the characters of a string slice to `s`.
pub fn push_str(s: &mut String, t: &str)
    ensures
        final(s)@ == old(s)@ + t@,
{
    let v = chars_of(t);
    push_chars(s, v.as_slice());
}

// ---------------------------------------------------------------------
// Decimal numbers
// ---------------------------------------------------------------------

pub open spec fn is_digit(c: char) -> bool {
    48 <= (c as u32) <= 57
}

pub open spec fn digit_char(d: int) -> char {
    ((d + 48) as u32) as char
}

pub open spec fn digit_value(c: char) -> int {
    (c as u32) - 48
}

/// The shortest decimal rendering of `n`, as `u64::to_string` produces it.
pub open spec fn decimal(n: nat) -> Seq<char>
    decreases n,
{
    if n < 10 {
        seq![digit_char(n as int)]
    } else {
        decimal(n / 10).push(digit_char((n % 10) as int))
    }
}

/// The number that a run of decimal digits denotes.
pub open spec fn digits_value(s: Seq<char>) -> int
    decreases s.len(),
{
    if s.len() == 0 {
        0
    } else {
        digits_value(s.drop_last()) * 10 + digit_value(s.last())
    }
}

pub open spec fn all_digits(s: Seq<char>) -> bool {
    forall|i: int| 0 <= i < s.len() ==> is_digit(#[trigger] s[i])
}

/// What `str::parse::<u64>` accepts: an optional leading `+` followed by at least
/// one decimal digit, and a value that fits in a `u64`.
pub open spec fn parse_u64_spec(s: Seq<char>) -> Option<u64> {
    let d = if s.len() > 1 && s[0] == '+' {
        s.drop_first()
    } else {
        s
    };
    if s.len() > 0 && all_digits(d) && digits_value(d) <= u64::MAX {
        Some(digits_value(d) as u64)
    } else {
        None
    }
}

pub fn u64_to_decimal(n: u64) -> (v: Vec<char>)
    ensures
        v@ == decimal(n as nat),
    decreases n,
{
    if n < 10 {
        let c = ((n as u8) + 48u8) as char;
        let mut v: Vec<char> = Vec::new();
        v.push(c);
        assert(v@ == seq![digit_char(n as int)]);
        v
    } else {
        let mut v = u64_to_decimal(n / 10);
        let c = (((n % 10) as u8) + 48u8) as char;
        v.push(c);
        v
    }
}

pub proof fn lemma_digits_value_nonneg(s: Seq<char>)
    requires
        all_digits(s),
    ensures
        digits_value(s) >= 0,
    decreases s.len(),
{
    if s.len() > 0 {
        assert(is_digit(s[s.len() - 1]));
        lemma_digits_value_nonneg(s.drop_last());
    }
}

/// A prefix of a digit run never denotes more than the whole run.
pub proof fn lemma_digits_value_prefix(s: Seq<char>, k: int)
    requires
        all_digits(s),
        0 <= k <= s.len(),
    ensures
        digits_value(s.take(k)) <= digits_value(s),
    decreases s.len() - k,
{
    if k < s.len() {
        lemma_digits_value_prefix(s, k + 1);
        assert(s.take(k + 1).drop_last() == s.take(k));
        assert(is_digit(s[k]));
        lemma_digits_value_nonneg(s.take(k));
    } else {
        assert(s.take(k) == s);
    }
}

pub proof fn lemma_decimal_digits(n: nat)
    ensures
        decimal(n).len() > 0,
        all_digits(decimal(n)),
        digits_value(decimal(n)) == n,
    decreases n,
{
    if n >= 10 {
        lemma_decimal_digits(n / 10);
        let d = decimal(n);
        assert(d.drop_last() == decimal(n / 10));
        assert(d.last() == digit_char((n % 10) as int));
        assert(n == (n / 10) * 10 + n % 10) by (nonlinear_arith);
        assert forall|i: int| 0 <= i < d.len() implies is_digit(#[trigger] d[i]) by {
            if i < d.len() - 1 {
                assert(d[i] == decimal(n / 10)[i]);
            }
        }
    } else {
        assert(digits_value(decimal(n)) == digits_value(decimal(n).drop_last()) * 10
            + digit_value(decimal(n).last()));
        assert(decimal(n).drop_last().len() == 0);
    }
}

/// Parsing the decimal rendering of a number gives the number back.
pub proof fn lemma_parse_decimal(n: u64)
    ensures
        parse_u64_spec(decimal(n as nat)) == Some(n),
{
    lemma_decimal_digits(n as nat);
    let d = decimal(n as nat);
    assert(is_digit(d[0]));
}

/// `str::parse::<u64>` on a character sequence.
pub fn parse_u64(s: &[char]) -> (r: Option<u64>)
    ensures
        r == parse_u64_spec(s@),
{
    if s.len() == 0 {
        return None;
    }
    let start: usize = if s.len() > 1 && s[0] == '+' {
        1
    } else {
        0
    };
    let ghost d = if s@.len() > 1 && s@[0] == '+' {
        s@.drop_first()
    } else {
        s@
    };
    assert(d == s@.skip(start as int));
    let mut acc: u64 = 0;
    let mut i: usize = start;
    while i < s.len()
        invariant
            start <= i <= s@.len(),
            s@.len() > 0,
            d == s@.skip(start as int),
            d == (if s@.len() > 1 && s@[0] == '+' {
                s@.drop_first()
            } else {
                s@
            }),
            forall|j: int| 0 <= j < i - start ==> is_digit(#[trigger] d[j]),
            acc as int == digits_value(d.take(i - start)),
        decreases s@.len() - i,
    {
        let c = s[i];
        let u = c as u32;
        if u < 48 || u > 57 {
            assert(!is_digit(d[i - start]));
            assert(!all_digits(d));
            return None;
        }
        let dv = (u - 48) as u64;
        assert(d.take(i - start + 1).drop_last() == d.take(i - start));
        assert(d.take(i - start + 1).last() == c);
        // `acc * 10 + dv` exceeds `u64::MAX` = 18446744073709551615.
        if acc > 1844674407370955161 || (acc == 1844674407370955161 && dv > 5) {
            proof {
                if all_digits(d) {
                    lemma_digits_value_prefix(d, i - start + 1);
                    assert(digits_value(d.take(i - start + 1)) == acc * 10 + dv);
                    assert(digits_value(d) > u64::MAX);
                }
            }
            return None;
        }
        acc = acc * 10 + dv;
        i = i + 1;
    }
    assert(d.take(d.len() as int) == d);
    Some(acc)
}

// ---------------------------------------------------------------------
// Splitting
// ---------------------------------------------------------------------

/// Whitespace-separated words, scanning `s` with the word `cur` already begun.
pub open spec fn words_from(s: Seq<char>, cur: Seq<char>) -> Seq<Seq<char>>
    decreases s.len(),
{
    if s.len() == 0 {
        if cur.len() > 0 {
            seq![cur]
        } else {
            seq![]
        }
    } else if is_ws(s[0]) {
        (if cur.len() > 0 {
            seq![cur]
        } else {
            seq![]
        }) + words_from(s.drop_first(), seq![])
    } else {
        words_from(s.drop_first(), cur.push(s[0]))
    }
}

/// `str::split_whitespace`: the maximal runs of non-whitespace characters.
pub open spec fn split_ws(s: Seq<char>) -> Seq<Seq<char>> {
    words_from(s, seq![])
}

/// The character sequences held by a vector of character vectors.
pub open spec fn words_view(v: Seq<Vec<char>>) -> Seq<Seq<char>> {
    v.map_values(|w: Vec<char>| w@)
}

pub fn split_whitespace(s: &[char]) -> (r: Vec<Vec<char>>)
    ensures
        words_view(r@) == split_ws(s@),
{
    let mut r: Vec<Vec<char>> = Vec::new();
    let mut cur: Vec<char> = Vec::new();
    let mut i: usize = 0;
    assert(s@.skip(0) == s@);
    while i < s.len()
        invariant
            i <= s@.len(),
            words_view(r@) + words_from(s@.skip(i as int), cur@) == split_ws(s@),
        decreases s@.len() - i,
    {
        let c = s[i];
        let ghost rest = s@.skip(i as int);
        assert(rest.drop_first() == s@.skip(i + 1));
        assert(rest[0] == c);
        let ghost r0 = words_view(r@);
        let ghost cur0 = cur@;
        if is_whitespace(c) {
            if cur.len() > 0 {
                let w = cur;
                r.push(w);
                cur = Vec::new();
                assert(words_view(r@) =~= r0.push(cur0));
                assert(r0 + (seq![cur0] + words_from(s@.skip(i + 1), seq![])) == r0.push(cur0)
                    + words_from(s@.skip(i + 1), seq![]));
            } else {
                assert(r0 + (Seq::<Seq<char>>::empty() + words_from(s@.skip(i + 1), seq![]))
                    == r0 + words_from(s@.skip(i + 1), seq![]));
            }
            assert(cur@ == Seq::<char>::empty());
        } else {
            cur.push(c);
        }
        i = i + 1;
    }
    assert(s@.skip(i as int).len() == 0);
    if cur.len() > 0 {
        let ghost r0 = words_view(r@);
        let ghost cur0 = cur@;
        r.push(cur);
        assert(words_view(r@) =~= r0.push(cur0));
        assert(r0 + seq![cur0] == r0.push(cur0));
    } else {
        assert(words_view(r@) + Seq::<Seq<char>>::empty() == words_view(r@));
    }
    r
}

/// Leading whitespace removed.
pub open spec fn trim_start(s: Seq<char>) -> Seq<char>
    decreases s.len(),
{
    if s.len() > 0 && is_ws(s[0]) {
        trim_start(s.drop_first())
    } else {
        s
    }
}

/// Trailing whitespace removed.
pub open spec fn trim_end(s: Seq<char>) -> Seq<char>
    decreases s.len(),
{
    if s.len() > 0 && is_ws(s.last()) {
        trim_end(s.drop_last())
    } else {
        s
    }
}

/// `str::trim`: leading and trailing whitespace removed.
pub open spec fn trim_spec(s: Seq<char>) -> Seq<char> {
    trim_end(trim_start(s))
}

proof fn lemma_trim_start(s: Seq<char>) -> (i: int)
    ensures
        0 <= i <= s.len(),
        trim_start(s) == s.skip(i),
        forall|k: int| 0 <= k < i ==> is_ws(#[trigger] s[k]),
        i < s.len() ==> !is_ws(s[i]),
    decreases s.len(),
{
    if s.len() > 0 && is_ws(s[0]) {
        let j = lemma_trim_start(s.drop_first());
        assert(s.drop_first().skip(j) =~= s.skip(j + 1));
        assert forall|k: int| 0 <= k < j + 1 implies is_ws(#[trigger] s[k]) by {
            if k > 0 {
                assert(s[k] == s.drop_first()[k - 1]);
            }
        }
        j + 1
    } else {
        assert(s.skip(0) =~= s);
        0
    }
}

proof fn lemma_trim_end(s: Seq<char>) -> (j: int)
    ensures
        0 <= j <= s.len(),
        trim_end(s) == s.take(j),
        forall|k: int| j <= k < s.len() ==> is_ws(#[trigger] s[k]),
        j > 0 ==> !is_ws(s[j - 1]),
    decreases s.len(),
{
    if s.len() > 0 && is_ws(s.last()) {
        let j = lemma_trim_end(s.drop_last());
        assert(s.drop_last().take(j) =~= s.take(j));
        assert forall|k: int| j <= k < s.len() implies is_ws(#[trigger] s[k]) by {
            if k < s.len() - 1 {
                assert(s[k] == s.drop_last()[k]);
            }
        }
        j
    } else {
        assert(s.take(s.len() as int) =~= s);
        s.len() as int
    }
}

/// Trimming keeps a stretch of consecutive characters of the text, as they
/// are, and removes only whitespace before and after it; what is kept neither
/// starts nor ends with whitespace.
pub proof fn lemma_trim_keeps_middle(s: Seq<char>)
    ensures
        exists|i: int, j: int|
            0 <= i <= j <= s.len() && trim_spec(s) == #[trigger] s.subrange(i, j) && (forall|k: int|
                0 <= k < i ==> is_ws(#[trigger] s[k])) && (forall|k: int|
                j <= k < s.len() ==> is_ws(#[trigger] s[k])),
        trim_spec(s).len() > 0 ==> !is_ws(trim_spec(s)[0]) && !is_ws(trim_spec(s).last()),
{
    let i = lemma_trim_start(s);
    let t = s.skip(i);
    let j = lemma_trim_end(t);
    assert(t.take(j) =~= s.subrange(i, i + j));
    assert forall|k: int| i + j <= k < s.len() implies is_ws(#[trigger] s[k]) by {
        assert(s[k] == t[k - i]);
    }
    if j > 0 {
        assert(trim_spec(s)[0] == s[i]);
        assert(trim_spec(s).last() == t[j - 1]);
    }
    assert(trim_spec(s) == s.subrange(i, i + j));
}

pub fn trim(s: &[char]) -> (r: Vec<char>)
    ensures
        r@ == trim_spec(s@),
{
    let mut i: usize = 0;
    assert(s@.skip(0) == s@);
    while i < s.len() && is_whitespace(s[i])
        invariant
            i <= s@.len(),
            trim_start(s@) == trim_start(s@.skip(i as int)),
        decreases s@.len() - i,
    {
        assert(s@.skip(i as int).drop_first() == s@.skip(i + 1));
        i = i + 1;
    }
    let ghost t = s@.skip(i as int);
    assert(trim_start(t) == t);
    let mut j: usize = s.len();
    assert(s@.subrange(i as int, j as int) == t);
    while j > i && is_whitespace(s[j - 1])
        invariant
            i <= j <= s@.len(),
            trim_end(t) == trim_end(s@.subrange(i as int, j as int)),
        decreases j,
    {
        assert(s@.subrange(i as int, j as int).drop_last() == s@.subrange(i as int, j - 1));
        j = j - 1;
    }
    let mut r: Vec<char> = Vec::new();
    let mut k: usize = i;
    while k < j
        invariant
            i <= k <= j <= s@.len(),
            r@ == s@.subrange(i as int, k as int),
        decreases j - k,
    {
        r.push(s[k]);
        k = k + 1;
    }
    r
}

/// A line with the `\r` of a `\r\n` terminator removed.
pub open spec fn strip_cr(line: Seq<char>) -> Seq<char> {
    if line.len() > 0 && line.last() == '\r' {
        line.drop_last()
    } else {
        line
    }
}

/// Lines of `s`, scanning with the line `cur` already begun. A line ends at `\n`;
/// a `\r` right before that `\n` belongs to the terminator; the last line needs no
/// terminator, and an empty last line is no line.
pub open spec fn lines_from(s: Seq<char>, cur: Seq<char>) -> Seq<Seq<char>>
    decreases s.len(),
{
    if s.len() == 0 {
        if cur.len() > 0 {
            seq![cur]
        } else {
            seq![]
        }
    } else if s[0] == '\n' {
        seq![strip_cr(cur)] + lines_from(s.drop_first(), seq![])
    } else {
        lines_from(s.drop_first(), cur.push(s[0]))
    }
}

/// `str::lines`.
pub open spec fn lines_spec(s: Seq<char>) -> Seq<Seq<char>> {
    lines_from(s, seq![])
}

proof fn lemma_lines_are_pieces(s: Seq<char>, st: int, pos: int)
    requires
        0 <= st <= pos <= s.len(),
        !s.subrange(st, pos).contains('\n'),
    ensures
        forall|k: int|
            0 <= k < lines_from(s.skip(pos), s.subrange(st, pos)).len() ==> {
                let l = #[trigger] lines_from(s.skip(pos), s.subrange(st, pos))[k];
                is_piece_of(s, l) && !l.contains('\n')
            },
    decreases s.len() - pos,
{
    let ls = lines_from(s.skip(pos), s.subrange(st, pos));
    let cur = s.subrange(st, pos);
    assert(is_piece_of(s, cur)) by {
        assert(s.subrange(st, pos) == cur);
    }
    let sc = strip_cr(cur);
    assert(is_piece_of(s, sc) && !sc.contains('\n')) by {
        if cur.len() > 0 && cur.last() == '\r' {
            assert(sc =~= s.subrange(st, pos - 1));
            assert(s.subrange(st, pos - 1) == sc);
            if sc.contains('\n') {
                let k = choose|k: int| 0 <= k < sc.len() && sc[k] == '\n';
                assert(cur[k] == '\n');
            }
        }
    }
    if pos == s.len() {
        assert(s.skip(pos).len() == 0);
        assert forall|k: int| 0 <= k < ls.len() implies is_piece_of(s, #[trigger] ls[k])
            && !ls[k].contains('\n') by {
            assert(ls[k] == cur);
        }
    } else {
        assert(s.skip(pos)[0] == s[pos]);
        assert(s.skip(pos).drop_first() =~= s.skip(pos + 1));
        if s[pos] == '\n' {
            assert(s.subrange(pos + 1, pos + 1) =~= Seq::<char>::empty());
            lemma_lines_are_pieces(s, pos + 1, pos + 1);
            let rest = lines_from(s.skip(pos + 1), s.subrange(pos + 1, pos + 1));
            assert(ls == seq![sc] + rest);
            assert forall|k: int| 0 <= k < ls.len() implies is_piece_of(s, #[trigger] ls[k])
                && !ls[k].contains('\n') by {
                if k == 0 {
                    assert(ls[k] == sc);
                } else {
                    assert(ls[k] == rest[k - 1]);
                }
            }
        } else {
            assert(cur.push(s[pos]) =~= s.subrange(st, pos + 1));
            assert(!s.subrange(st, pos + 1).contains('\n')) by {
                let nx = s.subrange(st, pos + 1);
                if nx.contains('\n') {
                    let k = choose|k: int| 0 <= k < nx.len() && #[trigger] nx[k] == '\n';
                    if k < cur.len() {
                        assert(cur[k] == '\n');
                    }
                }
            }
            lemma_lines_are_pieces(s, st, pos + 1);
            assert(ls == lines_from(s.skip(pos + 1), s.subrange(st, pos + 1)));
        }
    }
}

/// Every line of a text is a stretch of consecutive characters of the text, as
/// they are, and holds no newline.
pub proof fn lemma_lines_are_pieces_of_text(s: Seq<char>)
    ensures
        forall|k: int|
            0 <= k < lines_spec(s).len() ==> is_piece_of(s, #[trigger] lines_spec(s)[k])
                && !lines_spec(s)[k].contains('\n'),
{
    assert(s.skip(0) =~= s);
    assert(s.subrange(0, 0) =~= Seq::<char>::empty());
    lemma_lines_are_pieces(s, 0, 0);
    assert forall|k: int| 0 <= k < lines_spec(s).len() implies is_piece_of(
        s,
        #[trigger] lines_spec(s)[k],
    ) && !lines_spec(s)[k].contains('\n') by {
        assert(lines_spec(s)[k] == lines_from(s.skip(0), s.subrange(0, 0))[k]);
    }
}

pub fn lines(s: &[char]) -> (r: Vec<Vec<char>>)
    ensures
        words_view(r@) == lines_spec(s@),
{
    let mut r: Vec<Vec<char>> = Vec::new();
    let mut cur: Vec<char> = Vec::new();
    let mut i: usize = 0;
    assert(s@.skip(0) == s@);
    assert(words_view(r@) =~= Seq::<Seq<char>>::empty());
    while i < s.len()
        invariant
            i <= s@.len(),
            words_view(r@) + lines_from(s@.skip(i as int), cur@) == lines_spec(s@),
        decreases s@.len() - i,
    {
        let c = s[i];
        let ghost rest = s@.skip(i as int);
        assert(rest.drop_first() == s@.skip(i + 1));
        assert(rest[0] == c);
        let ghost r0 = words_view(r@);
        let ghost cur0 = cur@;
        if c == '\n' {
            let n = cur.len();
            if n > 0 && cur[n - 1] == '\r' {
                cur.pop();
                assert(cur@ == cur0.drop_last());
            }
            assert(cur@ == strip_cr(cur0));
            let line = cur;
            r.push(line);
            cur = Vec::new();
            assert(words_view(r@) =~= r0.push(strip_cr(cur0)));
            assert(r0 + (seq![strip_cr(cur0)] + lines_from(s@.skip(i + 1), seq![]))
                == r0.push(strip_cr(cur0)) + lines_from(s@.skip(i + 1), seq![]));
            assert(cur@ == Seq::<char>::empty());
        } else {
            cur.push(c);
        }
        i = i + 1;
    }
    assert(s@.skip(i as int).len() == 0);
    if cur.len() > 0 {
        let ghost r0 = words_view(r@);
        let ghost cur0 = cur@;
        r.push(cur);
        assert(words_view(r@) =~= r0.push(cur0));
        assert(r0 + seq![cur0] == r0.push(cur0));
    } else {
        assert(words_view(r@) + Seq::<Seq<char>>::empty() == words_view(r@));
    }
    r
}

/// Equality of two character slices.
pub fn chars_eq(a: &[char], b: &[char]) -> (r: bool)
    ensures
        r == (a@ == b@),
{
    if a.len() != b.len() {
        return false;
    }
    let mut i: usize = 0;
    while i < a.len()
        invariant
            a@.len() == b@.len(),
            i <= a@.len(),
            forall|j: int| 0 <= j < i ==> a@[j] == b@[j],
        decreases a@.len() - i,
    {
        if a[i] != b[i] {
            return false;
        }
        i = i + 1;
    }
    assert(a@ =~= b@);
    true
}

} // verus!
