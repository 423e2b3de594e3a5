//! The prefix `<type> <size>\0\n` that opens every stored object.
use vstd::prelude::*;
use crate::error::ChronicleError;
use crate::objects::{ObjectType, obj_type_name, obj_type_of_name, lemma_type_name_round_trip};
use crate::text::{
    chars_of, decimal, is_ws, parse_u64, parse_u64_spec, push_chars, push_char, split_whitespace,
    split_ws, string_of, u64_to_decimal, words_from, words_view, is_digit, lemma_decimal_digits,
    lemma_parse_decimal,
};

verus! {

#[derive(Debug, Clone, Copy, PartialEq, Eq, Structural)]
pub struct Prefix {
    pub obj_type: ObjectType,
    pub obj_size: u64,
}

/// The characters of a prefix: `<type> <size>\0\n`.
pub open spec fn prefix_chars(p: Prefix) -> Seq<char> {
    obj_type_name(p.obj_type) + seq![' '] + decimal(p.obj_size as nat) + seq!['\0', '\n']
}

impl Prefix {
    pub fn new(obj_type: ObjectType, obj_size: u64) -> (r: Prefix)
        ensures
            r == (Prefix { obj_type, obj_size }),
    {
        Prefix { obj_type, obj_size }
    }

    pub fn to_string(&self) -> (r: String)
        ensures
            r@ == prefix_chars(*self),
    {
        let mut s = self.obj_type.to_string();
        push_char(&mut s, ' ');
        let digits = u64_to_decimal(self.obj_size);
        push_chars(&mut s, digits.as_slice());
        push_char(&mut s, '\0');
        push_char(&mut s, '\n');
        s
    }
}

/// The characters of `s` before the first `c` (all of `s` when there is none).
pub open spec fn before_char(s: Seq<char>, c: char) -> Seq<char>
    decreases s.len(),
{
    if s.len() == 0 || s[0] == c {
        seq![]
    } else {
        seq![s[0]] + before_char(s.drop_first(), c)
    }
}

/// The inputs on which reading a prefix does not panic: there is a `\0`, and
/// when the text before it holds two words the first names an object type.
pub open spec fn read_prefix_accepts(s: Seq<char>) -> bool {
    let w = split_ws(before_char(s, '\0'));
    &&& s.contains('\0')
    &&& w.len() == 2 ==> obj_type_of_name(w[0]) is Some
}

/// What reading the prefix of an object's text gives.
pub open spec fn read_prefix_spec(s: Seq<char>) -> Result<Prefix, ChronicleError> {
    let w = split_ws(before_char(s, '\0'));
    if w.len() != 2 {
        Err(ChronicleError::PrefixComponents)
    } else {
        match parse_u64_spec(w[1]) {
            None => Err(ChronicleError::InvalidObjectSize),
            Some(n) => Ok(Prefix { obj_type: obj_type_of_name(w[0])->0, obj_size: n }),
        }
    }
}

fn take_before(s: &[char], c: char) -> (r: Vec<char>)
    ensures
        r@ == before_char(s@, c),
{
    let mut r: Vec<char> = Vec::new();
    let mut i: usize = 0;
    assert(s@.skip(0) == s@);
    while i < s.len() && s[i] != c
        invariant
            i <= s@.len(),
            before_char(s@, c) == r@ + before_char(s@.skip(i as int), c),
        decreases s@.len() - i,
    {
        assert(s@.skip(i as int).drop_first() == s@.skip(i + 1));
        assert(r@.push(s@[i as int]) == r@ + seq![s@[i as int]]);
        r.push(s[i]);
        i = i + 1;
    }
    assert(before_char(s@.skip(i as int), c) == Seq::<char>::empty());
    assert(r@ + Seq::<char>::empty() == r@);
    r
}

/// Reads the prefix at the start of an object's text.
pub fn read_prefix(obj_file_contents: &str) -> (r: Result<Prefix, ChronicleError>)
    requires
        read_prefix_accepts(obj_file_contents@),
    ensures
        r == read_prefix_spec(obj_file_contents@),
{
    let chars = chars_of(obj_file_contents);
    let prefix_str = take_before(chars.as_slice(), '\0');
    let prefix_contents = split_whitespace(prefix_str.as_slice());
    if prefix_contents.len() != 2 {
        return Err(ChronicleError::PrefixComponents);
    }
    assert(words_view(prefix_contents@)[0] == prefix_contents@[0]@);
    assert(words_view(prefix_contents@)[1] == prefix_contents@[1]@);
    let type_str = string_of(prefix_contents[0].as_slice());
    let obj_type = match ObjectType::str_to_obj_type(type_str.as_str()) {
        Some(t) => t,
        None => {
            assert(false);
            return Err(ChronicleError::PrefixComponents);
        },
    };
    match parse_u64(prefix_contents[1].as_slice()) {
        None => Err(ChronicleError::InvalidObjectSize),
        Some(obj_size) => Ok(Prefix::new(obj_type, obj_size)),
    }
}

/// The characters of `s` after its first `c` (none when there is no `c`).
pub open spec fn after_char(s: Seq<char>, c: char) -> Seq<char>
    decreases s.len(),
{
    if s.len() == 0 {
        seq![]
    } else if s[0] == c {
        s.drop_first()
    } else {
        after_char(s.drop_first(), c)
    }
}

/// The text after the first `c` of `a`, `c` and `b` is `b`, when `a` has no `c`.
pub proof fn lemma_after_char(a: Seq<char>, c: char, b: Seq<char>)
    requires
        !a.contains(c),
    ensures
        after_char(a + seq![c] + b, c) == b,
    decreases a.len(),
{
    if a.len() == 0 {
        assert((a + seq![c] + b)[0] == c);
        assert((a + seq![c] + b).drop_first() =~= b);
    } else {
        assert((a + seq![c] + b)[0] == a[0]);
        assert((a + seq![c] + b).drop_first() == a.drop_first() + seq![c] + b);
        assert(!a.drop_first().contains(c)) by {
            if a.drop_first().contains(c) {
                let k = choose|k: int| 0 <= k < a.drop_first().len() && a.drop_first()[k] == c;
                assert(a[k + 1] == c);
            }
        }
        lemma_after_char(a.drop_first(), c, b);
    }
}

/// A prefix is `<type> <size>`, which holds no `\0`, then `\0\n`.
proof fn lemma_prefix_head(p: Prefix)
    ensures
        prefix_chars(p) == (obj_type_name(p.obj_type) + seq![' '] + decimal(p.obj_size as nat))
            + seq!['\0'] + seq!['\n'],
        !(obj_type_name(p.obj_type) + seq![' '] + decimal(p.obj_size as nat)).contains('\0'),
{
    let name = obj_type_name(p.obj_type);
    let dec = decimal(p.obj_size as nat);
    let head = name + seq![' '] + dec;
    lemma_decimal_digits(p.obj_size as nat);
    assert forall|i: int| 0 <= i < name.len() implies #[trigger] name[i] != '\0' by {
        match p.obj_type {
            ObjectType::Blob => {},
            ObjectType::Commit => {},
            ObjectType::Tag => {},
            ObjectType::Tree => {},
        }
    }
    assert forall|i: int| 0 <= i < dec.len() implies #[trigger] dec[i] != '\0' by {
        assert(is_digit(dec[i]));
    }
    assert(!head.contains('\0')) by {
        if head.contains('\0') {
            let k = choose|k: int| 0 <= k < head.len() && head[k] == '\0';
            if k < name.len() {
                assert(head[k] == name[k]);
            } else if k > name.len() {
                assert(head[k] == dec[k - name.len() - 1]);
            }
        }
    }
    assert(prefix_chars(p) =~= head + seq!['\0'] + seq!['\n']);
}

/// Whatever follows a prefix is what the text holds after its first `\0`, past
/// the newline that ends the prefix.
pub proof fn lemma_after_prefix(p: Prefix, rest: Seq<char>)
    ensures
        after_char(prefix_chars(p) + rest, '\0') == seq!['\n'] + rest,
{
    lemma_prefix_head(p);
    let head = obj_type_name(p.obj_type) + seq![' '] + decimal(p.obj_size as nat);
    assert(prefix_chars(p) + rest =~= head + seq!['\0'] + (seq!['\n'] + rest));
    lemma_after_char(head, '\0', seq!['\n'] + rest);
}

/// Scanning a word without whitespace just extends the current word.
pub proof fn lemma_words_from_word(w: Seq<char>, rest: Seq<char>, cur: Seq<char>)
    requires
        forall|i: int| 0 <= i < w.len() ==> !is_ws(#[trigger] w[i]),
    ensures
        words_from(w + rest, cur) == words_from(rest, cur + w),
    decreases w.len(),
{
    if w.len() == 0 {
        assert(w + rest == rest);
        assert(cur + w == cur);
    } else {
        assert((w + rest)[0] == w[0]);
        assert((w + rest).drop_first() == w.drop_first() + rest);
        lemma_words_from_word(w.drop_first(), rest, cur.push(w[0]));
        assert(cur.push(w[0]) + w.drop_first() == cur + w);
    }
}

/// The text before the first `c` of `a`, `c` and `b` is `a`, when `a` has no `c`.
pub proof fn lemma_before_char(a: Seq<char>, c: char, b: Seq<char>)
    requires
        !a.contains(c),
    ensures
        before_char(a + seq![c] + b, c) == a,
    decreases a.len(),
{
    if a.len() == 0 {
        assert((a + seq![c] + b)[0] == c);
    } else {
        assert((a + seq![c] + b)[0] == a[0]);
        assert((a + seq![c] + b).drop_first() == a.drop_first() + seq![c] + b);
        assert(!a.drop_first().contains(c)) by {
            if a.drop_first().contains(c) {
                let k = choose|k: int| 0 <= k < a.drop_first().len() && a.drop_first()[k] == c;
                assert(a[k + 1] == c);
            }
        }
        lemma_before_char(a.drop_first(), c, b);
        assert(seq![a[0]] + a.drop_first() == a);
    }
}

/// Reading back the prefix written for `p`, whatever text follows it, gives `p`.
pub proof fn lemma_read_prefix_round_trip(p: Prefix, rest: Seq<char>)
    ensures
        read_prefix_accepts(prefix_chars(p) + rest),
        read_prefix_spec(prefix_chars(p) + rest) == Ok::<Prefix, ChronicleError>(p),
{
    let name = obj_type_name(p.obj_type);
    let dec = decimal(p.obj_size as nat);
    lemma_decimal_digits(p.obj_size as nat);
    lemma_parse_decimal(p.obj_size);
    lemma_type_name_round_trip(p.obj_type, name);
    let head = name + seq![' '] + dec;
    let s = prefix_chars(p) + rest;
    assert(s == head + seq!['\0'] + (seq!['\n'] + rest));
    assert forall|i: int| 0 <= i < name.len() implies !is_ws(#[trigger] name[i]) && name[i] != '\0' by {
        match p.obj_type {
            ObjectType::Blob => {},
            ObjectType::Commit => {},
            ObjectType::Tag => {},
            ObjectType::Tree => {},
        }
    }
    assert forall|i: int| 0 <= i < dec.len() implies !is_ws(#[trigger] dec[i]) && dec[i] != '\0' by {
        assert(is_digit(dec[i]));
    }
    assert(!head.contains('\0')) by {
        if head.contains('\0') {
            let k = choose|k: int| 0 <= k < head.len() && head[k] == '\0';
            if k < name.len() {
                assert(head[k] == name[k]);
            } else if k > name.len() {
                assert(head[k] == dec[k - name.len() - 1]);
            }
        }
    }
    lemma_before_char(head, '\0', seq!['\n'] + rest);
    assert(s.contains('\0')) by {
        assert(s[head.len() as int] == '\0');
    }
    // The words of `name dec`.
    assert(head == name + (seq![' '] + dec));
    lemma_words_from_word(name, seq![' '] + dec, seq![]);
    assert(Seq::<char>::empty() + name == name);
    assert((seq![' '] + dec)[0] == ' ');
    assert((seq![' '] + dec).drop_first() == dec);
    assert(words_from(seq![' '] + dec, name) == seq![name] + words_from(dec, seq![]));
    assert(dec == dec + Seq::<char>::empty());
    lemma_words_from_word(dec, Seq::<char>::empty(), seq![]);
    assert(Seq::<char>::empty() + dec == dec);
    assert(words_from(Seq::<char>::empty(), dec) == seq![dec]);
    assert(split_ws(before_char(s, '\0')) == seq![name, dec]);
}

} // verus!
