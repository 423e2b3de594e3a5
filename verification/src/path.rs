//! Unix path handling as `std::path` does it: the components a path is
//! compared by, and joining a path onto another.
use vstd::prelude::*;
use crate::text::{chars_of, chars_eq, push_chars, words_view};

verus! {

/// The component a finished segment contributes: none for an empty segment or `.`.
pub open spec fn keep_segment(cur: Seq<char>) -> Seq<Seq<char>> {
    if cur.len() == 0 || cur == seq!['.'] {
        seq![]
    } else {
        seq![cur]
    }
}

/// The normal components (and `..`) of `s`, scanning with the segment `cur` begun.
pub open spec fn segments_from(s: Seq<char>, cur: Seq<char>) -> Seq<Seq<char>>
    decreases s.len(),
{
    if s.len() == 0 {
        keep_segment(cur)
    } else if s[0] == '/' {
        keep_segment(cur) + segments_from(s.drop_first(), seq![])
    } else {
        segments_from(s.drop_first(), cur.push(s[0]))
    }
}

pub open spec fn has_root(p: Seq<char>) -> bool {
    p.len() > 0 && p[0] == '/'
}

/// A relative path that starts with the component `.`, which `Path::components` keeps.
pub open spec fn starts_with_cur_dir(p: Seq<char>) -> bool {
    !has_root(p) && p.len() > 0 && p[0] == '.' && (p.len() == 1 || p[1] == '/')
}

/// `Path::components`, each component as the characters of its `as_os_str`.
/// Two paths are equal as `Path`s exactly when these agree.
pub open spec fn components(p: Seq<char>) -> Seq<Seq<char>> {
    (if has_root(p) {
        seq![seq!['/']]
    } else if starts_with_cur_dir(p) {
        seq![seq!['.']]
    } else {
        seq![]
    }) + segments_from(p, seq![])
}

/// A stretch without `/` only extends the segment begun.
proof fn lemma_segments_word(w: Seq<char>, cur: Seq<char>, rest: Seq<char>)
    requires
        !w.contains('/'),
    ensures
        segments_from(w + rest, cur) == segments_from(rest, cur + w),
    decreases w.len(),
{
    if w.len() == 0 {
        assert(w + rest =~= rest);
        assert(cur + w =~= cur);
    } else {
        assert((w + rest)[0] == w[0]);
        assert((w + rest).drop_first() =~= w.drop_first() + rest);
        assert(!w.drop_first().contains('/')) by {
            if w.drop_first().contains('/') {
                let k = choose|k: int| 0 <= k < w.drop_first().len() && w.drop_first()[k] == '/';
                assert(w[k + 1] == '/');
            }
        }
        lemma_segments_word(w.drop_first(), cur.push(w[0]), rest);
        assert(cur.push(w[0]) + w.drop_first() =~= cur + w);
    }
}

/// A path that is one name, without `/` and other than `.`, has that name,
/// exactly as written, as its only component.
pub proof fn lemma_components_of_name(p: Seq<char>)
    requires
        p.len() > 0,
        !p.contains('/'),
        p != seq!['.'],
    ensures
        components(p) == seq![p],
{
    assert(p[0] != '/');
    lemma_segments_word(p, seq![], seq![]);
    assert(p + Seq::<char>::empty() =~= p);
    assert(Seq::<char>::empty() + p =~= p);
    assert(!starts_with_cur_dir(p)) by {
        if p[0] == '.' && p.len() == 1 {
            assert(p =~= seq!['.']);
        }
    }
    assert(Seq::<Seq<char>>::empty() + seq![p] =~= seq![p]);
}

/// A relative path that begins with a name (without `/`, other than `.`) and a
/// `/` has that name, exactly as written, as its first component, then the
/// components of the rest, when the rest is neither absolute nor begins with `.`
/// as a component of its own.
pub proof fn lemma_components_of_join(a: Seq<char>, b: Seq<char>)
    requires
        a.len() > 0,
        !a.contains('/'),
        a != seq!['.'],
        !has_root(b),
        !starts_with_cur_dir(b),
    ensures
        components(a + seq!['/'] + b) == seq![a] + components(b),
{
    let p = a + seq!['/'] + b;
    assert(p[0] == a[0]);
    assert(a[0] != '/');
    assert(!starts_with_cur_dir(p)) by {
        if a[0] == '.' {
            if a.len() == 1 {
                assert(a =~= seq!['.']);
            } else {
                assert(p[1] == a[1]);
                assert(a[1] != '/');
            }
        }
    }
    lemma_segments_word(a, seq![], seq!['/'] + b);
    assert(p =~= a + (seq!['/'] + b));
    assert(Seq::<char>::empty() + a =~= a);
    assert((seq!['/'] + b)[0] == '/');
    assert((seq!['/'] + b).drop_first() =~= b);
    assert(segments_from(seq!['/'] + b, a) == keep_segment(a) + segments_from(b, seq![]));
    assert(keep_segment(a) == seq![a]);
    assert(Seq::<Seq<char>>::empty() + (seq![a] + segments_from(b, seq![])) =~= seq![a]
        + (Seq::<Seq<char>>::empty() + segments_from(b, seq![])));
}

/// `w` is a stretch of consecutive characters of `p`.
pub open spec fn is_piece_of(p: Seq<char>, w: Seq<char>) -> bool {
    exists|i: int, j: int| 0 <= i <= j <= p.len() && #[trigger] p.subrange(i, j) == w
}

proof fn lemma_segments_are_pieces(p: Seq<char>, st: int, pos: int)
    requires
        0 <= st <= pos <= p.len(),
    ensures
        forall|k: int|
            0 <= k < segments_from(p.skip(pos), p.subrange(st, pos)).len() ==> is_piece_of(
                p,
                #[trigger] segments_from(p.skip(pos), p.subrange(st, pos))[k],
            ),
    decreases p.len() - pos,
{
    let segs = segments_from(p.skip(pos), p.subrange(st, pos));
    let cur = p.subrange(st, pos);
    assert(is_piece_of(p, cur)) by {
        assert(p.subrange(st, pos) == cur);
    }
    if pos == p.len() {
        assert(p.skip(pos).len() == 0);
        assert forall|k: int| 0 <= k < segs.len() implies is_piece_of(p, #[trigger] segs[k]) by {
            assert(segs[k] == cur);
        }
    } else {
        assert(p.skip(pos)[0] == p[pos]);
        assert(p.skip(pos).drop_first() =~= p.skip(pos + 1));
        if p[pos] == '/' {
            lemma_segments_are_pieces(p, pos + 1, pos + 1);
            assert(p.subrange(pos + 1, pos + 1) =~= Seq::<char>::empty());
            let rest = segments_from(p.skip(pos + 1), p.subrange(pos + 1, pos + 1));
            assert(segs == keep_segment(cur) + rest);
            assert forall|k: int| 0 <= k < segs.len() implies is_piece_of(p, #[trigger] segs[k]) by {
                if k < keep_segment(cur).len() {
                    assert(segs[k] == p.subrange(st, pos));
                } else {
                    assert(segs[k] == rest[k - keep_segment(cur).len()]);
                }
            }
        } else {
            lemma_segments_are_pieces(p, st, pos + 1);
            assert(cur.push(p[pos]) =~= p.subrange(st, pos + 1));
            assert(segs == segments_from(p.skip(pos + 1), p.subrange(st, pos + 1)));
        }
    }
}

/// Every component of a path is a stretch of consecutive characters of the
/// path itself, taken as written.
pub proof fn lemma_components_are_pieces(p: Seq<char>)
    ensures
        forall|k: int| 0 <= k < components(p).len() ==> is_piece_of(p, #[trigger] components(p)[k]),
{
    lemma_segments_are_pieces(p, 0, 0);
    assert(p.skip(0) =~= p);
    assert(p.subrange(0, 0) =~= Seq::<char>::empty());
    let head: Seq<Seq<char>> = if has_root(p) {
        seq![seq!['/']]
    } else if starts_with_cur_dir(p) {
        seq![seq!['.']]
    } else {
        seq![]
    };
    let segs = segments_from(p, seq![]);
    assert forall|k: int| 0 <= k < components(p).len() implies is_piece_of(
        p,
        #[trigger] components(p)[k],
    ) by {
        if k < head.len() {
            assert(p.subrange(0, 1) =~= head[0]);
            assert(components(p)[k] == head[0]);
        } else {
            assert(components(p)[k] == segs[k - head.len()]);
        }
    }
}

/// Segments of two stretches joined by a `/` are those of each, in order.
proof fn lemma_segments_concat(a: Seq<char>, b: Seq<char>, cur: Seq<char>)
    ensures
        segments_from(a + seq!['/'] + b, cur) == segments_from(a, cur) + segments_from(b, seq![]),
    decreases a.len(),
{
    let p = a + seq!['/'] + b;
    if a.len() == 0 {
        assert(p[0] == '/');
        assert(p.drop_first() =~= b);
    } else {
        assert(p[0] == a[0]);
        assert(p.drop_first() =~= a.drop_first() + seq!['/'] + b);
        if a[0] == '/' {
            lemma_segments_concat(a.drop_first(), b, seq![]);
            assert(keep_segment(cur) + (segments_from(a.drop_first(), seq![]) + segments_from(b, seq![]))
                =~= keep_segment(cur) + segments_from(a.drop_first(), seq![]) + segments_from(b, seq![]));
        } else {
            lemma_segments_concat(a.drop_first(), b, cur.push(a[0]));
        }
    }
}

/// The components of a name without `/`, other than empty or `.`: the name.
proof fn lemma_segments_of_name(w: Seq<char>)
    requires
        w.len() > 0,
        !w.contains('/'),
        w != seq!['.'],
    ensures
        segments_from(w, seq![]) == seq![w],
{
    lemma_segments_word(w, seq![], seq![]);
    assert(w + Seq::<char>::empty() =~= w);
    assert(Seq::<char>::empty() + w =~= w);
}

/// Pushing a relative path onto a non-empty one gives the components of the
/// first, then the names of the second, in order.
pub proof fn lemma_components_of_push(base: Seq<char>, comp: Seq<char>)
    requires
        base.len() > 0,
        !has_root(comp),
    ensures
        components(path_push_spec(base, comp)) == components(base) + segments_from(comp, seq![]),
{
    let head: Seq<Seq<char>> = if has_root(base) {
        seq![seq!['/']]
    } else if starts_with_cur_dir(base) {
        seq![seq!['.']]
    } else {
        seq![]
    };
    if base.last() == '/' {
        let b0 = base.drop_last();
        assert(base =~= b0 + seq!['/'] + Seq::<char>::empty());
        assert(base + comp =~= b0 + seq!['/'] + comp);
        lemma_segments_concat(b0, comp, seq![]);
        lemma_segments_concat(b0, Seq::<char>::empty(), seq![]);
        assert(segments_from(Seq::<char>::empty(), seq![]) =~= Seq::<Seq<char>>::empty());
        let p = base + comp;
        assert(p[0] == base[0]);
        if base.len() >= 2 {
            assert(p[1] == base[1]);
        }
        assert(has_root(p) == has_root(base));
        assert(starts_with_cur_dir(p) == starts_with_cur_dir(base));
        assert(segments_from(base, seq![]) + segments_from(comp, seq![]) =~= segments_from(
            b0,
            seq![],
        ) + segments_from(comp, seq![]));
        assert(head + (segments_from(base, seq![]) + segments_from(comp, seq![])) =~= head
            + segments_from(base, seq![]) + segments_from(comp, seq![]));
    } else {
        let p = base.push('/') + comp;
        assert(p =~= base + seq!['/'] + comp);
        lemma_segments_concat(base, comp, seq![]);
        assert(p[0] == base[0]);
        if base.len() >= 2 {
            assert(p[1] == base[1]);
        } else {
            assert(p[1] == '/');
        }
        assert(has_root(p) == has_root(base));
        assert(starts_with_cur_dir(p) == starts_with_cur_dir(base));
        assert(head + (segments_from(base, seq![]) + segments_from(comp, seq![])) =~= head
            + segments_from(base, seq![]) + segments_from(comp, seq![]));
    }
}

/// Pushing names, each without `/` and other than `.`, onto a non-empty path
/// adds them as its last components, exactly as written.
pub proof fn lemma_components_of_push_name(base: Seq<char>, name: Seq<char>)
    requires
        base.len() > 0,
        name.len() > 0,
        !name.contains('/'),
        name != seq!['.'],
    ensures
        components(path_push_spec(base, name)) == components(base).push(name),
{
    assert(name[0] != '/');
    lemma_components_of_push(base, name);
    lemma_segments_of_name(name);
    assert(components(base) + seq![name] =~= components(base).push(name));
}

fn is_dot(cur: &Vec<char>) -> (r: bool)
    ensures
        r == (cur@ == seq!['.']),
{
    if cur.len() == 1 && cur[0] == '.' {
        assert(cur@ =~= seq!['.']);
        true
    } else {
        false
    }
}

pub fn path_components(p: &[char]) -> (r: Vec<Vec<char>>)
    ensures
        words_view(r@) == components(p@),
{
    let mut r: Vec<Vec<char>> = Vec::new();
    let n = p.len();
    if n > 0 && p[0] == '/' {
        let mut root: Vec<char> = Vec::new();
        root.push('/');
        r.push(root);
    } else if n > 0 && p[0] == '.' && (n == 1 || p[1] == '/') {
        let mut dot: Vec<char> = Vec::new();
        dot.push('.');
        r.push(dot);
    }
    let mut cur: Vec<char> = Vec::new();
    let mut i: usize = 0;
    assert(p@.skip(0) == p@);
    assert(words_view(r@) + segments_from(p@, seq![]) == components(p@)) by {
        assert(words_view(r@) =~= (if has_root(p@) {
            seq![seq!['/']]
        } else if starts_with_cur_dir(p@) {
            seq![seq!['.']]
        } else {
            seq![]
        }));
    }
    while i < n
        invariant
            n == p@.len(),
            i <= n,
            words_view(r@) + segments_from(p@.skip(i as int), cur@) == components(p@),
        decreases n - i,
    {
        let c = p[i];
        let ghost rest = p@.skip(i as int);
        assert(rest.drop_first() == p@.skip(i + 1));
        assert(rest[0] == c);
        let ghost r0 = words_view(r@);
        let ghost cur0 = cur@;
        if c == '/' {
            if cur.len() > 0 && !is_dot(&cur) {
                r.push(cur);
                assert(words_view(r@) =~= r0.push(cur0));
                assert(r0 + (seq![cur0] + segments_from(p@.skip(i + 1), seq![])) == r0.push(cur0)
                    + segments_from(p@.skip(i + 1), seq![]));
            } else {
                assert(r0 + (Seq::<Seq<char>>::empty() + segments_from(p@.skip(i + 1), seq![]))
                    == r0 + segments_from(p@.skip(i + 1), seq![]));
            }
            cur = Vec::new();
            assert(cur@ == Seq::<char>::empty());
        } else {
            cur.push(c);
        }
        i = i + 1;
    }
    assert(p@.skip(i as int).len() == 0);
    let ghost r0 = words_view(r@);
    let ghost cur0 = cur@;
    if cur.len() > 0 && !is_dot(&cur) {
        r.push(cur);
        assert(words_view(r@) =~= r0.push(cur0));
        assert(r0 + seq![cur0] == r0.push(cur0));
    } else {
        assert(r0 + Seq::<Seq<char>>::empty() == r0);
    }
    r
}

/// Equality of two sequences of components.
pub fn components_eq(a: &Vec<Vec<char>>, b: &Vec<Vec<char>>) -> (r: bool)
    ensures
        r == (words_view(a@) == words_view(b@)),
{
    if a.len() != b.len() {
        assert(words_view(a@).len() != words_view(b@).len());
        return false;
    }
    let mut i: usize = 0;
    while i < a.len()
        invariant
            a@.len() == b@.len(),
            i <= a@.len(),
            forall|j: int| 0 <= j < i ==> a@[j]@ == b@[j]@,
        decreases a@.len() - i,
    {
        if !chars_eq(a[i].as_slice(), b[i].as_slice()) {
            assert(words_view(a@)[i as int] != words_view(b@)[i as int]);
            return false;
        }
        i = i + 1;
    }
    assert(words_view(a@) =~= words_view(b@));
    true
}

/// `Path::eq`: two paths are the same path when their components agree.
pub fn path_eq(a: &str, b: &str) -> (r: bool)
    ensures
        r == (components(a@) == components(b@)),
{
    let ca = path_components(chars_of(a).as_slice());
    let cb = path_components(chars_of(b).as_slice());
    components_eq(&ca, &cb)
}

/// `PathBuf::push`: an absolute `comp` replaces `base`; otherwise `comp` is
/// appended, with a `/` between unless `base` is empty or already ends in one.
pub open spec fn path_push_spec(base: Seq<char>, comp: Seq<char>) -> Seq<char> {
    if has_root(comp) {
        comp
    } else if base.len() == 0 || base.last() == '/' {
        base + comp
    } else {
        base.push('/') + comp
    }
}

pub fn path_push(base: &str, comp: &str) -> (r: String)
    ensures
        r@ == path_push_spec(base@, comp@),
{
    let b = chars_of(base);
    let c = chars_of(comp);
    let mut r = String::new();
    if c.len() > 0 && c[0] == '/' {
        push_chars(&mut r, c.as_slice());
    } else {
        push_chars(&mut r, b.as_slice());
        if b.len() > 0 && b[b.len() - 1] != '/' {
            let mut sep: Vec<char> = Vec::new();
            sep.push('/');
            push_chars(&mut r, sep.as_slice());
            assert(sep@ == seq!['/']);
        }
        push_chars(&mut r, c.as_slice());
    }
    r
}

} // verus!
