//! Character-level helpers for chord text: Unicode whitespace, ASCII case,
//! splitting on `+`, and decimal or hexadecimal digits.
//!
//! Chord text is handled as a sequence of `char`s, which is what a `str` views as.

use vstd::prelude::*;

verus! {

// ---------------------------------------------------------------------------
// Classes of characters
// ---------------------------------------------------------------------------

/// Unicode `White_Space`: the characters that `str::trim` strips.
pub open spec fn is_whitespace(c: char) -> bool {
    let u = c as u32;
    ||| 0x09 <= u <= 0x0D
    ||| u == 0x20
    ||| u == 0x85
    ||| u == 0xA0
    ||| u == 0x1680
    ||| 0x2000 <= u <= 0x200A
    ||| u == 0x2028
    ||| u == 0x2029
    ||| u == 0x202F
    ||| u == 0x205F
    ||| u == 0x3000
}

pub open spec fn is_ascii_upper(c: char) -> bool {
    'A' <= c <= 'Z'
}

pub open spec fn is_ascii_lower(c: char) -> bool {
    'a' <= c <= 'z'
}

pub open spec fn is_ascii_digit(c: char) -> bool {
    '0' <= c <= '9'
}

/// ASCII lower case; every other character is kept.
pub open spec fn to_lower(c: char) -> char {
    if is_ascii_upper(c) {
        ((c as u32) + 32) as char
    } else {
        c
    }
}

/// ASCII upper case; every other character is kept.
pub open spec fn to_upper(c: char) -> char {
    if is_ascii_lower(c) {
        ((c as u32) - 32) as char
    } else {
        c
    }
}

/// ASCII lower case of a whole sequence.
pub open spec fn lower(s: Seq<char>) -> Seq<char> {
    s.map_values(|c: char| to_lower(c))
}

pub fn is_whitespace_char(c: char) -> (b: bool)
    ensures
        b == is_whitespace(c),
{
    let u = c as u32;
    (0x09 <= u && u <= 0x0D) || u == 0x20 || u == 0x85 || u == 0xA0 || u == 0x1680 || (0x2000
        <= u && u <= 0x200A) || u == 0x2028 || u == 0x2029 || u == 0x202F || u == 0x205F || u
        == 0x3000
}

pub fn lower_char(c: char) -> (r: char)
    ensures
        r == to_lower(c),
{
    if 'A' <= c && c <= 'Z' {
        let b: u8 = c as u8;
        (b + 32) as char
    } else {
        c
    }
}

pub fn upper_char(c: char) -> (r: char)
    ensures
        r == to_upper(c),
{
    if 'a' <= c && c <= 'z' {
        let b: u8 = c as u8;
        (b - 32) as char
    } else {
        c
    }
}

// ---------------------------------------------------------------------------
// Trimming
// ---------------------------------------------------------------------------

/// `s` without its leading whitespace.
pub open spec fn trim_start(s: Seq<char>) -> Seq<char>
    decreases s.len(),
{
    if s.len() > 0 && is_whitespace(s[0]) {
        trim_start(s.drop_first())
    } else {
        s
    }
}

/// `s` without its trailing whitespace.
pub open spec fn trim_end(s: Seq<char>) -> Seq<char>
    decreases s.len(),
{
    if s.len() > 0 && is_whitespace(s.last()) {
        trim_end(s.drop_last())
    } else {
        s
    }
}

/// `s` without leading and trailing whitespace, as `str::trim` gives it.
pub open spec fn trim(s: Seq<char>) -> Seq<char> {
    trim_end(trim_start(s))
}

/// The bounds, inside `lo..hi`, of that range trimmed.
pub fn trim_bounds(s: &[char], lo: usize, hi: usize) -> (r: (usize, usize))
    requires
        lo <= hi <= s@.len(),
    ensures
        lo <= r.0 <= r.1 <= hi,
        s@.subrange(r.0 as int, r.1 as int) == trim(s@.subrange(lo as int, hi as int)),
{
    let mut i = lo;
    while i < hi && is_whitespace_char(s[i])
        invariant
            lo <= i <= hi <= s@.len(),
            trim_start(s@.subrange(lo as int, hi as int)) == trim_start(
                s@.subrange(i as int, hi as int),
            ),
        decreases hi - i,
    {
        assert(s@.subrange(i as int, hi as int).drop_first() =~= s@.subrange(
            i + 1,
            hi as int,
        ));
        i = i + 1;
    }
    let mut j = hi;
    while j > i && is_whitespace_char(s[j - 1])
        invariant
            lo <= i <= j <= hi <= s@.len(),
            trim_start(s@.subrange(lo as int, hi as int)) == s@.subrange(i as int, hi as int),
            trim_end(s@.subrange(i as int, hi as int)) == trim_end(
                s@.subrange(i as int, j as int),
            ),
        decreases j - i,
    {
        assert(s@.subrange(i as int, j as int).drop_last() =~= s@.subrange(
            i as int,
            j - 1,
        ));
        j = j - 1;
    }
    (i, j)
}

/// A sequence that starts and ends with a non-whitespace character is its own trim.
pub proof fn lemma_trim_noop(s: Seq<char>)
    requires
        s.len() > 0,
        !is_whitespace(s[0]),
        !is_whitespace(s.last()),
    ensures
        trim(s) == s,
{
}

/// A sequence without upper-case ASCII letters is its own lower case.
pub proof fn lemma_lower_noop(s: Seq<char>)
    requires
        forall|i: int| 0 <= i < s.len() ==> !is_ascii_upper(#[trigger] s[i]),
    ensures
        lower(s) == s,
{
    assert(lower(s) =~= s);
}

// ---------------------------------------------------------------------------
// Splitting on '+'
// ---------------------------------------------------------------------------

/// The pieces of `s` between `+` signs, as `str::split('+')` yields them: one piece
/// more than there are `+` signs, empty pieces included.
pub open spec fn split_plus(s: Seq<char>) -> Seq<Seq<char>>
    decreases s.len(),
{
    if s.len() == 0 {
        seq![Seq::<char>::empty()]
    } else {
        let rest = split_plus(s.drop_first());
        if s[0] == '+' {
            seq![Seq::<char>::empty()] + rest
        } else {
            rest.update(0, seq![s[0]] + rest[0])
        }
    }
}

pub open spec fn has_no_plus(s: Seq<char>) -> bool {
    forall|i: int| 0 <= i < s.len() ==> s[i] != '+'
}

/// A piece without `+` splits into itself.
pub proof fn lemma_split_single(s: Seq<char>)
    requires
        has_no_plus(s),
    ensures
        split_plus(s) == seq![s],
    decreases s.len(),
{
    if s.len() > 0 {
        let t = s.drop_first();
        assert(has_no_plus(t));
        lemma_split_single(t);
        assert(seq![s[0]] + t =~= s);
        assert(split_plus(s) =~= seq![s]);
    } else {
        assert(s =~= Seq::<char>::empty());
    }
}

/// The first piece ends at the first `+`.
pub proof fn lemma_split_first(a: Seq<char>, b: Seq<char>)
    requires
        has_no_plus(a),
    ensures
        split_plus(a + seq!['+'] + b) == seq![a] + split_plus(b),
    decreases a.len(),
{
    let s = a + seq!['+'] + b;
    if a.len() == 0 {
        assert(s.drop_first() =~= b);
        assert(s[0] == '+');
        assert(a =~= Seq::<char>::empty());
    } else {
        let a2 = a.drop_first();
        assert(has_no_plus(a2));
        lemma_split_first(a2, b);
        assert(s.drop_first() =~= a2 + seq!['+'] + b);
        assert(s[0] == a[0]);
        assert(seq![a[0]] + a2 =~= a);
        assert(split_plus(s) =~= seq![a] + split_plus(b));
    }
}

pub proof fn lemma_split_nonempty(s: Seq<char>)
    ensures
        split_plus(s).len() >= 1,
    decreases s.len(),
{
    if s.len() > 0 {
        lemma_split_nonempty(s.drop_first());
    }
}

/// Text without `+` in front of the first piece joins that piece.
pub proof fn lemma_split_prefix(w: Seq<char>, y: Seq<char>)
    requires
        has_no_plus(w),
    ensures
        split_plus(w + y) == split_plus(y).update(0, w + split_plus(y)[0]),
    decreases w.len(),
{
    lemma_split_nonempty(y);
    if w.len() == 0 {
        assert(w + y =~= y);
        assert(split_plus(y).update(0, w + split_plus(y)[0]) =~= split_plus(y));
    } else {
        let w2 = w.drop_first();
        assert(has_no_plus(w2));
        lemma_split_prefix(w2, y);
        assert((w + y).drop_first() =~= w2 + y);
        assert((w + y)[0] == w[0]);
        assert(seq![w[0]] + (w2 + split_plus(y)[0]) =~= w + split_plus(y)[0]);
        assert(split_plus(w + y) =~= split_plus(y).update(0, w + split_plus(y)[0]));
    }
}

/// Text without `+` after the last piece joins that piece.
pub proof fn lemma_split_suffix(y: Seq<char>, w: Seq<char>)
    requires
        has_no_plus(w),
    ensures
        split_plus(y + w) == split_plus(y).update(
            split_plus(y).len() - 1,
            split_plus(y).last() + w,
        ),
    decreases y.len(),
{
    lemma_split_nonempty(y);
    if y.len() == 0 {
        assert(y + w =~= w);
        lemma_split_single(w);
        assert(split_plus(y).update(0, split_plus(y).last() + w) =~= seq![w]);
    } else {
        let y2 = y.drop_first();
        lemma_split_suffix(y2, w);
        lemma_split_nonempty(y2);
        assert((y + w).drop_first() =~= y2 + w);
        assert((y + w)[0] == y[0]);
        let s2 = split_plus(y2);
        if y[0] == '+' {
            assert(split_plus(y + w) =~= split_plus(y).update(
                split_plus(y).len() - 1,
                split_plus(y).last() + w,
            ));
        } else {
            if s2.len() == 1 {
                assert(seq![y[0]] + (s2[0] + w) =~= (seq![y[0]] + s2[0]) + w);
            }
            assert(split_plus(y + w) =~= split_plus(y).update(
                split_plus(y).len() - 1,
                split_plus(y).last() + w,
            ));
        }
    }
}

/// Splitting at a `+` splits the two sides apart.
pub proof fn lemma_split_concat(x: Seq<char>, y: Seq<char>)
    ensures
        split_plus(x + seq!['+'] + y) == split_plus(x) + split_plus(y),
    decreases x.len(),
{
    if x.len() == 0 {
        lemma_split_first(x, y);
        assert(x =~= Seq::<char>::empty());
    } else {
        let x2 = x.drop_first();
        lemma_split_concat(x2, y);
        lemma_split_nonempty(x2);
        assert((x + seq!['+'] + y).drop_first() =~= x2 + seq!['+'] + y);
        assert((x + seq!['+'] + y)[0] == x[0]);
        assert(split_plus(x + seq!['+'] + y) =~= split_plus(x) + split_plus(y));
    }
}

// ---------------------------------------------------------------------------
// Whitespace around tokens
// ---------------------------------------------------------------------------

pub open spec fn all_whitespace(w: Seq<char>) -> bool {
    forall|i: int| 0 <= i < w.len() ==> is_whitespace(w[i])
}

/// Whitespace holds no `+`.
pub proof fn lemma_whitespace_no_plus(w: Seq<char>)
    requires
        all_whitespace(w),
    ensures
        has_no_plus(w),
{
    assert forall|i: int| 0 <= i < w.len() implies w[i] != '+' by {
        assert(is_whitespace(w[i]));
    }
}

proof fn lemma_trim_start_prefix(w: Seq<char>, t: Seq<char>)
    requires
        all_whitespace(w),
    ensures
        trim_start(w + t) == trim_start(t),
    decreases w.len(),
{
    if w.len() == 0 {
        assert(w + t =~= t);
    } else {
        assert((w + t).drop_first() =~= w.drop_first() + t);
        assert((w + t)[0] == w[0]);
        lemma_trim_start_prefix(w.drop_first(), t);
    }
}

proof fn lemma_trim_end_suffix(t: Seq<char>, w: Seq<char>)
    requires
        all_whitespace(w),
    ensures
        trim_end(t + w) == trim_end(t),
    decreases w.len(),
{
    if w.len() == 0 {
        assert(t + w =~= t);
    } else {
        assert((t + w).drop_last() =~= t + w.drop_last());
        assert((t + w).last() == w.last());
        lemma_trim_end_suffix(t, w.drop_last());
    }
}

proof fn lemma_trim_start_all(w: Seq<char>)
    requires
        all_whitespace(w),
    ensures
        trim_start(w) == Seq::<char>::empty(),
{
    lemma_trim_start_prefix(w, Seq::empty());
    assert(w + Seq::<char>::empty() =~= w);
}

proof fn lemma_trim_start_suffix(t: Seq<char>, w: Seq<char>)
    requires
        all_whitespace(w),
    ensures
        all_whitespace(t) ==> trim_start(t + w) == Seq::<char>::empty(),
        !all_whitespace(t) ==> trim_start(t + w) == trim_start(t) + w,
    decreases t.len(),
{
    if t.len() == 0 {
        assert(t + w =~= w);
        lemma_trim_start_all(w);
    } else if is_whitespace(t[0]) {
        let t2 = t.drop_first();
        assert((t + w).drop_first() =~= t2 + w);
        assert((t + w)[0] == t[0]);
        lemma_trim_start_suffix(t2, w);
        assert(all_whitespace(t) == all_whitespace(t2)) by {
            if all_whitespace(t2) {
                assert forall|i: int| 0 <= i < t.len() implies is_whitespace(t[i]) by {
                    if i > 0 {
                        assert(t[i] == t2[i - 1]);
                    }
                }
            }
            if all_whitespace(t) {
                assert forall|i: int| 0 <= i < t2.len() implies is_whitespace(t2[i]) by {
                    assert(t2[i] == t[i + 1]);
                }
            }
        }
    } else {
        assert((t + w)[0] == t[0]);
        assert(!all_whitespace(t));
    }
}

/// Whitespace around a token does not change its trim.
pub proof fn lemma_trim_pad(w1: Seq<char>, t: Seq<char>, w2: Seq<char>)
    requires
        all_whitespace(w1),
        all_whitespace(w2),
    ensures
        trim(w1 + t + w2) == trim(t),
{
    assert(w1 + t + w2 =~= w1 + (t + w2));
    lemma_trim_start_prefix(w1, t + w2);
    lemma_trim_start_suffix(t, w2);
    if all_whitespace(t) {
        lemma_trim_start_all(t);
    } else {
        lemma_trim_end_suffix(trim_start(t), w2);
    }
}

proof fn lemma_trim_start_decompose(x: Seq<char>) -> (w: Seq<char>)
    ensures
        all_whitespace(w),
        x == w + trim_start(x),
    decreases x.len(),
{
    if x.len() > 0 && is_whitespace(x[0]) {
        let w2 = lemma_trim_start_decompose(x.drop_first());
        let w = seq![x[0]] + w2;
        assert(x =~= seq![x[0]] + x.drop_first());
        assert(x =~= w + trim_start(x));
        w
    } else {
        assert(x =~= Seq::<char>::empty() + x);
        Seq::empty()
    }
}

proof fn lemma_trim_end_decompose(y: Seq<char>) -> (w: Seq<char>)
    ensures
        all_whitespace(w),
        y == trim_end(y) + w,
    decreases y.len(),
{
    if y.len() > 0 && is_whitespace(y.last()) {
        let w2 = lemma_trim_end_decompose(y.drop_last());
        let w = w2.push(y.last());
        assert(y =~= y.drop_last().push(y.last()));
        assert(y =~= trim_end(y) + w);
        w
    } else {
        assert(y =~= y + Seq::<char>::empty());
        Seq::empty()
    }
}

/// A text is its trim with whitespace before and after.
pub proof fn lemma_trim_decompose(x: Seq<char>) -> (r: (Seq<char>, Seq<char>))
    ensures
        all_whitespace(r.0),
        all_whitespace(r.1),
        x == r.0 + trim(x) + r.1,
{
    let w1 = lemma_trim_start_decompose(x);
    let w2 = lemma_trim_end_decompose(trim_start(x));
    assert(x =~= w1 + trim(x) + w2);
    (w1, w2)
}

/// Two tokens that are the same once trimmed and put in lower case.
pub open spec fn same_token(a: Seq<char>, b: Seq<char>) -> bool {
    lower(trim(a)) == lower(trim(b))
}

/// Two token lists that agree token by token, once trimmed and lower-cased.
pub open spec fn same_tokens(xs: Seq<Seq<char>>, ys: Seq<Seq<char>>) -> bool {
    &&& xs.len() == ys.len()
    &&& forall|i: int| 0 <= i < xs.len() ==> same_token(#[trigger] xs[i], ys[i])
}

/// Trimming a whole text only trims its first and last tokens.
pub proof fn lemma_split_trim(x: Seq<char>)
    ensures
        same_tokens(split_plus(trim(x)), split_plus(x)),
{
    let (w1, w2) = lemma_trim_decompose(x);
    let t = trim(x);
    lemma_whitespace_no_plus(w1);
    lemma_whitespace_no_plus(w2);
    lemma_split_nonempty(t);
    lemma_split_suffix(t, w2);
    lemma_split_prefix(w1, t + w2);
    assert(x =~= w1 + (t + w2));
    let st = split_plus(t);
    let n = st.len();
    let sx = split_plus(x);
    let empty = Seq::<char>::empty();
    assert(all_whitespace(empty));
    assert forall|i: int| 0 <= i < n implies same_token(#[trigger] st[i], sx[i]) by {
        let pre = if i == 0 {
            w1
        } else {
            empty
        };
        let post = if i == n - 1 {
            w2
        } else {
            empty
        };
        assert(sx[i] =~= pre + st[i] + post);
        lemma_trim_pad(pre, st[i], post);
    }
}

/// `s` with a space on each side of every `+`, as `s.replace('+', " + ")` gives it.
pub open spec fn pad_plus(s: Seq<char>) -> Seq<char>
    decreases s.len(),
{
    if s.len() == 0 {
        s
    } else {
        (if s[0] == '+' {
            seq![' ', '+', ' ']
        } else {
            seq![s[0]]
        }) + pad_plus(s.drop_first())
    }
}

/// Padding keeps the `+` signs, and changes nothing where there is none.
pub proof fn lemma_pad_keeps_plus(s: Seq<char>)
    ensures
        has_no_plus(pad_plus(s)) == has_no_plus(s),
        has_no_plus(s) ==> pad_plus(s) == s,
    decreases s.len(),
{
    if s.len() > 0 {
        let s2 = s.drop_first();
        lemma_pad_keeps_plus(s2);
        let p2 = pad_plus(s2);
        let head = if s[0] == '+' {
            seq![' ', '+', ' ']
        } else {
            seq![s[0]]
        };
        let p = head + p2;
        assert(has_no_plus(s) == (s[0] != '+' && has_no_plus(s2))) by {
            if has_no_plus(s) {
                assert forall|i: int| 0 <= i < s2.len() implies s2[i] != '+' by {
                    assert(s2[i] == s[i + 1]);
                }
            }
            if s[0] != '+' && has_no_plus(s2) {
                assert forall|i: int| 0 <= i < s.len() implies s[i] != '+' by {
                    if i > 0 {
                        assert(s[i] == s2[i - 1]);
                    }
                }
            }
        }
        assert(has_no_plus(p) == (s[0] != '+' && has_no_plus(p2))) by {
            if s[0] == '+' {
                assert(p[1] == '+');
            } else {
                if has_no_plus(p) {
                    assert forall|i: int| 0 <= i < p2.len() implies p2[i] != '+' by {
                        assert(p2[i] == p[i + 1]);
                    }
                }
                if has_no_plus(p2) {
                    assert forall|i: int| 0 <= i < p.len() implies p[i] != '+' by {
                        if i > 0 {
                            assert(p[i] == p2[i - 1]);
                        }
                    }
                }
            }
        }
        if has_no_plus(s) {
            assert(s =~= seq![s[0]] + s2);
        }
    }
}

/// Padding puts a space after every token but the last and before every token but
/// the first.
pub proof fn lemma_split_pad(s: Seq<char>)
    ensures
        split_plus(pad_plus(s)).len() == split_plus(s).len(),
        forall|i: int|
            0 <= i < split_plus(s).len() ==> #[trigger] split_plus(pad_plus(s))[i] == (if i > 0 {
                seq![' ']
            } else {
                Seq::<char>::empty()
            }) + split_plus(s)[i] + (if i < split_plus(s).len() - 1 {
                seq![' ']
            } else {
                Seq::<char>::empty()
            }),
    decreases s.len(),
{
    if s.len() == 0 {
        assert(split_plus(s)[0] =~= Seq::<char>::empty() + split_plus(s)[0]
            + Seq::<char>::empty());
    } else {
        let s2 = s.drop_first();
        lemma_split_pad(s2);
        lemma_split_nonempty(s2);
        let p2 = pad_plus(s2);
        let r = split_plus(s2);
        let rp = split_plus(p2);
        let sp = seq![' '];
        assert(has_no_plus(sp));
        if s[0] == '+' {
            assert(pad_plus(s) =~= sp + seq!['+'] + (sp + p2));
            lemma_split_first(sp, sp + p2);
            lemma_split_prefix(sp, p2);
            assert forall|i: int| 0 <= i < split_plus(s).len() implies #[trigger] split_plus(
                pad_plus(s),
            )[i] == (if i > 0 {
                seq![' ']
            } else {
                Seq::<char>::empty()
            }) + split_plus(s)[i] + (if i < split_plus(s).len() - 1 {
                seq![' ']
            } else {
                Seq::<char>::empty()
            }) by {
                if i == 0 {
                    assert(split_plus(s)[0] =~= Seq::<char>::empty());
                    assert(split_plus(pad_plus(s))[0] =~= Seq::<char>::empty()
                        + Seq::<char>::empty() + sp);
                } else if i == 1 {
                    assert(split_plus(s)[1] == r[0]);
                    assert(split_plus(pad_plus(s))[1] =~= sp + rp[0]);
                    assert(sp + rp[0] =~= sp + r[0] + (if 0 < r.len() - 1 {
                        seq![' ']
                    } else {
                        Seq::<char>::empty()
                    }));
                } else {
                    assert(split_plus(s)[i] == r[i - 1]);
                    assert(split_plus(pad_plus(s))[i] == rp[i - 1]);
                    assert(rp[i - 1] =~= sp + r[i - 1] + (if i - 1 < r.len() - 1 {
                        seq![' ']
                    } else {
                        Seq::<char>::empty()
                    }));
                }
            }
        } else {
            let c = seq![s[0]];
            assert(has_no_plus(c));
            assert(pad_plus(s) =~= c + p2);
            lemma_split_prefix(c, p2);
            assert(s =~= c + s2);
            assert forall|i: int| 0 <= i < split_plus(s).len() implies #[trigger] split_plus(
                pad_plus(s),
            )[i] == (if i > 0 {
                seq![' ']
            } else {
                Seq::<char>::empty()
            }) + split_plus(s)[i] + (if i < split_plus(s).len() - 1 {
                seq![' ']
            } else {
                Seq::<char>::empty()
            }) by {
                if i == 0 {
                    assert(split_plus(s)[0] == c + r[0]);
                    assert(split_plus(pad_plus(s))[0] == c + rp[0]);
                    assert(c + rp[0] =~= Seq::<char>::empty() + (c + r[0]) + (if 0 < r.len()
                        - 1 {
                        seq![' ']
                    } else {
                        Seq::<char>::empty()
                    }));
                }
            }
        }
    }
}

/// Padding the `+` signs with spaces leaves every token the same once trimmed.
pub proof fn lemma_pad_same_tokens(s: Seq<char>)
    ensures
        same_tokens(split_plus(pad_plus(s)), split_plus(s)),
{
    lemma_split_pad(s);
    let n = split_plus(s).len();
    let sp = seq![' '];
    let empty = Seq::<char>::empty();
    assert(all_whitespace(sp)) by {
        assert(is_whitespace(' '));
    }
    assert(all_whitespace(empty));
    assert forall|i: int| 0 <= i < n implies same_token(
        #[trigger] split_plus(pad_plus(s))[i],
        split_plus(s)[i],
    ) by {
        let pre = if i > 0 {
            sp
        } else {
            empty
        };
        let post = if i < n - 1 {
            sp
        } else {
            empty
        };
        lemma_trim_pad(pre, split_plus(s)[i], post);
    }
}

// ---------------------------------------------------------------------------
// ASCII case
// ---------------------------------------------------------------------------

/// Characters with the same lower case agree on whitespace and on `+`.
proof fn lemma_lower_char(a: char, b: char)
    requires
        to_lower(a) == to_lower(b),
    ensures
        (is_whitespace(a) || a == '+' || is_whitespace(b) || b == '+') ==> a == b,
{
    if is_ascii_upper(a) {
        assert(((a as u32) + 32) as char as u32 == (a as u32) + 32);
    }
    if is_ascii_upper(b) {
        assert(((b as u32) + 32) as char as u32 == (b as u32) + 32);
    }
}

proof fn lemma_lower_eq_at(s: Seq<char>, t: Seq<char>, i: int)
    requires
        lower(s) == lower(t),
        0 <= i < s.len(),
    ensures
        s.len() == t.len(),
        to_lower(s[i]) == to_lower(t[i]),
{
    assert(lower(s).len() == s.len());
    assert(lower(t).len() == t.len());
    assert(lower(s)[i] == to_lower(s[i]));
    assert(lower(t)[i] == to_lower(t[i]));
}

proof fn lemma_trim_start_lower(s: Seq<char>, t: Seq<char>)
    requires
        lower(s) == lower(t),
    ensures
        lower(trim_start(s)) == lower(trim_start(t)),
    decreases s.len(),
{
    assert(lower(s).len() == s.len() && lower(t).len() == t.len());
    if s.len() > 0 {
        lemma_lower_eq_at(s, t, 0);
        lemma_lower_char(s[0], t[0]);
        if is_whitespace(s[0]) {
            assert(lower(s.drop_first()) =~= lower(s).drop_first());
            assert(lower(t.drop_first()) =~= lower(t).drop_first());
            lemma_trim_start_lower(s.drop_first(), t.drop_first());
        }
    }
}

proof fn lemma_trim_end_lower(s: Seq<char>, t: Seq<char>)
    requires
        lower(s) == lower(t),
    ensures
        lower(trim_end(s)) == lower(trim_end(t)),
    decreases s.len(),
{
    assert(lower(s).len() == s.len() && lower(t).len() == t.len());
    if s.len() > 0 {
        lemma_lower_eq_at(s, t, s.len() - 1);
        lemma_lower_char(s.last(), t.last());
        if is_whitespace(s.last()) {
            assert(lower(s.drop_last()) =~= lower(s).drop_last());
            assert(lower(t.drop_last()) =~= lower(t).drop_last());
            lemma_trim_end_lower(s.drop_last(), t.drop_last());
        }
    }
}

/// Texts with the same lower case trim to texts with the same lower case.
pub proof fn lemma_trim_lower(s: Seq<char>, t: Seq<char>)
    requires
        lower(s) == lower(t),
    ensures
        lower(trim(s)) == lower(trim(t)),
{
    lemma_trim_start_lower(s, t);
    lemma_trim_end_lower(trim_start(s), trim_start(t));
}

/// Texts with the same lower case split into tokens with the same lower case.
pub proof fn lemma_split_lower(s: Seq<char>, t: Seq<char>)
    requires
        lower(s) == lower(t),
    ensures
        split_plus(s).len() == split_plus(t).len(),
        forall|i: int|
            0 <= i < split_plus(s).len() ==> lower(#[trigger] split_plus(s)[i]) == lower(
                split_plus(t)[i],
            ),
    decreases s.len(),
{
    assert(lower(s).len() == s.len() && lower(t).len() == t.len());
    if s.len() > 0 {
        let s2 = s.drop_first();
        let t2 = t.drop_first();
        assert(lower(s2) =~= lower(s).drop_first());
        assert(lower(t2) =~= lower(t).drop_first());
        lemma_split_lower(s2, t2);
        lemma_split_nonempty(s2);
        lemma_lower_eq_at(s, t, 0);
        lemma_lower_char(s[0], t[0]);
        let rs = split_plus(s2);
        let rt = split_plus(t2);
        if s[0] != '+' {
            assert(lower(seq![s[0]] + rs[0]) =~= seq![to_lower(s[0])] + lower(rs[0]));
            assert(lower(seq![t[0]] + rt[0]) =~= seq![to_lower(t[0])] + lower(rt[0]));
        }
        assert forall|i: int| 0 <= i < split_plus(s).len() implies lower(
            #[trigger] split_plus(s)[i],
        ) == lower(split_plus(t)[i]) by {
            if s[0] == '+' {
                if i > 0 {
                    assert(split_plus(s)[i] == rs[i - 1]);
                    assert(split_plus(t)[i] == rt[i - 1]);
                }
            }
        }
    }
}

// ---------------------------------------------------------------------------
// Copying and comparing
// ---------------------------------------------------------------------------

/// The characters of `s`.
pub fn chars_of(s: &str) -> (v: Vec<char>)
    ensures
        v@ == s@,
{
    let n = s.unicode_len();
    let mut v: Vec<char> = Vec::new();
    let mut i: usize = 0;
    while i < n
        invariant
            i <= n,
            n == s@.len(),
            v@ == s@.subrange(0, i as int),
        decreases n - i,
    {
        v.push(s.get_char(i));
        i = i + 1;
    }
    assert(v@ =~= s@);
    v
}

/// The range `lo..hi` of `s`, in ASCII lower case.
pub fn lower_range(s: &[char], lo: usize, hi: usize) -> (v: Vec<char>)
    requires
        lo <= hi <= s@.len(),
    ensures
        v@ == lower(s@.subrange(lo as int, hi as int)),
{
    let mut v: Vec<char> = Vec::new();
    let mut i = lo;
    while i < hi
        invariant
            lo <= i <= hi <= s@.len(),
            v@ =~= lower(s@.subrange(lo as int, i as int)),
        decreases hi - i,
    {
        let c = lower_char(s[i]);
        v.push(c);
        i = i + 1;
        assert(v@ =~= lower(s@.subrange(lo as int, i as int)));
    }
    v
}

/// Whether `s` holds exactly the characters of `lit`.
pub fn eq_lit(s: &[char], lit: &str) -> (b: bool)
    ensures
        b == (s@ == lit@),
{
    let n = lit.unicode_len();
    if s.len() != n {
        return false;
    }
    let mut i: usize = 0;
    while i < n
        invariant
            i <= n,
            n == s@.len(),
            n == lit@.len(),
            forall|k: int| 0 <= k < i ==> s@[k] == lit@[k],
        decreases n - i,
    {
        if s[i] != lit.get_char(i) {
            return false;
        }
        i = i + 1;
    }
    assert(s@ =~= lit@);
    true
}

// ---------------------------------------------------------------------------
// Digits
// ---------------------------------------------------------------------------

pub open spec fn all_digits(s: Seq<char>) -> bool {
    forall|i: int| 0 <= i < s.len() ==> is_ascii_digit(s[i])
}

/// The value of a digit character.
pub open spec fn digit_value(c: char) -> nat {
    (c as int - '0' as int) as nat
}

/// The number that a string of decimal digits spells.
pub open spec fn dec_value(s: Seq<char>) -> nat
    decreases s.len(),
{
    if s.len() == 0 {
        0
    } else {
        dec_value(s.drop_last()) * 10 + digit_value(s.last())
    }
}

/// What `str::parse::<u32>` accepts: an optional `+`, then one or more ASCII digits
/// whose value fits in a `u32`.
pub open spec fn parse_u32(s: Seq<char>) -> Option<nat> {
    let body = if s.len() > 0 && s[0] == '+' {
        s.drop_first()
    } else {
        s
    };
    if body.len() > 0 && all_digits(body) && dec_value(body) <= u32::MAX {
        Some(dec_value(body))
    } else {
        None
    }
}

/// The lowest hexadecimal digit of `d`, in lower case.
pub open spec fn hex_digit(d: nat) -> char {
    if d < 10 {
        ((48 + d) as u8) as char
    } else {
        ((87 + d) as u8) as char
    }
}

/// `n` in hexadecimal, lower case, without leading zeros.
pub open spec fn hex_digits(n: nat) -> Seq<char>
    decreases n,
{
    if n < 16 {
        seq![hex_digit(n)]
    } else {
        hex_digits(n / 16).push(hex_digit(n % 16))
    }
}

/// `n` in decimal, without leading zeros.
pub open spec fn dec_digits(n: nat) -> Seq<char>
    decreases n,
{
    if n < 10 {
        seq![hex_digit(n)]
    } else {
        dec_digits(n / 10).push(hex_digit(n % 10))
    }
}

/// The digit character for `d`, which is below 16.
pub fn hex_digit_char(d: u32) -> (c: char)
    requires
        d < 16,
    ensures
        c == hex_digit(d as nat),
{
    let b: u8 = d as u8;
    if b < 10 {
        (48 + b) as char
    } else {
        (87 + b) as char
    }
}

/// Appends one character, as `String::push` does.
#[verifier::external_body]
pub(crate) fn push_char(s: &mut String, c: char)
    ensures
        final(s)@ == old(s)@.push(c),
{
    s.push(c);
}

/// Appends `n` in hexadecimal, lower case, without leading zeros.
pub fn push_hex(s: &mut String, n: u32)
    ensures
        final(s)@ == old(s)@ + hex_digits(n as nat),
    decreases n,
{
    if n >= 16 {
        push_hex(s, n / 16);
    }
    push_char(s, hex_digit_char(n % 16));
    assert(s@ =~= old(s)@ + hex_digits(n as nat));
}

} // verus!
