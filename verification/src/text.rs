//! Character-level helpers for strings.

use vstd::prelude::*;

verus! {

/// Append one character to a string.
#[verifier::external_body]
pub fn push_char(s: &mut String, c: char)
    ensures
        final(s)@ == old(s)@.push(c),
{
    s.push(c);
}

/// The characters of `s`.
pub fn to_chars(s: &str) -> (v: Vec<char>)
    ensures
        v@ == s@,
{
    let mut v: Vec<char> = Vec::new();
    for c in it: s.chars()
        invariant
            v@ == it.seq().take(it.index() as int),
            it.seq() == s@,
    {
        v.push(c);
    }
    v
}

/// A string made of the characters `cs`.
pub fn from_chars(cs: &[char]) -> (s: String)
    ensures
        s@ == cs@,
{
    let mut s = String::new();
    let mut i: usize = 0;
    while i < cs.len()
        invariant
            i <= cs@.len(),
            s@ == cs@.take(i as int),
        decreases cs@.len() - i,
    {
        push_char(&mut s, cs[i]);
        proof {
            assert(cs@.take(i + 1) =~= cs@.take(i as int).push(cs@[i as int]));
        }
        i = i + 1;
    }
    proof {
        assert(cs@.take(cs@.len() as int) =~= cs@);
    }
    s
}

/// `path` with every backslash turned into a forward slash.
pub open spec fn slash_normalized(path: Seq<char>) -> Seq<char> {
    path.map_values(|c: char| if c == '\\' { '/' } else { c })
}

/// Normalize path separators for consistent comparison.
pub fn normalize_path_str(path: &str) -> (r: String)
    ensures
        r@ == slash_normalized(path@),
{
    let cs = to_chars(path);
    let mut r = String::new();
    let mut i: usize = 0;
    while i < cs.len()
        invariant
            cs@ == path@,
            i <= cs@.len(),
            r@ == slash_normalized(cs@.take(i as int)),
        decreases cs@.len() - i,
    {
        let c = cs[i];
        push_char(&mut r, if c == '\\' { '/' } else { c });
        proof {
            assert(slash_normalized(cs@.take(i + 1)) =~= slash_normalized(cs@.take(i as int)).push(
                if c == '\\' { '/' } else { c },
            ));
        }
        i = i + 1;
    }
    proof {
        assert(cs@.take(cs@.len() as int) =~= cs@);
    }
    r
}

/// The characters `cs[start..end]` as a string.
pub fn string_of_range(cs: &[char], start: usize, end: usize) -> (s: String)
    requires
        start <= end <= cs@.len(),
    ensures
        s@ == cs@.subrange(start as int, end as int),
{
    let mut s = String::new();
    let mut i: usize = start;
    while i < end
        invariant
            start <= i <= end <= cs@.len(),
            s@ == cs@.subrange(start as int, i as int),
        decreases end - i,
    {
        push_char(&mut s, cs[i]);
        proof {
            assert(cs@.subrange(start as int, i + 1) =~= cs@.subrange(start as int, i as int).push(
                cs@[i as int],
            ));
        }
        i = i + 1;
    }
    s
}

/// Append the characters `cs` to `v`.
pub fn append_chars(v: &mut Vec<char>, cs: &[char])
    ensures
        final(v)@ == old(v)@ + cs@,
{
    let mut i: usize = 0;
    let ghost v0 = v@;
    while i < cs.len()
        invariant
            i <= cs@.len(),
            v@ == v0 + cs@.take(i as int),
        decreases cs@.len() - i,
    {
        v.push(cs[i]);
        proof {
            assert(cs@.take(i + 1) =~= cs@.take(i as int).push(cs@[i as int]));
            assert(v0 + cs@.take(i + 1) =~= (v0 + cs@.take(i as int)).push(cs@[i as int]));
        }
        i = i + 1;
    }
    proof {
        assert(cs@.take(cs@.len() as int) =~= cs@);
    }
}

/// `cs[at..]` begins with `pat`.
pub fn matches_at(cs: &[char], at: usize, pat: &[char]) -> (b: bool)
    ensures
        b == (at + pat@.len() <= cs@.len() && cs@.subrange(at as int, at + pat@.len()) == pat@),
{
    if at > cs.len() || pat.len() > cs.len() - at {
        return false;
    }
    let mut k: usize = 0;
    while k < pat.len()
        invariant
            at + pat@.len() <= cs@.len(),
            cs@.len() == cs.len(),
            k <= pat@.len(),
            forall|j: int| 0 <= j < k ==> cs@[at + j] == pat@[j],
        decreases pat@.len() - k,
    {
        if cs[at + k] != pat[k] {
            proof {
                assert(cs@.subrange(at as int, at + pat@.len())[k as int] != pat@[k as int]);
            }
            return false;
        }
        k = k + 1;
    }
    proof {
        assert(cs@.subrange(at as int, at + pat@.len()) =~= pat@);
    }
    true
}

/// `pat` is a suffix of `cs`.
pub fn ends_with_chars(cs: &[char], pat: &[char]) -> (b: bool)
    ensures
        b == pat@.is_suffix_of(cs@),
{
    if pat.len() > cs.len() {
        return false;
    }
    let r = matches_at(cs, cs.len() - pat.len(), pat);
    proof {
        if r {
            assert(pat@ =~= cs@.subrange(cs@.len() - pat@.len(), cs@.len() as int));
        }
    }
    r
}

/// `s` split at every `c`: the pieces between separators, in order
/// (an empty `s` gives one empty piece).
pub open spec fn split_on(s: Seq<char>, c: char) -> Seq<Seq<char>>
    decreases s.len(),
{
    if s.len() == 0 {
        seq![Seq::<char>::empty()]
    } else {
        let r = split_on(s.drop_last(), c);
        if s.last() == c {
            r.push(Seq::empty())
        } else {
            r.update(r.len() - 1, r.last().push(s.last()))
        }
    }
}

/// `split_on` always yields at least one piece.
pub proof fn lemma_split_on_nonempty(s: Seq<char>, c: char)
    ensures
        split_on(s, c).len() >= 1,
    decreases s.len(),
{
    if s.len() > 0 {
        lemma_split_on_nonempty(s.drop_last(), c);
    }
}

/// Lemma: splitting `s + t` at `c`, for `t` without `c`, extends the last piece of `s` by `t`.
pub proof fn lemma_split_on_append(s: Seq<char>, t: Seq<char>, c: char)
    requires
        !t.contains(c),
    ensures
        split_on(s + t, c) == split_on(s, c).update(split_on(s, c).len() - 1, split_on(s, c).last() + t),
    decreases t.len(),
{
    lemma_split_on_nonempty(s, c);
    if t.len() == 0 {
        assert(s + t =~= s);
        assert(split_on(s, c).last() + t =~= split_on(s, c).last());
        assert(split_on(s, c).update(split_on(s, c).len() - 1, split_on(s, c).last()) =~= split_on(s, c));
    } else {
        assert((s + t).drop_last() =~= s + t.drop_last());
        assert((s + t).last() == t.last());
        assert(!t.drop_last().contains(c)) by {
            if t.drop_last().contains(c) {
                let i = choose|i: int| 0 <= i < t.drop_last().len() && t.drop_last()[i] == c;
                assert(t[i] == c);
            }
        }
        assert(t.last() != c) by {
            assert(t[t.len() - 1] == t.last());
        }
        lemma_split_on_append(s, t.drop_last(), c);
        let p = split_on(s, c);
        assert((p.last() + t.drop_last()).push(t.last()) =~= p.last() + t);
        assert(p.update(p.len() - 1, p.last() + t.drop_last()).update(p.len() - 1, (p.last() + t.drop_last()).push(t.last()))
            =~= p.update(p.len() - 1, p.last() + t));
    }
}

/// Lemma: splitting `s`, then `c`, then `t` (without `c`) at `c` adds the piece `t`.
pub proof fn lemma_split_on_sep_append(s: Seq<char>, t: Seq<char>, c: char)
    requires
        !t.contains(c),
    ensures
        split_on(s + seq![c] + t, c) == split_on(s, c).push(t),
{
    let sp = s + seq![c];
    assert(sp.drop_last() =~= s);
    assert(sp.last() == c);
    assert(split_on(sp, c) == split_on(s, c).push(Seq::<char>::empty()));
    lemma_split_on_append(sp, t, c);
    assert(Seq::<char>::empty() + t =~= t);
    assert(split_on(s, c).push(Seq::<char>::empty()).update(split_on(s, c).len() as int, t) =~= split_on(s, c).push(t));
}

/// `s` split at its first `c`: the part before it and the part after it.
pub open spec fn split_once(s: Seq<char>, c: char) -> Option<(Seq<char>, Seq<char>)>
    decreases s.len(),
{
    if s.len() == 0 {
        None
    } else if s[0] == c {
        Some((Seq::empty(), s.drop_first()))
    } else {
        match split_once(s.drop_first(), c) {
            Some(p) => Some((seq![s[0]] + p.0, p.1)),
            None => None,
        }
    }
}

/// Where the first `c` stands in `s`, once no earlier character is `c`.
pub proof fn lemma_split_once_at(s: Seq<char>, c: char, i: int)
    requires
        0 <= i <= s.len(),
        forall|j: int| 0 <= j < i ==> s[j] != c,
    ensures
        i < s.len() && s[i] == c ==> split_once(s, c) == Some((s.take(i), s.skip(i + 1))),
        i == s.len() ==> split_once(s, c) is None,
    decreases i,
{
    if i > 0 {
        lemma_split_once_at(s.drop_first(), c, i - 1);
        if i < s.len() && s[i] == c {
            assert(seq![s[0]] + s.drop_first().take(i - 1) =~= s.take(i));
            assert(s.drop_first().skip(i) =~= s.skip(i + 1));
        }
    } else if s.len() > 0 {
        assert(s.take(0) =~= Seq::<char>::empty());
        assert(s.drop_first() =~= s.skip(1));
    }
}

/// Index of the first `c` in `cs`, if any.
pub fn find_char(cs: &[char], c: char) -> (r: Option<usize>)
    ensures
        r matches Some(i) ==> i < cs@.len() && cs@[i as int] == c && split_once(cs@, c) == Some(
            (cs@.take(i as int), cs@.skip(i + 1)),
        ),
        r is None ==> split_once(cs@, c) is None && !cs@.contains(c),
{
    let mut i: usize = 0;
    while i < cs.len()
        invariant
            i <= cs@.len(),
            forall|j: int| 0 <= j < i ==> cs@[j] != c,
        decreases cs@.len() - i,
    {
        if cs[i] == c {
            proof {
                lemma_split_once_at(cs@, c, i as int);
            }
            return Some(i);
        }
        i = i + 1;
    }
    proof {
        lemma_split_once_at(cs@, c, i as int);
    }
    None
}

/// Whether `c` is alphanumeric in the Unicode sense of the standard library
/// (the `Alphabetic` or a `Numeric` property).
pub uninterp spec fn unicode_alphanumeric(c: char) -> bool;

/// Calls `char::is_alphanumeric`; its result is named, not restated.
#[verifier::external_body]
pub fn char_is_alphanumeric(c: char) -> (b: bool)
    ensures
        b == unicode_alphanumeric(c),
{
    c.is_alphanumeric()
}

/// Decimal digit character of `d` (below 10).
pub open spec fn digit_char(d: nat) -> char {
    seq!['0', '1', '2', '3', '4', '5', '6', '7', '8', '9'][d as int]
}

/// The decimal digits of `n`, without leading zeros.
pub open spec fn decimal(n: nat) -> Seq<char>
    decreases n,
{
    if n < 10 {
        seq![digit_char(n)]
    } else {
        decimal(n / 10).push(digit_char(n % 10))
    }
}

/// The decimal digits of `n`.
pub fn decimal_chars(n: u64) -> (r: Vec<char>)
    ensures
        r@ == decimal(n as nat),
    decreases n,
{
    let table = vec!['0', '1', '2', '3', '4', '5', '6', '7', '8', '9'];
    if n < 10 {
        let mut r = Vec::new();
        r.push(table[n as usize]);
        r
    } else {
        let mut r = decimal_chars(n / 10);
        r.push(table[(n % 10) as usize]);
        r
    }
}

/// The two strings hold the same characters.
pub fn str_eq(a: &str, b: &str) -> (r: bool)
    ensures
        r == (a@ == b@),
{
    let ac = to_chars(a);
    let bc = to_chars(b);
    if ac.len() != bc.len() {
        return false;
    }
    let mut i: usize = 0;
    while i < ac.len()
        invariant
            ac@ == a@,
            bc@ == b@,
            ac@.len() == bc@.len(),
            i <= ac@.len(),
            forall|j: int| 0 <= j < i ==> ac@[j] == bc@[j],
        decreases ac@.len() - i,
    {
        if ac[i] != bc[i] {
            return false;
        }
        i = i + 1;
    }
    proof {
        assert(ac@ =~= bc@);
    }
    true
}

/// The string `a` followed by `b`.
pub fn concat_str(a: &str, b: &str) -> (r: String)
    ensures
        r@ == a@ + b@,
{
    let mut cs = to_chars(a);
    let bc = to_chars(b);
    append_chars(&mut cs, bc.as_slice());
    from_chars(cs.as_slice())
}

/// Whether `c` is whitespace in the Unicode sense of the standard library:
/// it has the `White_Space` property of the Unicode character database
/// (PropList.txt), whose code points are listed here.
pub open spec fn unicode_whitespace(c: char) -> bool {
    let u = c as u32;
    ||| 0x9 <= u <= 0xD
    ||| u == 0x20
    ||| u == 0x85
    ||| u == 0xA0
    ||| u == 0x1680
    ||| 0x2000 <= u <= 0x200A
    ||| u == 0x2028
    ||| u == 0x2029
    ||| u == 0x202F
    ||| u == 0x205F
    ||| u == 0x3000
}

/// Whether `c` is whitespace, as `char::is_whitespace` decides it.
pub fn char_is_whitespace(c: char) -> (b: bool)
    ensures
        b == unicode_whitespace(c),
{
    let u = c as u32;
    (0x9 <= u && u <= 0xD) || u == 0x20 || u == 0x85 || u == 0xA0 || u == 0x1680 || (0x2000 <= u
        && u <= 0x200A) || u == 0x2028 || u == 0x2029 || u == 0x202F || u == 0x205F || u == 0x3000
}

/// `s` without leading whitespace.
pub open spec fn trim_start_ws(s: Seq<char>) -> Seq<char>
    decreases s.len(),
{
    if s.len() > 0 && unicode_whitespace(s[0]) {
        trim_start_ws(s.drop_first())
    } else {
        s
    }
}

/// `s` without trailing whitespace.
pub open spec fn trim_end_ws(s: Seq<char>) -> Seq<char>
    decreases s.len(),
{
    if s.len() > 0 && unicode_whitespace(s.last()) {
        trim_end_ws(s.drop_last())
    } else {
        s
    }
}

/// `s` without leading and trailing whitespace.
pub open spec fn trimmed(s: Seq<char>) -> Seq<char> {
    trim_end_ws(trim_start_ws(s))
}

/// All of `w` is whitespace.
pub open spec fn all_whitespace(w: Seq<char>) -> bool {
    forall|i: int| 0 <= i < w.len() ==> unicode_whitespace(#[trigger] w[i])
}

/// Lemma: trimming the start drops a whitespace prefix and keeps the rest,
/// which is empty or starts with non-whitespace.
pub proof fn lemma_trim_start_shape(x: Seq<char>)
    ensures
        trim_start_ws(x).len() <= x.len(),
        trim_start_ws(x) == x.skip(x.len() - trim_start_ws(x).len()),
        all_whitespace(x.take(x.len() - trim_start_ws(x).len())),
        trim_start_ws(x).len() > 0 ==> !unicode_whitespace(trim_start_ws(x)[0]),
    decreases x.len(),
{
    if x.len() > 0 && unicode_whitespace(x[0]) {
        let r = x.drop_first();
        lemma_trim_start_shape(r);
        let a = x.len() - trim_start_ws(x).len();
        assert(r.skip(r.len() - trim_start_ws(r).len()) =~= x.skip(a));
        assert forall|i: int| 0 <= i < x.take(a).len() implies unicode_whitespace(#[trigger] x.take(a)[i]) by {
            if i > 0 {
                assert(x.take(a)[i] == r.take(a - 1)[i - 1]);
            }
        }
    } else {
        assert(x.skip(0) =~= x);
    }
}

/// Lemma: trimming the end drops a whitespace suffix and keeps the rest,
/// which is empty or ends with non-whitespace.
pub proof fn lemma_trim_end_shape(x: Seq<char>)
    ensures
        trim_end_ws(x).len() <= x.len(),
        trim_end_ws(x) == x.take(trim_end_ws(x).len() as int),
        all_whitespace(x.skip(trim_end_ws(x).len() as int)),
        trim_end_ws(x).len() > 0 ==> !unicode_whitespace(trim_end_ws(x).last()),
    decreases x.len(),
{
    if x.len() > 0 && unicode_whitespace(x.last()) {
        let r = x.drop_last();
        lemma_trim_end_shape(r);
        let b = trim_end_ws(x).len() as int;
        assert(r.take(b) =~= x.take(b));
        assert forall|i: int| 0 <= i < x.skip(b).len() implies unicode_whitespace(#[trigger] x.skip(b)[i]) by {
            if b + i < x.len() - 1 {
                assert(x.skip(b)[i] == r.skip(b)[i]);
            } else {
                assert(x.skip(b)[i] == x.last());
            }
        }
    } else {
        assert(x.take(x.len() as int) =~= x);
    }
}

/// Lemma: after a whitespace prefix, trimming the start stops at a text that
/// is empty or starts with non-whitespace.
pub proof fn lemma_trim_start_after(w: Seq<char>, y: Seq<char>)
    requires
        all_whitespace(w),
        y.len() == 0 || !unicode_whitespace(y[0]),
    ensures
        trim_start_ws(w + y) == y,
    decreases w.len(),
{
    if w.len() == 0 {
        assert(w + y =~= y);
    } else {
        assert((w + y)[0] == w[0]);
        assert((w + y).drop_first() =~= w.drop_first() + y);
        assert(all_whitespace(w.drop_first())) by {
            assert forall|i: int| 0 <= i < w.drop_first().len() implies unicode_whitespace(#[trigger] w.drop_first()[i]) by {
                assert(w.drop_first()[i] == w[i + 1]);
            }
        }
        lemma_trim_start_after(w.drop_first(), y);
    }
}

/// Lemma: before a whitespace suffix, trimming the end stops at a text that
/// is empty or ends with non-whitespace.
pub proof fn lemma_trim_end_before(y: Seq<char>, w: Seq<char>)
    requires
        all_whitespace(w),
        y.len() == 0 || !unicode_whitespace(y.last()),
    ensures
        trim_end_ws(y + w) == y,
    decreases w.len(),
{
    if w.len() == 0 {
        assert(y + w =~= y);
    } else {
        assert((y + w).last() == w.last());
        assert(w.last() == w[w.len() - 1]);
        assert((y + w).drop_last() =~= y + w.drop_last());
        assert(all_whitespace(w.drop_last())) by {
            assert forall|i: int| 0 <= i < w.drop_last().len() implies unicode_whitespace(#[trigger] w.drop_last()[i]) by {
                assert(w.drop_last()[i] == w[i]);
            }
        }
        lemma_trim_end_before(y, w.drop_last());
    }
}

/// Lemma: the trim of a text is the text between its leading and trailing
/// whitespace: `x` is a whitespace prefix, its trim and a whitespace suffix,
/// and the trim is empty or starts and ends with non-whitespace.
pub proof fn lemma_trimmed_shape(x: Seq<char>) -> (wl: (Seq<char>, Seq<char>))
    ensures
        x == wl.0 + trimmed(x) + wl.1,
        all_whitespace(wl.0),
        all_whitespace(wl.1),
        trimmed(x).len() > 0 ==> !unicode_whitespace(trimmed(x)[0]) && !unicode_whitespace(trimmed(x).last()),
{
    let z = trim_start_ws(x);
    lemma_trim_start_shape(x);
    lemma_trim_end_shape(z);
    let c = trim_end_ws(z);
    let a = x.len() - z.len();
    let w1 = x.take(a);
    let w2 = z.skip(c.len() as int);
    assert(x =~= w1 + z);
    assert(z =~= c + w2);
    assert(x =~= w1 + c + w2);
    if c.len() > 0 {
        assert(c[0] == z[0]);
    }
    (w1, w2)
}

/// Lemma: trimming is idempotent, and trimming a text with only its start
/// or only its end trimmed gives the text's trim.
pub proof fn lemma_trim_again(x: Seq<char>)
    ensures
        trimmed(trimmed(x)) == trimmed(x),
        trimmed(trim_start_ws(x)) == trimmed(x),
        trimmed(trim_end_ws(x)) == trimmed(x),
{
    let c = trimmed(x);
    let e = Seq::<char>::empty();
    let (w1, w2) = lemma_trimmed_shape(x);
    assert(all_whitespace(e));
    // trimmed(c) == c
    lemma_trim_start_after(e, c);
    assert(e + c =~= c);
    lemma_trim_end_before(c, e);
    assert(c + e =~= c);
    // trim_start(x) == c + w2 when c is not empty, and x is all whitespace otherwise
    if c.len() > 0 {
        assert(x =~= w1 + (c + w2));
        assert((c + w2)[0] == c[0]);
        lemma_trim_start_after(w1, c + w2);
        lemma_trim_end_before(c, w2);
        assert(x =~= (w1 + c) + w2);
        assert((w1 + c).last() == c.last());
        lemma_trim_end_before(w1 + c, w2);
        lemma_trim_start_after(w1, c);
    } else {
        assert(x =~= w1 + w2);
        let w = w1 + w2;
        assert(all_whitespace(w)) by {
            assert forall|i: int| 0 <= i < w.len() implies unicode_whitespace(#[trigger] w[i]) by {
                if i < w1.len() {
                    assert(w[i] == w1[i]);
                } else {
                    assert(w[i] == w2[i - w1.len()]);
                }
            }
        }
        lemma_trim_start_after(w, e);
        assert(w + e =~= w);
        lemma_trim_end_before(e, w);
        assert(e + w =~= w);
    }
}

/// The characters of `cs` without leading and trailing whitespace.
pub fn trim_chars(cs: &[char]) -> (r: Vec<char>)
    ensures
        r@ == trimmed(cs@),
{
    let mut lo: usize = 0;
    proof {
        assert(cs@.skip(0) =~= cs@);
    }
    while lo < cs.len() && char_is_whitespace(cs[lo])
        invariant
            lo <= cs@.len(),
            trim_start_ws(cs@) == trim_start_ws(cs@.skip(lo as int)),
        decreases cs@.len() - lo,
    {
        proof {
            assert(cs@.skip(lo as int).drop_first() =~= cs@.skip(lo + 1));
        }
        lo = lo + 1;
    }
    let mut r: Vec<char> = Vec::new();
    let mut k: usize = lo;
    while k < cs.len()
        invariant
            lo <= k <= cs@.len(),
            r@ == cs@.subrange(lo as int, k as int),
        decreases cs@.len() - k,
    {
        r.push(cs[k]);
        proof {
            assert(cs@.subrange(lo as int, k + 1) =~= cs@.subrange(lo as int, k as int).push(cs@[k as int]));
        }
        k = k + 1;
    }
    proof {
        assert(r@ =~= cs@.skip(lo as int));
        if lo == cs@.len() {
            assert(cs@.skip(lo as int) =~= Seq::<char>::empty());
        }
    }
    let ghost r0 = r@;
    while r.len() > 0 && char_is_whitespace(r[r.len() - 1])
        invariant
            trim_end_ws(r@) == trim_end_ws(r0),
        decreases r@.len(),
    {
        r.pop();
    }
    r
}

/// `needle` occurs in `hay` at position `k`.
pub open spec fn occurs_at(hay: Seq<char>, needle: Seq<char>, k: int) -> bool {
    0 <= k && k + needle.len() <= hay.len() && hay.subrange(k, k + needle.len()) == needle
}

/// The first position at or after `k` where `needle` occurs in `hay`.
pub open spec fn find_from(hay: Seq<char>, needle: Seq<char>, k: int) -> Option<int>
    decreases hay.len() + 1 - k,
{
    if k < 0 || k + needle.len() > hay.len() {
        None
    } else if occurs_at(hay, needle, k) {
        Some(k)
    } else {
        find_from(hay, needle, k + 1)
    }
}

/// The first position from `k` on where `needle` occurs in `hay`.
pub fn find_chars_from(hay: &[char], needle: &[char], k: usize) -> (r: Option<usize>)
    ensures
        r matches Some(i) ==> find_from(hay@, needle@, k as int) == Some(i as int),
        r is None ==> find_from(hay@, needle@, k as int) is None,
{
    let mut i: usize = k;
    while i <= hay.len() && needle.len() <= hay.len() - i
        invariant
            k <= i,
            hay@.len() == hay.len(),
            find_from(hay@, needle@, k as int) == find_from(hay@, needle@, i as int),
        decreases hay@.len() + 1 - i,
    {
        if matches_at(hay, i, needle) {
            return Some(i);
        }
        if i == hay.len() {
            proof {
                assert(find_from(hay@, needle@, i + 1) is None);
            }
            return None;
        }
        i = i + 1;
    }
    None
}

/// `cs` split at every `c`, as vectors of characters.
pub fn split_chars(cs: &[char], c: char) -> (r: Vec<Vec<char>>)
    ensures
        r@.map_values(|v: Vec<char>| v@) == split_on(cs@, c),
{
    let mut r: Vec<Vec<char>> = Vec::new();
    let mut cur: Vec<char> = Vec::new();
    let mut i: usize = 0;
    proof {
        assert(cs@.take(0) =~= Seq::<char>::empty());
    }
    while i < cs.len()
        invariant
            i <= cs@.len(),
            split_on(cs@.take(i as int), c).len() >= 1,
            cur@ == split_on(cs@.take(i as int), c).last(),
            r@.map_values(|v: Vec<char>| v@) == split_on(cs@.take(i as int), c).drop_last(),
        decreases cs@.len() - i,
    {
        let ghost ps = split_on(cs@.take(i as int), c);
        let x = cs[i];
        proof {
            assert(cs@.take(i + 1).drop_last() =~= cs@.take(i as int));
            assert(cs@.take(i + 1).last() == x);
        }
        if x == c {
            let ghost rb = r@;
            let done = cur;
            r.push(done);
            cur = Vec::new();
            proof {
                assert(split_on(cs@.take(i + 1), c) == ps.push(Seq::<char>::empty()));
                assert(r@.map_values(|v: Vec<char>| v@) =~= rb.map_values(|v: Vec<char>| v@).push(ps.last()));
                assert(ps =~= ps.drop_last().push(ps.last()));
                assert(ps.push(Seq::<char>::empty()).drop_last() =~= ps);
            }
        } else {
            cur.push(x);
            proof {
                assert(split_on(cs@.take(i + 1), c) == ps.update(ps.len() - 1, ps.last().push(x)));
                assert(ps.update(ps.len() - 1, ps.last().push(x)).drop_last() =~= ps.drop_last());
            }
        }
        i = i + 1;
    }
    let ghost ps = split_on(cs@.take(i as int), c);
    let ghost rb = r@;
    r.push(cur);
    proof {
        assert(cs@.take(i as int) =~= cs@);
        assert(r@.map_values(|v: Vec<char>| v@) =~= rb.map_values(|v: Vec<char>| v@).push(ps.last()));
        assert(ps =~= ps.drop_last().push(ps.last()));
    }
    r
}

/// `cs` begins with the characters of `pat`.
pub fn has_prefix(cs: &[char], pat: &str) -> (b: bool)
    ensures
        b == pat@.is_prefix_of(cs@),
{
    let pc = to_chars(pat);
    let r = matches_at(cs, 0, pc.as_slice());
    proof {
        if r {
            assert(pc@ =~= cs@.subrange(0, pc@.len() as int));
        }
        if pc@.is_prefix_of(cs@) {
            assert(cs@.subrange(0, pc@.len() as int) =~= pc@);
        }
    }
    r
}

/// A found position is an occurrence at or after the starting point.
pub proof fn lemma_find_from_occurs(hay: Seq<char>, needle: Seq<char>, k: int)
    ensures
        find_from(hay, needle, k) matches Some(p) ==> k <= p && occurs_at(hay, needle, p),
    decreases hay.len() + 1 - k,
{
    if !(k < 0 || k + needle.len() > hay.len()) && !occurs_at(hay, needle, k) {
        lemma_find_from_occurs(hay, needle, k + 1);
    }
}

} // verus!
