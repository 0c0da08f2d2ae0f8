//! File names and links for an Obsidian vault built from markdown heading
//! nodes: every path component is reduced to a safe character set, bounded in
//! length (with a stable hash suffix when cut), and joined back with `/`.

use crate::text::{
    append_chars, ends_with_chars, find_char, from_chars, matches_at, normalize_path_str,
    slash_normalized, split_on, split_once, string_of_range, to_chars, lemma_split_on_nonempty,
};
use std::collections::hash_map::DefaultHasher;
use std::hash::Hasher;
use crate::graph::{EdgeType, Node, NodeType};
use crate::query::MemoryBackend;
use crate::text::{concat_str, lemma_split_on_append, lemma_split_on_sep_append, split_chars, str_eq};
use vstd::prelude::*;
use vstd::std_specs::hash::DefaultHasherAdditionalSpecFns;
use vstd::utf8::encode_utf8;

verus! {

/// Longest directory path segment (file systems cap a name at 255 bytes).
pub const MAX_PATH_SEGMENT_LEN: usize = 200;

/// Longest note file stem, before `.md`.
pub const MAX_NOTE_STEM_LEN: usize = 252;

// ---------------------------------------------------------------------------
// Specification
// ---------------------------------------------------------------------------

/// ASCII letter or digit.
pub open spec fn is_ascii_alnum(c: char) -> bool {
    ('a' <= c && c <= 'z') || ('A' <= c && c <= 'Z') || ('0' <= c && c <= '9')
}

/// A character kept as is in a path component; any other becomes `-`.
pub open spec fn clean_char(c: char) -> char {
    if is_ascii_alnum(c) || c == '-' || c == '_' || c == '.' {
        c
    } else {
        '-'
    }
}

/// `s` with every run of `-` reduced to a single `-`.
pub open spec fn collapse_dashes(s: Seq<char>) -> Seq<char>
    decreases s.len(),
{
    if s.len() == 0 {
        s
    } else {
        let r = collapse_dashes(s.drop_last());
        if s.last() == '-' && r.len() > 0 && r.last() == '-' {
            r
        } else {
            r.push(s.last())
        }
    }
}

/// `s` without its leading `-` characters.
pub open spec fn trim_start_dashes(s: Seq<char>) -> Seq<char>
    decreases s.len(),
{
    if s.len() > 0 && s[0] == '-' {
        trim_start_dashes(s.drop_first())
    } else {
        s
    }
}

/// `s` without its trailing `-` characters.
pub open spec fn trim_end_dashes(s: Seq<char>) -> Seq<char>
    decreases s.len(),
{
    if s.len() > 0 && s.last() == '-' {
        trim_end_dashes(s.drop_last())
    } else {
        s
    }
}

/// The word used for a component with no usable character.
pub open spec fn section_word() -> Seq<char> {
    seq!['s', 'e', 'c', 't', 'i', 'o', 'n']
}

/// The cleaned form of a raw component, before any length limit.
pub open spec fn cleaned_component(raw: Seq<char>) -> Seq<char> {
    let t = trim_end_dashes(trim_start_dashes(collapse_dashes(raw.map_values(|c: char| clean_char(c)))));
    if t.len() == 0 {
        section_word()
    } else {
        t
    }
}

/// Lower-case hexadecimal digit of `d` (below 16).
pub open spec fn hex_digit(d: nat) -> char {
    seq!['0', '1', '2', '3', '4', '5', '6', '7', '8', '9', 'a', 'b', 'c', 'd', 'e', 'f'][d as int]
}

/// The last `n` hexadecimal digits of `v`, zero-padded.
pub open spec fn hex_fixed(v: nat, n: nat) -> Seq<char>
    decreases n,
{
    if n == 0 {
        Seq::empty()
    } else {
        hex_fixed(v / 16, (n - 1) as nat).push(hex_digit(v % 16))
    }
}

/// The standard library's default hash of a string: its UTF-8 bytes and the
/// `0xff` terminator that `str`'s `Hash` writes after them.
pub open spec fn str_default_hash(s: Seq<char>) -> u64 {
    DefaultHasher::spec_finish(seq![encode_utf8(s), seq![0xffu8]])
}

/// Eight hex digits of the low 32 bits of the default hash of `seed`.
pub open spec fn short_hash_text(seed: Seq<char>) -> Seq<char> {
    hex_fixed((str_default_hash(seed) & 0xffff_ffffu64) as nat, 8)
}

/// A path component made safe and at most `max_len` characters long (when
/// `max_len` leaves room for the hash): cut components end in `-` and the
/// short hash of `hash_seed`.
pub open spec fn sanitized_component(raw: Seq<char>, hash_seed: Seq<char>, max_len: nat) -> Seq<char> {
    let c = cleaned_component(raw);
    if c.len() > max_len {
        let keep: nat = if max_len >= 9 { (max_len - 9) as nat } else { 0 };
        trim_end_dashes(c.take(keep as int)) + seq!['-'] + short_hash_text(hash_seed)
    } else {
        c
    }
}

/// The non-empty pieces, in order.
pub open spec fn nonempty_pieces(ps: Seq<Seq<char>>) -> Seq<Seq<char>>
    decreases ps.len(),
{
    if ps.len() == 0 {
        ps
    } else {
        let r = nonempty_pieces(ps.drop_last());
        if ps.last().len() > 0 {
            r.push(ps.last())
        } else {
            r
        }
    }
}

/// The pieces joined with `/`.
pub open spec fn join_slash(ps: Seq<Seq<char>>) -> Seq<char>
    decreases ps.len(),
{
    if ps.len() == 0 {
        Seq::empty()
    } else if ps.len() == 1 {
        ps[0]
    } else {
        join_slash(ps.drop_last()) + seq!['/'] + ps.last()
    }
}

/// A directory segment made safe, hashed with `seed/segment` when cut.
pub open spec fn sanitized_segment(seg: Seq<char>, hash_seed: Seq<char>) -> Seq<char> {
    sanitized_component(seg, hash_seed + seq!['/'] + seg, MAX_PATH_SEGMENT_LEN as nat)
}

/// A relative path with empty segments dropped and every other segment made safe.
pub open spec fn sanitized_relpath(path: Seq<char>, hash_seed: Seq<char>) -> Seq<char> {
    join_slash(nonempty_pieces(split_on(path, '/')).map_values(|seg: Seq<char>| sanitized_segment(seg, hash_seed)))
}

/// `.md`
pub open spec fn md_ext() -> Seq<char> {
    seq!['.', 'm', 'd']
}

/// `.mdx`
pub open spec fn mdx_ext() -> Seq<char> {
    seq!['.', 'm', 'd', 'x']
}

/// `s` without a trailing `.md`, or else without a trailing `.mdx`.
pub open spec fn md_stem(s: Seq<char>) -> Seq<char> {
    if md_ext().is_suffix_of(s) {
        s.take(s.len() - 3)
    } else if mdx_ext().is_suffix_of(s) {
        s.take(s.len() - 4)
    } else {
        s
    }
}

/// `p` without its leading `./` pairs.
pub open spec fn drop_dot_slashes(p: Seq<char>) -> Seq<char>
    decreases p.len(),
{
    if p.len() >= 2 && p[0] == '.' && p[1] == '/' {
        drop_dot_slashes(p.skip(2))
    } else {
        p
    }
}

/// `path` relative to `repo_prefix`: separators normalized, the prefix, one
/// leading `/` and any leading `./` pairs removed.
pub open spec fn stripped_path(path: Seq<char>, repo_prefix: Seq<char>) -> Seq<char> {
    let p = slash_normalized(path);
    let p1 = if repo_prefix.is_prefix_of(p) { p.skip(repo_prefix.len() as int) } else { p };
    let p2 = if p1.len() > 0 && p1[0] == '/' { p1.skip(1) } else { p1 };
    drop_dot_slashes(p2)
}

/// Note path for a file and a heading fragment: the file's safe path without
/// its markdown extension, then the safe fragment, ending in `.md`.
pub open spec fn note_path_from_parts(file_path: Seq<char>, fragment: Seq<char>, hash_seed: Seq<char>) -> Seq<char> {
    let base = sanitized_relpath(md_stem(slash_normalized(file_path)), hash_seed);
    if fragment.len() == 0 {
        base + md_ext()
    } else {
        base + seq!['/'] + sanitized_component(fragment, hash_seed, MAX_NOTE_STEM_LEN as nat) + md_ext()
    }
}

/// Note path for a qualified name `file#fragment` (or a bare name).
pub open spec fn note_path(qualified_name: Seq<char>, repo_prefix: Seq<char>) -> Seq<char> {
    let normalized = slash_normalized(qualified_name);
    match split_once(normalized, '#') {
        Some(parts) => note_path_from_parts(stripped_path(parts.0, repo_prefix), parts.1, qualified_name),
        None => sanitized_component(normalized, qualified_name, MAX_NOTE_STEM_LEN as nat) + md_ext(),
    }
}

/// Wikilink target of a note path: the path without `.md`.
pub open spec fn link_of_relpath(note_rel: Seq<char>) -> Seq<char> {
    if md_ext().is_suffix_of(note_rel) {
        note_rel.take(note_rel.len() - 3)
    } else {
        note_rel
    }
}

// ---------------------------------------------------------------------------
// Lemmas
// ---------------------------------------------------------------------------

proof fn lemma_trim_start_skip(s: Seq<char>, lo: int)
    requires
        0 <= lo < s.len(),
        s[lo] == '-',
    ensures
        trim_start_dashes(s.skip(lo)) == trim_start_dashes(s.skip(lo + 1)),
{
    assert(s.skip(lo).drop_first() =~= s.skip(lo + 1));
}

proof fn lemma_join_push(xs: Seq<Seq<char>>, y: Seq<char>)
    ensures
        join_slash(xs.push(y)) == if xs.len() == 0 { y } else { join_slash(xs) + seq!['/'] + y },
{
    assert(xs.push(y).drop_last() =~= xs);
}

// ---------------------------------------------------------------------------
// Executable functions
// ---------------------------------------------------------------------------

fn clean_char_exec(c: char) -> (r: char)
    ensures
        r == clean_char(c),
{
    if (c >= 'a' && c <= 'z') || (c >= 'A' && c <= 'Z') || (c >= '0' && c <= '9') || c == '-' || c == '_'
        || c == '.' {
        c
    } else {
        '-'
    }
}

/// Drop trailing `-` characters in place.
fn pop_trailing_dashes(v: &mut Vec<char>)
    ensures
        final(v)@ == trim_end_dashes(old(v)@),
{
    let ghost v0 = v@;
    while v.len() > 0 && v[v.len() - 1] == '-'
        invariant
            trim_end_dashes(v@) == trim_end_dashes(v0),
        decreases v@.len(),
    {
        proof {
            assert(v@.drop_last().len() < v@.len());
        }
        v.pop();
    }
}

/// The cleaned characters of a raw component.
fn clean_component_chars(raw: &[char]) -> (w: Vec<char>)
    ensures
        w@ == cleaned_component(raw@),
{
    let ghost mapped = raw@.map_values(|c: char| clean_char(c));
    let mut v: Vec<char> = Vec::new();
    let mut i: usize = 0;
    while i < raw.len()
        invariant
            i <= raw@.len(),
            mapped == raw@.map_values(|c: char| clean_char(c)),
            v@ == collapse_dashes(mapped.take(i as int)),
        decreases raw@.len() - i,
    {
        let c = clean_char_exec(raw[i]);
        proof {
            assert(mapped.take(i + 1).drop_last() =~= mapped.take(i as int));
            assert(mapped.take(i + 1).last() == c);
        }
        if !(c == '-' && v.len() > 0 && v[v.len() - 1] == '-') {
            v.push(c);
        }
        i = i + 1;
    }
    proof {
        assert(mapped.take(raw@.len() as int) =~= mapped);
    }
    let mut lo: usize = 0;
    proof {
        assert(v@.skip(0) =~= v@);
    }
    while lo < v.len() && v[lo] == '-'
        invariant
            lo <= v@.len(),
            trim_start_dashes(v@) == trim_start_dashes(v@.skip(lo as int)),
        decreases v@.len() - lo,
    {
        proof {
            lemma_trim_start_skip(v@, lo as int);
        }
        lo = lo + 1;
    }
    proof {
        if lo == v@.len() {
            assert(v@.skip(lo as int) =~= Seq::<char>::empty());
        }
    }
    let mut w: Vec<char> = Vec::new();
    let mut k: usize = lo;
    while k < v.len()
        invariant
            lo <= k <= v@.len(),
            w@ == v@.subrange(lo as int, k as int),
        decreases v@.len() - k,
    {
        w.push(v[k]);
        proof {
            assert(v@.subrange(lo as int, k + 1) =~= v@.subrange(lo as int, k as int).push(v@[k as int]));
        }
        k = k + 1;
    }
    proof {
        assert(w@ =~= v@.skip(lo as int));
    }
    pop_trailing_dashes(&mut w);
    if w.len() == 0 {
        let sec = vec!['s', 'e', 'c', 't', 'i', 'o', 'n'];
        proof {
            assert(sec@ =~= section_word());
        }
        sec
    } else {
        w
    }
}

fn hex_char(d: u64) -> (c: char)
    requires
        d < 16,
    ensures
        c == hex_digit(d as nat),
{
    let table = vec!['0', '1', '2', '3', '4', '5', '6', '7', '8', '9', 'a', 'b', 'c', 'd', 'e', 'f'];
    table[d as usize]
}

/// The last `n` hexadecimal digits of `v`, zero-padded.
pub(crate) fn hex_fixed_exec(v: u64, n: usize) -> (r: Vec<char>)
    ensures
        r@ == hex_fixed(v as nat, n as nat),
    decreases n,
{
    if n == 0 {
        Vec::new()
    } else {
        let mut r = hex_fixed_exec(v / 16, n - 1);
        r.push(hex_char(v % 16));
        r
    }
}

/// Characters of the short hash of `seed`.
fn short_hash_chars(seed: &str) -> (r: Vec<char>)
    ensures
        r@ == short_hash_text(seed@),
{
    let mut hasher = DefaultHasher::new();
    hasher.write(seed.as_bytes());
    let terminator: Vec<u8> = vec![0xffu8];
    hasher.write(terminator.as_slice());
    proof {
        assert(terminator@ =~= seq![0xffu8]);
        assert(hasher@ =~= seq![encode_utf8(seed@), seq![0xffu8]]);
    }
    let h = hasher.finish();
    hex_fixed_exec(h & 0xffff_ffffu64, 8)
}

/// Eight hex digits of the low 32 bits of the default hash of `seed`; stable
/// for a given build of the standard library.
pub fn short_hash(seed: &str) -> (r: String)
    ensures
        r@ == short_hash_text(seed@),
{
    let cs = short_hash_chars(seed);
    from_chars(cs.as_slice())
}

/// Make `raw` a safe path component of at most `max_len` characters (when
/// `max_len` is at least 9): characters other than ASCII letters, digits,
/// `-`, `_` and `.` become `-`, runs of `-` shrink to one, `-` is trimmed
/// from both ends, an empty result becomes `section`, and a result that is
/// still too long is cut and given `-` and the short hash of `hash_seed`.
pub fn sanitize_path_component(raw: &str, hash_seed: &str, max_len: usize) -> (r: String)
    ensures
        r@ == sanitized_component(raw@, hash_seed@, max_len as nat),
{
    let rc = to_chars(raw);
    let cleaned = clean_component_chars(rc.as_slice());
    if cleaned.len() > max_len {
        let hash = short_hash_chars(hash_seed);
        let keep: usize = if max_len >= 9 { max_len - 9 } else { 0 };
        let mut t: Vec<char> = Vec::new();
        let mut k: usize = 0;
        while k < keep
            invariant
                k <= keep < cleaned@.len(),
                t@ == cleaned@.take(k as int),
            decreases keep - k,
        {
            t.push(cleaned[k]);
            proof {
                assert(cleaned@.take(k + 1) =~= cleaned@.take(k as int).push(cleaned@[k as int]));
            }
            k = k + 1;
        }
        pop_trailing_dashes(&mut t);
        t.push('-');
        append_chars(&mut t, hash.as_slice());
        from_chars(t.as_slice())
    } else {
        from_chars(cleaned.as_slice())
    }
}

/// Append the safe form of directory segment `seg` to `out`, after a `/`
/// when `out` already holds a segment.
fn emit_segment(out: &mut Vec<char>, any: bool, seg: &Vec<char>, seed: &[char])
    requires
        seg@.len() > 0,
    ensures
        final(out)@ == if any {
            old(out)@ + seq!['/'] + sanitized_segment(seg@, seed@)
        } else {
            sanitized_segment(seg@, seed@)
        },
{
    let seg_s = from_chars(seg.as_slice());
    let mut sd: Vec<char> = Vec::new();
    append_chars(&mut sd, seed);
    sd.push('/');
    append_chars(&mut sd, seg.as_slice());
    let sd_s = from_chars(sd.as_slice());
    let comp = sanitize_path_component(seg_s.as_str(), sd_s.as_str(), MAX_PATH_SEGMENT_LEN);
    let cc = to_chars(comp.as_str());
    proof {
        assert(sd@ =~= seed@ + seq!['/'] + seg@);
    }
    if any {
        out.push('/');
        append_chars(out, cc.as_slice());
    } else {
        out.clear();
        append_chars(out, cc.as_slice());
    }
    proof {
        if !any {
            assert(out@ =~= sanitized_segment(seg@, seed@));
        }
    }
}

/// Join the non-empty `/`-separated segments of `path`, each made safe.
pub fn sanitize_relpath(path: &str, hash_seed: &str) -> (r: String)
    ensures
        r@ == sanitized_relpath(path@, hash_seed@),
{
    let pc = to_chars(path);
    let sc = to_chars(hash_seed);
    let ghost f = |seg: Seq<char>| sanitized_segment(seg, hash_seed@);
    let mut out: Vec<char> = Vec::new();
    let mut any = false;
    let mut cur: Vec<char> = Vec::new();
    let mut i: usize = 0;
    proof {
        assert(pc@.take(0) =~= Seq::<char>::empty());
        assert(nonempty_pieces(Seq::<Seq<char>>::empty()).map_values(f) =~= Seq::<Seq<char>>::empty());
    }
    while i < pc.len()
        invariant
            pc@ == path@,
            sc@ == hash_seed@,
            f == (|seg: Seq<char>| sanitized_segment(seg, hash_seed@)),
            i <= pc@.len(),
            split_on(pc@.take(i as int), '/').len() >= 1,
            cur@ == split_on(pc@.take(i as int), '/').last(),
            out@ == join_slash(nonempty_pieces(split_on(pc@.take(i as int), '/').drop_last()).map_values(f)),
            any == (nonempty_pieces(split_on(pc@.take(i as int), '/').drop_last()).len() > 0),
        decreases pc@.len() - i,
    {
        let ghost ps = split_on(pc@.take(i as int), '/');
        let c = pc[i];
        proof {
            assert(pc@.take(i + 1).drop_last() =~= pc@.take(i as int));
            assert(pc@.take(i + 1).last() == c);
        }
        if c == '/' {
            proof {
                assert(split_on(pc@.take(i + 1), '/') == ps.push(Seq::<char>::empty()));
                assert(ps.push(Seq::<char>::empty()).drop_last() =~= ps);
                assert(ps =~= ps.drop_last().push(ps.last()));
                let np = nonempty_pieces(ps.drop_last());
                if cur@.len() > 0 {
                    assert(nonempty_pieces(ps) == np.push(cur@));
                    assert(np.push(cur@).map_values(f) =~= np.map_values(f).push(f(cur@)));
                    lemma_join_push(np.map_values(f), f(cur@));
                } else {
                    assert(nonempty_pieces(ps) == np);
                }
            }
            if cur.len() > 0 {
                emit_segment(&mut out, any, &cur, sc.as_slice());
                any = true;
            }
            cur = Vec::new();
        } else {
            cur.push(c);
            proof {
                assert(split_on(pc@.take(i + 1), '/') == ps.update(ps.len() - 1, ps.last().push(c)));
                assert(ps.update(ps.len() - 1, ps.last().push(c)).drop_last() =~= ps.drop_last());
            }
        }
        i = i + 1;
    }
    let ghost ps = split_on(pc@.take(i as int), '/');
    proof {
        assert(pc@.take(i as int) =~= pc@);
        assert(ps =~= ps.drop_last().push(ps.last()));
        let np = nonempty_pieces(ps.drop_last());
        if cur@.len() > 0 {
            assert(nonempty_pieces(ps) == np.push(cur@));
            assert(np.push(cur@).map_values(f) =~= np.map_values(f).push(f(cur@)));
            lemma_join_push(np.map_values(f), f(cur@));
        } else {
            assert(nonempty_pieces(ps) == np);
        }
    }
    if cur.len() > 0 {
        emit_segment(&mut out, any, &cur, sc.as_slice());
    }
    from_chars(out.as_slice())
}

/// Characters of `s` without a trailing `.md` (or else `.mdx`).
fn md_stem_chars(s: &Vec<char>) -> (n: usize)
    ensures
        n <= s@.len(),
        s@.take(n as int) == md_stem(s@),
{
    let md = vec!['.', 'm', 'd'];
    let mdx = vec!['.', 'm', 'd', 'x'];
    proof {
        assert(md@ =~= md_ext());
        assert(mdx@ =~= mdx_ext());
    }
    if ends_with_chars(s.as_slice(), md.as_slice()) {
        s.len() - 3
    } else if ends_with_chars(s.as_slice(), mdx.as_slice()) {
        s.len() - 4
    } else {
        proof {
            assert(s@.take(s@.len() as int) =~= s@);
        }
        s.len()
    }
}

/// The note path for a markdown file and a heading fragment: the file's safe
/// path without its extension, then (for a non-empty fragment) the safe
/// fragment, ending in `.md`.
pub fn note_relpath_from_parts(file_path: &str, fragment: &str, hash_seed: &str) -> (r: String)
    ensures
        r@ == note_path_from_parts(file_path@, fragment@, hash_seed@),
{
    let file = normalize_path_str(file_path);
    let fc = to_chars(file.as_str());
    let n = md_stem_chars(&fc);
    let stem = string_of_range(fc.as_slice(), 0, n);
    proof {
        assert(fc@.subrange(0, n as int) =~= fc@.take(n as int));
    }
    let base = sanitize_relpath(stem.as_str(), hash_seed);
    let mut out = to_chars(base.as_str());
    if !fragment.is_empty() {
        out.push('/');
        let frag = sanitize_path_component(fragment, hash_seed, MAX_NOTE_STEM_LEN);
        let frag_c = to_chars(frag.as_str());
        append_chars(&mut out, frag_c.as_slice());
    }
    let md = vec!['.', 'm', 'd'];
    append_chars(&mut out, md.as_slice());
    proof {
        assert(md@ =~= md_ext());
    }
    from_chars(out.as_slice())
}

/// Make `path` relative to `repo_prefix`: normalize separators, drop the
/// prefix, then one leading `/`, then any leading `./` pairs.
pub fn strip_repo_prefix(path: &str, repo_prefix: &str) -> (r: String)
    ensures
        r@ == stripped_path(path@, repo_prefix@),
{
    let norm = normalize_path_str(path);
    let p = to_chars(norm.as_str());
    let pre = to_chars(repo_prefix);
    let ghost p_seq = p@;
    let mut start: usize = if matches_at(p.as_slice(), 0, pre.as_slice()) { pre.len() } else { 0 };
    proof {
        if pre@.is_prefix_of(p@) {
            assert(p@.subrange(0, pre@.len() as int) =~= pre@);
        }
        if start == 0 {
            assert(p@.skip(0) =~= p@);
        }
    }
    let ghost p1 = p@.skip(start as int);
    if start < p.len() && p[start] == '/' {
        start = start + 1;
        proof {
            assert(p1.skip(1) =~= p@.skip(start as int));
        }
    }
    let ghost p2 = p@.skip(start as int);
    while p.len() - start >= 2 && p[start] == '.' && p[start + 1] == '/'
        invariant
            start <= p@.len(),
            p@.len() == p.len(),
            drop_dot_slashes(p2) == drop_dot_slashes(p@.skip(start as int)),
        decreases p@.len() - start,
    {
        proof {
            assert(p@.skip(start as int).skip(2) =~= p@.skip(start + 2));
        }
        start = start + 2;
    }
    proof {
        let q = p@.skip(start as int);
        assert(!(q.len() >= 2 && q[0] == '.' && q[1] == '/'));
        assert(p@.subrange(start as int, p@.len() as int) =~= q);
    }
    string_of_range(p.as_slice(), start, p.len())
}

/// The note path for a qualified name: `file#fragment` names become the
/// file's note folder and the fragment's note; other names become one note.
pub fn note_relpath(qualified_name: &str, repo_prefix: &str) -> (r: String)
    ensures
        r@ == note_path(qualified_name@, repo_prefix@),
{
    let normalized = normalize_path_str(qualified_name);
    let nc = to_chars(normalized.as_str());
    match find_char(nc.as_slice(), '#') {
        Some(i) => {
            assert(nc@.len() == nc.len());
            let file = string_of_range(nc.as_slice(), 0, i);
            let frag = string_of_range(nc.as_slice(), i + 1, nc.len());
            proof {
                assert(nc@.subrange(0, i as int) =~= nc@.take(i as int));
                assert(nc@.subrange(i + 1, nc@.len() as int) =~= nc@.skip(i + 1));
            }
            let rel_file = strip_repo_prefix(file.as_str(), repo_prefix);
            note_relpath_from_parts(rel_file.as_str(), frag.as_str(), qualified_name)
        },
        None => {
            let comp = sanitize_path_component(normalized.as_str(), qualified_name, MAX_NOTE_STEM_LEN);
            let mut out = to_chars(comp.as_str());
            let md = vec!['.', 'm', 'd'];
            append_chars(&mut out, md.as_slice());
            proof {
                assert(md@ =~= md_ext());
            }
            from_chars(out.as_slice())
        },
    }
}

/// The wikilink target of a note path: the path without `.md`.
pub fn obsidian_link_from_relpath(note_rel: &str) -> (r: String)
    ensures
        r@ == link_of_relpath(note_rel@),
{
    let cs = to_chars(note_rel);
    let md = vec!['.', 'm', 'd'];
    proof {
        assert(md@ =~= md_ext());
    }
    if ends_with_chars(cs.as_slice(), md.as_slice()) {
        string_of_range(cs.as_slice(), 0, cs.len() - 3)
    } else {
        proof {
            assert(cs@.subrange(0, cs@.len() as int) =~= cs@);
        }
        string_of_range(cs.as_slice(), 0, cs.len())
    }
}

// ---------------------------------------------------------------------------
// Laws
// ---------------------------------------------------------------------------

/// A character that may appear in a sanitized component: an ASCII letter or
/// digit, `-`, `_` or `.`.
pub open spec fn safe_char(c: char) -> bool {
    is_ascii_alnum(c) || c == '-' || c == '_' || c == '.'
}

/// Every character of `s` is safe.
pub open spec fn safe_chars(s: Seq<char>) -> bool {
    forall|i: int| 0 <= i < s.len() ==> #[trigger] safe_char(s[i])
}

proof fn lemma_collapse_safe(s: Seq<char>)
    requires
        safe_chars(s),
    ensures
        safe_chars(collapse_dashes(s)),
        collapse_dashes(s).len() <= s.len(),
    decreases s.len(),
{
    if s.len() > 0 {
        assert(safe_chars(s.drop_last()));
        lemma_collapse_safe(s.drop_last());
        assert(safe_char(s.last()));
    }
}

proof fn lemma_trim_start_safe(s: Seq<char>)
    requires
        safe_chars(s),
    ensures
        safe_chars(trim_start_dashes(s)),
        trim_start_dashes(s).len() <= s.len(),
    decreases s.len(),
{
    if s.len() > 0 && s[0] == '-' {
        assert(safe_chars(s.drop_first())) by {
            assert forall|i: int| 0 <= i < s.drop_first().len() implies #[trigger] safe_char(s.drop_first()[i]) by {
                assert(safe_char(s[i + 1]));
            }
        }
        lemma_trim_start_safe(s.drop_first());
    }
}

proof fn lemma_trim_end_safe(s: Seq<char>)
    requires
        safe_chars(s),
    ensures
        safe_chars(trim_end_dashes(s)),
        trim_end_dashes(s).len() <= s.len(),
    decreases s.len(),
{
    if s.len() > 0 && s.last() == '-' {
        assert(safe_chars(s.drop_last()));
        lemma_trim_end_safe(s.drop_last());
    }
}

proof fn lemma_hex_fixed(v: nat, n: nat)
    ensures
        hex_fixed(v, n).len() == n,
        safe_chars(hex_fixed(v, n)),
    decreases n,
{
    if n > 0 {
        lemma_hex_fixed(v / 16, (n - 1) as nat);
        let d = v % 16;
        assert(safe_char(hex_digit(d))) by {
            let t = seq!['0', '1', '2', '3', '4', '5', '6', '7', '8', '9', 'a', 'b', 'c', 'd', 'e', 'f'];
            assert(is_ascii_alnum(t[d as int]));
        }
    }
}

/// A sanitized component is never empty, uses only safe characters (so holds
/// no `/`), and is at most `max_len` characters long when `max_len` leaves
/// room for the hash suffix.
pub proof fn lemma_sanitized_component_shape(raw: Seq<char>, hash_seed: Seq<char>, max_len: nat)
    ensures
        sanitized_component(raw, hash_seed, max_len).len() > 0,
        safe_chars(sanitized_component(raw, hash_seed, max_len)),
        max_len >= 9 ==> sanitized_component(raw, hash_seed, max_len).len() <= max_len,
{
    let m = raw.map_values(|c: char| clean_char(c));
    assert(safe_chars(m));
    lemma_collapse_safe(m);
    lemma_trim_start_safe(collapse_dashes(m));
    lemma_trim_end_safe(trim_start_dashes(collapse_dashes(m)));
    let c = cleaned_component(raw);
    assert(safe_chars(c) && c.len() > 0) by {
        assert(safe_chars(section_word()));
    }
    if c.len() > max_len {
        let keep: nat = if max_len >= 9 { (max_len - 9) as nat } else { 0 };
        assert(safe_chars(c.take(keep as int)));
        lemma_trim_end_safe(c.take(keep as int));
        lemma_hex_fixed((str_default_hash(hash_seed) & 0xffff_ffffu64) as nat, 8);
        let r = trim_end_dashes(c.take(keep as int)) + seq!['-'] + short_hash_text(hash_seed);
        assert(safe_chars(r)) by {
            let t = trim_end_dashes(c.take(keep as int));
            assert forall|i: int| 0 <= i < r.len() implies #[trigger] safe_char(r[i]) by {
                if i < t.len() {
                    assert(r[i] == t[i]);
                } else if i == t.len() {
                    assert(r[i] == '-');
                } else {
                    assert(r[i] == short_hash_text(hash_seed)[i - t.len() - 1]);
                }
            }
        }
    }
}

/// Pieces without `/` are what splitting their join gives back.
proof fn lemma_split_join(ps: Seq<Seq<char>>)
    requires
        forall|i: int| 0 <= i < ps.len() ==> !(#[trigger] ps[i]).contains('/'),
    ensures
        split_on(join_slash(ps), '/') == if ps.len() == 0 { seq![Seq::<char>::empty()] } else { ps },
    decreases ps.len(),
{
    if ps.len() == 1 {
        lemma_split_on_append(Seq::<char>::empty(), ps[0], '/');
        assert(Seq::<char>::empty() + ps[0] =~= ps[0]);
        assert(seq![Seq::<char>::empty()].update(0, Seq::<char>::empty() + ps[0]) =~= ps);
    } else if ps.len() > 1 {
        lemma_split_join(ps.drop_last());
        assert(!ps.last().contains('/')) by {
            assert(ps[ps.len() - 1] == ps.last());
        }
        lemma_split_on_sep_append(join_slash(ps.drop_last()), ps.last(), '/');
        assert(ps.drop_last().push(ps.last()) =~= ps);
    }
}

proof fn lemma_no_slash_of_safe(s: Seq<char>)
    requires
        safe_chars(s),
    ensures
        !s.contains('/'),
{
    if s.contains('/') {
        let i = choose|i: int| 0 <= i < s.len() && s[i] == '/';
        assert(safe_char(s[i]));
    }
}

/// Every `/`-separated component of a note path is at most 255 characters
/// long (all of them ASCII), the file-name limit of common file systems.
pub proof fn lemma_note_path_components_bounded(file_path: Seq<char>, fragment: Seq<char>, hash_seed: Seq<char>)
    ensures
        forall|i: int|
            0 <= i < split_on(note_path_from_parts(file_path, fragment, hash_seed), '/').len() ==> (#[trigger] split_on(
                note_path_from_parts(file_path, fragment, hash_seed),
                '/',
            )[i]).len() <= 255,
{
    let stem = md_stem(slash_normalized(file_path));
    let pieces = nonempty_pieces(split_on(stem, '/'));
    let segs = pieces.map_values(|seg: Seq<char>| sanitized_segment(seg, hash_seed));
    assert forall|i: int| 0 <= i < segs.len() implies !(#[trigger] segs[i]).contains('/') && segs[i].len() <= 200 by {
        lemma_sanitized_component_shape(pieces[i], hash_seed + seq!['/'] + pieces[i], MAX_PATH_SEGMENT_LEN as nat);
        lemma_no_slash_of_safe(segs[i]);
    }
    let base = join_slash(segs);
    lemma_split_join(segs);
    let bp = split_on(base, '/');
    assert forall|i: int| 0 <= i < bp.len() implies (#[trigger] bp[i]).len() <= 200 by {
        if segs.len() > 0 {
            assert(bp[i] == segs[i]);
        }
    }
    let md = md_ext();
    assert(!md.contains('/')) by {
        if md.contains('/') {
            let i = choose|i: int| 0 <= i < md.len() && md[i] == '/';
        }
    }
    let note = note_path_from_parts(file_path, fragment, hash_seed);
    if fragment.len() == 0 {
        lemma_split_on_append(base, md, '/');
        lemma_split_on_nonempty(base, '/');
        assert(note == base + md);
    } else {
        let comp = sanitized_component(fragment, hash_seed, MAX_NOTE_STEM_LEN as nat);
        lemma_sanitized_component_shape(fragment, hash_seed, MAX_NOTE_STEM_LEN as nat);
        lemma_no_slash_of_safe(comp);
        let tail = comp + md;
        assert(!tail.contains('/')) by {
            if tail.contains('/') {
                let i = choose|i: int| 0 <= i < tail.len() && tail[i] == '/';
                if i < comp.len() {
                    assert(comp[i] == '/');
                } else {
                    assert(md[i - comp.len()] == '/');
                }
            }
        }
        assert(note =~= base + seq!['/'] + tail);
        lemma_split_on_sep_append(base, tail, '/');
    }
}

// ---------------------------------------------------------------------------
// Vault planning
// ---------------------------------------------------------------------------

/// Stats from an Obsidian vault export.
#[derive(Clone, Copy, Debug, PartialEq, Eq, Structural)]
pub struct ObsidianExportStats {
    /// Notes written.
    pub notes_written: usize,
    /// Wikilinks emitted from `References` edges.
    pub links_written: usize,
}

/// Section bodies kept outside the nodes, by key.
pub struct ContentStore {
    /// `(key, text)` entries; the first entry for a key is its text.
    pub entries: Vec<(String, String)>,
}

/// Text stored under `key` (the first entry with that key).
pub open spec fn store_lookup(entries: Seq<(String, String)>, key: Seq<char>) -> Option<Seq<char>>
    decreases entries.len(),
{
    if entries.len() == 0 {
        None
    } else if entries[0].0@ == key {
        Some(entries[0].1@)
    } else {
        store_lookup(entries.drop_first(), key)
    }
}

impl ContentStore {
    /// Text stored under `key`.
    pub fn get_str(&self, key: &str) -> (r: Option<&String>)
        ensures
            match r {
                Some(v) => store_lookup(self.entries@, key@) == Some(v@),
                None => store_lookup(self.entries@, key@) is None,
            },
    {
        let mut i: usize = 0;
        proof {
            assert(self.entries@.skip(0) =~= self.entries@);
        }
        while i < self.entries.len()
            invariant
                i <= self.entries@.len(),
                store_lookup(self.entries@, key@) == store_lookup(self.entries@.skip(i as int), key@),
            decreases self.entries@.len() - i,
        {
            proof {
                assert(self.entries@.skip(i as int).drop_first() =~= self.entries@.skip(i + 1));
                assert(self.entries@.skip(i as int)[0] == self.entries@[i as int]);
            }
            if str_eq(self.entries[i].0.as_str(), key) {
                return Some(&self.entries[i].1);
            }
            i = i + 1;
        }
        proof {
            assert(self.entries@.skip(i as int) =~= Seq::<(String, String)>::empty());
        }
        None
    }
}

/// The node is a markdown heading section.
pub open spec fn is_heading(n: Node) -> bool {
    n.node_type == NodeType::Module && n.property("kind"@) == Some("heading"@)
}

/// The body of a section: its `body_text` property, or else the stored text
/// its `body_ref` property names.
pub open spec fn body_of(n: Node, entries: Seq<(String, String)>) -> Option<Seq<char>> {
    match n.property("body_text"@) {
        Some(t) => Some(t),
        None => match n.property("body_ref"@) {
            Some(k) => store_lookup(entries, k),
            None => None,
        },
    }
}

/// The second `#`-separated piece of a qualified name, or nothing.
pub open spec fn heading_fragment(qn: Seq<char>) -> Seq<char> {
    let ps = split_on(qn, '#');
    if ps.len() > 1 { ps[1] } else { Seq::empty() }
}

/// Note path of a heading node, when it has a qualified name.
pub open spec fn heading_note_path(n: Node, repo_prefix: Seq<char>) -> Option<Seq<char>> {
    let file = match n.file_path {
        Some(f) => f@,
        None => Seq::empty(),
    };
    match n.qualified_name {
        Some(qn) => Some(note_path_from_parts(stripped_path(file, repo_prefix), heading_fragment(qn@), qn@)),
        None => None,
    }
}

/// The wikilink target for a node: headings link to their note, named nodes
/// to the note of their qualified name, files to their path without the
/// markdown extension.
pub open spec fn wikilink_for(n: Node, repo_prefix: Seq<char>) -> Option<Seq<char>> {
    if is_heading(n) {
        match heading_note_path(n, repo_prefix) {
            Some(p) => Some(link_of_relpath(p)),
            None => None,
        }
    } else if n.qualified_name is Some {
        Some(link_of_relpath(note_path(n.qualified_name->0@, repo_prefix)))
    } else if n.node_type == NodeType::File {
        let path = match n.file_path {
            Some(f) => f@,
            None => n.name@,
        };
        Some(md_stem(stripped_path(path, repo_prefix)))
    } else {
        None
    }
}

/// Note path for a heading node.
pub fn note_relpath_for_heading(node: &Node, repo_prefix: &str) -> (r: Option<String>)
    ensures
        match r {
            Some(p) => heading_note_path(*node, repo_prefix@) == Some(p@),
            None => heading_note_path(*node, repo_prefix@) is None,
        },
{
    let file = match &node.file_path {
        Some(f) => f.as_str().to_owned(),
        None => String::new(),
    };
    let rel_file = strip_repo_prefix(file.as_str(), repo_prefix);
    match &node.qualified_name {
        None => None,
        Some(qn) => {
            let qc = to_chars(qn.as_str());
            let pieces = split_chars(qc.as_slice(), '#');
            let frag = if pieces.len() > 1 {
                from_chars(pieces[1].as_slice())
            } else {
                String::new()
            };
            proof {
                if pieces@.len() > 1 {
                    assert(pieces@.map_values(|v: Vec<char>| v@)[1] == pieces@[1]@);
                }
            }
            Some(note_relpath_from_parts(rel_file.as_str(), frag.as_str(), qn.as_str()))
        },
    }
}

fn is_heading_exec(node: &Node) -> (b: bool)
    ensures
        b == is_heading(*node),
{
    if node.node_type != NodeType::Module {
        return false;
    }
    match node.get_property("kind") {
        Some(k) => str_eq(k.as_str(), "heading"),
        None => false,
    }
}

/// The wikilink target for a node (see [`wikilink_for`]).
pub fn obsidian_wikilink_for_node(node: &Node, repo_prefix: &str) -> (r: Option<String>)
    ensures
        match r {
            Some(p) => wikilink_for(*node, repo_prefix@) == Some(p@),
            None => wikilink_for(*node, repo_prefix@) is None,
        },
{
    if is_heading_exec(node) {
        return match note_relpath_for_heading(node, repo_prefix) {
            Some(p) => Some(obsidian_link_from_relpath(p.as_str())),
            None => None,
        };
    }
    if let Some(qn) = &node.qualified_name {
        let p = note_relpath(qn.as_str(), repo_prefix);
        return Some(obsidian_link_from_relpath(p.as_str()));
    }
    if node.node_type == NodeType::File {
        let path = match &node.file_path {
            Some(f) => f.as_str(),
            None => node.name.as_str(),
        };
        let rel = strip_repo_prefix(path, repo_prefix);
        let rc = to_chars(rel.as_str());
        let n = md_stem_chars(&rc);
        proof {
            assert(rc@.subrange(0, n as int) =~= rc@.take(n as int));
        }
        return Some(string_of_range(rc.as_slice(), 0, n));
    }
    None
}

/// The body of a section (see [`body_of`]).
pub fn resolve_body(node: &Node, store: &ContentStore) -> (r: Option<String>)
    ensures
        match r {
            Some(b) => body_of(*node, store.entries@) == Some(b@),
            None => body_of(*node, store.entries@) is None,
        },
{
    if let Some(text) = node.get_property("body_text") {
        return Some(text.as_str().to_owned());
    }
    if let Some(key) = node.get_property("body_ref") {
        return match store.get_str(key.as_str()) {
            Some(t) => Some(t.as_str().to_owned()),
            None => None,
        };
    }
    None
}

/// A note to write: its path inside the vault and its text.
pub struct ObsidianNote {
    /// Path relative to the vault root.
    pub path: String,
    /// Markdown text.
    pub content: String,
}

/// The first node with id `id`.
pub open spec fn node_by_id(nodes: Seq<Node>, id: u128) -> Option<Node>
    decreases nodes.len(),
{
    if nodes.len() == 0 {
        None
    } else if nodes[0].id == id {
        Some(nodes[0])
    } else {
        node_by_id(nodes.drop_first(), id)
    }
}

fn find_node<'a>(nodes: &'a [Node], id: u128) -> (r: Option<&'a Node>)
    ensures
        match r {
            Some(n) => node_by_id(nodes@, id) == Some(*n),
            None => node_by_id(nodes@, id) is None,
        },
{
    let mut i: usize = 0;
    proof {
        assert(nodes@.skip(0) =~= nodes@);
    }
    while i < nodes.len()
        invariant
            i <= nodes@.len(),
            node_by_id(nodes@, id) == node_by_id(nodes@.skip(i as int), id),
        decreases nodes@.len() - i,
    {
        proof {
            assert(nodes@.skip(i as int).drop_first() =~= nodes@.skip(i + 1));
            assert(nodes@.skip(i as int)[0] == nodes@[i as int]);
        }
        if nodes[i].id == id {
            return Some(&nodes[i]);
        }
        i = i + 1;
    }
    proof {
        assert(nodes@.skip(i as int) =~= Seq::<Node>::empty());
    }
    None
}

/// Wikilinks of a heading: `[[target]]` for each `References` edge from it
/// whose target node exists and has a link target, in edge order.
pub open spec fn heading_links(nodes: Seq<Node>, edges: Seq<crate::graph::Edge>, id: u128, repo_prefix: Seq<char>) -> Seq<Seq<char>>
    decreases edges.len(),
{
    if edges.len() == 0 {
        Seq::empty()
    } else {
        let r = heading_links(nodes, edges.drop_last(), id, repo_prefix);
        let e = edges.last();
        if e.from == id && e.edge_type == EdgeType::References {
            match node_by_id(nodes, e.to) {
                Some(t) => match wikilink_for(t, repo_prefix) {
                    Some(l) => r.push("[["@ + l + "]]"@),
                    None => r,
                },
                None => r,
            }
        } else {
            r
        }
    }
}

/// The text of a heading's note: front matter with the qualified name (and
/// the level, when there is one), the body (when there is one), then one
/// wikilink per line.
pub open spec fn note_text(qn: Seq<char>, level: Seq<char>, body: Seq<char>, links: Seq<Seq<char>>) -> Seq<char> {
    let front = "---\n"@ + "qualified_name: \""@ + qn + "\"\n"@ + (if level.len() > 0 {
        "level: \""@ + level + "\"\n"@
    } else {
        Seq::empty()
    }) + "---\n\n"@;
    let with_body = if body.len() > 0 { front + body + "\n"@ } else { front };
    with_body + links.map_values(|l: Seq<char>| l + "\n"@).flatten()
}

/// The note planned for a heading node.
pub open spec fn planned_note(n: Node, nodes: Seq<Node>, edges: Seq<crate::graph::Edge>, entries: Seq<(String, String)>, repo_prefix: Seq<char>) -> (Seq<char>, Seq<char>) {
    let qn = n.qualified_name->0@;
    let body = match body_of(n, entries) {
        Some(b) => b,
        None => Seq::empty(),
    };
    let level = match n.property("level"@) {
        Some(l) => l,
        None => Seq::empty(),
    };
    let links = heading_links(nodes, edges, n.id, repo_prefix);
    (heading_note_path(n, repo_prefix)->0, note_text(qn, level, body, links))
}

/// The heading sections that get a note: headings with a qualified name, in order.
pub open spec fn vault_headings(nodes: Seq<Node>) -> Seq<Node>
    decreases nodes.len(),
{
    if nodes.len() == 0 {
        nodes
    } else {
        let r = vault_headings(nodes.drop_last());
        if is_heading(nodes.last()) && nodes.last().qualified_name is Some {
            r.push(nodes.last())
        } else {
            r
        }
    }
}

/// Links counted over the headings.
pub open spec fn total_links(hs: Seq<Node>, nodes: Seq<Node>, edges: Seq<crate::graph::Edge>, repo_prefix: Seq<char>) -> nat
    decreases hs.len(),
{
    if hs.len() == 0 {
        0
    } else {
        total_links(hs.drop_last(), nodes, edges, repo_prefix) + heading_links(nodes, edges, hs.last().id, repo_prefix).len()
    }
}

/// There are no more headings than nodes.
proof fn lemma_vault_headings_len(nodes: Seq<Node>)
    ensures
        vault_headings(nodes).len() <= nodes.len(),
    decreases nodes.len(),
{
    if nodes.len() > 0 {
        lemma_vault_headings_len(nodes.drop_last());
    }
}

/// A count as a `usize` holds it: the count itself, or `usize::MAX` when it is larger.
pub open spec fn capped_count(n: nat) -> int {
    if n <= usize::MAX {
        n as int
    } else {
        usize::MAX as int
    }
}

/// Wikilinks of the heading with id `id`.
fn collect_links(nodes: &[Node], edges: &[crate::graph::Edge], id: u128, repo_prefix: &str) -> (r: Vec<String>)
    ensures
        r@.map_values(|l: String| l@) == heading_links(nodes@, edges@, id, repo_prefix@),
{
    let mut r: Vec<String> = Vec::new();
    let mut i: usize = 0;
    proof {
        assert(edges@.take(0) =~= Seq::<crate::graph::Edge>::empty());
    }
    while i < edges.len()
        invariant
            i <= edges@.len(),
            r@.map_values(|l: String| l@) == heading_links(nodes@, edges@.take(i as int), id, repo_prefix@),
        decreases edges@.len() - i,
    {
        let e = edges[i];
        proof {
            assert(edges@.take(i + 1).drop_last() =~= edges@.take(i as int));
            assert(edges@.take(i + 1).last() == e);
        }
        if e.from == id && e.edge_type == EdgeType::References {
            if let Some(t) = find_node(nodes, e.to) {
                if let Some(label) = obsidian_wikilink_for_node(t, repo_prefix) {
                    let head = concat_str("[[", label.as_str());
                    let link = concat_str(head.as_str(), "]]");
                    let ghost rb = r@;
                    r.push(link);
                    proof {
                        assert(r@.map_values(|l: String| l@) =~= rb.map_values(|l: String| l@).push(link@));
                    }
                }
            }
        }
        i = i + 1;
    }
    proof {
        assert(edges@.take(edges@.len() as int) =~= edges@);
    }
    r
}

fn push_str(out: &mut Vec<char>, s: &str)
    ensures
        final(out)@ == old(out)@ + s@,
{
    let cs = to_chars(s);
    append_chars(out, cs.as_slice());
}

/// The text of a heading's note (see [`note_text`]).
fn build_note_text(qn: &str, level: &str, body: &str, links: &Vec<String>) -> (r: String)
    ensures
        r@ == note_text(qn@, level@, body@, links@.map_values(|l: String| l@)),
{
    let mut out: Vec<char> = Vec::new();
    push_str(&mut out, "---\n");
    push_str(&mut out, "qualified_name: \"");
    push_str(&mut out, qn);
    push_str(&mut out, "\"\n");
    if !level.is_empty() {
        push_str(&mut out, "level: \"");
        push_str(&mut out, level);
        push_str(&mut out, "\"\n");
    }
    push_str(&mut out, "---\n\n");
    if !body.is_empty() {
        push_str(&mut out, body);
        push_str(&mut out, "\n");
    }
    let ghost head = out@;
    let ghost lv = links@.map_values(|l: String| l@);
    let ghost f = |l: Seq<char>| l + "\n"@;
    proof {
        let front = "---\n"@ + "qualified_name: \""@ + qn@ + "\"\n"@ + (if level@.len() > 0 {
            "level: \""@ + level@ + "\"\n"@
        } else {
            Seq::empty()
        }) + "---\n\n"@;
        let with_body = if body@.len() > 0 { front + body@ + "\n"@ } else { front };
        assert(head =~= with_body);
        assert(lv.take(0).map_values(f).flatten() =~= Seq::<char>::empty());
        assert(head + lv.take(0).map_values(f).flatten() =~= head);
    }
    let mut k: usize = 0;
    while k < links.len()
        invariant
            k <= links@.len(),
            lv == links@.map_values(|l: String| l@),
            f == (|l: Seq<char>| l + "\n"@),
            out@ == head + lv.take(k as int).map_values(f).flatten(),
        decreases links@.len() - k,
    {
        push_str(&mut out, links[k].as_str());
        push_str(&mut out, "\n");
        proof {
            assert(lv.take(k + 1).map_values(f) =~= lv.take(k as int).map_values(f).push(f(lv[k as int])));
            lv.take(k as int).map_values(f).lemma_flatten_push(f(lv[k as int]));
        }
        k = k + 1;
    }
    proof {
        assert(lv.take(links@.len() as int) =~= lv);
    }
    from_chars(out.as_slice())
}

/// Plan an Obsidian vault: one note per heading section with a qualified
/// name (in store order), at the heading's note path, with its front matter,
/// body and wikilinks; and the counts of notes and links.
pub fn plan_obsidian_vault(backend: &MemoryBackend, store: &ContentStore, repo_prefix: &str) -> (r: (Vec<ObsidianNote>, ObsidianExportStats))
    ensures
        ({
            let nodes = backend.node_seq();
            let edges = backend.edge_seq();
            let hs = vault_headings(nodes);
            &&& r.0@.len() == hs.len()
            &&& forall|i: int|
                0 <= i < hs.len() ==> ((#[trigger] r.0@[i]).path@, r.0@[i].content@) == planned_note(
                    hs[i],
                    nodes,
                    edges,
                    store.entries@,
                    repo_prefix@,
                )
            &&& r.1.notes_written == hs.len()
            &&& r.1.links_written == capped_count(total_links(hs, nodes, edges, repo_prefix@))
        }),
{
    let nodes = backend.nodes();
    let edges = backend.edges();
    let mut notes: Vec<ObsidianNote> = Vec::new();
    let mut links_written: usize = 0;
    let mut i: usize = 0;
    proof {
        assert(nodes@.take(0) =~= Seq::<Node>::empty());
        lemma_vault_headings_len(nodes@);
    }
    while i < nodes.len()
        invariant
            i <= nodes@.len(),
            nodes@ == backend.node_seq(),
            edges@ == backend.edge_seq(),
            notes@.len() == vault_headings(nodes@.take(i as int)).len(),
            forall|j: int|
                0 <= j < notes@.len() ==> ((#[trigger] notes@[j]).path@, notes@[j].content@) == planned_note(
                    vault_headings(nodes@.take(i as int))[j],
                    nodes@,
                    edges@,
                    store.entries@,
                    repo_prefix@,
                ),
            links_written == capped_count(total_links(vault_headings(nodes@.take(i as int)), nodes@, edges@, repo_prefix@)),
        decreases nodes@.len() - i,
    {
        let node = &nodes[i];
        let ghost hs0 = vault_headings(nodes@.take(i as int));
        proof {
            assert(nodes@.take(i + 1).drop_last() =~= nodes@.take(i as int));
            assert(nodes@.take(i + 1).last() == *node);
        }
        let heading = is_heading_exec(node);
        if heading && node.qualified_name.is_some() {
            let qn = node.qualified_name.as_ref().unwrap();
            let body = match resolve_body(node, store) {
                Some(b) => b,
                None => String::new(),
            };
            let path = note_relpath_for_heading(node, repo_prefix).unwrap();
            let links = collect_links(nodes, edges, node.id, repo_prefix);
            let level = match node.get_property("level") {
                Some(l) => l.as_str().to_owned(),
                None => String::new(),
            };
            let content = build_note_text(qn.as_str(), level.as_str(), body.as_str(), &links);
            proof {
                let hs1 = vault_headings(nodes@.take(i + 1));
                assert(hs1 == hs0.push(*node));
                assert(hs1.drop_last() =~= hs0);
            }
            links_written = links_written.saturating_add(links.len());
            let ghost nb = notes@;
            notes.push(ObsidianNote { path, content });
            proof {
                let hs1 = vault_headings(nodes@.take(i + 1));
                assert forall|j: int| 0 <= j < notes@.len() implies ((#[trigger] notes@[j]).path@, notes@[j].content@)
                    == planned_note(hs1[j], nodes@, edges@, store.entries@, repo_prefix@) by {
                    if j < nb.len() {
                        assert(notes@[j] == nb[j]);
                        assert(hs1[j] == hs0[j]);
                    }
                }
            }
        } else {
            proof {
                assert(vault_headings(nodes@.take(i + 1)) == hs0);
            }
        }
        i = i + 1;
    }
    proof {
        assert(nodes@.take(nodes@.len() as int) =~= nodes@);
    }
    let notes_written = notes.len();
    (notes, ObsidianExportStats { notes_written, links_written })
}

} // verus!
