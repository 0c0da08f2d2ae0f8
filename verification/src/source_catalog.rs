//! Deduplicated source files for the dashboard's slice and dataflow views:
//! a stable short id for each repository path, its line count, and the index
//! of all of them sorted by path.

use crate::obsidian::{hex_fixed, hex_fixed_exec};
use crate::text::{from_chars, to_chars};
use crate::universe_layout::{lemma_lex_irrefl, lemma_lex_total, lemma_lex_trans, lex_lt, lex_lt_exec};
use crate::usage_detector::{lines_of, split_lines};
use vstd::prelude::*;
use vstd::slice::slice_subrange;
use vstd::utf8::encode_utf8;

verus! {

/// Name of the index file in the bundle.
pub const SOURCE_INDEX_FILE: &'static str = "sources_index.json";

/// Directory of the deduplicated source texts in the bundle.
pub const SOURCE_FILES_DIR: &'static str = "sources";

/// Schema version of the index.
pub const SOURCE_INDEX_SCHEMA_VERSION: u32 = 1;

/// The index of deduplicated source files.
#[derive(Debug)]
pub struct SourceIndexPayload {
    /// Schema version.
    pub schema_version: u32,
    /// Entries, sorted by path.
    pub files: Vec<SourceFileEntry>,
}

/// One deduplicated source file.
#[derive(Debug)]
pub struct SourceFileEntry {
    /// Stable short id of the path.
    pub source_id: String,
    /// Repository path.
    pub file_path: String,
    /// Number of lines (at least 1).
    pub total_lines: usize,
}

impl SourceFileEntry {
    /// A copy of this entry.
    pub fn copy(&self) -> (r: SourceFileEntry)
        ensures
            r == *self,
    {
        SourceFileEntry {
            source_id: self.source_id.clone(),
            file_path: self.file_path.clone(),
            total_lines: self.total_lines,
        }
    }
}

/// The BLAKE3 hash of `input`, as `blake3::hash` computes it.
pub uninterp spec fn blake3_digest(input: Seq<u8>) -> Seq<u8>;

/// Calls `blake3::hash`. Claimed: the result is the hash of the input, named
/// `blake3_digest`, and is 32 bytes long (`blake3::OUT_LEN`).
#[verifier::external_body]
pub(crate) fn blake3_hash(input: &[u8]) -> (r: Vec<u8>)
    ensures
        r@ == blake3_digest(input@),
        r@.len() == 32,
{
    blake3::hash(input).as_bytes().to_vec()
}

/// Lower-case hexadecimal of `bytes`, two digits per byte.
pub open spec fn lower_hex(bytes: Seq<u8>) -> Seq<char>
    decreases bytes.len(),
{
    if bytes.len() == 0 {
        Seq::empty()
    } else {
        lower_hex(bytes.drop_last()) + hex_fixed(bytes.last() as nat, 2)
    }
}

/// The id of a path: the first sixteen hex digits of the BLAKE3 hash of its
/// UTF-8 bytes, that is the first eight bytes of the hash in lower-case hex.
pub open spec fn source_id(path: Seq<char>) -> Seq<char> {
    lower_hex(blake3_digest(encode_utf8(path)).take(8))
}

/// Lower-case hexadecimal of `bytes`.
pub(crate) fn lower_hex_string(bytes: &[u8]) -> (r: String)
    ensures
        r@ == lower_hex(bytes@),
{
    let mut out: Vec<char> = Vec::new();
    let mut i: usize = 0;
    proof {
        assert(bytes@.take(0) =~= Seq::<u8>::empty());
    }
    while i < bytes.len()
        invariant
            i <= bytes@.len(),
            out@ == lower_hex(bytes@.take(i as int)),
        decreases bytes@.len() - i,
    {
        let pair = hex_fixed_exec(bytes[i] as u64, 2);
        let mut k: usize = 0;
        let ghost before = out@;
        while k < pair.len()
            invariant
                k <= pair@.len(),
                out@ == before + pair@.take(k as int),
            decreases pair@.len() - k,
        {
            out.push(pair[k]);
            proof {
                assert(pair@.take(k + 1) =~= pair@.take(k as int).push(pair@[k as int]));
            }
            k = k + 1;
        }
        proof {
            assert(pair@.take(pair@.len() as int) =~= pair@);
            assert(bytes@.take(i + 1).drop_last() =~= bytes@.take(i as int));
            assert(bytes@.take(i + 1).last() == bytes@[i as int]);
        }
        i = i + 1;
    }
    proof {
        assert(bytes@.take(i as int) =~= bytes@);
    }
    from_chars(out.as_slice())
}

/// Stable short id for a repository source path.
pub fn source_id_for_path(file_path: &str) -> (r: String)
    ensures
        r@ == source_id(file_path@),
{
    let digest = blake3_hash(file_path.as_bytes());
    lower_hex_string(slice_subrange(digest.as_slice(), 0, 8))
}

/// Number of lines of a source text, counted as `str::lines` does, and at least 1.
pub open spec fn line_count(text: Seq<char>) -> nat {
    if lines_of(text).len() == 0 {
        1
    } else {
        lines_of(text).len()
    }
}

/// The entry of a source file read from `file_path` with contents `text`.
pub fn source_entry(file_path: &str, text: &str) -> (e: SourceFileEntry)
    ensures
        e.source_id@ == source_id(file_path@),
        e.file_path@ == file_path@,
        e.total_lines == line_count(text@),
{
    let lines = split_lines(text);
    proof {
        assert(lines@.len() == lines_of(text@).len());
    }
    let n = if lines.len() == 0 {
        1
    } else {
        lines.len()
    };
    SourceFileEntry { source_id: source_id_for_path(file_path), file_path: file_path.to_owned(), total_lines: n }
}

/// Entries are in order of path (equal paths in any order).
pub open spec fn sorted_by_path(es: Seq<SourceFileEntry>) -> bool {
    forall|i: int, j: int| 0 <= i < j < es.len() ==> !lex_lt(es[j].file_path@, es[i].file_path@)
}

/// The entries with path `p`, in order.
pub open spec fn with_path(es: Seq<SourceFileEntry>, p: Seq<char>) -> Seq<SourceFileEntry>
    decreases es.len(),
{
    if es.len() == 0 {
        Seq::empty()
    } else {
        let r = with_path(es.drop_last(), p);
        if es.last().file_path@ == p {
            r.push(es.last())
        } else {
            r
        }
    }
}

proof fn lemma_with_path_concat(a: Seq<SourceFileEntry>, b: Seq<SourceFileEntry>, p: Seq<char>)
    ensures
        with_path(a + b, p) == with_path(a, p) + with_path(b, p),
    decreases b.len(),
{
    if b.len() == 0 {
        assert(a + b =~= a);
        assert(with_path(a, p) + with_path(b, p) =~= with_path(a, p));
    } else {
        lemma_with_path_concat(a, b.drop_last(), p);
        assert((a + b).drop_last() =~= a + b.drop_last());
        assert((a + b).last() == b.last());
        if b.last().file_path@ == p {
            assert(with_path(a, p) + with_path(b, p) =~= (with_path(a, p) + with_path(b.drop_last(), p)).push(b.last()));
        }
    }
}

proof fn lemma_with_path_none(a: Seq<SourceFileEntry>, p: Seq<char>)
    requires
        forall|j: int| 0 <= j < a.len() ==> (#[trigger] a[j]).file_path@ != p,
    ensures
        with_path(a, p) == Seq::<SourceFileEntry>::empty(),
    decreases a.len(),
{
    if a.len() > 0 {
        lemma_with_path_none(a.drop_last(), p);
        assert(a.last() == a[a.len() - 1]);
    }
}

/// Whether the path `x` sorts strictly before the path of `e`.
fn path_sorts_before(x: &Vec<char>, e: &SourceFileEntry) -> (r: bool)
    ensures
        r == lex_lt(x@, e.file_path@),
{
    let ek = to_chars(e.file_path.as_str());
    lex_lt_exec(x, &ek)
}

/// The index of `entries`: schema version 1, entries sorted by path, with
/// entries of equal path in their given order.
pub fn source_index_payload(entries: &[SourceFileEntry]) -> (r: SourceIndexPayload)
    ensures
        r.schema_version == SOURCE_INDEX_SCHEMA_VERSION,
        r.files@.len() == entries@.len(),
        sorted_by_path(r.files@),
        forall|p: Seq<char>| with_path(r.files@, p) == with_path(entries@, p),
{
    let mut files: Vec<SourceFileEntry> = Vec::new();
    let mut i: usize = 0;
    proof {
        assert(entries@.take(0) =~= Seq::<SourceFileEntry>::empty());
    }
    while i < entries.len()
        invariant
            i <= entries@.len(),
            files@.len() == i,
            sorted_by_path(files@),
            forall|p: Seq<char>| with_path(files@, p) == with_path(#[trigger] entries@.take(i as int), p),
        decreases entries@.len() - i,
    {
        let x = entries[i].copy();
        let xk = to_chars(x.file_path.as_str());
        let mut k: usize = files.len();
        while k > 0 && path_sorts_before(&xk, &files[k - 1])
            invariant
                k <= files@.len(),
                xk@ == x.file_path@,
                forall|j: int| k <= j < files@.len() ==> lex_lt(x.file_path@, #[trigger] files@[j].file_path@),
            decreases k,
        {
            k = k - 1;
        }
        let ghost old_files = files@;
        let ghost xp = x.file_path@;
        proof {
            // Everything before `k` sorts at or before `x`.
            assert forall|j: int| 0 <= j < k implies !lex_lt(xp, #[trigger] old_files[j].file_path@) by {
                if k > 0 && j < k - 1 {
                    let a = old_files[j].file_path@;
                    let b = old_files[k - 1].file_path@;
                    assert(!lex_lt(b, a));
                    assert(!lex_lt(xp, b));
                    if lex_lt(xp, a) {
                        if a == b {
                        } else {
                            lemma_lex_total(a, b);
                            lemma_lex_trans(xp, a, b);
                        }
                    }
                }
            }
        }
        files.insert(k, x);
        proof {
            let nf = files@;
            assert(nf =~= old_files.take(k as int) + seq![entries@[i as int]] + old_files.skip(k as int));
            assert forall|a: int, b: int| 0 <= a < b < nf.len() implies !lex_lt(nf[b].file_path@, nf[a].file_path@) by {
                if a < k && b < k {
                    assert(nf[a] == old_files[a] && nf[b] == old_files[b]);
                } else if a < k && b == k {
                    assert(nf[a] == old_files[a]);
                    assert(!lex_lt(xp, old_files[a].file_path@));
                } else if a < k && b > k {
                    assert(nf[a] == old_files[a] && nf[b] == old_files[b - 1]);
                } else if a == k {
                    assert(nf[b] == old_files[b - 1]);
                    let c = old_files[b - 1].file_path@;
                    assert(lex_lt(xp, c));
                    if lex_lt(c, xp) {
                        lemma_lex_trans(xp, c, xp);
                        lemma_lex_irrefl(xp);
                    }
                } else {
                    assert(nf[a] == old_files[a - 1] && nf[b] == old_files[b - 1]);
                }
            }
            assert forall|p: Seq<char>| with_path(nf, p) == with_path(#[trigger] entries@.take(i + 1), p) by {
                let pre = old_files.take(k as int);
                let post = old_files.skip(k as int);
                assert(old_files =~= pre + post);
                lemma_with_path_concat(pre, post, p);
                lemma_with_path_concat(pre + seq![entries@[i as int]], post, p);
                lemma_with_path_concat(pre, seq![entries@[i as int]], p);
                let one = seq![entries@[i as int]];
                assert(one.drop_last() =~= Seq::<SourceFileEntry>::empty());
                assert(one.last() == entries@[i as int]);
                assert(with_path(Seq::<SourceFileEntry>::empty(), p) == Seq::<SourceFileEntry>::empty());
                assert(entries@.take(i + 1).drop_last() =~= entries@.take(i as int));
                assert(entries@.take(i + 1).last() == entries@[i as int]);
                assert(nf =~= (pre + one) + post);
                assert(with_path(old_files, p) == with_path(entries@.take(i as int), p));
                if p == xp {
                    assert(with_path(one, p) =~= one);
                    assert forall|j: int| 0 <= j < post.len() implies (#[trigger] post[j]).file_path@ != p by {
                        assert(post[j] == old_files[k + j]);
                        lemma_lex_irrefl(xp);
                    }
                    lemma_with_path_none(post, p);
                    assert(with_path(old_files, p) =~= with_path(pre, p));
                    assert(with_path(nf, p) =~= with_path(pre, p).push(entries@[i as int]));
                } else {
                    assert(with_path(one, p) =~= Seq::<SourceFileEntry>::empty());
                    assert(with_path(nf, p) =~= with_path(pre, p) + with_path(post, p));
                }
            }
        }
        i = i + 1;
    }
    proof {
        assert(entries@.take(i as int) =~= entries@);
    }
    SourceIndexPayload { schema_version: SOURCE_INDEX_SCHEMA_VERSION, files }
}

} // verus!
