//! Tokenizers that turn text into model input ids for semantic embedders.

use crate::error::Error;
use crate::obsidian::nonempty_pieces;
use crate::text::{char_is_alphanumeric, push_char, to_chars, unicode_alphanumeric};
use vstd::prelude::*;
use vstd::utf8::encode_utf8;
use vstd::wrapping::u64_specs;

verus! {

/// How model inputs are tokenized before inference.
#[derive(Clone, Debug)]
pub enum OnnxTokenizer {
    /// Hash-based token ids (generic fallback for unknown models).
    Hash {
        /// Maximum sequence length.
        max_seq_len: usize,
        /// Vocabulary size used when hashing tokens.
        vocab_size: usize,
    },
    /// SentencePiece model.
    SentencePiece {
        /// Path to the SentencePiece model file.
        path: String,
        /// Maximum sequence length for padding/truncation.
        max_seq_len: usize,
        /// Beginning-of-sequence token id.
        bos_id: i64,
        /// End-of-sequence token id.
        eos_id: i64,
        /// Padding token id.
        pad_id: i64,
    },
}

/// FNV-1a offset basis.
pub const FNV_OFFSET: u64 = 0xcbf29ce484222325;

/// FNV-1a prime.
pub const FNV_PRIME: u64 = 0x100000001b3;

/// 64-bit FNV-1a hash of the bytes.
pub open spec fn fnv1a(bytes: Seq<u8>) -> u64
    decreases bytes.len(),
{
    if bytes.len() == 0 {
        FNV_OFFSET
    } else {
        u64_specs::wrapping_mul(fnv1a(bytes.drop_last()) ^ (bytes.last() as u64), FNV_PRIME)
    }
}

/// A character that belongs to a word: alphanumeric or `_`. Among ASCII
/// characters the alphanumeric ones (Unicode's Alphabetic or Numeric) are
/// exactly the letters and digits.
pub open spec fn is_word_char(c: char) -> bool {
    let u = c as u32;
    if u < 128 {
        (48 <= u <= 57) || (65 <= u <= 90) || (97 <= u <= 122) || u == 95
    } else {
        unicode_alphanumeric(c)
    }
}

/// `s` split at every character that is not a word character.
pub open spec fn word_split(s: Seq<char>) -> Seq<Seq<char>>
    decreases s.len(),
{
    if s.len() == 0 {
        seq![Seq::<char>::empty()]
    } else {
        let r = word_split(s.drop_last());
        if !is_word_char(s.last()) {
            r.push(Seq::empty())
        } else {
            r.update(r.len() - 1, r.last().push(s.last()))
        }
    }
}

proof fn lemma_word_split_nonempty(s: Seq<char>)
    ensures
        word_split(s).len() >= 1,
    decreases s.len(),
{
    if s.len() > 0 {
        lemma_word_split_nonempty(s.drop_last());
    }
}

/// The words of `s`, in order.
pub open spec fn words(s: Seq<char>) -> Seq<Seq<char>> {
    nonempty_pieces(word_split(s))
}

/// Id of one word.
pub open spec fn word_id(w: Seq<char>, vocab_size: nat) -> i64 {
    (fnv1a(encode_utf8(w)) % (vocab_size as u64)) as i64
}

/// Ids of the first `max_seq_len` words, or the single id `0` when there are none.
pub open spec fn hash_token_ids(s: Seq<char>, max_seq_len: nat, vocab_size: nat) -> Seq<i64> {
    let ws = words(s);
    let k = if ws.len() < max_seq_len { ws.len() } else { max_seq_len };
    let ids = ws.take(k as int).map_values(|w: Seq<char>| word_id(w, vocab_size));
    if ids.len() == 0 {
        seq![0i64]
    } else {
        ids
    }
}

/// 64-bit FNV-1a hash of the UTF-8 bytes of `token`.
pub fn hash_token(token: &str) -> (h: u64)
    ensures
        h == fnv1a(encode_utf8(token@)),
{
    let bytes = token.as_bytes();
    let mut hash: u64 = FNV_OFFSET;
    let mut i: usize = 0;
    proof {
        assert(bytes@.take(0) =~= Seq::<u8>::empty());
    }
    while i < bytes.len()
        invariant
            bytes@ == encode_utf8(token@),
            i <= bytes@.len(),
            hash == fnv1a(bytes@.take(i as int)),
        decreases bytes@.len() - i,
    {
        proof {
            assert(bytes@.take(i + 1).drop_last() =~= bytes@.take(i as int));
            assert(bytes@.take(i + 1).last() == bytes@[i as int]);
        }
        hash = hash ^ (bytes[i] as u64);
        hash = hash.wrapping_mul(FNV_PRIME);
        i = i + 1;
    }
    proof {
        assert(bytes@.take(bytes@.len() as int) =~= bytes@);
    }
    hash
}

/// Record the word `cur` (if any) unless `max_seq_len` ids are already there.
fn take_word(ids: &mut Vec<i64>, cur: &String, max_seq_len: usize, vocab_size: usize)
    requires
        vocab_size > 0,
    ensures
        final(ids)@ == if cur@.len() > 0 && old(ids)@.len() < max_seq_len {
            old(ids)@.push(word_id(cur@, vocab_size as nat))
        } else {
            old(ids)@
        },
{
    if !cur.as_str().is_empty() && ids.len() < max_seq_len {
        let h = hash_token(cur.as_str());
        ids.push((h % vocab_size as u64) as i64);
    }
}

proof fn lemma_take_push(ws: Seq<Seq<char>>, w: Seq<char>, m: nat, vocab: nat)
    ensures
        ({
            let f = |x: Seq<char>| word_id(x, vocab);
            let k0 = if ws.len() < m { ws.len() } else { m };
            let ws2 = ws.push(w);
            let k1 = if ws2.len() < m { ws2.len() } else { m };
            ws2.take(k1 as int).map_values(f) == if ws.len() < m {
                ws.take(k0 as int).map_values(f).push(f(w))
            } else {
                ws.take(k0 as int).map_values(f)
            }
        }),
{
    let f = |x: Seq<char>| word_id(x, vocab);
    let ws2 = ws.push(w);
    if ws.len() < m {
        assert(ws2.take(ws2.len() as int) =~= ws.take(ws.len() as int).push(w));
        assert(ws2.take(ws2.len() as int).map_values(f) =~= ws.take(ws.len() as int).map_values(f).push(f(w)));
    } else {
        assert(ws2.take(m as int) =~= ws.take(m as int));
    }
}

/// Hashing is defined: there is a vocabulary to hash into, or no word is
/// hashed (the text has none, or none is kept).
pub open spec fn hash_tokenize_defined(s: Seq<char>, max_seq_len: nat, vocab_size: nat) -> bool {
    vocab_size > 0 || max_seq_len == 0 || words(s).len() == 0
}

/// Split `text` into words (runs of alphanumeric characters and `_`), hash
/// each of the first `max_seq_len` words into `0..vocab_size`, and return the
/// ids with an all-ones attention mask; an input without words gives the id `0`.
pub fn hash_tokenize(text: &str, max_seq_len: usize, vocab_size: usize) -> (r: (Vec<i64>, Vec<i64>))
    requires
        hash_tokenize_defined(text@, max_seq_len as nat, vocab_size as nat),
    ensures
        r.0@ == hash_token_ids(text@, max_seq_len as nat, vocab_size as nat),
        r.1@ == Seq::new(r.0@.len(), |i: int| 1i64),
{
    if vocab_size == 0 {
        // no word is hashed: there is none, or none is kept
        let mut ids: Vec<i64> = Vec::new();
        ids.push(0);
        let mut mask: Vec<i64> = Vec::new();
        mask.push(1);
        proof {
            let ws = words(text@);
            assert(ws.take(0).map_values(|w: Seq<char>| word_id(w, 0)).len() == 0);
            assert(ids@ =~= seq![0i64]);
            assert(mask@ =~= Seq::new(ids@.len(), |i: int| 1i64));
        }
        return (ids, mask);
    }
    let cs = to_chars(text);
    let ghost f = |x: Seq<char>| word_id(x, vocab_size as nat);
    let mut ids: Vec<i64> = Vec::new();
    let mut cur = String::new();
    let mut i: usize = 0;
    proof {
        assert(cs@.take(0) =~= Seq::<char>::empty());
        assert(nonempty_pieces(Seq::<Seq<char>>::empty()).take(0).map_values(f) =~= Seq::<i64>::empty());
    }
    while i < cs.len()
        invariant
            cs@ == text@,
            vocab_size > 0,
            f == (|x: Seq<char>| word_id(x, vocab_size as nat)),
            i <= cs@.len(),
            word_split(cs@.take(i as int)).len() >= 1,
            cur@ == word_split(cs@.take(i as int)).last(),
            ({
                let ws = nonempty_pieces(word_split(cs@.take(i as int)).drop_last());
                let k = if ws.len() < max_seq_len { ws.len() } else { max_seq_len as nat };
                ids@ == ws.take(k as int).map_values(f)
            }),
        decreases cs@.len() - i,
    {
        let ghost ps = word_split(cs@.take(i as int));
        let c = cs[i];
        let u = c as u32;
        let word = if u < 128 {
            (48 <= u && u <= 57) || (65 <= u && u <= 90) || (97 <= u && u <= 122) || u == 95
        } else {
            char_is_alphanumeric(c)
        };
        proof {
            assert(cs@.take(i + 1).drop_last() =~= cs@.take(i as int));
            assert(cs@.take(i + 1).last() == c);
        }
        if !word {
            let ghost ws = nonempty_pieces(ps.drop_last());
            take_word(&mut ids, &cur, max_seq_len, vocab_size);
            proof {
                assert(word_split(cs@.take(i + 1)) == ps.push(Seq::<char>::empty()));
                assert(ps.push(Seq::<char>::empty()).drop_last() =~= ps);
                assert(ps =~= ps.drop_last().push(ps.last()));
                if cur@.len() > 0 {
                    assert(nonempty_pieces(ps) == ws.push(cur@));
                    lemma_take_push(ws, cur@, max_seq_len as nat, vocab_size as nat);
                    let k0 = if ws.len() < max_seq_len { ws.len() } else { max_seq_len as nat };
                    assert(ws.take(k0 as int).map_values(f).len() == k0);
                } else {
                    assert(nonempty_pieces(ps) == ws);
                }
            }
            cur = String::new();
        } else {
            push_char(&mut cur, c);
            proof {
                assert(word_split(cs@.take(i + 1)) == ps.update(ps.len() - 1, ps.last().push(c)));
                assert(ps.update(ps.len() - 1, ps.last().push(c)).drop_last() =~= ps.drop_last());
            }
        }
        i = i + 1;
    }
    let ghost ps = word_split(cs@.take(i as int));
    let ghost ws = nonempty_pieces(ps.drop_last());
    take_word(&mut ids, &cur, max_seq_len, vocab_size);
    proof {
        assert(cs@.take(i as int) =~= cs@);
        assert(ps =~= ps.drop_last().push(ps.last()));
        if cur@.len() > 0 {
            assert(nonempty_pieces(ps) == ws.push(cur@));
            lemma_take_push(ws, cur@, max_seq_len as nat, vocab_size as nat);
            let k0 = if ws.len() < max_seq_len { ws.len() } else { max_seq_len as nat };
            assert(ws.take(k0 as int).map_values(f).len() == k0);
        } else {
            assert(nonempty_pieces(ps) == ws);
        }
    }
    if ids.len() == 0 {
        ids.push(0);
    }
    let mut mask: Vec<i64> = Vec::new();
    let mut j: usize = 0;
    while j < ids.len()
        invariant
            j <= ids@.len(),
            mask@ == Seq::new(j as nat, |i: int| 1i64),
        decreases ids@.len() - j,
    {
        mask.push(1);
        proof {
            assert(mask@ =~= Seq::new((j + 1) as nat, |i: int| 1i64));
        }
        j = j + 1;
    }
    (ids, mask)
}

/// The message of the SentencePiece branch in builds without a SentencePiece backend.
pub open spec fn sentencepiece_unavailable_message() -> Seq<char> {
    "SentencePiece tokenization requires `--features semantic-onnx`"@
}

/// SentencePiece encoding; this build has no SentencePiece backend and
/// reports a configuration error.
pub fn sentencepiece_encode(
    text: &str,
    model_path: &str,
    max_seq_len: usize,
    bos_id: i64,
    eos_id: i64,
    pad_id: i64,
) -> (r: Result<(Vec<i64>, Vec<i64>), Error>)
    ensures
        r matches Err(Error::ConfigError(m)) && m@ == sentencepiece_unavailable_message(),
{
    let m = "SentencePiece tokenization requires `--features semantic-onnx`";
    Err(Error::ConfigError(m.to_owned()))
}

impl OnnxTokenizer {
    /// Tokenize one string into `(input_ids, attention_mask)` for batch size 1.
    pub fn encode(&self, text: &str) -> (r: Result<(Vec<i64>, Vec<i64>), Error>)
        requires
            self matches OnnxTokenizer::Hash { max_seq_len, vocab_size } ==> hash_tokenize_defined(
                text@,
                max_seq_len as nat,
                vocab_size as nat,
            ),
        ensures
            match *self {
                OnnxTokenizer::Hash { max_seq_len, vocab_size } => r matches Ok(p) && p.0@ == hash_token_ids(
                    text@,
                    max_seq_len as nat,
                    vocab_size as nat,
                ) && p.1@ == Seq::new(p.0@.len(), |i: int| 1i64),
                OnnxTokenizer::SentencePiece { .. } => r matches Err(Error::ConfigError(m)) && m@
                    == sentencepiece_unavailable_message(),
            },
    {
        match self {
            OnnxTokenizer::Hash { max_seq_len, vocab_size } => Ok(hash_tokenize(text, *max_seq_len, *vocab_size)),
            OnnxTokenizer::SentencePiece { path, max_seq_len, bos_id, eos_id, pad_id } => sentencepiece_encode(
                text,
                path.as_str(),
                *max_seq_len,
                *bos_id,
                *eos_id,
                *pad_id,
            ),
        }
    }
}


/// File names looked for beside the model, in order.
pub open spec fn tokenizer_file_names() -> Seq<Seq<char>> {
    seq!["sentencepiece.bpe.model"@, "tokenizer.model"@, "spiece.model"@]
}

/// The file names looked for beside the model, in order.
pub fn sentencepiece_file_names() -> (r: Vec<&'static str>)
    ensures
        r@.map_values(|s: &str| s@) == tokenizer_file_names(),
{
    let r = vec!["sentencepiece.bpe.model", "tokenizer.model", "spiece.model"];
    proof {
        assert(r@.map_values(|s: &str| s@) =~= tokenizer_file_names());
    }
    r
}

/// Index of the first candidate that exists.
pub open spec fn first_present(cs: Seq<(String, bool)>, i: int) -> Option<int>
    decreases cs.len() - i,
{
    if i < 0 || i >= cs.len() {
        None
    } else if cs[i].1 {
        Some(i)
    } else {
        first_present(cs, i + 1)
    }
}

/// Where the SentencePiece tokenizer is: the explicit path when one is given
/// (an error when it is not a file); otherwise the first candidate beside
/// the model that exists. `explicit` carries whether the path is a file;
/// `candidates` are the files named by `sentencepiece_file_names` in the
/// model's directory with whether each exists, or `None` when the model
/// path has no directory.
pub fn choose_sentencepiece_path(
    model_display: &str,
    explicit: Option<(&str, bool)>,
    candidates: Option<&[(String, bool)]>,
) -> (r: Result<String, Error>)
    ensures
        match explicit {
            Some((p, true)) => r matches Ok(q) && q@ == p@,
            Some((p, false)) => r matches Err(Error::ConfigError(m)) && m@ == "tokenizer not found: "@ + p@,
            None => match candidates {
                None => r matches Err(Error::ConfigError(m)) && m@ == "model path has no parent directory"@,
                Some(cs) => match first_present(cs@, 0) {
                    Some(i) => r matches Ok(q) && q@ == cs@[i].0@,
                    None => r matches Err(Error::ConfigError(m)) && m@ == "no SentencePiece tokenizer beside "@
                        + model_display@ + "; pass --tokenizer PATH"@,
                },
            },
        },
{
    match explicit {
        Some((p, is_file)) => {
            if !is_file {
                return Err(Error::ConfigError(crate::text::concat_str("tokenizer not found: ", p)));
            }
            return Ok(p.to_owned());
        },
        None => {},
    }
    let cs = match candidates {
        Some(cs) => cs,
        None => {
            return Err(Error::ConfigError("model path has no parent directory".to_owned()));
        },
    };
    let mut i: usize = 0;
    while i < cs.len()
        invariant
            explicit is None,
            candidates == Some(cs),
            i <= cs@.len(),
            first_present(cs@, 0) == first_present(cs@, i as int),
        decreases cs@.len() - i,
    {
        if cs[i].1 {
            return Ok(cs[i].0.clone());
        }
        i = i + 1;
    }
    let head = crate::text::concat_str("no SentencePiece tokenizer beside ", model_display);
    Err(Error::ConfigError(crate::text::concat_str(head.as_str(), "; pass --tokenizer PATH")))
}


/// Splitting text extended by word characters extends its last piece.
proof fn lemma_word_split_extend(x: Seq<char>, b: Seq<char>)
    requires
        forall|i: int| 0 <= i < b.len() ==> is_word_char(#[trigger] b[i]),
    ensures
        word_split(x + b) == word_split(x).update(word_split(x).len() - 1, word_split(x).last() + b),
    decreases b.len(),
{
    lemma_word_split_nonempty(x);
    if b.len() == 0 {
        assert(x + b =~= x);
        assert(word_split(x).last() + b =~= word_split(x).last());
        assert(word_split(x).update(word_split(x).len() - 1, word_split(x).last()) =~= word_split(x));
    } else {
        let bp = b.drop_last();
        assert forall|i: int| 0 <= i < bp.len() implies is_word_char(#[trigger] bp[i]) by {
            assert(bp[i] == b[i]);
        }
        lemma_word_split_extend(x, bp);
        assert((x + b).drop_last() =~= x + bp);
        assert((x + b).last() == b[b.len() - 1]);
        let w = word_split(x);
        assert((w.last() + bp).push(b.last()) =~= w.last() + b);
        assert(w.update(w.len() - 1, w.last() + bp).update(w.len() - 1, (w.last() + bp).push(b.last())) =~= w.update(
            w.len() - 1,
            w.last() + b,
        ));
    }
}

/// Law: a text that is one run of ASCII letters, digits and `_` is one word,
/// so it hashes to exactly one id, that of the whole text.
pub proof fn lemma_ascii_run_is_one_word(s: Seq<char>, max_seq_len: nat, vocab_size: nat)
    requires
        s.len() > 0,
        forall|i: int| 0 <= i < s.len() ==> {
            let u = #[trigger] s[i] as u32;
            (48 <= u <= 57) || (65 <= u <= 90) || (97 <= u <= 122) || u == 95
        },
        max_seq_len > 0,
    ensures
        hash_token_ids(s, max_seq_len, vocab_size) == seq![word_id(s, vocab_size)],
{
    let e = Seq::<char>::empty();
    assert forall|i: int| 0 <= i < s.len() implies is_word_char(#[trigger] s[i]) by {}
    lemma_word_split_extend(e, s);
    assert(e + s =~= s);
    assert(word_split(e) == seq![e]);
    assert(seq![e].update(0, e + s) =~= seq![s]);
    let ws = words(s);
    assert(seq![s].drop_last() =~= Seq::<Seq<char>>::empty());
    assert(seq![s].last() == s);
    assert(nonempty_pieces(Seq::<Seq<char>>::empty()) == Seq::<Seq<char>>::empty());
    assert(ws =~= seq![s]);
    assert(ws.take(1).map_values(|w: Seq<char>| word_id(w, vocab_size)) =~= seq![word_id(s, vocab_size)]);
}

/// Law: two runs of ASCII letters, digits and `_` separated by one other
/// ASCII character are two words, hashed in order (room permitting).
pub proof fn lemma_ascii_runs_are_words(a: Seq<char>, c: char, b: Seq<char>, max_seq_len: nat, vocab_size: nat)
    requires
        a.len() > 0,
        b.len() > 0,
        forall|i: int| 0 <= i < a.len() ==> {
            let u = #[trigger] a[i] as u32;
            (48 <= u <= 57) || (65 <= u <= 90) || (97 <= u <= 122) || u == 95
        },
        forall|i: int| 0 <= i < b.len() ==> {
            let u = #[trigger] b[i] as u32;
            (48 <= u <= 57) || (65 <= u <= 90) || (97 <= u <= 122) || u == 95
        },
        ({
            let u = c as u32;
            u < 128 && !((48 <= u <= 57) || (65 <= u <= 90) || (97 <= u <= 122) || u == 95)
        }),
        max_seq_len >= 2,
    ensures
        hash_token_ids(a + seq![c] + b, max_seq_len, vocab_size) == seq![word_id(a, vocab_size), word_id(b, vocab_size)],
{
    let e = Seq::<char>::empty();
    assert forall|i: int| 0 <= i < a.len() implies is_word_char(#[trigger] a[i]) by {}
    assert forall|i: int| 0 <= i < b.len() implies is_word_char(#[trigger] b[i]) by {}
    lemma_word_split_extend(e, a);
    assert(e + a =~= a);
    assert(word_split(e) == seq![e]);
    assert(word_split(a) =~= seq![a]);
    let ac = a + seq![c];
    assert(ac.drop_last() =~= a);
    assert(ac.last() == c);
    assert(!is_word_char(c));
    assert(word_split(ac) =~= seq![a, e]);
    lemma_word_split_extend(ac, b);
    assert(seq![a, e].update(1, e + b) =~= seq![a, b]);
    let s = a + seq![c] + b;
    assert(ac + b =~= s);
    assert(seq![a, b].drop_last() =~= seq![a]);
    assert(seq![a].drop_last() =~= Seq::<Seq<char>>::empty());
    assert(nonempty_pieces(Seq::<Seq<char>>::empty()) == Seq::<Seq<char>>::empty());
    assert(nonempty_pieces(seq![a]) =~= seq![a]);
    assert(words(s) =~= seq![a, b]);
    assert(words(s).take(2).map_values(|w: Seq<char>| word_id(w, vocab_size)) =~= seq![
        word_id(a, vocab_size),
        word_id(b, vocab_size),
    ]);
}

} // verus!
