//! Local feature-hash embeddings: the text side. Symbol text is split into
//! tokens (word pieces plus 3-grams of the symbol name) and each token votes
//! +1/-1 into one of `DIM` buckets by a fixed FNV-1a hash, so vectors are
//! reproducible byte for byte on every machine. Normalising the votes into a
//! unit vector and ranking by cosine are floating-point work done by the
//! caller.

use vstd::prelude::*;
use crate::text::{
    lemma_find_char_from_range, alphanumeric, ascii_lower, ascii_lower_char, ascii_lower_char_exec, chars_of, find_char,
    find_char_exec, is_alphanumeric, is_lowercase, is_numeric, is_uppercase, is_ws, is_ws_exec,
    join, join_exec, lowercase, numeric, slice_of, str_views, string_of, uppercase, views,
};
use vstd::utf8::encode_utf8;

verus! {

/// Embedding dimensionality.
pub const DIM: usize = 256;

/// FNV-1a 64-bit offset basis.
pub const FNV_OFFSET: u64 = 0xcbf29ce484222325;

/// FNV-1a 64-bit prime.
pub const FNV_PRIME: u64 = 0x100000001b3;

// ------------------------------------------------------------------ fnv1a ---

/// FNV-1a over a byte string: xor each byte in, then multiply (mod 2^64).
pub open spec fn fnv_bytes(bs: Seq<u8>) -> u64
    decreases bs.len(),
{
    if bs.len() == 0 {
        FNV_OFFSET
    } else {
        vstd::wrapping::u64_specs::wrapping_mul(fnv_bytes(bs.drop_last()) ^ (bs.last() as u64), FNV_PRIME)
    }
}

/// FNV-1a of a text's UTF-8 bytes.
pub open spec fn fnv_text(s: Seq<char>) -> u64 {
    fnv_bytes(encode_utf8(s))
}

/// FNV-1a 64-bit of the UTF-8 bytes of `s`.
pub fn fnv1a(s: &str) -> (h: u64)
    ensures
        h == fnv_text(s@),
{
    let bytes = s.as_bytes();
    let mut h: u64 = FNV_OFFSET;
    let mut i: usize = 0;
    while i < bytes.len()
        invariant
            i <= bytes@.len(),
            bytes@ == encode_utf8(s@),
            h == fnv_bytes(bytes@.take(i as int)),
        decreases bytes.len() - i,
    {
        assert(bytes@.take(i + 1).drop_last() =~= bytes@.take(i as int));
        h = (h ^ (bytes[i] as u64)).wrapping_mul(FNV_PRIME);
        i += 1;
    }
    assert(bytes@.take(bytes.len() as int) =~= bytes@);
    h
}

// ----------------------------------------------------------------- tokens ---

pub ghost struct TokScan {
    pub out: Seq<Seq<char>>,
    pub cur: Seq<char>,
    pub prev_lower: bool,
}

/// `out` with `cur` appended when `cur` is not empty.
pub open spec fn flush(out: Seq<Seq<char>>, cur: Seq<char>) -> Seq<Seq<char>> {
    if cur.len() > 0 {
        out.push(cur)
    } else {
        out
    }
}

/// One character of the tokenizer: alphanumerics extend the current token
/// (lower-cased), an upper-case letter right after a lower-case letter or a
/// digit starts a new one, anything else ends it.
pub open spec fn tok_step(st: TokScan, c: char) -> TokScan {
    if alphanumeric(c) {
        let split = uppercase(c) && st.prev_lower;
        TokScan {
            out: if split {
                flush(st.out, st.cur)
            } else {
                st.out
            },
            cur: (if split {
                Seq::<char>::empty()
            } else {
                st.cur
            }).push(ascii_lower_char(c)),
            prev_lower: lowercase(c) || numeric(c),
        }
    } else {
        TokScan { out: flush(st.out, st.cur), cur: Seq::empty(), prev_lower: false }
    }
}

pub open spec fn tok_scan(s: Seq<char>) -> TokScan
    decreases s.len(),
{
    if s.len() == 0 {
        TokScan { out: Seq::empty(), cur: Seq::empty(), prev_lower: false }
    } else {
        tok_step(tok_scan(s.drop_last()), s.last())
    }
}

/// The lower-case word pieces of a text, split at non-alphanumerics and at
/// camelCase boundaries.
pub open spec fn tokens_spec(s: Seq<char>) -> Seq<Seq<char>> {
    flush(tok_scan(s).out, tok_scan(s).cur)
}

/// Split into lowercase alphanumeric tokens, further splitting camelCase and
/// snake_case/kebab-case boundaries: `getUserById` gives `get user by id`.
pub fn tokens(doc: &str) -> (r: Vec<String>)
    ensures
        str_views(r@) == tokens_spec(doc@),
{
    let v = chars_of(doc);
    let mut out: Vec<String> = Vec::new();
    let mut cur: Vec<char> = Vec::new();
    let mut prev_lower = false;
    let mut i: usize = 0;
    assert(v@.take(0) =~= Seq::<char>::empty());
    assert(str_views(out@) =~= Seq::<Seq<char>>::empty());
    while i < v.len()
        invariant
            i <= v@.len(),
            v@ == doc@,
            tok_scan(v@.take(i as int)) == (TokScan {
                out: str_views(out@),
                cur: cur@,
                prev_lower: prev_lower,
            }),
        decreases v.len() - i,
    {
        assert(v@.take(i + 1).drop_last() =~= v@.take(i as int));
        assert(v@.take(i + 1).last() == v@[i as int]);
        let c = v[i];
        if is_alphanumeric(c) {
            if is_uppercase(c) && prev_lower {
                flush_exec(&mut out, &mut cur);
            }
            cur.push(ascii_lower_char_exec(c));
            prev_lower = is_lowercase(c) || is_numeric(c);
        } else {
            flush_exec(&mut out, &mut cur);
            prev_lower = false;
        }
        i += 1;
    }
    assert(v@.take(v.len() as int) =~= v@);
    flush_exec(&mut out, &mut cur);
    out
}

fn flush_exec(out: &mut Vec<String>, cur: &mut Vec<char>)
    ensures
        str_views(final(out)@) == flush(str_views(old(out)@), old(cur)@),
        final(cur)@ == Seq::<char>::empty(),
{
    if cur.len() > 0 {
        let s = string_of(cur.as_slice());
        out.push(s);
        assert(str_views(out@) =~= str_views(old(out)@).push(old(cur)@));
    }
    *cur = Vec::new();
}

// --------------------------------------------------------------- 3-grams ---

/// The alphanumerics of a lower-cased name.
pub open spec fn name_chars(name: Seq<char>) -> Seq<char> {
    ascii_lower(name).filter(|c: char| alphanumeric(c))
}

/// Every run of three consecutive alphanumerics of the lower-cased name.
pub open spec fn trigrams_spec(name: Seq<char>) -> Seq<Seq<char>> {
    let cs = name_chars(name);
    if cs.len() < 3 {
        Seq::empty()
    } else {
        Seq::new((cs.len() - 2) as nat, |i: int| cs.subrange(i, i + 3))
    }
}

/// Char 3-grams of a lower-cased name, for typo robustness.
pub fn char_trigrams(name: &str) -> (r: Vec<String>)
    ensures
        str_views(r@) == trigrams_spec(name@),
{
    let v = chars_of(name);
    let ghost lower = ascii_lower(name@);
    let ghost p = |c: char| alphanumeric(c);
    let mut cs: Vec<char> = Vec::new();
    let mut i: usize = 0;
    while i < v.len()
        invariant
            i <= v@.len(),
            v@ == name@,
            lower == ascii_lower(name@),
            p == (|c: char| alphanumeric(c)),
            cs@ == lower.take(i as int).filter(p),
        decreases v.len() - i,
    {
        let c = ascii_lower_char_exec(v[i]);
        assert(lower[i as int] == c);
        assert(lower.take(i + 1).drop_last() =~= lower.take(i as int));
        reveal(Seq::filter);
        if is_alphanumeric(c) {
            cs.push(c);
        }
        assert(cs@ =~= lower.take(i + 1).filter(p));
        i += 1;
    }
    assert(lower.take(v.len() as int) =~= lower);
    let mut out: Vec<String> = Vec::new();
    assert(str_views(out@) =~= Seq::<Seq<char>>::empty());
    if cs.len() < 3 {
        assert(str_views(out@) =~= trigrams_spec(name@));
        return out;
    }
    let mut k: usize = 0;
    while k + 2 < cs.len()
        invariant
            cs@ == name_chars(name@),
            cs@.len() >= 3,
            k + 2 <= cs@.len(),
            str_views(out@) =~= trigrams_spec(name@).take(k as int),
        decreases cs.len() - k,
    {
        let w = slice_of(cs.as_slice(), k, k + 3);
        let ghost before = str_views(out@);
        out.push(string_of(w.as_slice()));
        assert(str_views(out@) =~= before.push(w@));
        assert(trigrams_spec(name@)[k as int] == cs@.subrange(k as int, k + 3));
        assert(str_views(out@) =~= trigrams_spec(name@).take(k + 1));
        k += 1;
    }
    assert(trigrams_spec(name@).take(k as int) =~= trigrams_spec(name@));
    out
}

// ------------------------------------------------------------- documents ---

/// The first space-separated piece of a text (all of it without a space).
pub open spec fn first_word(s: Seq<char>) -> Seq<char> {
    match find_char(s, ' ') {
        Some(i) => s.take(i),
        None => s,
    }
}

/// The token bag of a document: its word pieces, then the 3-grams of its
/// first space-separated word (the symbol name).
pub open spec fn tokenize_doc_spec(doc: Seq<char>) -> Seq<Seq<char>> {
    tokens_spec(doc) + trigrams_spec(first_word(doc))
}

/// Full token bag for a document: tokens plus 3-grams of the leading word.
pub fn tokenize_doc(doc: &str) -> (r: Vec<String>)
    ensures
        str_views(r@) == tokenize_doc_spec(doc@),
{
    let mut toks = tokens(doc);
    let v = chars_of(doc);
    proof {
        lemma_find_char_from_range(v@, ' ', 0);
    }
    let first = match find_char_exec(v.as_slice(), ' ') {
        Some(i) => slice_of(v.as_slice(), 0, i),
        None => v,
    };
    assert(first@ =~= first_word(doc@));
    let name = string_of(first.as_slice());
    let mut tri = char_trigrams(name.as_str());
    let ghost a = str_views(toks@);
    let ghost b = str_views(tri@);
    toks.append(&mut tri);
    assert(str_views(toks@) =~= a + b);
    toks
}

/// The embedding document of one symbol: name, qualified name, signature and
/// file path, space-separated.
pub fn doc_for(name: &str, qualified_name: &str, signature: &str, file_path: &str) -> (r: String)
    ensures
        r@ == name@ + " "@ + qualified_name@ + " "@ + signature@ + " "@ + file_path@,
{
    let mut v: Vec<char> = chars_of(name);
    v.push(' ');
    let mut w = chars_of(qualified_name);
    v.append(&mut w);
    v.push(' ');
    let mut w = chars_of(signature);
    v.append(&mut w);
    v.push(' ');
    let mut w = chars_of(file_path);
    v.append(&mut w);
    proof {
        reveal_strlit(" ");
    }
    assert(v@ =~= name@ + " "@ + qualified_name@ + " "@ + signature@ + " "@ + file_path@);
    string_of(v.as_slice())
}

// -------------------------------------------------------- feature hashing ---

/// The salted text whose hash picks a token's sign.
pub open spec fn sign_text(tok: Seq<char>) -> Seq<char> {
    tok + "#sign"@
}

/// +1 or -1 from the low bit of the salted hash.
pub open spec fn vote_sign(tok: Seq<char>) -> int {
    if fnv_text(sign_text(tok)) & 1 == 0 {
        1
    } else {
        -1
    }
}

/// The bucket a token votes into.
pub open spec fn vote_bucket(tok: Seq<char>) -> int {
    (fnv_text(tok) % (DIM as u64)) as int
}

/// Summed votes of the tokens, one count per bucket.
pub open spec fn votes(toks: Seq<Seq<char>>) -> Seq<int>
    decreases toks.len(),
{
    if toks.len() == 0 {
        Seq::new(DIM as nat, |i: int| 0int)
    } else {
        let v = votes(toks.drop_last());
        let b = vote_bucket(toks.last());
        v.update(b, v[b] + vote_sign(toks.last()))
    }
}

proof fn lemma_votes_bounded(toks: Seq<Seq<char>>)
    ensures
        votes(toks).len() == DIM,
        forall|b: int| 0 <= b < DIM ==> -toks.len() <= #[trigger] votes(toks)[b] <= toks.len(),
    decreases toks.len(),
{
    if toks.len() > 0 {
        lemma_votes_bounded(toks.drop_last());
    }
}

/// The signed feature-hash counts of a document: each token of its bag adds
/// +1 or -1 to its bucket. Dividing by the vector's length gives the
/// embedding.
pub fn signed_buckets(doc: &str) -> (r: Vec<i128>)
    ensures
        r@.len() == DIM,
        forall|b: int| 0 <= b < DIM ==> #[trigger] r@[b] == votes(tokenize_doc_spec(doc@))[b],
{
    let toks = tokenize_doc(doc);
    let ghost tv = str_views(toks@);
    let mut v: Vec<i128> = Vec::new();
    while v.len() < DIM
        invariant
            v@.len() <= DIM,
            forall|b: int| 0 <= b < v@.len() ==> #[trigger] v@[b] == 0,
        decreases DIM - v.len(),
    {
        v.push(0);
    }
    proof {
        assert(tv.take(0) =~= Seq::<Seq<char>>::empty());
    }
    let mut i: usize = 0;
    while i < toks.len()
        invariant
            i <= toks@.len(),
            tv == str_views(toks@),
            v@.len() == DIM,
            forall|b: int| 0 <= b < DIM ==> #[trigger] v@[b] == votes(tv.take(i as int))[b],
        decreases toks.len() - i,
    {
        proof {
            lemma_votes_bounded(tv.take(i as int));
            assert(tv.take(i + 1).drop_last() =~= tv.take(i as int));
            assert(tv.take(i + 1).last() == toks@[i as int]@);
        }
        let tok = &toks[i];
        let h = fnv1a(tok.as_str());
        let bucket = (h % (DIM as u64)) as usize;
        let mut salted = chars_of(tok.as_str());
        let mut tail = chars_of("#sign");
        salted.append(&mut tail);
        let s = string_of(salted.as_slice());
        let sign: i128 = if fnv1a(s.as_str()) & 1 == 0 {
            1
        } else {
            -1
        };
        let old_v = v[bucket];
        assert(i <= toks@.len());
        v.set(bucket, old_v + sign);
        i += 1;
    }
    assert(tv.take(toks.len() as int) =~= tv);
    v
}

// ------------------------------------------------------------- FTS input ---

/// Every character that is neither alphanumeric nor white space becomes a
/// space.
pub open spec fn keep_words(q: Seq<char>) -> Seq<char> {
    q.map_values(|c: char| if alphanumeric(c) || is_ws(c) { c } else { ' ' })
}

pub ghost struct WordScan {
    pub out: Seq<Seq<char>>,
    pub cur: Seq<char>,
}

pub open spec fn word_step(st: WordScan, c: char) -> WordScan {
    if is_ws(c) {
        WordScan { out: flush(st.out, st.cur), cur: Seq::empty() }
    } else {
        WordScan { out: st.out, cur: st.cur.push(c) }
    }
}

pub open spec fn word_scan(s: Seq<char>) -> WordScan
    decreases s.len(),
{
    if s.len() == 0 {
        WordScan { out: Seq::empty(), cur: Seq::empty() }
    } else {
        word_step(word_scan(s.drop_last()), s.last())
    }
}

/// `str::split_whitespace`: the maximal runs of non-white-space characters.
pub open spec fn words(s: Seq<char>) -> Seq<Seq<char>> {
    flush(word_scan(s).out, word_scan(s).cur)
}

/// The FTS5 query text: operator characters become spaces and the remaining
/// words are joined by single spaces.
pub open spec fn sanitize_spec(q: Seq<char>) -> Seq<char> {
    join(words(keep_words(q)), " "@)
}

/// Strip FTS5 operator syntax (quotes, `-`/`+`, `*`, `:`, parentheses, `^`)
/// that would make a MATCH fail on arbitrary input; what is left is bare
/// words separated by single spaces.
pub fn sanitize_fts_query(q: &str) -> (r: String)
    ensures
        r@ == sanitize_spec(q@),
{
    let v = chars_of(q);
    let ghost m = keep_words(q@);
    let mut out: Vec<Vec<char>> = Vec::new();
    let mut cur: Vec<char> = Vec::new();
    let mut i: usize = 0;
    assert(m.take(0) =~= Seq::<char>::empty());
    assert(views(out@) =~= Seq::<Seq<char>>::empty());
    while i < v.len()
        invariant
            i <= v@.len(),
            v@ == q@,
            m == keep_words(q@),
            word_scan(m.take(i as int)) == (WordScan { out: views(out@), cur: cur@ }),
        decreases v.len() - i,
    {
        assert(m.take(i + 1).drop_last() =~= m.take(i as int));
        let c0 = v[i];
        let c = if is_alphanumeric(c0) || is_ws_exec(c0) {
            c0
        } else {
            ' '
        };
        assert(m.take(i + 1).last() == c);
        if is_ws_exec(c) {
            if cur.len() > 0 {
                let ghost before = views(out@);
                out.push(cur);
                assert(views(out@) =~= before.push(cur@));
                cur = Vec::new();
            } else {
                cur = Vec::new();
            }
        } else {
            cur.push(c);
        }
        i += 1;
    }
    assert(m.take(v.len() as int) =~= m);
    if cur.len() > 0 {
        let ghost before = views(out@);
        out.push(cur);
        assert(views(out@) =~= before.push(cur@));
    }
    let sep = chars_of(" ");
    let r = join_exec(&out, sep.as_slice());
    string_of(r.as_slice())
}

// ------------------------------------------------------------------ laws ---

proof fn lemma_tok_scan_nonempty(s: Seq<char>)
    ensures
        forall|k: int| 0 <= k < tok_scan(s).out.len() ==> (#[trigger] tok_scan(s).out[k]).len() > 0,
    decreases s.len(),
{
    if s.len() > 0 {
        lemma_tok_scan_nonempty(s.drop_last());
        let st = tok_scan(s.drop_last());
        let c = s.last();
        assert forall|k: int| 0 <= k < flush(st.out, st.cur).len() implies (#[trigger] flush(st.out, st.cur)[k]).len() > 0 by {
            if k < st.out.len() {
                assert(flush(st.out, st.cur)[k] == st.out[k]);
            }
        }
    }
}

/// Tokens are never empty, so nothing is lost by the tokenizer keeping only
/// non-empty pieces.
pub proof fn lemma_tokens_nonempty(s: Seq<char>)
    ensures
        forall|k: int| 0 <= k < tokens_spec(s).len() ==> (#[trigger] tokens_spec(s)[k]).len() > 0,
{
    lemma_tok_scan_nonempty(s);
}

proof fn lemma_word_scan_clean(s: Seq<char>)
    requires
        forall|k: int| 0 <= k < s.len() ==> alphanumeric(#[trigger] s[k]) || is_ws(s[k]),
    ensures
        forall|k: int| 0 <= k < word_scan(s).out.len() ==> (#[trigger] word_scan(s).out[k]).len() > 0
            && forall|j: int| 0 <= j < word_scan(s).out[k].len() ==> alphanumeric(
                #[trigger] word_scan(s).out[k][j],
            ),
        forall|j: int| 0 <= j < word_scan(s).cur.len() ==> alphanumeric(#[trigger] word_scan(s).cur[j]),
    decreases s.len(),
{
    if s.len() > 0 {
        assert forall|k: int| 0 <= k < s.drop_last().len() implies alphanumeric(#[trigger] s.drop_last()[k])
            || is_ws(s.drop_last()[k]) by {
            assert(s.drop_last()[k] == s[k]);
        }
        lemma_word_scan_clean(s.drop_last());
        assert(alphanumeric(s[s.len() - 1]) || is_ws(s[s.len() - 1]));
        let st = word_scan(s.drop_last());
        let f = flush(st.out, st.cur);
        assert forall|k: int| 0 <= k < f.len() implies (#[trigger] f[k]).len() > 0 && forall|j: int|
            0 <= j < f[k].len() ==> alphanumeric(#[trigger] f[k][j]) by {
            if k < st.out.len() {
                assert(f[k] == st.out[k]);
            } else {
                assert(f[k] == st.cur);
            }
        }
        if !is_ws(s.last()) {
            let nc = st.cur.push(s.last());
            assert forall|j: int| 0 <= j < nc.len() implies alphanumeric(#[trigger] nc[j]) by {
                if j < st.cur.len() {
                    assert(nc[j] == st.cur[j]);
                }
            }
        }
    }
}

/// A sanitized query holds nothing an FTS5 MATCH could read as an operator:
/// it is a run of words of alphanumeric characters, none empty.
pub proof fn lemma_sanitized_is_bare_words(q: Seq<char>)
    ensures
        forall|k: int| 0 <= k < words(keep_words(q)).len() ==> (#[trigger] words(keep_words(q))[k]).len() > 0
            && forall|j: int| 0 <= j < words(keep_words(q))[k].len() ==> alphanumeric(
                #[trigger] words(keep_words(q))[k][j],
            ),
        sanitize_spec(q) == join(words(keep_words(q)), " "@),
{
    let m = keep_words(q);
    assert forall|k: int| 0 <= k < m.len() implies alphanumeric(#[trigger] m[k]) || is_ws(m[k]) by {
        reveal_strlit(" ");
        if !(alphanumeric(q[k]) || is_ws(q[k])) {
            assert(m[k] == ' ');
        }
    }
    lemma_word_scan_clean(m);
}


/// How many embedding-similarity hits are pulled before fusion.
pub const EMBED_TOPN: usize = 50;

/// The name pattern of the fallback `LIKE` scan: the query without `%` and
/// `_`, between two `%` wildcards.
pub open spec fn like_pattern_spec(q: Seq<char>) -> Seq<char> {
    "%"@ + without_wildcards(q) + "%"@
}

/// `q` with every `%` and `_` removed.
pub open spec fn without_wildcards(q: Seq<char>) -> Seq<char>
    decreases q.len(),
{
    if q.len() == 0 {
        q
    } else if q.last() == '%' || q.last() == '_' {
        without_wildcards(q.drop_last())
    } else {
        without_wildcards(q.drop_last()).push(q.last())
    }
}

/// The `LIKE` pattern of the fallback name scan.
pub fn like_pattern(q: &str) -> (r: String)
    ensures
        r@ == like_pattern_spec(q@),
{
    let cs = crate::text::chars_of(q);
    let mut out: Vec<char> = Vec::new();
    out.push('%');
    let mut i: usize = 0;
    while i < cs.len()
        invariant
            i <= cs@.len(),
            cs@ == q@,
            out@ == seq!['%'] + without_wildcards(q@.take(i as int)),
        decreases cs@.len() - i,
    {
        let c = cs[i];
        assert(q@.take(i + 1).drop_last() =~= q@.take(i as int));
        assert(q@.take(i + 1).last() == c);
        if c != '%' && c != '_' {
            out.push(c);
        }
        i += 1;
    }
    out.push('%');
    assert(q@.take(cs@.len() as int) =~= q@);
    proof {
        reveal_strlit("%");
    }
    assert(out@ =~= like_pattern_spec(q@));
    crate::text::string_of(&out)
}

} // verus!
