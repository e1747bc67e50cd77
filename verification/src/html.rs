use vstd::prelude::*;
use vstd::seq_lib::lemma_flatten_concat;
use vstd::string::StrSliceExecFns;
use vstd::string::StringExecFns;
use vstd::string::StringSliceAdditionalSpecFns;
use vstd::utf8::{encode_scalar, encode_utf8, is_char_boundary, pop_first_scalar, valid_utf8};

use rayon::iter::IntoParallelRefIterator;
use rayon::iter::ParallelIterator;

use crate::annotation::{annotate_phrase, annotate_phrase_spec};
use crate::dict::{Dictionary, LemmaIndex};
use crate::text::trim_str;
use crate::types::{Annotator, DictRecord, ProgressSink};

verus! {

broadcast use {vstd::utf8::group_utf8_lib, Seq::lemma_flatten_push, Seq::lemma_flatten_singleton};

/// The size cap for one body chunk, in bytes.
pub const CHUNK_SIZE: usize = 100 * 1024;

/// True when `pat` occurs in `s` starting at character index `p`.
pub open spec fn seq_matches_at(s: Seq<char>, pat: Seq<char>, p: int) -> bool {
    p >= 0 && p + pat.len() <= s.len() && s.subrange(p, p + pat.len() as int) == pat
}

/// The first occurrence of `pat` in `s` at or after `from`.
pub open spec fn find_seq_from(s: Seq<char>, pat: Seq<char>, from: int) -> Option<int>
    decreases s.len() - from
    when 0 <= from
{
    if pat.len() == 0 {
        Some(from)
    } else if from + pat.len() > s.len() {
        None
    } else if seq_matches_at(s, pat, from) {
        Some(from)
    } else {
        find_seq_from(s, pat, from + 1)
    }
}

proof fn lemma_find_seq_from(s: Seq<char>, pat: Seq<char>, from: int)
    requires
        0 <= from,
    ensures
        match find_seq_from(s, pat, from) {
            Some(p) => from <= p && (pat.len() > 0 ==> p + pat.len() <= s.len() && seq_matches_at(
                s,
                pat,
                p,
            )),
            None => forall|j: int| from <= j ==> !seq_matches_at(s, pat, j),
        },
    decreases s.len() - from,
{
    if pat.len() == 0 {
    } else if from + pat.len() > s.len() {
    } else if seq_matches_at(s, pat, from) {
    } else {
        lemma_find_seq_from(s, pat, from + 1);
    }
}

/// Compares `pat` against `s` at character position `p`.
fn char_match_at(s: &str, pat: &str, p: usize) -> (r: bool)
    requires
        p + pat@.len() <= s@.len(),
    ensures
        r == seq_matches_at(s@, pat@, p as int),
{
    let n: usize = s.unicode_len();
    let m: usize = pat.unicode_len();
    let mut k: usize = 0;
    while k < m
        invariant
            k <= m,
            m as int == pat@.len(),
            n as int == s@.len(),
            p + pat@.len() <= s@.len(),
            forall|j: int| 0 <= j < k ==> s@[p + j] == pat@[j],
        decreases m - k,
    {
        if s.get_char(p + k) != pat.get_char(k) {
            assert(s@.subrange(p as int, p + pat@.len()) != pat@) by {
                assert(s@.subrange(p as int, p + pat@.len())[k as int] != pat@[k as int]);
            }
            return false;
        }
        k = k + 1;
    }
    assert(s@.subrange(p as int, p + pat@.len()) =~= pat@);
    true
}

/// Finds the first occurrence of `pat` in `s` at or after character index
/// `from`.
fn find_str(s: &str, pat: &str, from: usize) -> (r: Option<usize>)
    requires
        from <= s@.len(),
    ensures
        match r {
            Some(p) => find_seq_from(s@, pat@, from as int) == Some(p as int) && from <= p && p
                + pat@.len() <= s@.len(),
            None => find_seq_from(s@, pat@, from as int) is None,
        },
{
    let n: usize = s.unicode_len();
    let m: usize = pat.unicode_len();
    if m == 0 {
        return Some(from);
    }
    let mut p: usize = from;
    while n - p >= m
        invariant
            from <= p <= n,
            1 <= m,
            m as int == pat@.len(),
            n as int == s@.len(),
            find_seq_from(s@, pat@, from as int) == find_seq_from(s@, pat@, p as int),
        decreases n - p,
    {
        if char_match_at(s, pat, p) {
            return Some(p);
        }
        p = p + 1;
    }
    None
}

/// The character index just after the end of the opening body tag, or 0
/// when the markers are missing (the body then defaults to the whole
/// remainder).
pub open spec fn body_start_of(s: Seq<char>) -> int {
    match find_seq_from(s, "<body"@, 0) {
        Some(p) => match find_seq_from(s, ">"@, p) {
            Some(q) => q + 1,
            None => 0,
        },
        None => 0,
    }
}

/// The character index of the closing body tag, or the end when it is
/// missing.
pub open spec fn body_end_of(s: Seq<char>) -> int {
    match find_seq_from(s, "</body>"@, body_start_of(s)) {
        Some(r) => r,
        None => s.len() as int,
    }
}

/// The part before the body, passed through untouched.
pub open spec fn head_of(s: Seq<char>) -> Seq<char> {
    s.subrange(0, body_start_of(s))
}

/// The body interior, the part that is chunked and annotated.
pub open spec fn body_of(s: Seq<char>) -> Seq<char> {
    s.subrange(body_start_of(s), body_end_of(s))
}

/// The part from the closing body tag on, passed through untouched.
pub open spec fn tail_of(s: Seq<char>) -> Seq<char> {
    s.subrange(body_end_of(s), s.len() as int)
}

pub proof fn lemma_body_bounds(s: Seq<char>)
    ensures
        0 <= body_start_of(s) <= body_end_of(s) <= s.len(),
        head_of(s) + body_of(s) + tail_of(s) == s,
{
    reveal_strlit("<body");
    reveal_strlit(">");
    reveal_strlit("</body>");
    lemma_find_seq_from(s, "<body"@, 0);
    match find_seq_from(s, "<body"@, 0) {
        Some(p) => {
            lemma_find_seq_from(s, ">"@, p);
        },
        None => {},
    }
    lemma_find_seq_from(s, "</body>"@, body_start_of(s));
    assert(head_of(s) + body_of(s) + tail_of(s) =~= s);
}

/// True when `pat` stands in `b` ending exactly at byte position `q`.
pub open spec fn bytes_match_at(b: Seq<u8>, pat: Seq<u8>, q: int) -> bool {
    pat.len() <= q <= b.len() && b.subrange(q - pat.len(), q) == pat
}

/// A byte position where a chunk may end on the closing token of `tag`:
/// inside the window, on a character boundary, with the tag's bytes just
/// before it.
pub open spec fn tag_cut_ok(b: Seq<u8>, wend: int, q: int, tag: Seq<u8>) -> bool {
    0 < q <= wend && tag.len() <= q && is_char_boundary(b, q) && bytes_match_at(b, tag, q)
}

/// The rightmost such position in the window.
pub open spec fn best_tag_cut(b: Seq<u8>, wend: int, q: int, tag: Seq<u8>) -> bool {
    tag_cut_ok(b, wend, q, tag) && (forall|p: int| q < p <= wend ==> !tag_cut_ok(b, wend, p, tag))
}

pub open spec fn has_tag_cut(b: Seq<u8>, wend: int, tag: Seq<u8>) -> bool {
    exists|q: int| tag_cut_ok(b, wend, q, tag)
}

pub open spec fn has_boundary_cut(b: Seq<u8>, wend: int) -> bool {
    exists|q: int| 0 < q <= wend && is_char_boundary(b, q)
}

/// Where a chunk ends when no tag and no whitespace fits: the rightmost
/// character boundary in the window, or, when the window cuts into the
/// middle of one character's bytes, the first boundary past the window.
pub open spec fn hard_cut(b: Seq<u8>, wend: int, q: int) -> bool {
    if has_boundary_cut(b, wend) {
        0 < q <= wend && is_char_boundary(b, q) && (forall|p: int|
            q < p <= wend ==> !is_char_boundary(b, p))
    } else {
        wend < q <= b.len() && is_char_boundary(b, q) && (forall|p: int|
            wend < p < q ==> !is_char_boundary(b, p))
    }
}

/// How the end of the next chunk is chosen inside the window `0..=wend`
/// of the remaining bytes: just after a `</p>`, else a `</span>`, else a
/// `</div>`, else a plain space, each the rightmost in the window; with
/// none of those, a hard cut at the window edge, moved to a character
/// boundary.
pub open spec fn chosen_cut(b: Seq<u8>, wend: int, q: int) -> bool {
    if has_tag_cut(b, wend, encode_utf8("</p>"@)) {
        best_tag_cut(b, wend, q, encode_utf8("</p>"@))
    } else if has_tag_cut(b, wend, encode_utf8("</span>"@)) {
        best_tag_cut(b, wend, q, encode_utf8("</span>"@))
    } else if has_tag_cut(b, wend, encode_utf8("</div>"@)) {
        best_tag_cut(b, wend, q, encode_utf8("</div>"@))
    } else if has_tag_cut(b, wend, encode_utf8(" "@)) {
        best_tag_cut(b, wend, q, encode_utf8(" "@))
    } else {
        hard_cut(b, wend, q)
    }
}

/// The window end for the next chunk of a remainder with `blen` bytes.
pub open spec fn window_end(blen: int, max: int) -> int {
    if blen < max {
        blen
    } else {
        max
    }
}

/// Compares `pat` against the bytes of `hay` ending at position `q`.
fn bytes_eq_at(hay: &[u8], pat: &[u8], q: usize) -> (r: bool)
    requires
        pat@.len() <= q <= hay@.len(),
    ensures
        r == bytes_match_at(hay@, pat@, q as int),
{
    let m: usize = pat.len();
    let mut k: usize = 0;
    while k < m
        invariant
            k <= m,
            m == pat@.len(),
            pat@.len() <= q <= hay@.len(),
            forall|j: int| 0 <= j < k ==> hay@[q - m + j] == pat@[j],
        decreases m - k,
    {
        if hay[q - m + k] != pat[k] {
            assert(hay@.subrange(q - pat@.len(), q as int) != pat@) by {
                assert(hay@.subrange(q - pat@.len(), q as int)[k as int] != pat@[k as int]);
            }
            return false;
        }
        k = k + 1;
    }
    assert(hay@.subrange(q - pat@.len(), q as int) =~= pat@);
    true
}

/// Scans the window right to left for the rightmost position where a
/// chunk may end just after `tag`.
fn rfind_tag_cut(rest: &str, wend: usize, tag: &str) -> (r: Option<usize>)
    requires
        wend <= rest.spec_bytes().len(),
    ensures
        match r {
            Some(q) => best_tag_cut(rest.spec_bytes(), wend as int, q as int, tag.spec_bytes())
                && 0 < q <= wend,
            None => !has_tag_cut(rest.spec_bytes(), wend as int, tag.spec_bytes()),
        },
{
    let hay = rest.as_bytes();
    let pat = tag.as_bytes();
    let m: usize = pat.len();
    let mut q: usize = wend;
    while q >= m && q > 0
        invariant
            q <= wend,
            m == tag.spec_bytes().len(),
            hay@ == rest.spec_bytes(),
            pat@ == tag.spec_bytes(),
            wend <= rest.spec_bytes().len(),
            forall|p: int|
                q < p <= wend ==> !tag_cut_ok(rest.spec_bytes(), wend as int, p, tag.spec_bytes()),
        decreases q,
    {
        if rest.is_char_boundary(q) && bytes_eq_at(hay, pat, q) {
            return Some(q);
        }
        q = q - 1;
    }
    assert forall|p: int| 0 < p <= wend implies !tag_cut_ok(
        rest.spec_bytes(),
        wend as int,
        p,
        tag.spec_bytes(),
    ) by {}
    None
}

/// Picks the end of the next chunk of `rest` under the configured cap.
fn find_cut(rest: &str, max_size: usize) -> (cut: usize)
    requires
        rest@.len() > 0,
    ensures
        0 < cut <= rest.spec_bytes().len(),
        is_char_boundary(rest.spec_bytes(), cut as int),
        chosen_cut(
            rest.spec_bytes(),
            window_end(rest.spec_bytes().len() as int, max_size as int),
            cut as int,
        ),
{
    let ghost b = rest.spec_bytes();
    let nb: usize = rest.as_bytes().len();
    proof {
        assert(valid_utf8(rest.spec_bytes()));
        assert(rest.spec_bytes().len() > 0) by {
            if rest.spec_bytes().len() == 0 {
                assert(rest@.len() == 0);
            }
        }
    }
    let wend: usize = if nb < max_size {
        nb
    } else {
        max_size
    };
    if let Some(q) = rfind_tag_cut(rest, wend, "</p>") {
        return q;
    }
    if let Some(q) = rfind_tag_cut(rest, wend, "</span>") {
        return q;
    }
    if let Some(q) = rfind_tag_cut(rest, wend, "</div>") {
        return q;
    }
    if let Some(q) = rfind_tag_cut(rest, wend, " ") {
        return q;
    }
    let mut q: usize = wend;
    while q > 0 && !rest.is_char_boundary(q)
        invariant
            q <= wend,
            wend <= rest.spec_bytes().len(),
            forall|p: int| q < p <= wend ==> !is_char_boundary(rest.spec_bytes(), p),
        decreases q,
    {
        q = q - 1;
    }
    if q > 0 {
        return q;
    }
    proof {
        assert(!has_boundary_cut(rest.spec_bytes(), wend as int));
        assert(is_char_boundary(rest.spec_bytes(), rest.spec_bytes().len() as int));
        assert(wend < rest.spec_bytes().len()) by {
            if wend == rest.spec_bytes().len() {
                assert(0 < wend as int <= wend as int && is_char_boundary(
                    rest.spec_bytes(),
                    wend as int,
                ));
            }
        }
    }
    let mut f: usize = wend + 1;
    while f < nb && !rest.is_char_boundary(f)
        invariant
            wend < f <= nb,
            nb == rest.spec_bytes().len(),
            forall|p: int| wend < p < f ==> !is_char_boundary(rest.spec_bytes(), p),
        decreases nb - f,
    {
        f = f + 1;
    }
    f
}

/// What a split of a remainder looks like chunk by chunk: the first chunk
/// of each suffix of the chunk list ends at the chosen cut of that
/// suffix's bytes.
pub open spec fn cut_of_suffix(suffix: Seq<char>, first: Seq<char>, max: int) -> bool {
    let b = encode_utf8(suffix);
    chosen_cut(b, window_end(b.len() as int, max), encode_utf8(first).len() as int)
}

/// What `split_chunk` guarantees: the chunks concatenate back to the body
/// exactly, none is empty, and each one ends at the cut that the window
/// rules choose for what remained at its start.
pub open spec fn is_split_of(body: Seq<char>, chunks: Seq<Seq<char>>, max: int) -> bool {
    &&& chunks.flatten() == body
    &&& forall|t: int| 0 <= t < chunks.len() ==> (#[trigger] chunks[t]).len() > 0
    &&& forall|t: int|
        0 <= t < chunks.len() ==> cut_of_suffix(
            chunks.subrange(t, chunks.len() as int).flatten(),
            #[trigger] chunks[t],
            max,
        )
}

/// Encoding a concatenation encodes the parts one after the other.
proof fn lemma_encode_concat(x: Seq<char>, y: Seq<char>)
    ensures
        encode_utf8(x + y) == encode_utf8(x) + encode_utf8(y),
    decreases x.len(),
{
    if x.len() == 0 {
        assert(x + y =~= y);
        assert(encode_utf8(x) + encode_utf8(y) =~= encode_utf8(y));
    } else {
        let s = x + y;
        assert(s[0] == x[0]);
        assert(s.drop_first() =~= x.drop_first() + y);
        lemma_encode_concat(x.drop_first(), y);
        assert(encode_utf8(s) =~= encode_utf8(x) + encode_utf8(y));
    }
}

/// A split of the bytes at a character boundary is a split of the
/// characters.
proof fn lemma_chars_of_byte_split(s: Seq<char>, a: Seq<char>, b2: Seq<char>)
    requires
        encode_utf8(a) + encode_utf8(b2) == encode_utf8(s),
    ensures
        a + b2 == s,
{
    lemma_encode_concat(a, b2);
    assert(vstd::utf8::decode_utf8(encode_utf8(a + b2)) == a + b2);
    assert(vstd::utf8::decode_utf8(encode_utf8(s)) == s);
}

proof fn lemma_encode_empty_iff(x: Seq<char>)
    ensures
        encode_utf8(x).len() == 0 <==> x.len() == 0,
{
    if x.len() > 0 {
        let c = x[0] as u32;
        assert(encode_scalar(c).len() >= 1);
        assert(encode_utf8(x) == encode_scalar(c) + encode_utf8(x.drop_first()));
    }
}

/// Splits the body interior into chunks: each ends, inside the byte
/// window, just after the rightmost `</p>`, `</span>`, `</div>` or space
/// on a character boundary, else at the window edge moved back to a
/// character boundary; a window with no boundary at all takes the whole
/// character it stopped inside.
pub fn split_chunk<'a>(body: &'a str, max_size: usize) -> (chunks: Vec<&'a str>)
    ensures
        is_split_of(body@, chunks.deep_view(), max_size as int),
{
    let mut chunks: Vec<&'a str> = Vec::new();
    let mut rest: &'a str = body;
    proof {
        assert(chunks.deep_view() =~= Seq::<Seq<char>>::empty());
        assert(chunks.deep_view().flatten() + rest@ =~= body@);
    }
    while !rest.is_empty()
        invariant
            chunks.deep_view().flatten() + rest@ == body@,
            forall|t: int|
                0 <= t < chunks.deep_view().len() ==> (#[trigger] chunks.deep_view()[t]).len() > 0,
            forall|t: int|
                0 <= t < chunks.deep_view().len() ==> cut_of_suffix(
                    chunks.deep_view().subrange(t, chunks.deep_view().len() as int).flatten()
                        + rest@,
                    #[trigger] chunks.deep_view()[t],
                    max_size as int,
                ),
        decreases rest@.len(),
    {
        let ghost pre = chunks.deep_view();
        let ghost prest = rest@;
        let cut = find_cut(rest, max_size);
        let (chunk, rest2) = rest.split_at(cut);
        proof {
            assert(chunk.spec_bytes() + rest2.spec_bytes() =~= rest.spec_bytes());
            lemma_chars_of_byte_split(rest@, chunk@, rest2@);
            assert(encode_utf8(chunk@).len() == cut);
            lemma_encode_empty_iff(chunk@);
        }
        chunks.push(chunk);
        rest = rest2;
        proof {
            let post = chunks.deep_view();
            let cnt = pre.len() as int;
            assert(post =~= pre.push(chunk@));
            assert(post.flatten() + rest@ =~= pre.flatten() + prest);
            assert forall|t: int| 0 <= t < post.len() implies cut_of_suffix(
                post.subrange(t, post.len() as int).flatten() + rest@,
                #[trigger] post[t],
                max_size as int,
            ) by {
                if t < cnt {
                    assert(post.subrange(t, post.len() as int) =~= pre.subrange(
                        t,
                        cnt,
                    ).push(chunk@));
                    assert(post.subrange(t, post.len() as int).flatten() + rest@ =~= pre.subrange(
                        t,
                        cnt,
                    ).flatten() + prest);
                    assert(cut_of_suffix(
                        pre.subrange(t, cnt).flatten() + prest,
                        pre[t],
                        max_size as int,
                    ));
                } else {
                    assert(post.subrange(t, post.len() as int) =~= seq![chunk@]);
                    assert(seq![chunk@].len() == 1);
                    assert(seq![chunk@].flatten() == chunk@);
                    assert(post.subrange(t, post.len() as int).flatten() + rest@ =~= prest);
                    assert(cut_of_suffix(prest, chunk@, max_size as int));
                }
            }
        }
    }
    proof {
        assert(chunks.deep_view().flatten() =~= body@);
        assert forall|t: int| 0 <= t < chunks.deep_view().len() implies cut_of_suffix(
            chunks.deep_view().subrange(t, chunks.deep_view().len() as int).flatten(),
            #[trigger] chunks.deep_view()[t],
            max_size as int,
        ) by {
            assert(chunks.deep_view().subrange(t, chunks.deep_view().len() as int).flatten()
                + rest@ =~= chunks.deep_view().subrange(
                t,
                chunks.deep_view().len() as int,
            ).flatten());
        }
    }
    chunks
}

/// The byte offset at which chunk `i` starts in the reassembled body.
pub open spec fn chunk_byte_offset(chunks: Seq<Seq<char>>, i: int) -> int
    decreases i
    when i >= 0
{
    if i <= 0 {
        0
    } else {
        chunk_byte_offset(chunks, i - 1) + encode_utf8(chunks[i - 1]).len()
    }
}

/// A cut between two character runs falls on a character boundary of the
/// whole encoding.
proof fn lemma_cut_is_char_boundary(x: Seq<char>, y: Seq<char>)
    ensures
        is_char_boundary(encode_utf8(x + y), encode_utf8(x).len() as int),
    decreases x.len(),
{
    lemma_encode_concat(x, y);
    if x.len() == 0 {
        assert(encode_utf8(x).len() == 0);
    } else {
        let s = x + y;
        let b = encode_utf8(s);
        vstd::utf8::encode_utf8_first_scalar(s);
        let l = vstd::utf8::length_of_first_scalar(b);
        assert(s[0] == x[0]);
        assert(encode_utf8(x) == encode_scalar(x[0] as u32) + encode_utf8(x.drop_first()));
        assert(l == encode_scalar(x[0] as u32).len());
        assert(l >= 1);
        assert(pop_first_scalar(b) =~= encode_utf8(s.drop_first()));
        assert(s.drop_first() =~= x.drop_first() + y);
        lemma_cut_is_char_boundary(x.drop_first(), y);
        assert(encode_utf8(x).len() as int - l == encode_utf8(x.drop_first()).len() as int);
    }
}

proof fn lemma_offset_is_prefix_len(chunks: Seq<Seq<char>>, i: int)
    requires
        0 <= i <= chunks.len(),
    ensures
        chunk_byte_offset(chunks, i) == encode_utf8(chunks.subrange(0, i).flatten()).len(),
    decreases i,
{
    if i == 0 {
        assert(chunks.subrange(0, 0) =~= Seq::<Seq<char>>::empty());
        assert(Seq::<Seq<char>>::empty().flatten() =~= Seq::<char>::empty());
    } else {
        lemma_offset_is_prefix_len(chunks, i - 1);
        assert(chunks.subrange(0, i) =~= chunks.subrange(0, i - 1).push(chunks[i - 1]));
        lemma_encode_concat(chunks.subrange(0, i - 1).flatten(), chunks[i - 1]);
    }
}

/// Law: a chunk boundary never bisects a multi-byte character.  Whenever
/// the chunks concatenate back to the body, every boundary between two
/// consecutive chunks is a character boundary of the body's UTF-8
/// encoding.
pub proof fn lemma_chunk_boundaries(body: Seq<char>, chunks: Seq<Seq<char>>, i: int)
    requires
        chunks.flatten() == body,
        0 <= i <= chunks.len(),
    ensures
        is_char_boundary(encode_utf8(body), chunk_byte_offset(chunks, i)),
{
    let pre = chunks.subrange(0, i);
    let suf = chunks.subrange(i, chunks.len() as int);
    assert(pre + suf =~= chunks);
    lemma_flatten_concat(pre, suf);
    lemma_offset_is_prefix_len(chunks, i);
    lemma_cut_is_char_boundary(pre.flatten(), suf.flatten());
    assert(pre.flatten() + suf.flatten() == body);
}

/// Cuts the document into the untouched head, the body interior split
/// into size-capped chunks, and the untouched tail.
pub fn split_document<'a>(doc: &'a str, max_size: usize) -> (r: (&'a str, Vec<&'a str>, &'a str))
    ensures
        r.0@ == head_of(doc@),
        r.2@ == tail_of(doc@),
        is_split_of(body_of(doc@), r.1.deep_view(), max_size as int),
{
    let n: usize = doc.unicode_len();
    proof {
        lemma_body_bounds(doc@);
    }
    let body_start: usize = match find_str(doc, "<body", 0) {
        Some(p) => match find_str(doc, ">", p) {
            Some(q) => q + 1,
            None => 0,
        },
        None => 0,
    };
    let body_end: usize = match find_str(doc, "</body>", body_start) {
        Some(r) => r,
        None => n,
    };
    let head = doc.substring_char(0, body_start);
    let body = doc.substring_char(body_start, body_end);
    let tail = doc.substring_char(body_end, n);
    let chunks = split_chunk(body, max_size);
    (head, chunks, tail)
}

/// The options and read-only tables that every chunk worker shares.
pub struct ChunkParameter<'a> {
    pub format: &'a str,
    pub dict: &'a Dictionary,
    pub lemma: &'a LemmaIndex,
    pub def_length: i32,
    pub including_phoneme: bool,
    pub hint_level: i32,
    pub annotator: &'a Annotator<'a>,
}

/// First index at or after `i` that holds `c`, or the end.
pub open spec fn find_char_from(s: Seq<char>, i: int, c: char) -> int
    decreases s.len() - i
    when 0 <= i <= s.len()
{
    if i >= s.len() {
        i
    } else if s[i] == c {
        i
    } else {
        find_char_from(s, i + 1, c)
    }
}

proof fn lemma_find_char_from(s: Seq<char>, i: int, c: char)
    requires
        0 <= i <= s.len(),
    ensures
        i <= find_char_from(s, i, c) <= s.len(),
        forall|j: int| i <= j < find_char_from(s, i, c) ==> s[j] != c,
        find_char_from(s, i, c) < s.len() ==> s[find_char_from(s, i, c)] == c,
    decreases s.len() - i,
{
    if i < s.len() && s[i] != c {
        lemma_find_char_from(s, i + 1, c);
    }
}

/// Finds the first occurrence of the character at or after `from`.
fn find_char_pos(s: &str, from: usize, c: char) -> (r: usize)
    requires
        from as int <= s@.len(),
    ensures
        r as int == find_char_from(s@, from as int, c),
        from <= r <= s@.len(),
{
    let n: usize = s.unicode_len();
    let mut i: usize = from;
    while i < n && s.get_char(i) != c
        invariant
            from <= i <= n,
            n as int == s@.len(),
            find_char_from(s@, from as int, c) == find_char_from(s@, i as int, c),
        decreases n - i,
    {
        i = i + 1;
    }
    i
}

/// Where the tag that opens at `i` ends: just after the next `>`, or at
/// the end of the input when the tag is left open.
pub open spec fn tag_end_at(s: Seq<char>, i: int) -> int {
    let e = find_char_from(s, i, '>');
    if e < s.len() {
        e + 1
    } else {
        e
    }
}

/// The alternating tag and text runs of a chunk: a `<` opens a tag run
/// that reaches its `>`; everything between tag runs is a text run.
pub open spec fn segments_from(s: Seq<char>, i: int) -> Seq<(bool, Seq<char>)>
    decreases s.len() - i
    when 0 <= i <= s.len()
    via segments_from_dec
{
    if i >= s.len() {
        seq![]
    } else if s[i] == '<' {
        seq![(true, s.subrange(i, tag_end_at(s, i)))] + segments_from(s, tag_end_at(s, i))
    } else {
        seq![(false, s.subrange(i, find_char_from(s, i, '<')))] + segments_from(
            s,
            find_char_from(s, i, '<'),
        )
    }
}

#[via_fn]
proof fn segments_from_dec(s: Seq<char>, i: int) {
    if 0 <= i && i < s.len() {
        lemma_find_char_from(s, i, '>');
        lemma_find_char_from(s, i, '<');
    }
}

/// The contents of a run of segments, in order, tags and text alike.
pub open spec fn segments_text(segs: Seq<(bool, Seq<char>)>) -> Seq<char>
    decreases segs.len(),
{
    if segs.len() == 0 {
        Seq::<char>::empty()
    } else {
        segs[0].1 + segments_text(segs.drop_first())
    }
}

/// Law: the tag/text partition loses nothing: the contents of the
/// segments concatenate back to the input exactly.
pub proof fn lemma_segments_flatten(s: Seq<char>, i: int)
    requires
        0 <= i <= s.len(),
    ensures
        segments_text(segments_from(s, i)) == s.subrange(i, s.len() as int),
    decreases s.len() - i,
{
    if i >= s.len() {
        assert(s.subrange(i, s.len() as int) =~= Seq::<char>::empty());
    } else {
        lemma_find_char_from(s, i, '>');
        lemma_find_char_from(s, i, '<');
        let e: int = if s[i] == '<' {
            tag_end_at(s, i)
        } else {
            find_char_from(s, i, '<')
        };
        lemma_segments_flatten(s, e);
        let segs = segments_from(s, i);
        let rest = segments_from(s, e);
        assert(segs.drop_first() =~= rest);
        assert(segs[0].1 == s.subrange(i, e));
        assert(s.subrange(i, e) + s.subrange(e, s.len() as int) =~= s.subrange(i, s.len() as int));
    }
}

/// Splits a chunk into its tag and text runs.
pub fn scan_segments(html: &str) -> (segs: Vec<(bool, String)>)
    ensures
        segs.deep_view() == segments_from(html@, 0),
{
    let n: usize = html.unicode_len();
    let mut segs: Vec<(bool, String)> = Vec::new();
    proof {
        assert(segs.deep_view() + segments_from(html@, 0) =~= segments_from(html@, 0));
    }
    let mut i: usize = 0;
    while i < n
        invariant
            i <= n,
            n as int == html@.len(),
            segs.deep_view() + segments_from(html@, i as int) == segments_from(html@, 0),
        decreases n - i,
    {
        let ghost pre = segs.deep_view();
        let e: usize;
        if html.get_char(i) == '<' {
            let e0: usize = find_char_pos(html, i, '>');
            e = if e0 < n {
                e0 + 1
            } else {
                e0
            };
            segs.push((true, String::from_str(html.substring_char(i, e))));
            proof {
                assert(e as int == tag_end_at(html@, i as int));
                assert(segs.deep_view() =~= pre.push(
                    (true, html@.subrange(i as int, e as int)),
                ));
                assert(segs.deep_view() + segments_from(html@, e as int) =~= pre + segments_from(
                    html@,
                    i as int,
                ));
            }
        } else {
            proof {
                lemma_find_char_from(html@, i as int, '<');
            }
            e = find_char_pos(html, i, '<');
            segs.push((false, String::from_str(html.substring_char(i, e))));
            proof {
                assert(segs.deep_view() =~= pre.push(
                    (false, html@.subrange(i as int, e as int)),
                ));
                assert(segs.deep_view() + segments_from(html@, e as int) =~= pre + segments_from(
                    html@,
                    i as int,
                ));
            }
        }
        i = e;
    }
    proof {
        assert(segs.deep_view() + segments_from(html@, n as int) =~= segs.deep_view());
    }
    segs
}

/// One text run through the annotator; a blank run is left exactly as it
/// is, and no dictionary work is done for it.
pub fn process_text_fn(input: &str, param: &ChunkParameter) -> (r: String)
    ensures
        r@ == annotate_phrase_spec(
            input@,
            param.dict@,
            param.lemma@,
            *param.annotator,
            param.def_length,
        ),
{
    let trimmed = trim_str(input);
    if trimmed.as_str().unicode_len() == 0 {
        return String::from_str(input);
    }
    annotate_phrase(param.annotator, input, param.dict, param.lemma, param.def_length)
}

/// The annotated form of one chunk: tag runs pass through verbatim, text
/// runs go through the phrase annotator.
pub open spec fn render_segments(
    segs: Seq<(bool, Seq<char>)>,
    dictv: Map<Seq<char>, DictRecord>,
    lemmav: Map<Seq<char>, Seq<char>>,
    ann: Annotator,
    def_length: i32,
) -> Seq<char>
    decreases segs.len(),
{
    if segs.len() == 0 {
        Seq::<char>::empty()
    } else {
        (if segs[0].0 {
            segs[0].1
        } else {
            annotate_phrase_spec(segs[0].1, dictv, lemmav, ann, def_length)
        }) + render_segments(segs.drop_first(), dictv, lemmav, ann, def_length)
    }
}

pub open spec fn process_text_spec(
    s: Seq<char>,
    dictv: Map<Seq<char>, DictRecord>,
    lemmav: Map<Seq<char>, Seq<char>>,
    ann: Annotator,
    def_length: i32,
) -> Seq<char> {
    render_segments(segments_from(s, 0), dictv, lemmav, ann, def_length)
}

/// Annotates one chunk: content inside tags is passed through verbatim,
/// text runs are annotated.
pub fn process_text(html: &str, param: &ChunkParameter) -> (r: String)
    ensures
        r@ == process_text_spec(
            html@,
            param.dict@,
            param.lemma@,
            *param.annotator,
            param.def_length,
        ),
{
    let segs = scan_segments(html);
    let ghost sv = segs.deep_view();
    let m: usize = segs.len();
    proof {
        assert(sv.len() == m);
    }
    let mut out = String::new();
    proof {
        assert(sv.subrange(0, m as int) =~= sv);
        assert(Seq::<char>::empty() + render_segments(
            sv,
            param.dict@,
            param.lemma@,
            *param.annotator,
            param.def_length,
        ) =~= render_segments(
            sv,
            param.dict@,
            param.lemma@,
            *param.annotator,
            param.def_length,
        ));
    }
    let mut j: usize = 0;
    while j < m
        invariant
            j <= m,
            m == segs@.len(),
            sv == segs.deep_view(),
            sv.len() == m,
            sv == segments_from(html@, 0),
            out@ + render_segments(
                sv.subrange(j as int, m as int),
                param.dict@,
                param.lemma@,
                *param.annotator,
                param.def_length,
            ) == process_text_spec(
                html@,
                param.dict@,
                param.lemma@,
                *param.annotator,
                param.def_length,
            ),
        decreases m - j,
    {
        let ghost seg = sv[j as int];
        proof {
            assert(sv.subrange(j as int, m as int)[0] == seg);
            assert(sv.subrange(j as int, m as int).drop_first() =~= sv.subrange(
                j as int + 1,
                m as int,
            ));
        }
        if segs[j].0 {
            out.append(segs[j].1.as_str());
        } else {
            let piece = process_text_fn(segs[j].1.as_str(), param);
            out.append(piece.as_str());
        }
        j = j + 1;
    }
    proof {
        assert(sv.subrange(m as int, m as int) =~= Seq::<(bool, Seq<char>)>::empty());
    }
    out
}

/// Relies on rayon's `par_iter().map(..).collect()`: it applies the
/// verified `process_text` to every chunk, possibly on several worker
/// threads, and collects the results in the chunks' own order.
#[verifier::external_body]
fn par_process_chunks(chunks: &Vec<&str>, param: &ChunkParameter) -> (outs: Vec<String>)
    ensures
        outs@.len() == chunks@.len(),
        forall|k: int|
            0 <= k < outs@.len() ==> (#[trigger] outs@[k])@ == process_text_spec(
                chunks@[k]@,
                param.dict@,
                param.lemma@,
                *param.annotator,
                param.def_length,
            ),
{
    chunks.par_iter().map(|c| process_text(c, param)).collect()
}

/// The whole pipeline on one document: the head and tail pass through,
/// the body is split into chunks, each chunk is annotated concurrently by
/// a worker pool, and the results are reassembled strictly in chunk
/// order.  Progress is reported as finished chunks out of the total while
/// the output is put back together.
pub fn annotate_document<R: ProgressSink>(
    doc: &str,
    param: &ChunkParameter,
    max_size: usize,
    reporter: Option<&R>,
) -> (r: String)
    ensures
        exists|chunks: Seq<Seq<char>>|
            is_split_of(body_of(doc@), chunks, max_size as int) && r@ == head_of(doc@)
                + chunks.map_values(
                |c: Seq<char>|
                    process_text_spec(
                        c,
                        param.dict@,
                        param.lemma@,
                        *param.annotator,
                        param.def_length,
                    ),
            ).flatten() + tail_of(doc@),
{
    let (head, chunks, tail) = split_document(doc, max_size);
    let ghost cv = chunks.deep_view();
    let outs = par_process_chunks(&chunks, param);
    let total: usize = outs.len();
    proof {
        assert(cv.len() == chunks@.len());
    }
    let mut out = String::from_str(head);
    let mut k: usize = 0;
    while k < total
        invariant
            k <= total,
            total == outs@.len(),
            cv == chunks.deep_view(),
            cv.len() == total,
            forall|t: int|
                0 <= t < total ==> (#[trigger] outs@[t])@ == process_text_spec(
                    cv[t],
                    param.dict@,
                    param.lemma@,
                    *param.annotator,
                    param.def_length,
                ),
            out@ == head_of(doc@) + cv.subrange(0, k as int).map_values(
                |c: Seq<char>|
                    process_text_spec(
                        c,
                        param.dict@,
                        param.lemma@,
                        *param.annotator,
                        param.def_length,
                    ),
            ).flatten(),
        decreases total - k,
    {
        out.append(outs[k].as_str());
        if let Some(rep) = reporter {
            rep.report(k + 1, total);
        }
        proof {
            let f = |c: Seq<char>|
                process_text_spec(
                    c,
                    param.dict@,
                    param.lemma@,
                    *param.annotator,
                    param.def_length,
                );
            assert(cv.subrange(0, k as int + 1) =~= cv.subrange(0, k as int).push(cv[k as int]));
            assert(cv.subrange(0, k as int + 1).map_values(f) =~= cv.subrange(0, k as int).map_values(f).push(f(cv[k as int])));
        }
        k = k + 1;
    }
    out.append(tail);
    proof {
        assert(cv.subrange(0, total as int) =~= cv);
    }
    out
}

/// One text run handed to an arbitrary chunk processor: `out` is a value
/// the processor may return for this content.
pub open spec fn run_output<F: Fn(String) -> String>(f: F, content: Seq<char>, out: Seq<char>) -> bool {
    exists|arg: String, ret: String| arg@ == content && ret@ == out && call_ensures(f, (arg,), ret)
}

/// One chunk through the scanner with an arbitrary processor: tag runs
/// pass through verbatim, and each text run is replaced by something the
/// processor may return for it.
pub open spec fn chunk_output<F: Fn(String) -> String>(f: F, c: Seq<char>, out: Seq<char>) -> bool {
    exists|souts: Seq<Seq<char>>|
        {
            let segs = segments_from(c, 0);
            &&& souts.len() == segs.len()
            &&& (forall|k: int| 0 <= k < segs.len() && segs[k].0 ==> souts[k] == segs[k].1)
            &&& (forall|k: int|
                0 <= k < segs.len() && !segs[k].0 ==> run_output(f, segs[k].1, #[trigger] souts[k]))
            &&& out == #[trigger] souts.flatten()
        }
}

/// What the generic pipeline produces: the head and tail pass through,
/// the body is split by the window rules, and each chunk's runs go
/// through the processor.
pub open spec fn html_output<F: Fn(String) -> String>(
    f: F,
    doc: Seq<char>,
    max: int,
    out: Seq<char>,
) -> bool {
    exists|chunks: Seq<Seq<char>>, outs: Seq<Seq<char>>|
        {
            &&& is_split_of(body_of(doc), chunks, max)
            &&& outs.len() == chunks.len()
            &&& (forall|k: int|
                0 <= k < chunks.len() ==> chunk_output(f, chunks[k], #[trigger] outs[k]))
            &&& out == head_of(doc) + outs.flatten() + tail_of(doc)
        }
}

/// The pipeline over an arbitrary per-run processor: splits the document,
/// hands every text run of every chunk to `process_fn`, reassembles in
/// chunk order, and reports each finished chunk.
pub fn process_html<F: Fn(String) -> String, R: ProgressSink>(
    doc: &str,
    max_size: usize,
    process_fn: F,
    reporter: Option<&R>,
) -> (r: String)
    requires
        forall|arg: (String,)| #[trigger] call_requires(process_fn, arg),
    ensures
        html_output(process_fn, doc@, max_size as int, r@),
{
    let (head, chunks, tail) = split_document(doc, max_size);
    let ghost cv = chunks.deep_view();
    let total: usize = chunks.len();
    proof {
        assert(cv.len() == total);
    }
    let mut out = String::from_str(head);
    let ghost mut outs: Seq<Seq<char>> = Seq::empty();
    let mut k: usize = 0;
    proof {
        assert(outs.flatten() =~= Seq::<char>::empty());
        assert(out@ =~= head_of(doc@) + outs.flatten());
    }
    while k < total
        invariant
            k <= total,
            total == chunks@.len(),
            cv == chunks.deep_view(),
            cv.len() == total,
            is_split_of(body_of(doc@), cv, max_size as int),
            forall|arg: (String,)| #[trigger] call_requires(process_fn, arg),
            outs.len() == k,
            forall|t: int| 0 <= t < k ==> chunk_output(process_fn, cv[t], #[trigger] outs[t]),
            out@ == head_of(doc@) + outs.flatten(),
        decreases total - k,
    {
        let chunk: &str = chunks[k];
        let segs = scan_segments(chunk);
        let ghost sv = segs.deep_view();
        let m: usize = segs.len();
        proof {
            assert(sv.len() == m);
        }
        let mut chunk_out = String::new();
        let ghost mut souts: Seq<Seq<char>> = Seq::empty();
        let mut j: usize = 0;
        proof {
            assert(souts.flatten() =~= Seq::<char>::empty());
            assert(chunk_out@ =~= souts.flatten());
        }
        while j < m
            invariant
                j <= m,
                m == segs@.len(),
                sv == segs.deep_view(),
                sv.len() == m,
                sv == segments_from(cv[k as int], 0),
                k < total,
                total == chunks@.len(),
                cv == chunks.deep_view(),
                forall|arg: (String,)| #[trigger] call_requires(process_fn, arg),
                souts.len() == j,
                forall|t: int| 0 <= t < j && sv[t].0 ==> souts[t] == sv[t].1,
                forall|t: int|
                    0 <= t < j && !sv[t].0 ==> run_output(process_fn, sv[t].1, #[trigger] souts[t]),
                chunk_out@ == souts.flatten(),
            decreases m - j,
        {
            let ghost pre = souts;
            if segs[j].0 {
                chunk_out.append(segs[j].1.as_str());
                proof {
                    souts = souts.push(sv[j as int].1);
                }
            } else {
                let arg = segs[j].1.clone();
                let ghost argv = arg@;
                let ret = process_fn(arg);
                chunk_out.append(ret.as_str());
                proof {
                    souts = souts.push(ret@);
                    assert(argv == sv[j as int].1);
                    assert(run_output(process_fn, sv[j as int].1, ret@));
                }
            }
            j = j + 1;
        }
        out.append(chunk_out.as_str());
        if let Some(rep) = reporter {
            rep.report(k + 1, total);
        }
        proof {
            assert(chunk_output(process_fn, cv[k as int], chunk_out@));
            outs = outs.push(chunk_out@);
        }
        k = k + 1;
    }
    out.append(tail);
    proof {
        assert(html_output(process_fn, doc@, max_size as int, out@));
    }
    out
}

/// A progress sink that ignores every report.
pub struct SilentProgress {}

impl ProgressSink for SilentProgress {
    fn report(&self, _completed: usize, _total: usize) {
    }
}

proof fn lemma_flatten_matches_segments(segs: Seq<(bool, Seq<char>)>, souts: Seq<Seq<char>>)
    requires
        souts.len() == segs.len(),
        forall|k: int| 0 <= k < segs.len() ==> souts[k] == segs[k].1,
    ensures
        souts.flatten() == segments_text(segs),
    decreases segs.len(),
{
    if segs.len() > 0 {
        assert(souts.flatten() == souts.first() + souts.drop_first().flatten());
        lemma_flatten_matches_segments(segs.drop_first(), souts.drop_first());
    }
}

/// Law: with a processor that hands every text run back unchanged, the
/// pipeline reproduces the whole document exactly, character for
/// character and so byte for byte: splitting the body into chunks,
/// scanning each chunk into tag and text runs, and reassembling in chunk
/// order lose nothing.
pub fn passthrough_document(doc: &str, max_size: usize) -> (r: String)
    ensures
        r@ == doc@,
        encode_utf8(r@) == encode_utf8(doc@),
{
    let identity = |s: String| -> (t: String)
        ensures
            t@ == s@,
        { s };
    let r = process_html::<_, SilentProgress>(doc, max_size, identity, None);
    proof {
        let (chunks, outs): (Seq<Seq<char>>, Seq<Seq<char>>) = choose|
            chunks: Seq<Seq<char>>,
            outs: Seq<Seq<char>>,
        |
            {
                &&& is_split_of(body_of(doc@), chunks, max_size as int)
                &&& outs.len() == chunks.len()
                &&& (forall|k: int|
                    0 <= k < chunks.len() ==> chunk_output(identity, chunks[k], #[trigger] outs[k]))
                &&& r@ == head_of(doc@) + outs.flatten() + tail_of(doc@)
            };
        assert forall|k: int| 0 <= k < chunks.len() implies #[trigger] outs[k] == chunks[k] by {
            let souts = choose|souts: Seq<Seq<char>>|
                {
                    let segs = segments_from(chunks[k], 0);
                    &&& souts.len() == segs.len()
                    &&& (forall|t: int| 0 <= t < segs.len() && segs[t].0 ==> souts[t] == segs[t].1)
                    &&& (forall|t: int|
                        0 <= t < segs.len() && !segs[t].0 ==> run_output(
                            identity,
                            segs[t].1,
                            #[trigger] souts[t],
                        ))
                    &&& outs[k] == #[trigger] souts.flatten()
                };
            let segs = segments_from(chunks[k], 0);
            assert forall|t: int| 0 <= t < segs.len() implies #[trigger] souts[t] == segs[t].1 by {
                if !segs[t].0 {
                    let (arg, ret): (String, String) = choose|arg: String, ret: String|
                        arg@ == segs[t].1 && ret@ == souts[t] && call_ensures(
                            identity,
                            (arg,),
                            ret,
                        );
                }
            }
            lemma_flatten_matches_segments(segs, souts);
            lemma_segments_flatten(chunks[k], 0);
            assert(chunks[k].subrange(0, chunks[k].len() as int) =~= chunks[k]);
        }
        assert(outs =~= chunks);
        lemma_body_bounds(doc@);
        assert(r@ == doc@);
    }
    r
}

/// A position inside the first part of a concatenation is a character
/// boundary of the whole exactly when it is one of the first part.
proof fn lemma_boundary_in_prefix(b1: Seq<u8>, b2: Seq<u8>, p: int)
    requires
        valid_utf8(b1),
        valid_utf8(b2),
        0 <= p <= b1.len(),
    ensures
        is_char_boundary(b1 + b2, p) <==> is_char_boundary(b1, p),
{
    assert(valid_utf8(b1 + b2));
    vstd::utf8::is_char_boundary_start_end_of_seq(b1);
    vstd::utf8::is_char_boundary_start_end_of_seq(b1 + b2);
    if p == b1.len() {
        if b2.len() == 0 {
            assert(b1 + b2 =~= b1);
        } else {
            assert((b1 + b2)[p] == b2[0]);
            assert(vstd::utf8::valid_first_scalar(b2));
            assert(!vstd::utf8::is_continuation_byte(b2[0]));
            vstd::utf8::is_char_boundary_iff_not_is_continuation_byte(b1 + b2, p);
        }
    } else if p == 0 {
        assert(is_char_boundary(b1, 0));
        assert(is_char_boundary(b1 + b2, 0));
    } else {
        assert((b1 + b2)[p] == b1[p]);
        vstd::utf8::is_char_boundary_iff_not_is_continuation_byte(b1 + b2, p);
        vstd::utf8::is_char_boundary_iff_not_is_continuation_byte(b1, p);
    }
}

/// Law: every chunk stays inside the byte-size cap, with one exception:
/// a chunk that holds one single character whose own encoding is wider
/// than the cap, where cutting to the cap would bisect the character.
pub proof fn lemma_chunk_size(body: Seq<char>, chunks: Seq<Seq<char>>, max: int, t: int)
    requires
        is_split_of(body, chunks, max),
        0 <= t < chunks.len(),
    ensures
        encode_utf8(chunks[t]).len() <= max || chunks[t].len() == 1,
{
    let n = chunks.len() as int;
    let suffix = chunks.subrange(t, n).flatten();
    let b = encode_utf8(suffix);
    let wend = window_end(b.len() as int, max);
    let cut = encode_utf8(chunks[t]).len() as int;
    assert(cut_of_suffix(suffix, chunks[t], max));
    assert(chunks.subrange(t, n).first() == chunks[t]);
    assert(chunks.subrange(t, n).drop_first() =~= chunks.subrange(t + 1, n));
    let rest = chunks.subrange(t + 1, n).flatten();
    assert(suffix == chunks[t] + rest);
    lemma_encode_concat(chunks[t], rest);
    if cut <= wend {
    } else {
        assert(!has_boundary_cut(b, wend) && (forall|p: int|
            wend < p < cut ==> !is_char_boundary(b, p)));
        assert(chunks[t].len() > 0);
        if chunks[t].len() >= 2 {
            let x0 = chunks[t].subrange(0, 1);
            let xr = chunks[t].subrange(1, chunks[t].len() as int);
            assert(x0 + xr =~= chunks[t]);
            lemma_cut_is_char_boundary(x0, xr);
            let l = encode_utf8(x0).len() as int;
            lemma_encode_empty_iff(x0);
            lemma_encode_concat(x0, xr);
            lemma_encode_empty_iff(xr);
            assert(0 < l < cut);
            assert(is_char_boundary(encode_utf8(chunks[t]), l));
            lemma_boundary_in_prefix(encode_utf8(chunks[t]), encode_utf8(rest), l);
            assert(is_char_boundary(b, l));
            if l <= wend {
                assert(has_boundary_cut(b, wend));
            }
            assert(false);
        }
    }
}

} // verus!
