use vstd::prelude::*;
use vstd::string::StrSliceExecFns;
use vstd::string::StringExecFns;

use crate::dict::{
    dict_insert_spec, key_stable, lemma_dict_insert_keys_normalized, lemma_insert_spec,
    Dictionary, LemmaIndex,
};
use crate::text::{
    contains_char, contains_char_spec, is_space_spec, lemma_skip_spaces, parse_i32,
    parse_i32_spec, rscan_spaces, rskip_spaces, scan_non_spaces, scan_spaces, skip_spaces,
    split_ws_from, tokens_of, trim_spec, trim_str,
};
use crate::types::{
    annotate_text, annotate_text_spec, lookup_key, Annotator, Clean, Cleaner, DictRecord,
    LexiconError,
};

verus! {

/// What `csv::Reader::records` yields for a byte buffer: the records after
/// the header row, each as its list of fields, a function of the bytes
/// alone.
pub uninterp spec fn csv_rows(bytes: Seq<u8>) -> Seq<Seq<Seq<char>>>;

/// Whether `csv::Reader::records` reads the whole byte buffer without an
/// error: a function of the bytes alone, since no I/O stands behind a
/// byte-slice reader.
pub uninterp spec fn csv_parses(bytes: Seq<u8>) -> bool;

/// Relies on `csv::Reader::from_reader` and `csv::StringRecord`: reads
/// every record of the buffer (the header row is skipped), each as its
/// fields; whether that succeeds, and what it yields, depend on the
/// bytes alone; a parse failure comes back as the error's text.
#[verifier::external_body]
fn read_csv_rows(bytes: &[u8]) -> (r: Result<Vec<Vec<String>>, String>)
    ensures
        (r matches Ok(rows)) <==> csv_parses(bytes@),
        r matches Ok(rows) ==> rows.deep_view() == csv_rows(bytes@),
{
    let mut reader = csv::Reader::from_reader(bytes);
    let mut rows: Vec<Vec<String>> = Vec::new();
    for record in reader.records() {
        match record {
            Ok(fields) => rows.push(fields.iter().map(|f| f.to_string()).collect()),
            Err(e) => return Err(e.to_string()),
        }
    }
    Ok(rows)
}

/// A dictionary row is usable when it has the seven expected fields and
/// its hint level is an integer.
pub open spec fn dict_row_ok(row: Seq<Seq<char>>) -> bool {
    row.len() >= 7 && parse_i32_spec(row[6]) is Some
}

/// The entry a dictionary row describes: word, phoneme, long and short
/// definition, example sentences, hint level, in that column order after
/// the leading identifier column.
pub open spec fn record_matches(dr: DictRecord, row: Seq<Seq<char>>) -> bool {
    &&& dr.word@ == row[1]
    &&& dr.phoneme@ == row[2]
    &&& dr.full_def@ == row[3]
    &&& dr.short_def@ == row[4]
    &&& dr.example_sentences@ == row[5]
    &&& parse_i32_spec(row[6]) == Some(dr.hint_lvl)
}

/// How a finished dictionary relates to its source rows: every key is the
/// cleaned form of some row's word, and for every row whose cleaned key no
/// later row claims, the dictionary holds exactly that row's entry
/// (last-row-wins for duplicate keys).
pub open spec fn dict_built_from(d: Map<Seq<char>, DictRecord>, rows: Seq<Seq<Seq<char>>>) -> bool {
    &&& forall|k: Seq<char>|
        d.contains_key(k) ==> exists|i: int|
            0 <= i < rows.len() && k == lookup_key(#[trigger] rows[i][1]) && key_stable(k)
    &&& forall|i: int|
        0 <= i < rows.len() && key_stable(lookup_key(#[trigger] rows[i][1])) && (forall|j: int|
            i < j < rows.len() ==> lookup_key(#[trigger] rows[j][1]) != lookup_key(rows[i][1]))
            ==> d.contains_key(lookup_key(rows[i][1])) && record_matches(
            d[lookup_key(rows[i][1])],
            rows[i],
        )
}

/// Builds the dictionary from parsed rows.  Fails with the zero-based
/// index of the first row that is missing fields or whose hint level is
/// not an integer.
pub fn build_dictionary(rows: &Vec<Vec<String>>) -> (r: Result<Dictionary, LexiconError>)
    ensures
        (r matches Ok(d)) <==> (forall|i: int|
            0 <= i < rows.deep_view().len() ==> dict_row_ok(#[trigger] rows.deep_view()[i])),
        r matches Ok(d) ==> dict_built_from(d@, rows.deep_view()) && (forall|k: Seq<char>|
            d@.contains_key(k) ==> key_stable(k)),
        r matches Err(e) ==> (e matches LexiconError::MalformedRow(b) && 0 <= b
            < rows.deep_view().len() && !dict_row_ok(rows.deep_view()[b as int]) && (forall|j: int|
            0 <= j < b ==> dict_row_ok(#[trigger] rows.deep_view()[j]))),
{
    let ghost rv = rows.deep_view();
    let mut d = Dictionary::new();
    let n: usize = rows.len();
    proof {
        assert(rv.len() == n);
    }
    let mut i: usize = 0;
    while i < n
        invariant
            i <= n,
            n == rows@.len(),
            rv == rows.deep_view(),
            rv.len() == n,
            forall|j: int| 0 <= j < i ==> dict_row_ok(#[trigger] rv[j]),
            dict_built_from(d@, rv.subrange(0, i as int)),
            forall|k: Seq<char>| d@.contains_key(k) ==> key_stable(k),
        decreases n - i,
    {
        let row = &rows[i];
        proof {
            assert(rv[i as int] == rows@[i as int].deep_view());
            assert forall|j: int| 0 <= j < rv[i as int].len() implies #[trigger] rv[i as int][j]
                == rows@[i as int]@[j]@ by {}
        }
        if row.len() < 7 {
            proof {
                assert(!dict_row_ok(rv[i as int]));
            }
            return Err(LexiconError::MalformedRow(i));
        }
        let hint = match parse_i32(row[6].as_str()) {
            Some(h) => h,
            None => {
                proof {
                    assert(!dict_row_ok(rv[i as int]));
                }
                return Err(LexiconError::MalformedRow(i));
            },
        };
        let record = DictRecord {
            word: row[1].clone(),
            phoneme: row[2].clone(),
            full_def: row[3].clone(),
            short_def: row[4].clone(),
            example_sentences: row[5].clone(),
            hint_lvl: hint,
        };
        let ghost pre = d@;
        proof {
            lemma_dict_insert_keys_normalized(d@, rv[i as int][1], record);
        }
        d.insert(row[1].as_str(), record);
        proof {
            lemma_dict_built_step(pre, d@, rv, i as int, record);
        }
        i = i + 1;
    }
    proof {
        assert(rv.subrange(0, n as int) =~= rv);
    }
    Ok(d)
}

/// One insertion keeps the row characterization: the prefix grows by the
/// row whose cleaned key the insertion wrote.
proof fn lemma_dict_built_step(
    pre: Map<Seq<char>, DictRecord>,
    post: Map<Seq<char>, DictRecord>,
    rv: Seq<Seq<Seq<char>>>,
    i: int,
    record: DictRecord,
)
    requires
        0 <= i < rv.len(),
        dict_built_from(pre, rv.subrange(0, i)),
        post == dict_insert_spec(pre, rv[i][1], record),
        record_matches(record, rv[i]),
    ensures
        dict_built_from(post, rv.subrange(0, i + 1)),
{
    let prefix = rv.subrange(0, i);
    let ext = rv.subrange(0, i + 1);
    assert(ext.drop_last() =~= prefix);
    let ki = lookup_key(rv[i][1]);
    assert forall|k: Seq<char>| post.contains_key(k) implies exists|t: int|
        0 <= t < ext.len() && k == lookup_key(#[trigger] ext[t][1]) && key_stable(k) by {
        if key_stable(ki) && k == ki {
            assert(ext[i] == rv[i]);
            assert(0 <= i < ext.len() && k == lookup_key(ext[i][1]) && key_stable(k));
        } else {
            assert(pre.contains_key(k));
            let t = choose|t: int|
                0 <= t < prefix.len() && k == lookup_key(#[trigger] prefix[t][1]) && key_stable(k);
            assert(ext[t] == prefix[t]);
        }
    }
    assert forall|t: int|
        0 <= t < ext.len() && key_stable(lookup_key(#[trigger] ext[t][1])) && (forall|j: int|
            t < j < ext.len() ==> lookup_key(#[trigger] ext[j][1]) != lookup_key(ext[t][1]))
        implies post.contains_key(lookup_key(ext[t][1])) && record_matches(
        post[lookup_key(ext[t][1])],
        ext[t],
    ) by {
        assert(ext[t] == rv[t]);
        let kt = lookup_key(ext[t][1]);
        if t == i {
            assert(post == pre.insert(ki, record));
        } else {
            assert(ext[i] == rv[i]);
            assert(lookup_key(ext[i][1]) != kt);
            assert(prefix[t] == ext[t]);
            assert forall|j: int| t < j < prefix.len() implies lookup_key(
                #[trigger] prefix[j][1],
            ) != kt by {
                assert(ext[j] == prefix[j]);
            }
            assert(pre.contains_key(kt) && record_matches(pre[kt], prefix[t]));
            if key_stable(ki) {
                assert(post == pre.insert(ki, record));
                assert(kt != ki);
            } else {
                assert(post == pre);
            }
        }
    }
}

/// Loads a language dictionary from the bytes of its tabular source.
pub fn load_dict(bytes: &[u8]) -> (r: Result<Dictionary, LexiconError>)
    ensures
        (r matches Err(e) && e matches LexiconError::Unreadable(_)) <==> !csv_parses(bytes@),
        csv_parses(bytes@) ==> ((r is Ok) <==> (forall|i: int|
            0 <= i < csv_rows(bytes@).len() ==> dict_row_ok(#[trigger] csv_rows(bytes@)[i]))),
        r matches Ok(d) ==> dict_built_from(d@, csv_rows(bytes@)) && (forall|k: Seq<char>|
            d@.contains_key(k) ==> key_stable(k)),
        r matches Err(e) ==> !(e matches LexiconError::NotFound),
        r matches Err(e) ==> (e matches LexiconError::MalformedRow(b) ==> 0 <= b < csv_rows(
            bytes@,
        ).len() && !dict_row_ok(csv_rows(bytes@)[b as int]) && (forall|j: int|
            0 <= j < b ==> dict_row_ok(#[trigger] csv_rows(bytes@)[j]))),
{
    match read_csv_rows(bytes) {
        Ok(rows) => build_dictionary(&rows),
        Err(text) => Err(LexiconError::Unreadable(text)),
    }
}

/// A lemma row is usable when it has the two expected columns: base form,
/// then inflected form.
pub open spec fn lemma_row_ok(row: Seq<Seq<char>>) -> bool {
    row.len() >= 2
}

/// How a finished lemmatization table relates to its source rows: keys are
/// cleaned inflected forms (column 1), values the base forms (column 0),
/// last row winning for duplicate keys.
pub open spec fn lemma_built_from(m: Map<Seq<char>, Seq<char>>, rows: Seq<Seq<Seq<char>>>) -> bool {
    &&& forall|k: Seq<char>|
        m.contains_key(k) ==> exists|i: int|
            0 <= i < rows.len() && k == lookup_key(#[trigger] rows[i][1]) && key_stable(k)
    &&& forall|i: int|
        0 <= i < rows.len() && key_stable(lookup_key(#[trigger] rows[i][1])) && (forall|j: int|
            i < j < rows.len() ==> lookup_key(#[trigger] rows[j][1]) != lookup_key(rows[i][1]))
            ==> m.contains_key(lookup_key(rows[i][1])) && m[lookup_key(rows[i][1])] == rows[i][0]
}

/// Builds the lemmatization table from parsed rows.  Fails with the
/// zero-based index of the first row that is missing a column.
pub fn build_lemma_index(rows: &Vec<Vec<String>>) -> (r: Result<LemmaIndex, LexiconError>)
    ensures
        (r matches Ok(m)) <==> (forall|i: int|
            0 <= i < rows.deep_view().len() ==> lemma_row_ok(#[trigger] rows.deep_view()[i])),
        r matches Ok(m) ==> lemma_built_from(m@, rows.deep_view()) && (forall|k: Seq<char>|
            m@.contains_key(k) ==> key_stable(k)),
        r matches Err(e) ==> (e matches LexiconError::MalformedRow(b) && 0 <= b
            < rows.deep_view().len() && !lemma_row_ok(rows.deep_view()[b as int])),
{
    let ghost rv = rows.deep_view();
    let mut m = LemmaIndex::new();
    let n: usize = rows.len();
    proof {
        assert(rv.len() == n);
    }
    let mut i: usize = 0;
    while i < n
        invariant
            i <= n,
            n == rows@.len(),
            rv == rows.deep_view(),
            rv.len() == n,
            forall|j: int| 0 <= j < i ==> lemma_row_ok(#[trigger] rv[j]),
            lemma_built_from(m@, rv.subrange(0, i as int)),
        decreases n - i,
    {
        let row = &rows[i];
        proof {
            assert(rv[i as int] == rows@[i as int].deep_view());
            assert forall|j: int| 0 <= j < rv[i as int].len() implies #[trigger] rv[i as int][j]
                == rows@[i as int]@[j]@ by {}
        }
        if row.len() < 2 {
            proof {
                assert(!lemma_row_ok(rv[i as int]));
            }
            return Err(LexiconError::MalformedRow(i));
        }
        let ghost pre = m@;
        m.insert(row[1].as_str(), row[0].clone());
        proof {
            lemma_lemma_built_step(pre, m@, rv, i as int);
        }
        i = i + 1;
    }
    proof {
        assert(rv.subrange(0, n as int) =~= rv);
    }
    Ok(m)
}

proof fn lemma_lemma_built_step(
    pre: Map<Seq<char>, Seq<char>>,
    post: Map<Seq<char>, Seq<char>>,
    rv: Seq<Seq<Seq<char>>>,
    i: int,
)
    requires
        0 <= i < rv.len(),
        lemma_built_from(pre, rv.subrange(0, i)),
        post == lemma_insert_spec(pre, rv[i][1], rv[i][0]),
    ensures
        lemma_built_from(post, rv.subrange(0, i + 1)),
{
    let prefix = rv.subrange(0, i);
    let ext = rv.subrange(0, i + 1);
    assert(ext.drop_last() =~= prefix);
    let ki = lookup_key(rv[i][1]);
    assert forall|k: Seq<char>| post.contains_key(k) implies exists|t: int|
        0 <= t < ext.len() && k == lookup_key(#[trigger] ext[t][1]) && key_stable(k) by {
        if key_stable(ki) && k == ki {
            assert(ext[i] == rv[i]);
            assert(0 <= i < ext.len() && k == lookup_key(ext[i][1]) && key_stable(k));
        } else {
            assert(pre.contains_key(k));
            let t = choose|t: int|
                0 <= t < prefix.len() && k == lookup_key(#[trigger] prefix[t][1]) && key_stable(k);
            assert(ext[t] == prefix[t]);
        }
    }
    assert forall|t: int|
        0 <= t < ext.len() && key_stable(lookup_key(#[trigger] ext[t][1])) && (forall|j: int|
            t < j < ext.len() ==> lookup_key(#[trigger] ext[j][1]) != lookup_key(ext[t][1]))
        implies post.contains_key(lookup_key(ext[t][1])) && post[lookup_key(ext[t][1])]
        == ext[t][0] by {
        assert(ext[t] == rv[t]);
        let kt = lookup_key(ext[t][1]);
        if t == i {
            assert(post == pre.insert(ki, rv[i][0]));
        } else {
            assert(ext[i] == rv[i]);
            assert(lookup_key(ext[i][1]) != kt);
            assert(prefix[t] == ext[t]);
            assert forall|j: int| t < j < prefix.len() implies lookup_key(
                #[trigger] prefix[j][1],
            ) != kt by {
                assert(ext[j] == prefix[j]);
            }
            assert(pre.contains_key(kt) && pre[kt] == prefix[t][0]);
            if key_stable(ki) {
                assert(post == pre.insert(ki, rv[i][0]));
                assert(kt != ki);
            } else {
                assert(post == pre);
            }
        }
    }
}

/// Loads the lemmatization table from the bytes of its tabular source.
pub fn load_lemma(bytes: &[u8]) -> (r: Result<LemmaIndex, LexiconError>)
    ensures
        (r matches Err(e) && e matches LexiconError::Unreadable(_)) <==> !csv_parses(bytes@),
        csv_parses(bytes@) ==> ((r is Ok) <==> (forall|i: int|
            0 <= i < csv_rows(bytes@).len() ==> lemma_row_ok(#[trigger] csv_rows(bytes@)[i]))),
        r matches Ok(m) ==> lemma_built_from(m@, csv_rows(bytes@)) && (forall|k: Seq<char>|
            m@.contains_key(k) ==> key_stable(k)),
        r matches Err(e) ==> !(e matches LexiconError::NotFound),
        r matches Err(e) ==> (e matches LexiconError::MalformedRow(b) ==> 0 <= b < csv_rows(
            bytes@,
        ).len() && !lemma_row_ok(csv_rows(bytes@)[b as int])),
{
    match read_csv_rows(bytes) {
        Ok(rows) => build_lemma_index(&rows),
        Err(text) => Err(LexiconError::Unreadable(text)),
    }
}

/// Where a token's entry comes from: the token's cleaned key directly, or
/// - only for single words, never for phrases - the base form that the
/// lemmatization table gives for the key, looked up in the dictionary.
pub open spec fn lookup_record_spec(
    dictv: Map<Seq<char>, DictRecord>,
    lemmav: Map<Seq<char>, Seq<char>>,
    w: Seq<char>,
) -> Option<DictRecord> {
    let k = lookup_key(w);
    if dictv.contains_key(k) {
        Some(dictv[k])
    } else if !contains_char_spec(w, ' ') && lemmav.contains_key(k) && dictv.contains_key(lemmav[k]) {
        Some(dictv[lemmav[k]])
    } else {
        None
    }
}

/// Finds the entry for a word or phrase: first under its own cleaned key,
/// then - for single words only - under its lemmatized base form.
pub fn get_dict_record<'a>(
    word: &str,
    wordwise_dict: &'a Dictionary,
    lemma_dict: &LemmaIndex,
) -> (r: Option<&'a DictRecord>)
    ensures
        match r {
            Some(dr) => lookup_record_spec(wordwise_dict@, lemma_dict@, word@) == Some(*dr),
            None => lookup_record_spec(wordwise_dict@, lemma_dict@, word@) is None,
        },
{
    let (clean_word, _, _) = Cleaner::clean_word(word, true);
    if let Some(dict_record) = wordwise_dict.get(clean_word.as_str()) {
        return Some(dict_record);
    }
    if !contains_char(word, ' ') {
        if let Some(normal_form) = lemma_dict.get(clean_word.as_str()) {
            if let Some(dict_record) = wordwise_dict.get(normal_form.as_str()) {
                return Some(dict_record);
            }
        }
    }
    None
}

/// The maximal whitespace run at the start of a span.
pub open spec fn leading_ws(s: Seq<char>) -> Seq<char> {
    s.subrange(0, skip_spaces(s, 0))
}

/// The maximal whitespace run at the end of a span.
pub open spec fn trailing_ws(s: Seq<char>) -> Seq<char> {
    s.subrange(rskip_spaces(s, 0, s.len() as int), s.len() as int)
}

/// The annotated interior wrapped back into the span's own leading and
/// trailing whitespace.
pub open spec fn restore_ws_spec(sentence: Seq<char>, replaced: Seq<char>) -> Seq<char> {
    leading_ws(sentence) + replaced + trailing_ws(sentence)
}

/// Puts the whitespace that stood around the span back around the
/// replaced text.
pub fn restore_whitespace(sentence: &str, replaced_sentence: &str) -> (r: String)
    ensures
        r@ == restore_ws_spec(sentence@, replaced_sentence@),
{
    let n: usize = sentence.unicode_len();
    let a: usize = scan_spaces(sentence, 0);
    let b: usize = rscan_spaces(sentence, 0, n);
    let mut out = String::from_str(sentence.substring_char(0, a));
    out.append(replaced_sentence);
    out.append(sentence.substring_char(b, n));
    out
}

/// Tokens `i..j` joined with one space between each pair.
pub open spec fn join_range(toks: Seq<Seq<char>>, i: int, j: int) -> Seq<char>
    decreases j - i
    when 0 <= i <= j <= toks.len()
{
    if j <= i {
        Seq::<char>::empty()
    } else if j == i + 1 {
        toks[i]
    } else {
        toks[i] + seq![' '] + join_range(toks, i + 1, j)
    }
}

proof fn lemma_join_range_snoc(toks: Seq<Seq<char>>, i: int, j: int)
    requires
        0 <= i < j < toks.len(),
    ensures
        join_range(toks, i, j + 1) == join_range(toks, i, j) + seq![' '] + toks[j],
    decreases j - i,
{
    if j == i + 1 {
        assert(join_range(toks, i + 1, j + 1) == toks[j]);
        assert(join_range(toks, i, j + 1) == toks[i] + seq![' '] + join_range(toks, i + 1, j + 1));
        assert(join_range(toks, i, j) == toks[i]);
    } else {
        lemma_join_range_snoc(toks, i + 1, j);
        assert(toks[i] + seq![' '] + (join_range(toks, i + 1, j) + seq![' '] + toks[j]) =~= (toks[i]
            + seq![' '] + join_range(toks, i + 1, j)) + seq![' '] + toks[j]);
    }
}

/// Joins the tokens `i..j` with single spaces.
pub fn join_tokens(toks: &Vec<String>, i: usize, j: usize) -> (r: String)
    requires
        i < j <= toks@.len(),
    ensures
        r@ == join_range(toks.deep_view(), i as int, j as int),
{
    let ghost tv = toks.deep_view();
    proof {
        reveal_strlit(" ");
        assert(" "@ =~= seq![' ']);
        assert(tv.len() == toks@.len());
    }
    let mut out = String::from_str(toks[i].as_str());
    let mut t: usize = i + 1;
    while t < j
        invariant
            i < t <= j <= toks@.len(),
            tv == toks.deep_view(),
            tv.len() == toks@.len(),
            " "@ =~= seq![' '],
            out@ == join_range(tv, i as int, t as int),
        decreases j - t,
    {
        out.append(" ");
        out.append(toks[t].as_str());
        proof {
            lemma_join_range_snoc(tv, i as int, t as int);
        }
        t = t + 1;
    }
    out
}

/// The longest phrase length in `1..=l` whose joined, cleaned key has an
/// entry, or 0 when none has.
pub open spec fn best_len_upto(
    toks: Seq<Seq<char>>,
    i: int,
    dictv: Map<Seq<char>, DictRecord>,
    l: int,
) -> int
    decreases l
    when 0 <= i && l >= 0 && i + l <= toks.len()
{
    if l <= 0 {
        0
    } else if dictv.contains_key(lookup_key(join_range(toks, i, i + l))) {
        l
    } else {
        best_len_upto(toks, i, dictv, l - 1)
    }
}

proof fn lemma_best_len_upto(toks: Seq<Seq<char>>, i: int, dictv: Map<Seq<char>, DictRecord>, l: int)
    requires
        0 <= i,
        l >= 0,
        i + l <= toks.len(),
    ensures
        0 <= best_len_upto(toks, i, dictv, l) <= l,
    decreases l,
{
    if l > 0 && !dictv.contains_key(lookup_key(join_range(toks, i, i + l))) {
        lemma_best_len_upto(toks, i, dictv, l - 1);
    }
}

/// Law: longest-match determinism.  `best_len_upto` names the phrase
/// length the matcher takes at a cursor: when any length in `1..=l` has
/// a dictionary entry under its cleaned key, the chosen length is the
/// largest such one - it has an entry itself, and no longer length in
/// range has one - so a shorter contained match is never taken once a
/// longer phrase at the same start position matches.
pub proof fn lemma_longest_match_wins(
    toks: Seq<Seq<char>>,
    i: int,
    dictv: Map<Seq<char>, DictRecord>,
    l: int,
)
    requires
        0 <= i,
        0 <= l,
        i + l <= toks.len(),
    ensures
        best_len_upto(toks, i, dictv, l) > 0 ==> dictv.contains_key(
            lookup_key(join_range(toks, i, i + best_len_upto(toks, i, dictv, l))),
        ),
        forall|k: int|
            best_len_upto(toks, i, dictv, l) < k <= l ==> !dictv.contains_key(
                #[trigger] lookup_key(join_range(toks, i, i + k)),
            ),
        (exists|k: int|
            1 <= k <= l && dictv.contains_key(#[trigger] lookup_key(join_range(toks, i, i + k))))
            ==> best_len_upto(toks, i, dictv, l) >= 1,
    decreases l,
{
    if l > 0 && !dictv.contains_key(lookup_key(join_range(toks, i, i + l))) {
        lemma_longest_match_wins(toks, i, dictv, l - 1);
    }
}

/// The most phrase words one match may cover.
pub open spec fn max_phrase_len(toks: Seq<Seq<char>>, i: int) -> int {
    if toks.len() - i < 5 {
        toks.len() - i
    } else {
        5
    }
}

/// The rendered pieces of the token run from `i` on: at each cursor the
/// longest phrase (up to five words) with a dictionary entry wins; with no
/// phrase match the single token is looked up, falling back to its
/// lemmatized base form; an unmatched token stays as it is.
pub open spec fn annotate_pieces<'a>(
    toks: Seq<Seq<char>>,
    i: int,
    dictv: Map<Seq<char>, DictRecord>,
    lemmav: Map<Seq<char>, Seq<char>>,
    ann: Annotator<'a>,
    def_length: i32,
) -> Seq<Seq<char>>
    decreases toks.len() - i
    when 0 <= i <= toks.len()
    via annotate_pieces_dec
{
    if i >= toks.len() {
        seq![]
    } else {
        let m = best_len_upto(toks, i, dictv, max_phrase_len(toks, i));
        if m >= 1 {
            let phrase = join_range(toks, i, i + m);
            let piece = match lookup_record_spec(dictv, lemmav, phrase) {
                Some(dr) => annotate_text_spec(ann, dr, phrase, def_length),
                None => phrase,
            };
            seq![piece] + annotate_pieces(toks, i + m, dictv, lemmav, ann, def_length)
        } else {
            let piece = match lookup_record_spec(dictv, lemmav, toks[i]) {
                Some(dr) => annotate_text_spec(ann, dr, toks[i], def_length),
                None => toks[i],
            };
            seq![piece] + annotate_pieces(toks, i + 1, dictv, lemmav, ann, def_length)
        }
    }
}

#[via_fn]
proof fn annotate_pieces_dec<'a>(
    toks: Seq<Seq<char>>,
    i: int,
    dictv: Map<Seq<char>, DictRecord>,
    lemmav: Map<Seq<char>, Seq<char>>,
    ann: Annotator<'a>,
    def_length: i32,
) {
    if 0 <= i && i < toks.len() {
        lemma_best_len_upto(toks, i, dictv, max_phrase_len(toks, i));
    }
}

/// The annotated form of a whole span: unchanged when it holds nothing but
/// whitespace; otherwise its tokens are matched and rendered, joined with
/// single spaces, and the span's own leading and trailing whitespace is
/// put back verbatim.
pub open spec fn annotate_phrase_spec<'a>(
    s: Seq<char>,
    dictv: Map<Seq<char>, DictRecord>,
    lemmav: Map<Seq<char>, Seq<char>>,
    ann: Annotator<'a>,
    def_length: i32,
) -> Seq<char> {
    if trim_spec(s).len() == 0 {
        s
    } else {
        let pieces = annotate_pieces(tokens_of(s), 0, dictv, lemmav, ann, def_length);
        restore_ws_spec(s, join_range(pieces, 0, pieces.len() as int))
    }
}

/// Skipping leading whitespace does not change the token list.
proof fn lemma_split_ws_skip(s: Seq<char>, i: int)
    requires
        0 <= i <= s.len(),
    ensures
        split_ws_from(s, i) == split_ws_from(s, skip_spaces(s, i)),
    decreases s.len() - i,
{
    if i < s.len() && is_space_spec(s[i]) {
        lemma_split_ws_skip(s, i + 1);
    }
}

/// A span that is not all whitespace has at least one token.
proof fn lemma_tokens_nonempty(s: Seq<char>)
    requires
        trim_spec(s).len() > 0,
    ensures
        tokens_of(s).len() > 0,
{
    lemma_skip_spaces(s, 0);
    let a = skip_spaces(s, 0);
    lemma_split_ws_skip(s, 0);
    assert(a < s.len() && !is_space_spec(s[a]));
}

/// Splits a span into its whitespace-separated tokens.
fn tokenize(s: &str) -> (toks: Vec<String>)
    ensures
        toks.deep_view() == tokens_of(s@),
{
    let n: usize = s.unicode_len();
    let mut toks: Vec<String> = Vec::new();
    proof {
        lemma_skip_spaces(s@, 0);
        lemma_split_ws_skip(s@, 0);
        assert(toks.deep_view() + split_ws_from(s@, skip_spaces(s@, 0)) =~= tokens_of(s@));
    }
    let mut i: usize = scan_spaces(s, 0);
    while i < n
        invariant
            i <= n,
            n as int == s@.len(),
            i < n ==> !is_space_spec(s@[i as int]),
            toks.deep_view() + split_ws_from(s@, i as int) == tokens_of(s@),
        decreases n - i,
    {
        let ghost pre = toks.deep_view();
        let j: usize = scan_non_spaces(s, i);
        toks.push(String::from_str(s.substring_char(i, j)));
        proof {
            assert(toks.deep_view() =~= pre.push(s@.subrange(i as int, j as int)));
            assert(split_ws_from(s@, i as int) == seq![s@.subrange(i as int, j as int)]
                + split_ws_from(s@, j as int));
            lemma_split_ws_skip(s@, j as int);
            lemma_skip_spaces(s@, j as int);
            assert(toks.deep_view() + split_ws_from(s@, skip_spaces(s@, j as int)) =~= pre
                + split_ws_from(s@, i as int));
        }
        i = scan_spaces(s, j);
    }
    proof {
        assert(toks.deep_view() + split_ws_from(s@, n as int) =~= toks.deep_view());
    }
    toks
}

/// Annotates one sentence-like span: longest-match, left to right, without
/// overlaps; phrases beat single words; only single words consult the
/// lemmatization table; the span's own surrounding whitespace is kept.
pub fn annotate_phrase(
    annotator: &Annotator,
    sentence: &str,
    dict: &Dictionary,
    lemma_dict: &LemmaIndex,
    def_length: i32,
) -> (r: String)
    ensures
        r@ == annotate_phrase_spec(sentence@, dict@, lemma_dict@, *annotator, def_length),
{
    let trimmed = trim_str(sentence);
    if trimmed.as_str().unicode_len() == 0 {
        return String::from_str(sentence);
    }
    proof {
        lemma_tokens_nonempty(sentence@);
    }
    let words = tokenize(sentence);
    let ghost tv = words.deep_view();
    let ntoks: usize = words.len();
    proof {
        assert(tv.len() == ntoks);
    }
    let mut pieces: Vec<String> = Vec::new();
    let mut i: usize = 0;
    while i < ntoks
        invariant
            i <= ntoks,
            ntoks == words@.len(),
            tv == words.deep_view(),
            tv == tokens_of(sentence@),
            tv.len() == ntoks,
            pieces.deep_view() + annotate_pieces(
                tv,
                i as int,
                dict@,
                lemma_dict@,
                *annotator,
                def_length,
            ) == annotate_pieces(tv, 0, dict@, lemma_dict@, *annotator, def_length),
        decreases ntoks - i,
    {
        let rem: usize = if ntoks - i < 5 {
            ntoks - i
        } else {
            5
        };
        proof {
            assert(rem as int == max_phrase_len(tv, i as int));
        }
        let mut best: usize = 0;
        let mut l: usize = 1;
        while l <= rem
            invariant
                1 <= l <= rem + 1,
                rem <= 5,
                i + rem <= ntoks,
                tv == words.deep_view(),
                tv.len() == ntoks,
                ntoks == words@.len(),
                best as int == best_len_upto(tv, i as int, dict@, l as int - 1),
                best <= rem,
            decreases rem + 1 - l,
        {
            let joined = join_tokens(&words, i, i + l);
            let (cleaned_key, _, _) = Cleaner::clean_word(joined.as_str(), true);
            if dict.contains_key(cleaned_key.as_str()) {
                best = l;
            }
            proof {
                lemma_best_len_upto(tv, i as int, dict@, l as int);
            }
            l = l + 1;
        }
        let ghost pre = pieces.deep_view();
        let step: usize;
        if best >= 1 {
            let phrase = join_tokens(&words, i, i + best);
            let piece = match get_dict_record(phrase.as_str(), dict, lemma_dict) {
                Some(dr) => annotate_text(annotator, dr, phrase.as_str(), def_length),
                None => phrase,
            };
            let ghost pv = piece@;
            proof {
                let rest = annotate_pieces(
                    tv,
                    i as int + best as int,
                    dict@,
                    lemma_dict@,
                    *annotator,
                    def_length,
                );
                assert(annotate_pieces(tv, i as int, dict@, lemma_dict@, *annotator, def_length)
                    =~= seq![pv] + rest);
            }
            pieces.push(piece);
            proof {
                assert(pieces.deep_view() =~= pre.push(pv));
                assert(pieces.deep_view() + annotate_pieces(
                    tv,
                    i as int + best as int,
                    dict@,
                    lemma_dict@,
                    *annotator,
                    def_length,
                ) =~= pre + annotate_pieces(tv, i as int, dict@, lemma_dict@, *annotator, def_length));
            }
            step = best;
        } else {
            let word = &words[i];
            let piece = match get_dict_record(word.as_str(), dict, lemma_dict) {
                Some(dr) => annotate_text(annotator, dr, word.as_str(), def_length),
                None => word.clone(),
            };
            let ghost pv = piece@;
            proof {
                let rest = annotate_pieces(
                    tv,
                    i as int + 1,
                    dict@,
                    lemma_dict@,
                    *annotator,
                    def_length,
                );
                assert(annotate_pieces(tv, i as int, dict@, lemma_dict@, *annotator, def_length)
                    =~= seq![pv] + rest);
            }
            pieces.push(piece);
            proof {
                assert(pieces.deep_view() =~= pre.push(pv));
                assert(pieces.deep_view() + annotate_pieces(
                    tv,
                    i as int + 1,
                    dict@,
                    lemma_dict@,
                    *annotator,
                    def_length,
                ) =~= pre + annotate_pieces(tv, i as int, dict@, lemma_dict@, *annotator, def_length));
            }
            step = 1;
        }
        i = i + step;
    }
    proof {
        assert(pieces.deep_view() + annotate_pieces(
            tv,
            ntoks as int,
            dict@,
            lemma_dict@,
            *annotator,
            def_length,
        ) =~= pieces.deep_view());
        assert(pieces.deep_view() == annotate_pieces(
            tv,
            0,
            dict@,
            lemma_dict@,
            *annotator,
            def_length,
        ));
    }
    let npieces: usize = pieces.len();
    let joined_pieces = join_tokens(&pieces, 0, npieces);
    restore_whitespace(sentence, joined_pieces.as_str())
}

} // verus!
