use vstd::prelude::*;
use vstd::string::StringExecFns;

use crate::types::{lookup_key, Clean, Cleaner, DictRecord};

verus! {

/// True when cleaning a key again would not change it: the key is its own
/// case-folded, punctuation-stripped form.
pub open spec fn key_stable(k: Seq<char>) -> bool {
    lookup_key(k) == k
}

/// The mapping that a run of `(key, record)` rows builds, later rows
/// overwriting earlier ones.
pub open spec fn dict_map_of(s: Seq<(String, DictRecord)>) -> Map<Seq<char>, DictRecord>
    decreases s.len(),
{
    if s.len() == 0 {
        Map::<Seq<char>, DictRecord>::empty()
    } else {
        dict_map_of(s.drop_last()).insert(s.last().0@, s.last().1)
    }
}

proof fn lemma_dict_map_of_contains(s: Seq<(String, DictRecord)>, k: Seq<char>)
    ensures
        dict_map_of(s).contains_key(k) <==> exists|i: int| 0 <= i < s.len() && s[i].0@ == k,
    decreases s.len(),
{
    if s.len() > 0 {
        lemma_dict_map_of_contains(s.drop_last(), k);
        if s.last().0@ == k {
            assert(s[s.len() - 1].0@ == k);
        } else if dict_map_of(s).contains_key(k) {
            let i = choose|i: int| 0 <= i < s.drop_last().len() && s.drop_last()[i].0@ == k;
            assert(s[i].0@ == k);
        } else {
            assert forall|i: int| 0 <= i < s.len() implies s[i].0@ != k by {
                if i < s.len() - 1 {
                    assert(s.drop_last()[i].0@ != k);
                }
            }
        }
    }
}

proof fn lemma_dict_map_of_last_match(s: Seq<(String, DictRecord)>, i: int)
    requires
        0 <= i < s.len(),
        forall|j: int| i < j < s.len() ==> s[j].0@ != s[i].0@,
    ensures
        dict_map_of(s).contains_key(s[i].0@),
        dict_map_of(s)[s[i].0@] == s[i].1,
    decreases s.len(),
{
    if i == s.len() - 1 {
    } else {
        assert(s.drop_last()[i] == s[i]);
        assert forall|j: int| i < j < s.drop_last().len() implies s.drop_last()[j].0@ != s[i].0@ by {
            assert(s.drop_last()[j] == s[j]);
        }
        lemma_dict_map_of_last_match(s.drop_last(), i);
    }
}

/// What inserting one source word does to the dictionary mapping: the word
/// is cleaned and case-folded to a key; a row whose key would not survive a
/// second cleaning is dropped, so that every stored key is its own cleaned
/// form.  Later rows overwrite earlier ones.
pub open spec fn dict_insert_spec(
    m: Map<Seq<char>, DictRecord>,
    w: Seq<char>,
    dr: DictRecord,
) -> Map<Seq<char>, DictRecord> {
    if key_stable(lookup_key(w)) {
        m.insert(lookup_key(w), dr)
    } else {
        m
    }
}

/// The dictionary of one language: a read-only mapping from case-folded,
/// punctuation-stripped words and phrases to their entries.
pub struct Dictionary {
    entries: Vec<(String, DictRecord)>,
}

impl View for Dictionary {
    type V = Map<Seq<char>, DictRecord>;

    closed spec fn view(&self) -> Map<Seq<char>, DictRecord> {
        dict_map_of(self.entries@)
    }
}

impl Dictionary {
    pub fn new() -> (d: Dictionary)
        ensures
            d@ == Map::<Seq<char>, DictRecord>::empty(),
    {
        Dictionary { entries: Vec::new() }
    }

    /// Adds one source word under its cleaned key; later inserts of the
    /// same key overwrite earlier ones.  Before storing, the key is
    /// checked to be its own cleaned form: the real case folding is
    /// idempotent and introduces no edge punctuation, but it stands
    /// behind an uninterpreted name, so stability is checked at run time
    /// and an unstable row is dropped rather than stored under a key
    /// that lookup could never produce.
    pub fn insert(&mut self, word: &str, record: DictRecord)
        ensures
            final(self)@ == dict_insert_spec(old(self)@, word@, record),
    {
        let (key, _, _) = Cleaner::clean_word(word, true);
        let (again, _, _) = Cleaner::clean_word(key.as_str(), true);
        if again == key {
            let ghost pre = self.entries@;
            self.entries.push((key, record));
            proof {
                assert(self.entries@.drop_last() =~= pre);
            }
        }
    }

    /// Looks a cleaned key up; no cleaning is applied here.
    pub fn get(&self, key: &str) -> (r: Option<&DictRecord>)
        ensures
            match r {
                Some(dr) => self@.contains_key(key@) && *dr == self@[key@],
                None => !self@.contains_key(key@),
            },
    {
        let k = String::from_str(key);
        let n: usize = self.entries.len();
        let mut i: usize = n;
        while i > 0
            invariant
                i <= n,
                n == self.entries@.len(),
                k@ == key@,
                forall|j: int| i <= j < n ==> self.entries@[j].0@ != key@,
            decreases i,
        {
            i = i - 1;
            if self.entries[i].0 == k {
                proof {
                    lemma_dict_map_of_last_match(self.entries@, i as int);
                }
                return Some(&self.entries[i].1);
            }
        }
        proof {
            lemma_dict_map_of_contains(self.entries@, key@);
        }
        None
    }

    /// True when the cleaned key has an entry.
    pub fn contains_key(&self, key: &str) -> (r: bool)
        ensures
            r == self@.contains_key(key@),
    {
        match self.get(key) {
            Some(_) => true,
            None => false,
        }
    }
}

/// Law: a dictionary with only normalized keys keeps only normalized keys
/// under insertion: an insert adds nothing but the cleaned key of the new
/// word, and only when that key is its own cleaned form.
pub proof fn lemma_dict_insert_keys_normalized(
    m: Map<Seq<char>, DictRecord>,
    w: Seq<char>,
    dr: DictRecord,
)
    requires
        forall|k: Seq<char>| m.contains_key(k) ==> key_stable(k),
    ensures
        forall|k: Seq<char>| #[trigger] dict_insert_spec(m, w, dr).contains_key(k) ==> key_stable(k),
{
}

/// The mapping that a run of `(inflected, base)` rows builds, later rows
/// overwriting earlier ones.
pub open spec fn lemma_map_of(s: Seq<(String, String)>) -> Map<Seq<char>, Seq<char>>
    decreases s.len(),
{
    if s.len() == 0 {
        Map::<Seq<char>, Seq<char>>::empty()
    } else {
        lemma_map_of(s.drop_last()).insert(s.last().0@, s.last().1@)
    }
}

proof fn lemma_lemma_map_of_contains(s: Seq<(String, String)>, k: Seq<char>)
    ensures
        lemma_map_of(s).contains_key(k) <==> exists|i: int| 0 <= i < s.len() && s[i].0@ == k,
    decreases s.len(),
{
    if s.len() > 0 {
        lemma_lemma_map_of_contains(s.drop_last(), k);
        if s.last().0@ == k {
            assert(s[s.len() - 1].0@ == k);
        } else if lemma_map_of(s).contains_key(k) {
            let i = choose|i: int| 0 <= i < s.drop_last().len() && s.drop_last()[i].0@ == k;
            assert(s[i].0@ == k);
        } else {
            assert forall|i: int| 0 <= i < s.len() implies s[i].0@ != k by {
                if i < s.len() - 1 {
                    assert(s.drop_last()[i].0@ != k);
                }
            }
        }
    }
}

proof fn lemma_lemma_map_of_last_match(s: Seq<(String, String)>, i: int)
    requires
        0 <= i < s.len(),
        forall|j: int| i < j < s.len() ==> s[j].0@ != s[i].0@,
    ensures
        lemma_map_of(s).contains_key(s[i].0@),
        lemma_map_of(s)[s[i].0@] == s[i].1@,
    decreases s.len(),
{
    if i == s.len() - 1 {
    } else {
        assert(s.drop_last()[i] == s[i]);
        assert forall|j: int| i < j < s.drop_last().len() implies s.drop_last()[j].0@ != s[i].0@ by {
            assert(s.drop_last()[j] == s[j]);
        }
        lemma_lemma_map_of_last_match(s.drop_last(), i);
    }
}

/// What inserting one lemma row does: the inflected form is cleaned to a
/// key as dictionary words are; the base form is stored as given.
pub open spec fn lemma_insert_spec(
    m: Map<Seq<char>, Seq<char>>,
    inflected: Seq<char>,
    base: Seq<char>,
) -> Map<Seq<char>, Seq<char>> {
    if key_stable(lookup_key(inflected)) {
        m.insert(lookup_key(inflected), base)
    } else {
        m
    }
}

/// The lemmatization table: a read-only mapping from an inflected surface
/// form to its base form.
pub struct LemmaIndex {
    entries: Vec<(String, String)>,
}

impl View for LemmaIndex {
    type V = Map<Seq<char>, Seq<char>>;

    closed spec fn view(&self) -> Map<Seq<char>, Seq<char>> {
        lemma_map_of(self.entries@)
    }
}

impl LemmaIndex {
    pub fn new() -> (d: LemmaIndex)
        ensures
            d@ == Map::<Seq<char>, Seq<char>>::empty(),
    {
        LemmaIndex { entries: Vec::new() }
    }

    /// Adds one inflected form under its cleaned key, mapping to the given
    /// base form.  As for the dictionary, a row whose cleaned key is not
    /// its own cleaned form is checked for at run time and dropped, since
    /// the case folding stands behind an uninterpreted name.
    pub fn insert(&mut self, inflected: &str, base: String)
        ensures
            final(self)@ == lemma_insert_spec(old(self)@, inflected@, base@),
    {
        let (key, _, _) = Cleaner::clean_word(inflected, true);
        let (again, _, _) = Cleaner::clean_word(key.as_str(), true);
        if again == key {
            let ghost pre = self.entries@;
            self.entries.push((key, base));
            proof {
                assert(self.entries@.drop_last() =~= pre);
            }
        }
    }

    /// Looks a cleaned key up; no cleaning is applied here.
    pub fn get(&self, key: &str) -> (r: Option<&String>)
        ensures
            match r {
                Some(base) => self@.contains_key(key@) && base@ == self@[key@],
                None => !self@.contains_key(key@),
            },
    {
        let k = String::from_str(key);
        let n: usize = self.entries.len();
        let mut i: usize = n;
        while i > 0
            invariant
                i <= n,
                n == self.entries@.len(),
                k@ == key@,
                forall|j: int| i <= j < n ==> self.entries@[j].0@ != key@,
            decreases i,
        {
            i = i - 1;
            if self.entries[i].0 == k {
                proof {
                    lemma_lemma_map_of_last_match(self.entries@, i as int);
                }
                return Some(&self.entries[i].1);
            }
        }
        proof {
            lemma_lemma_map_of_contains(self.entries@, key@);
        }
        None
    }
}

/// Law: a lemmatization table with only normalized keys keeps only
/// normalized keys under insertion.
pub proof fn lemma_lemma_insert_keys_normalized(
    m: Map<Seq<char>, Seq<char>>,
    inflected: Seq<char>,
    base: Seq<char>,
)
    requires
        forall|k: Seq<char>| m.contains_key(k) ==> key_stable(k),
    ensures
        forall|k: Seq<char>|
            #[trigger] lemma_insert_spec(m, inflected, base).contains_key(k) ==> key_stable(k),
{
}

} // verus!
