use vstd::prelude::*;
use vstd::string::StrSliceExecFns;
use vstd::string::StringExecFns;

use crate::outside::lower_of;
use crate::outside::to_lowercase;
use crate::text::{
    lemma_rskip_punct, lemma_skip_punct, rscan_punct, rskip_punct, scan_punct, skip_punct,
    trim_spec, trim_str,
};

verus! {

/// One dictionary entry: the canonical word, its phonetic transcription
/// (may be empty), a long and a short definition, example sentences kept
/// from the source data, and the hint level (lower = more common).
#[derive(Clone, Debug)]
pub struct DictRecord {
    pub word: String,
    pub phoneme: String,
    pub full_def: String,
    pub short_def: String,
    pub example_sentences: String,
    pub hint_lvl: i32,
}

/// The side text shown for an entry: the phoneme (when asked for and
/// present) and the short or long definition, joined by a space and
/// trimmed.  An entry whose hint level is above the configured level
/// yields the empty meaning, which the render strategies treat as
/// "pass the token through".
pub open spec fn meaning_spec(
    dr: DictRecord,
    def_length: i32,
    user_hint_lvl: i32,
    user_show_phoneme: bool,
) -> Seq<char> {
    if dr.hint_lvl <= user_hint_lvl {
        let base: Seq<char> = if user_show_phoneme && dr.phoneme@.len() > 0 {
            dr.phoneme@
        } else {
            Seq::<char>::empty()
        };
        let full: Seq<char> = if def_length == 1 {
            base + " "@ + dr.short_def@
        } else if def_length == 2 {
            base + " "@ + dr.full_def@
        } else {
            base
        };
        trim_spec(full)
    } else {
        Seq::<char>::empty()
    }
}

impl DictRecord {
    /// The side text for this entry under the given configuration.
    pub fn get_meaning(&self, def_length: i32, user_hint_lvl: i32, user_show_phoneme: bool) -> (r:
        String)
        ensures
            r@ == meaning_spec(*self, def_length, user_hint_lvl, user_show_phoneme),
    {
        if self.hint_lvl <= user_hint_lvl {
            let mut definition = String::new();
            if user_show_phoneme && !self.phoneme.as_str().is_empty() {
                definition.append(self.phoneme.as_str());
            }
            if def_length == 1 {
                definition.append(" ");
                definition.append(self.short_def.as_str());
            } else if def_length == 2 {
                definition.append(" ");
                definition.append(self.full_def.as_str());
            }
            trim_str(definition.as_str())
        } else {
            String::new()
        }
    }
}

/// Index just after the maximal punctuation run at the start of `w`.
pub open spec fn clean_prefix_end(w: Seq<char>) -> int {
    skip_punct(w, 0)
}

/// Index of the start of the maximal punctuation run at the end of the
/// part of `w` that follows the stripped prefix.
pub open spec fn clean_core_end(w: Seq<char>) -> int {
    rskip_punct(w, skip_punct(w, 0), w.len() as int)
}

/// The punctuation run stripped from the start of a token.
pub open spec fn clean_prefix(w: Seq<char>) -> Seq<char> {
    w.subrange(0, clean_prefix_end(w))
}

/// The interior of a token with the punctuation runs stripped from both
/// ends, case preserved.
pub open spec fn clean_core_raw(w: Seq<char>) -> Seq<char> {
    w.subrange(clean_prefix_end(w), clean_core_end(w))
}

/// The punctuation run stripped from the end of a token.
pub open spec fn clean_suffix(w: Seq<char>) -> Seq<char> {
    w.subrange(clean_core_end(w), w.len() as int)
}

/// The core of a token, case-folded when `lowercase` is set.
pub open spec fn clean_core(w: Seq<char>, lowercase: bool) -> Seq<char> {
    if lowercase {
        lower_of(clean_core_raw(w))
    } else {
        clean_core_raw(w)
    }
}

/// The key a token is looked up under: punctuation stripped, case-folded.
pub open spec fn lookup_key(w: Seq<char>) -> Seq<char> {
    lower_of(clean_core_raw(w))
}

/// Law: the three parts of a cleaned token are a partition of the token;
/// with the core case-preserved, `prefix + core + suffix` reproduces the
/// token exactly.
pub proof fn lemma_clean_round_trip(w: Seq<char>)
    ensures
        clean_prefix(w) + clean_core(w, false) + clean_suffix(w) == w,
{
    lemma_skip_punct(w, 0);
    lemma_rskip_punct(w, skip_punct(w, 0), w.len() as int);
    assert(clean_prefix(w) + clean_core_raw(w) + clean_suffix(w) =~= w);
}

/// Splitting a token into a stripped core and the punctuation runs around
/// it.
pub trait Clean {
    /// Returns `(core, prefix, suffix)`: the maximal punctuation runs at
    /// the two ends, and the interior between them, case-folded when
    /// `lowercase` is set.
    fn clean_word(word: &str, lowercase: bool) -> (r: (String, String, String))
        ensures
            r.0@ == clean_core(word@, lowercase),
            r.1@ == clean_prefix(word@),
            r.2@ == clean_suffix(word@),
            !lowercase ==> r.1@ + r.0@ + r.2@ == word@,
    ;
}

pub struct Cleaner {}

impl Clean for Cleaner {
    fn clean_word(word: &str, lowercase: bool) -> (r: (String, String, String)) {
        let n: usize = word.unicode_len();
        let p: usize = scan_punct(word, 0);
        let q: usize = rscan_punct(word, p, n);
        let prefix = String::from_str(word.substring_char(0, p));
        let suffix = String::from_str(word.substring_char(q, n));
        let core_raw = word.substring_char(p, q);
        let core = if lowercase {
            to_lowercase(core_raw)
        } else {
            String::from_str(core_raw)
        };
        proof {
            lemma_clean_round_trip(word@);
        }
        (core, prefix, suffix)
    }
}

/// The three render strategies.  Each carries the configured hint level
/// and whether the phoneme is shown; the color strategy also carries the
/// color name.
pub enum Annotator<'a> {
    RubyAnnotator(i32, bool),
    ColorAnnotator(&'a str, i32, bool),
    InlineAnnotator(i32, bool),
}

/// The hint level an annotator was configured with.
pub open spec fn annotator_hint(ann: Annotator) -> i32 {
    match ann {
        Annotator::RubyAnnotator(hint_lvl, _) => hint_lvl,
        Annotator::ColorAnnotator(_, hint_lvl, _) => hint_lvl,
        Annotator::InlineAnnotator(hint_lvl, _) => hint_lvl,
    }
}

/// True when the annotator actually rewrites the token: the entry passed
/// the hint filter and there is something to show.
pub open spec fn renders_spec(
    ann: Annotator,
    dr: DictRecord,
    target: Seq<char>,
    def_length: i32,
) -> bool {
    match ann {
        Annotator::RubyAnnotator(hint_lvl, phoneme) => meaning_spec(
            dr,
            def_length,
            hint_lvl,
            phoneme,
        ).len() > 0,
        Annotator::ColorAnnotator(_, hint_lvl, _) => dr.hint_lvl <= hint_lvl && clean_core_raw(
            target,
        ).len() > 0,
        Annotator::InlineAnnotator(hint_lvl, phoneme) => meaning_spec(
            dr,
            def_length,
            hint_lvl,
            phoneme,
        ).len() > 0,
    }
}

/// The markup produced for one matched token or phrase, with the stripped
/// punctuation re-attached outside the markup.
pub open spec fn annotate_text_spec(
    ann: Annotator,
    dr: DictRecord,
    target: Seq<char>,
    def_length: i32,
) -> Seq<char> {
    if !renders_spec(ann, dr, target, def_length) {
        target
    } else {
        match ann {
            Annotator::RubyAnnotator(hint_lvl, phoneme) => {
                let meaning = meaning_spec(dr, def_length, hint_lvl, phoneme);
                clean_prefix(target) + "<ruby>"@ + clean_core_raw(target) + "<rt>"@ + meaning
                    + "</rt></ruby>"@ + clean_suffix(target)
            },
            Annotator::ColorAnnotator(color, _, _) => {
                clean_prefix(target) + "<span style='color:"@ + color@ + "'>"@ + clean_core_raw(
                    target,
                ) + "</span>"@ + clean_suffix(target)
            },
            Annotator::InlineAnnotator(hint_lvl, phoneme) => {
                let meaning = meaning_spec(dr, def_length, hint_lvl, phoneme);
                clean_prefix(target) + clean_core_raw(target)
                    + "<span style='font-size:smaller;color:gray'> ["@ + meaning + "]</span>"@
                    + clean_suffix(target)
            },
        }
    }
}

/// Renders one matched token or phrase through the selected strategy.
pub fn annotate_text(annotator: &Annotator, dr: &DictRecord, target: &str, def_length: i32) -> (r:
    String)
    ensures
        r@ == annotate_text_spec(*annotator, *dr, target@, def_length),
{
    match annotator {
        Annotator::RubyAnnotator(hint_lvl, phoneme) => {
            let (core, prefix, suffix) = Cleaner::clean_word(target, false);
            let meaning = dr.get_meaning(def_length, *hint_lvl, *phoneme);
            if meaning.as_str().unicode_len() > 0 {
                let mut out = String::new();
                out.append(prefix.as_str());
                out.append("<ruby>");
                out.append(core.as_str());
                out.append("<rt>");
                out.append(meaning.as_str());
                out.append("</rt></ruby>");
                out.append(suffix.as_str());
                out
            } else {
                String::from_str(target)
            }
        },
        Annotator::ColorAnnotator(color, hint_lvl, _phoneme) => {
            let (core, prefix, suffix) = Cleaner::clean_word(target, false);
            if dr.hint_lvl <= *hint_lvl && core.as_str().unicode_len() > 0 {
                let mut out = String::new();
                out.append(prefix.as_str());
                out.append("<span style='color:");
                out.append(color);
                out.append("'>");
                out.append(core.as_str());
                out.append("</span>");
                out.append(suffix.as_str());
                out
            } else {
                String::from_str(target)
            }
        },
        Annotator::InlineAnnotator(hint_lvl, phoneme) => {
            let (core, prefix, suffix) = Cleaner::clean_word(target, false);
            let meaning = dr.get_meaning(def_length, *hint_lvl, *phoneme);
            if meaning.as_str().unicode_len() > 0 {
                let mut out = String::new();
                out.append(prefix.as_str());
                out.append(core.as_str());
                out.append("<span style='font-size:smaller;color:gray'> [");
                out.append(meaning.as_str());
                out.append("]</span>");
                out.append(suffix.as_str());
                out
            } else {
                String::from_str(target)
            }
        },
    }
}

/// Law: an entry whose hint level is above the configured level is never
/// rendered; the surface form passes through unchanged, whatever the
/// strategy.
pub proof fn lemma_hint_gate(ann: Annotator, dr: DictRecord, target: Seq<char>, def_length: i32)
    requires
        dr.hint_lvl > annotator_hint(ann),
    ensures
        annotate_text_spec(ann, dr, target, def_length) == target,
{
}

/// Law: when the hint filter passes and there is something to show, the
/// rendered form really differs from the surface form.
pub proof fn lemma_hint_gate_renders(
    ann: Annotator,
    dr: DictRecord,
    target: Seq<char>,
    def_length: i32,
)
    requires
        renders_spec(ann, dr, target, def_length),
    ensures
        annotate_text_spec(ann, dr, target, def_length) != target,
        annotate_text_spec(ann, dr, target, def_length).len() > target.len(),
{
    lemma_clean_round_trip(target);
    assert(target.len() == clean_prefix(target).len() + clean_core_raw(target).len()
        + clean_suffix(target).len());
    match ann {
        Annotator::RubyAnnotator(_, _) => {
            reveal_strlit("<ruby>");
            reveal_strlit("<rt>");
            reveal_strlit("</rt></ruby>");
        },
        Annotator::ColorAnnotator(_, _, _) => {
            reveal_strlit("<span style='color:");
            reveal_strlit("'>");
            reveal_strlit("</span>");
        },
        Annotator::InlineAnnotator(_, _) => {
            reveal_strlit("<span style='font-size:smaller;color:gray'> [");
            reveal_strlit("]</span>");
        },
    }
}

/// The strategy an integer style selector names: 1 is ruby text, 2 a
/// red colored span, anything else the inline note.
pub open spec fn annotator_for_style_spec(
    wordwise_style: i32,
    hint_level: i32,
    show_phoneme: bool,
) -> Annotator<'static> {
    if wordwise_style == 1 {
        Annotator::RubyAnnotator(hint_level, show_phoneme)
    } else if wordwise_style == 2 {
        Annotator::ColorAnnotator("red", hint_level, show_phoneme)
    } else {
        Annotator::InlineAnnotator(hint_level, show_phoneme)
    }
}

/// Turns the job's integer style selector into a render strategy.
pub fn annotator_from_style(wordwise_style: i32, hint_level: i32, show_phoneme: bool) -> (r:
    Annotator<'static>)
    ensures
        r == annotator_for_style_spec(wordwise_style, hint_level, show_phoneme),
{
    if wordwise_style == 1 {
        Annotator::RubyAnnotator(hint_level, show_phoneme)
    } else if wordwise_style == 2 {
        Annotator::ColorAnnotator("red", hint_level, show_phoneme)
    } else {
        Annotator::InlineAnnotator(hint_level, show_phoneme)
    }
}

/// The options of one annotation job, as the caller hands them over.
#[derive(Clone, Debug)]
pub struct Payload {
    pub book: String,
    pub format: String,
    pub language: String,
    pub hint_level: i32,
    pub allow_long: bool,
    pub show_phoneme: bool,
    pub wordwise_style: i32,
}

/// A capability the pipeline calls after each finished chunk: `completed`
/// chunks out of `total` are done.  The caller decides what to do with it.
pub trait ProgressSink {
    fn report(&self, completed: usize, total: usize);
}

/// A short status message for the caller to display.
#[derive(Clone, Debug)]
pub struct WorkMesg<'a> {
    pub class_name: &'a str,
    pub text: &'a str,
}

impl<'a> WorkMesg<'a> {
    pub fn new(class_name: &'a str, text: &'a str) -> (r: Self)
        ensures
            r.class_name@ == class_name@,
            r.text@ == text@,
    {
        Self { class_name, text }
    }
}

/// What can go wrong while loading the lexicon tables.
#[derive(Clone, Debug)]
pub enum LexiconError {
    /// No dictionary exists for the requested language.
    NotFound,
    /// A record is missing required fields or its hint level is not an
    /// integer; the payload is the zero-based row number.
    MalformedRow(usize),
    /// The tabular source itself could not be parsed.
    Unreadable(String),
}

/// The text shown for each loading failure.
pub open spec fn lexicon_error_message_spec(e: LexiconError) -> Seq<char> {
    match e {
        LexiconError::NotFound => "no dictionary for the requested language"@,
        LexiconError::MalformedRow(_) => "malformed dictionary row"@,
        LexiconError::Unreadable(s) => "unreadable dictionary source: "@ + s@,
    }
}

impl LexiconError {
    pub fn message(&self) -> (r: String)
        ensures
            r@ == lexicon_error_message_spec(*self),
    {
        match self {
            LexiconError::NotFound => String::from_str("no dictionary for the requested language"),
            LexiconError::MalformedRow(_) => String::from_str("malformed dictionary row"),
            LexiconError::Unreadable(s) => {
                let mut out = String::from_str("unreadable dictionary source: ");
                out.append(s.as_str());
                out
            },
        }
    }
}

/// The phases a job passes through, in order; any failure moves it to
/// `Failed` directly.
#[derive(Clone, Copy, Debug, PartialEq, Eq, Structural)]
pub enum JobPhase {
    Idle,
    Loading,
    Chunking,
    Annotating,
    Writing,
    Done,
    Failed,
}

/// The phase that follows `p` when its step succeeds.
pub open spec fn next_phase_spec(p: JobPhase) -> JobPhase {
    match p {
        JobPhase::Idle => JobPhase::Loading,
        JobPhase::Loading => JobPhase::Chunking,
        JobPhase::Chunking => JobPhase::Annotating,
        JobPhase::Annotating => JobPhase::Writing,
        JobPhase::Writing => JobPhase::Done,
        JobPhase::Done => JobPhase::Done,
        JobPhase::Failed => JobPhase::Failed,
    }
}

impl JobPhase {
    /// The next phase after a successful step.
    pub fn advance(&self) -> (r: JobPhase)
        ensures
            r == next_phase_spec(*self),
    {
        match self {
            JobPhase::Idle => JobPhase::Loading,
            JobPhase::Loading => JobPhase::Chunking,
            JobPhase::Chunking => JobPhase::Annotating,
            JobPhase::Annotating => JobPhase::Writing,
            JobPhase::Writing => JobPhase::Done,
            JobPhase::Done => JobPhase::Done,
            JobPhase::Failed => JobPhase::Failed,
        }
    }

    /// Any failure moves the job to `Failed`, from any phase.
    pub fn fail(&self) -> (r: JobPhase)
        ensures
            r == JobPhase::Failed,
    {
        JobPhase::Failed
    }
}

} // verus!
