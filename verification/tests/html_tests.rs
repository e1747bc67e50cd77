use wordwise::dict::{Dictionary, LemmaIndex};
use wordwise::html::{
    annotate_document, passthrough_document, process_html, process_text, split_chunk,
    split_document, ChunkParameter, SilentProgress,
};
use wordwise::types::{annotator_from_style, Annotator, DictRecord, JobPhase, WorkMesg};

fn entry(word: &str, full_def: &str, short_def: &str, hint_lvl: i32) -> DictRecord {
    DictRecord {
        word: word.to_string(),
        phoneme: String::new(),
        full_def: full_def.to_string(),
        short_def: short_def.to_string(),
        example_sentences: String::new(),
        hint_lvl,
    }
}

fn fake_process_text(input: String) -> String {
    if input.trim().is_empty() {
        return input;
    }
    input.replace("world", "xiaoxiao").replace("fear", "fare")
}

#[test]
fn test_process_html() {
    let data = [
        (
            r#"<!DOCTYPE html><html lang="en"><head><meta charset="UTF-8"><title>hello world</title></head><body><div>hello <span style="color:red">world</span><img src="title.jpg"></div></body></html>"#,
            r#"<!DOCTYPE html><html lang="en"><head><meta charset="UTF-8"><title>hello world</title></head><body><div>hello <span style="color:red">xiaoxiao</span><img src="title.jpg"></div></body></html>"#,
        ),
        (
            r#"<html><head></head><body class="calibre"><p class="calibre_1">for <span style="color:red">fear</span> I</p></body></html>"#,
            r#"<html><head></head><body class="calibre"><p class="calibre_1">for <span style="color:red">fare</span> I</p></body></html>"#,
        ),
    ];

    for (input, expected) in data {
        let reporter: Option<&SilentProgress> = None;
        let output = process_html(input, 100 * 1024, fake_process_text, reporter);
        assert_eq!(output, expected);
    }
}

#[test]
fn chunk_reassembly_is_exact() {
    let mut body = String::new();
    for _ in 0..200 {
        body.push_str("<p>some words to split</p>");
    }
    let chunks = split_chunk(body.as_str(), 100);
    assert!(chunks.len() > 1);
    let mut rebuilt = String::new();
    for c in &chunks {
        assert!(c.len() <= 100);
        rebuilt.push_str(c);
    }
    assert_eq!(rebuilt, body);

    let mut doc = String::from("<html><head>h</head><body>");
    doc.push_str(body.as_str());
    doc.push_str("</body></html>");
    let round = passthrough_document(doc.as_str(), 100);
    assert_eq!(round, doc);
}

#[test]
fn chunk_split_prefers_closing_tags() {
    let chunks = split_chunk("<p>aa</p><p>bbb</p>", 12);
    assert_eq!(chunks, vec!["<p>aa</p>", "<p>bbb</p>"]);
    let chunks = split_chunk("one two three", 8);
    assert_eq!(chunks, vec!["one two ", "three"]);
}

#[test]
fn chunk_split_never_bisects_a_character() {
    // Every character here takes three bytes, so a cap of four bytes
    // falls inside a character and must be moved back to a boundary.
    let body = "大家大家大家";
    let chunks = split_chunk(body, 4);
    assert_eq!(chunks.len(), 6);
    let mut rebuilt = String::new();
    for c in &chunks {
        assert_eq!(c.len(), 3);
        rebuilt.push_str(c);
    }
    assert_eq!(rebuilt, body);
}

#[test]
fn chunk_larger_than_any_character_still_advances() {
    // A cap smaller than one character's bytes: the chunk takes the whole
    // character rather than cutting inside it.
    let chunks = split_chunk("大家", 1);
    assert_eq!(chunks, vec!["大", "家"]);
}

#[test]
fn document_without_body_is_all_body() {
    let (head, chunks, tail) = split_document("no markup at all", 1024);
    assert_eq!(head, "");
    assert_eq!(tail, "");
    assert_eq!(chunks.concat(), "no markup at all");
}

#[test]
fn end_to_end_ruby_annotation() {
    let mut dict = Dictionary::new();
    dict.insert("fear", entry("fear", "touch", "touch", 1));
    let lemma = LemmaIndex::new();
    let annotator = Annotator::RubyAnnotator(100, false);
    let param = ChunkParameter {
        format: "html",
        dict: &dict,
        lemma: &lemma,
        def_length: 2,
        including_phoneme: false,
        hint_level: 100,
        annotator: &annotator,
    };
    let input = "for <span style=\"color:red\">fear</span> I";
    let reporter: Option<&SilentProgress> = None;
    let output = annotate_document(input, &param, 100 * 1024, reporter);
    assert_eq!(
        output,
        "for <span style=\"color:red\"><ruby>fear<rt>touch</rt></ruby></span> I"
    );
}

#[test]
fn end_to_end_color_annotation() {
    let mut dict = Dictionary::new();
    dict.insert(
        "versatile",
        entry("versatile", "able to do different things", "able to do different things", 4),
    );
    let lemma = LemmaIndex::new();
    let annotator = Annotator::ColorAnnotator("blue", 4, false);
    let param = ChunkParameter {
        format: "html",
        dict: &dict,
        lemma: &lemma,
        def_length: 1,
        including_phoneme: false,
        hint_level: 4,
        annotator: &annotator,
    };
    let input = "two unreasonable versatile one.";
    let reporter: Option<&SilentProgress> = None;
    let output = annotate_document(input, &param, 100 * 1024, reporter);
    assert_eq!(output, "two unreasonable <span style='color:blue'>versatile</span> one.");
}

#[test]
fn process_text_leaves_tags_alone() {
    let mut dict = Dictionary::new();
    dict.insert("span", entry("span", "a stretch", "a stretch", 1));
    let lemma = LemmaIndex::new();
    let annotator = Annotator::RubyAnnotator(5, false);
    let param = ChunkParameter {
        format: "html",
        dict: &dict,
        lemma: &lemma,
        def_length: 1,
        including_phoneme: false,
        hint_level: 5,
        annotator: &annotator,
    };
    let output = process_text("<span>span</span>", &param);
    assert_eq!(output, "<span><ruby>span<rt>a stretch</rt></ruby></span>");
}

struct Recorder {
    seen: std::cell::RefCell<Vec<(usize, usize)>>,
}

impl wordwise::types::ProgressSink for Recorder {
    fn report(&self, completed: usize, total: usize) {
        self.seen.borrow_mut().push((completed, total));
    }
}

#[test]
fn progress_counts_every_chunk() {

    let dict = Dictionary::new();
    let lemma = LemmaIndex::new();
    let annotator = Annotator::InlineAnnotator(3, false);
    let param = ChunkParameter {
        format: "html",
        dict: &dict,
        lemma: &lemma,
        def_length: 1,
        including_phoneme: false,
        hint_level: 3,
        annotator: &annotator,
    };
    let mut doc = String::from("<body>");
    for _ in 0..40 {
        doc.push_str("<p>plain text runs here</p>");
    }
    doc.push_str("</body>");
    let recorder = Recorder { seen: std::cell::RefCell::new(Vec::new()) };
    let out = annotate_document(doc.as_str(), &param, 64, Some(&recorder));
    assert_eq!(out, doc);
    let seen = recorder.seen.borrow();
    let total = seen.len();
    assert!(total > 1);
    for (i, (completed, reported_total)) in seen.iter().enumerate() {
        assert_eq!(*completed, i + 1);
        assert_eq!(*reported_total, total);
    }
}

#[test]
fn concurrent_chunks_reassemble_in_order() {
    let mut dict = Dictionary::new();
    dict.insert("alpha", entry("alpha", "first", "first", 1));
    dict.insert("omega", entry("omega", "last", "last", 1));
    let lemma = LemmaIndex::new();
    let annotator = Annotator::RubyAnnotator(4, false);
    let param = ChunkParameter {
        format: "html",
        dict: &dict,
        lemma: &lemma,
        def_length: 1,
        including_phoneme: false,
        hint_level: 4,
        annotator: &annotator,
    };
    let doc = "<body><p>alpha one</p><p>omega two</p></body>";
    let reporter: Option<&SilentProgress> = None;
    let output = annotate_document(doc, &param, 16, reporter);
    assert_eq!(
        output,
        "<body><p><ruby>alpha<rt>first</rt></ruby> one</p>\
         <p><ruby>omega<rt>last</rt></ruby> two</p></body>"
    );
}

#[test]
fn empty_document_stays_empty() {
    assert_eq!(passthrough_document("", 100), "");
}

#[test]
fn unclosed_body_tag_defaults_to_whole_document() {
    assert_eq!(passthrough_document("<body with no close", 100), "<body with no close");
}

#[test]
fn stray_closing_angle_stays_in_its_text_run() {
    let mut dict = Dictionary::new();
    dict.insert("wye", entry("wye", "a fork", "a fork", 1));
    let lemma = LemmaIndex::new();
    let annotator = Annotator::RubyAnnotator(4, false);
    let param = ChunkParameter {
        format: "html",
        dict: &dict,
        lemma: &lemma,
        def_length: 1,
        including_phoneme: false,
        hint_level: 4,
        annotator: &annotator,
    };
    let output = process_text("x > wye", &param);
    assert_eq!(output, "x > <ruby>wye<rt>a fork</rt></ruby>");
}

#[test]
fn annotator_styles_map_to_strategies() {
    assert!(matches!(annotator_from_style(0, 3, true), Annotator::InlineAnnotator(3, true)));
    assert!(matches!(annotator_from_style(1, 2, false), Annotator::RubyAnnotator(2, false)));
    assert!(matches!(
        annotator_from_style(2, 5, false),
        Annotator::ColorAnnotator("red", 5, false)
    ));
    assert!(matches!(annotator_from_style(9, 1, true), Annotator::InlineAnnotator(1, true)));
}

#[test]
fn job_phases_advance_in_order() {
    let mut phase = JobPhase::Idle;
    let expected = [
        JobPhase::Loading,
        JobPhase::Chunking,
        JobPhase::Annotating,
        JobPhase::Writing,
        JobPhase::Done,
        JobPhase::Done,
    ];
    for next in expected {
        phase = phase.advance();
        assert_eq!(phase, next);
    }
    assert_eq!(JobPhase::Chunking.fail(), JobPhase::Failed);
    assert_eq!(JobPhase::Failed.advance(), JobPhase::Failed);
}

#[test]
fn work_mesg_keeps_its_fields() {
    let mesg = WorkMesg::new("text-green-800", "processing book...");
    assert_eq!(mesg.class_name, "text-green-800");
    assert_eq!(mesg.text, "processing book...");
}
