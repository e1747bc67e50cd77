use wordwise::annotation::{get_dict_record, load_dict, load_lemma, restore_whitespace};
use wordwise::dict::{Dictionary, LemmaIndex};
use wordwise::text::parse_i32;
use wordwise::types::{annotate_text, Annotator, Clean, Cleaner, DictRecord, LexiconError};

fn rec(word: &str, phoneme: &str, full_def: &str, short_def: &str, hint_lvl: i32) -> DictRecord {
    DictRecord {
        word: word.to_string(),
        phoneme: phoneme.to_string(),
        full_def: full_def.to_string(),
        short_def: short_def.to_string(),
        example_sentences: String::new(),
        hint_lvl,
    }
}

fn sample_dict() -> Dictionary {
    let mut dict = Dictionary::new();
    dict.insert(
        "in someone's pocket",
        rec("in someone's pocket", "", "under someone's control", "under someone's control", 1),
    );
    dict.insert(
        "advancement",
        rec("advancement", "", "the act of moving forward", "the act of moving forward", 4),
    );
    dict.insert("utter", rec("utter", "", "complete and total", "complete and total", 4));
    dict.insert(
        "sociable",
        rec("sociable", "", "involving friendly relations", "involving friendly relations", 4),
    );
    dict.insert(
        "unreasonable",
        rec("unreasonable", "", "not fair or appropriate", "not fair or appropriate", 3),
    );
    dict.insert(
        "versatile",
        rec("versatile", "", "able to do different things", "able to do different things", 4),
    );
    dict
}

fn sample_lemma() -> LemmaIndex {
    let mut lemma = LemmaIndex::new();
    lemma.insert("uttering", "utter".to_string());
    lemma.insert("riboses", "ribose".to_string());
    lemma
}

#[test]
fn test_clean_word() {
    let test_cases = vec![
        (
            ", Hello, World，大家！!*•-&",
            true,
            "hello, world，大家！",
            ", ",
            "!*•-&",
        ),
        (
            "Hello, World，大家！!*•-&",
            false,
            "Hello, World，大家！",
            "",
            "!*•-&",
        ),
    ];
    for (word, lowercase, expected_cleaned_word, expected_prefix, expected_suffix) in test_cases {
        let (cleaned_word, prefix, suffix) = Cleaner::clean_word(word, lowercase);
        assert_eq!(cleaned_word, expected_cleaned_word);
        assert_eq!(prefix, expected_prefix);
        assert_eq!(suffix, expected_suffix);
    }
}

#[test]
fn test_get_dict_record() {
    let word = "riboses";
    let mut wordwise_dict = Dictionary::new();
    wordwise_dict.insert("ribose", rec("ribose", "", "a sugar", "a sugar", 3));
    let lemma_dict = sample_lemma();
    let result = get_dict_record(word, &wordwise_dict, &lemma_dict);
    assert!(result.is_some());
    match result {
        Some(dict_record) => {
            assert_eq!(dict_record.word, "ribose");
        }
        None => {
            panic!("Failed to find word in dictionary");
        }
    }
}

#[test]
fn test_get_meaning() {
    let dict_record = rec(
        "pictorial",
        "/pɪkˈtɔriəl/",
        "of or relating to painting or drawing",
        "relating to a drawing",
        3,
    );
    assert_eq!(dict_record.phoneme, "/pɪkˈtɔriəl/");
    assert_eq!(dict_record.full_def, "of or relating to painting or drawing");
    let res = dict_record.get_meaning(2, 3, true);
    assert_eq!(res, "/pɪkˈtɔriəl/ of or relating to painting or drawing");
}

#[test]
fn test_wrap_with_ruby_tag() {
    let word = "pictorials.";
    let dict_record = rec(
        "pictorial",
        "/pɪkˈtɔriəl/",
        "of or relating to painting or drawing",
        "relating to a drawing",
        3,
    );
    let anotator = Annotator::RubyAnnotator(4, true);
    let res = annotate_text(&anotator, &dict_record, word, 2);
    assert_eq!(
        res,
        "<ruby>pictorials<rt>/pɪkˈtɔriəl/ of or relating to painting or drawing</rt></ruby>."
    );
    let anotator = Annotator::RubyAnnotator(4, false);
    let res = annotate_text(&anotator, &dict_record, word, 1);
    assert_eq!(res, "<ruby>pictorials<rt>relating to a drawing</rt></ruby>.");
}

#[test]
fn test_annotate_phrase() {
    let data = vec![
        (
            "I think this is in someone's pocket, but I'm not advancement.",
            "I think this is <ruby>in someone's pocket<rt>under someone's control</rt></ruby>, but I'm not advancement.",
            2,
        ),
        (
            "I think this is in someone's pocket but I'm not advancement",
            "I think this is <ruby>in someone's pocket<rt>under someone's control</rt></ruby> but I'm not <ruby>advancement<rt>the act of moving forward</rt></ruby>",
            4,
        ),
        (
            "I think this is overcrowded but I'm not. ",
            "I think this is overcrowded but I'm not. ",
            2,
        ),
        (
            "The business of eating being concluded, and no one uttering a word of sociable conversation, I approached a window to examine the weather.",
            "The business of eating being concluded, and no one <ruby>uttering<rt>complete and total</rt></ruby> a word of <ruby>sociable<rt>involving friendly relations</rt></ruby> conversation, I approached a window to examine the weather.",
            4,
        ),
        (
            "unreasonable versatile.",
            "<ruby>unreasonable<rt>not fair or appropriate</rt></ruby> <ruby>versatile<rt>able to do different things</rt></ruby>.",
            4,
        ),
        (
            "unreasonable versatile.",
            "<ruby>unreasonable<rt>not fair or appropriate</rt></ruby> versatile.",
            3,
        ),
        (
            "two <span>unreasonable</span> versatile one.",
            "two <span>unreasonable</span> <ruby>versatile<rt>able to do different things</rt></ruby> one.",
            4,
        ),
    ];

    let hashes = sample_dict();
    let lemma = sample_lemma();
    for (input, output, lvl) in data {
        let anotator = Annotator::RubyAnnotator(lvl, false);
        let result = wordwise::annotation::annotate_phrase(&anotator, input, &hashes, &lemma, 1);
        assert_eq!(result, output);
    }
}

#[test]
fn test_color_annotate() {
    let data = vec![
        (
            "two <span>unreasonable</span> versatile one.",
            "two <span>unreasonable</span> <span style='color:red'>versatile</span> one.",
            Annotator::ColorAnnotator("red", 4, false),
        ),
        (
            "two <span>unreasonable</span> versatile one.",
            "two <span>unreasonable</span> <span style='color:blue'>versatile</span> one.",
            Annotator::ColorAnnotator("blue", 4, false),
        ),
    ];

    let hashes = sample_dict();
    let lemma = sample_lemma();
    for (input, output, annotator) in data {
        let result = wordwise::annotation::annotate_phrase(&annotator, input, &hashes, &lemma, 1);
        assert_eq!(result, output);
    }
}

#[test]
fn longest_match_beats_contained_word() {
    let mut dict = Dictionary::new();
    dict.insert(
        "in someone's pocket",
        rec("in someone's pocket", "", "under someone's control", "under someone's control", 1),
    );
    dict.insert("pocket", rec("pocket", "", "a small bag", "a small bag", 1));
    let lemma = LemmaIndex::new();
    let annotator = Annotator::RubyAnnotator(4, false);
    let result = wordwise::annotation::annotate_phrase(
        &annotator,
        "it's in someone's pocket",
        &dict,
        &lemma,
        1,
    );
    assert_eq!(
        result,
        "it's <ruby>in someone's pocket<rt>under someone's control</rt></ruby>"
    );
}

#[test]
fn hint_level_gates_rendering() {
    let dict_record = rec("versatile", "", "adaptable", "adaptable", 4);
    let rendered = annotate_text(&Annotator::RubyAnnotator(4, false), &dict_record, "versatile", 1);
    assert_eq!(rendered, "<ruby>versatile<rt>adaptable</rt></ruby>");
    let rendered = annotate_text(&Annotator::RubyAnnotator(5, false), &dict_record, "versatile", 1);
    assert_eq!(rendered, "<ruby>versatile<rt>adaptable</rt></ruby>");
    let unchanged = annotate_text(&Annotator::RubyAnnotator(3, false), &dict_record, "versatile", 1);
    assert_eq!(unchanged, "versatile");
    let unchanged = annotate_text(
        &Annotator::ColorAnnotator("red", 3, false),
        &dict_record,
        "versatile",
        1,
    );
    assert_eq!(unchanged, "versatile");
    let unchanged = annotate_text(
        &Annotator::InlineAnnotator(0, false),
        &dict_record,
        "versatile",
        1,
    );
    assert_eq!(unchanged, "versatile");
}

#[test]
fn lookup_is_case_insensitive() {
    let mut dict = Dictionary::new();
    dict.insert("fear", rec("fear", "", "touch", "touch", 1));
    let lemma = LemmaIndex::new();
    let found = get_dict_record("FEAR", &dict, &lemma);
    assert!(found.is_some());
    assert_eq!(found.unwrap().word, "fear");
}

#[test]
fn phrase_lookup_skips_lemma_table() {
    let mut dict = Dictionary::new();
    dict.insert("zip code", rec("zip code", "", "postal code", "postal code", 1));
    let mut lemma = LemmaIndex::new();
    lemma.insert("zip codes", "zip code".to_string());
    let found = get_dict_record("zip codes", &dict, &lemma);
    assert!(found.is_none());
    let single = get_dict_record("zips", &dict, &lemma);
    assert!(single.is_none());
}

#[test]
fn test_load_dict() {
    let source = "id,word,phoneme,full_def,short_def,example_sentences,hint_lvl\n\
        1,amperage,,the strength of a current,current strength,,3\n\
        2,pictorial,/pɪkˈtɔriəl/,of or relating to painting or drawing,relating to a drawing,,3\n";
    let result = load_dict(source.as_bytes());
    match result {
        Ok(dict) => {
            assert!(dict.get("amperage").is_some());
            assert_eq!(dict.get("amperage").unwrap().hint_lvl, 3);
        }
        Err(_) => {
            panic!("Failed to load dictionary");
        }
    }
}

#[test]
fn test_load_lemma() {
    let source = "base,inflected\nzip,zips\nutter,uttering\n";
    let result = load_lemma(source.as_bytes());
    match result {
        Ok(dict) => {
            assert!(dict.get("zips").is_some());
            assert_eq!(dict.get("zips").unwrap(), "zip");
        }
        Err(_) => {
            panic!("Failed to load lemmatization dictionary");
        }
    }
}

#[test]
fn load_dict_rejects_bad_hint_level() {
    let source = "id,word,phoneme,full_def,short_def,example_sentences,hint_lvl\n\
        1,amperage,,a,b,,3\n\
        2,pictorial,,c,d,,many\n";
    let result = load_dict(source.as_bytes());
    assert!(matches!(result, Err(LexiconError::MalformedRow(1))));
}

#[test]
fn load_dict_rejects_missing_fields() {
    let source = "id,word\n1,amperage\n";
    let result = load_dict(source.as_bytes());
    assert!(matches!(result, Err(LexiconError::MalformedRow(0))));
}

#[test]
fn load_dict_reports_unreadable_source() {
    let source = b"id,word,phoneme\n1\n";
    let result = load_dict(source);
    assert!(matches!(result, Err(LexiconError::Unreadable(_))));
}

#[test]
fn load_dict_last_row_wins() {
    let source = "id,word,phoneme,full_def,short_def,example_sentences,hint_lvl\n\
        1,fear,,first,first,,1\n\
        2,fear,,second,second,,2\n";
    let dict = load_dict(source.as_bytes()).unwrap();
    assert_eq!(dict.get("fear").unwrap().short_def, "second");
    assert_eq!(dict.get("fear").unwrap().hint_lvl, 2);
}

#[test]
fn load_dict_normalizes_keys() {
    let source = "id,word,phoneme,full_def,short_def,example_sentences,hint_lvl\n\
        1,\" Fear!\",,touch,touch,,1\n";
    let dict = load_dict(source.as_bytes()).unwrap();
    assert!(dict.get("fear").is_some());
    assert!(dict.get(" Fear!").is_none());
}

#[test]
fn error_messages_name_their_domain() {
    assert_eq!(
        LexiconError::NotFound.message(),
        "no dictionary for the requested language"
    );
    assert_eq!(LexiconError::MalformedRow(7).message(), "malformed dictionary row");
    assert_eq!(
        LexiconError::Unreadable("bad quoting".to_string()).message(),
        "unreadable dictionary source: bad quoting"
    );
}

#[test]
fn parse_i32_exact_values() {
    assert_eq!(parse_i32("0"), Some(0));
    assert_eq!(parse_i32("42"), Some(42));
    assert_eq!(parse_i32("+7"), Some(7));
    assert_eq!(parse_i32("-13"), Some(-13));
    assert_eq!(parse_i32("2147483647"), Some(2147483647));
    assert_eq!(parse_i32("-2147483648"), Some(-2147483648));
    assert_eq!(parse_i32("2147483648"), None);
    assert_eq!(parse_i32(""), None);
    assert_eq!(parse_i32("+"), None);
    assert_eq!(parse_i32("1 2"), None);
    assert_eq!(parse_i32("3.5"), None);
}

#[test]
fn restore_whitespace_keeps_both_ends() {
    assert_eq!(restore_whitespace("  a b\t\n", "X"), "  X\t\n");
    assert_eq!(restore_whitespace("ab", "X"), "X");
}

#[test]
fn clean_word_round_trips_every_token() {
    for token in ["--", "", "a", ", Hello, World，大家！!*•-&", "<span>x</span>"] {
        let (core, prefix, suffix) = Cleaner::clean_word(token, false);
        assert_eq!(format!("{}{}{}", prefix, core, suffix), token);
    }
}
