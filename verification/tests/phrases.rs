use nlp_processor::field_type::custom::Custom;
use nlp_processor::field_type::last_name::LastName;
use nlp_processor::field_type::{get_default_type, FieldType};
use nlp_processor::phrase::field::Field;
use nlp_processor::phrase::group_phrase::GroupPhrase;
use nlp_processor::phrase::meta_phrase::MetaPhrase;
use nlp_processor::phrase::phrase::{Phrase, PhraseStore};
use nlp_processor::phrase::result::{PhraseResult, CONFIDENCE_SCALE};
use nlp_processor::phrase::word_phrase::WordPhrase;

fn words(s: &str) -> Vec<String> {
    s.split(' ').map(|w| w.to_string()).collect()
}

fn field_values(r: &PhraseResult) -> Vec<(String, Vec<String>)> {
    let f = r.get_fields();
    let mut out = Vec::new();
    for i in 0..f.len() {
        let (n, v) = f.entry(i);
        out.push((n.clone(), v.clone()));
    }
    out
}

#[test]
fn word_phrase_matches_start_without_case() {
    let p = WordPhrase::new(&"greeting".to_string(), "Hello World".to_string());
    let r = p.matches(&words("hello WORLD again"));
    assert_eq!(r.len(), 2);
    assert_eq!(r.get_confidence(), CONFIDENCE_SCALE);
    assert_eq!(p.get_name(), "greeting");
}

#[test]
fn word_phrase_needs_every_word() {
    let p = WordPhrase::new(&"greeting".to_string(), "Hello World".to_string());
    let r = p.matches(&words("hello there"));
    assert_eq!(r.len(), 0);
    assert_eq!(r.get_confidence(), 0);
    let short = p.matches(&words("hello"));
    assert_eq!(short.len(), 0);
    assert_eq!(short.get_confidence(), 0);
}

#[test]
fn last_name_confidence_depends_on_capital() {
    let ln = LastName::new();
    let (v, l, c) = ln.get_value(&words("Smith said"));
    assert_eq!(v, "Smith");
    assert_eq!(l, 1);
    assert_eq!(c, 900_000);
    let (v, l, c) = ln.get_value(&words("smith"));
    assert_eq!(v, "smith");
    assert_eq!(l, 1);
    assert_eq!(c, 500_000);
    let (v, l, c) = ln.get_value(&[]);
    assert_eq!(v, "");
    assert_eq!(l, 0);
    assert_eq!(c, 0);
}

#[test]
fn default_types_are_first_and_last_name() {
    assert!(matches!(get_default_type("LAST_NAME"), Some(FieldType::LastName(_))));
    assert!(matches!(get_default_type("FIRST_NAME"), Some(FieldType::FirstName(_))));
    assert!(get_default_type("last_name").is_none());
    assert!(get_default_type("CITY").is_none());
}

#[test]
fn synonym_replaces_phrase_of_same_value() {
    let mut c = Custom::new();
    c.insert_synonym("Hi".to_string(), 3);
    c.insert_synonym("Bye".to_string(), 4);
    c.insert_synonym("Hi".to_string(), 7);
    assert_eq!(c.len(), 2);
    assert_eq!(c.synonym(0).name, "Hi");
    assert_eq!(c.synonym(0).phrase, 7);
    assert_eq!(c.synonym(1).name, "Bye");
    assert_eq!(c.synonym(1).phrase, 4);
}

#[test]
fn group_takes_best_alternative() {
    let mut store = PhraseStore::new();
    let n = "greeting".to_string();
    let a = store.add(Phrase::Word(WordPhrase::new(&n, "hello".to_string())));
    let b = store.add(Phrase::Word(WordPhrase::new(&n, "hello there".to_string())));
    let g = store.add(Phrase::Group(GroupPhrase::new(&n, vec![a, b])));
    let r = store.try_matches(g, &words("Hello there friend")).unwrap();
    assert_eq!(r.len(), 2);
    assert_eq!(r.get_confidence(), CONFIDENCE_SCALE);
    let none = store.try_matches(g, &words("goodbye")).unwrap();
    assert_eq!(none.len(), 0);
}

#[test]
fn meta_chains_parts_and_collects_fields() {
    let mut store = PhraseStore::new();
    let empty = String::new();
    let w = store.add(Phrase::Word(WordPhrase::new(&"intro".to_string(), "my name is".to_string())));
    let f = store.add(Phrase::Field(Field::new(&"last_name".to_string(), FieldType::LastName(LastName::new()))));
    let m = store.add(Phrase::Meta(MetaPhrase::new(&empty, vec![w, f])));
    let r = store.try_matches(m, &words("My name is Smith")).unwrap();
    assert_eq!(r.len(), 4);
    assert_eq!(r.get_confidence(), 900_000);
    assert_eq!(field_values(&r), vec![("last_name".to_string(), vec!["Smith".to_string()])]);
}

#[test]
fn meta_fails_when_a_part_fails() {
    let mut store = PhraseStore::new();
    let empty = String::new();
    let w = store.add(Phrase::Word(WordPhrase::new(&"intro".to_string(), "my name is".to_string())));
    let x = store.add(Phrase::Word(WordPhrase::new(&"end".to_string(), "thanks".to_string())));
    let m = store.add(Phrase::Meta(MetaPhrase::new(&empty, vec![w, x])));
    let r = store.try_matches(m, &words("my name is Bob")).unwrap();
    assert_eq!(r.len(), 0);
    assert_eq!(r.get_confidence(), 0);
}

#[test]
fn custom_field_returns_synonym_value() {
    let mut store = PhraseStore::new();
    let t = "greeting_type".to_string();
    let hi = store.add(Phrase::Word(WordPhrase::new(&t, "Hi".to_string())));
    let hello = store.add(Phrase::Word(WordPhrase::new(&t, "Hello".to_string())));
    let g = store.add(Phrase::Group(GroupPhrase::new(&t, vec![hi, hello])));
    let mut c = Custom::new();
    c.insert_synonym("Hi".to_string(), g);
    let (v, l, conf) = c.get_value(&store, &words("hello there"));
    assert_eq!(v, "Hi");
    assert_eq!(l, 1);
    assert_eq!(conf, CONFIDENCE_SCALE);
}

#[test]
fn merge_multiplies_confidence_and_adds_lengths() {
    let mut a = PhraseResult::new(900_000, 2);
    a.add_values(&"x".to_string(), &vec!["1".to_string()]);
    let mut b = PhraseResult::new(500_000, 3);
    b.add_values(&"x".to_string(), &vec!["2".to_string()]);
    b.add_values(&"y".to_string(), &vec!["3".to_string()]);
    a.merge(&b);
    assert_eq!(a.len(), 5);
    assert_eq!(a.get_confidence(), 450_000);
    assert_eq!(a.get_score(), 5 * 450_000);
    let mut fields = field_values(&a);
    fields.sort();
    assert_eq!(
        fields,
        vec![
            ("x".to_string(), vec!["1".to_string(), "2".to_string()]),
            ("y".to_string(), vec!["3".to_string()])
        ]
    );
}

#[test]
fn merge_with_empty_full_match_changes_nothing() {
    let mut a = PhraseResult::new(700_000, 2);
    a.add_values(&"x".to_string(), &vec!["1".to_string()]);
    let unit = PhraseResult::new(CONFIDENCE_SCALE, 0);
    a.merge(&unit);
    assert_eq!(a.len(), 2);
    assert_eq!(a.get_confidence(), 700_000);
    assert_eq!(field_values(&a), vec![("x".to_string(), vec!["1".to_string()])]);
}

#[test]
fn merging_three_results_keeps_value_order_either_way() {
    let make = |v: &str, conf: u64| {
        let mut r = PhraseResult::new(conf, 1);
        r.add_values(&"x".to_string(), &vec![v.to_string()]);
        r
    };
    let mut left = make("a", 900_000);
    left.merge(&make("b", 800_000));
    left.merge(&make("c", 700_000));
    let mut bc = make("b", 800_000);
    bc.merge(&make("c", 700_000));
    let mut right = make("a", 900_000);
    right.merge(&bc);
    let expected = vec![("x".to_string(), vec!["a".to_string(), "b".to_string(), "c".to_string()])];
    assert_eq!(field_values(&left), expected);
    assert_eq!(field_values(&right), expected);
    assert_eq!(left.len(), 3);
    assert_eq!(right.len(), 3);
}

#[test]
fn meta_parts_follow_each_other() {
    let mut store = PhraseStore::new();
    let empty = String::new();
    let a = store.add(Phrase::Word(WordPhrase::new(&"a".to_string(), "a".to_string())));
    let b = store.add(Phrase::Word(WordPhrase::new(&"b".to_string(), "b".to_string())));
    let c = store.add(Phrase::Word(WordPhrase::new(&"c".to_string(), "c".to_string())));
    let m = store.add(Phrase::Meta(MetaPhrase::new(&empty, vec![a, b, c])));
    let r = store.try_matches(m, &words("a b c")).unwrap();
    assert_eq!(r.len(), 3);
    assert_eq!(r.get_confidence(), CONFIDENCE_SCALE);
    let r = store.try_matches(m, &words("a c b")).unwrap();
    assert_eq!(r.len(), 0);
}
