use gridsolver::basic_types::Pattern;
use gridsolver::basic_types::Word;
use gridsolver::dict::Dictionary;
use gridsolver::dict::RankedDict;
use gridsolver::dict::RankedDictionary;
use gridsolver::dict::UnrankedDict;

fn words(texts: &[&str]) -> Vec<Word> {
    texts.iter().map(|t| Word::from_text(t)).collect()
}

fn sorted_texts(found: &[Word]) -> Vec<String> {
    let mut texts: Vec<String> = found.iter().map(|w| w.to_text()).collect();
    texts.sort();
    texts
}

#[test]
fn dictionary_membership() {
    let mut d = Dictionary::new();
    let cat = Word::from_text("cat");
    assert!(!d.contains(&cat));
    d.add(&cat);
    assert!(d.contains(&cat));
    assert!(!d.contains(&Word::from_text("dog")));
    d.remove(&cat);
    assert!(!d.contains(&cat));
    // removing an absent word changes nothing
    d.remove(&cat);
    assert!(!d.contains(&cat));
}

#[test]
fn lookup_returns_exactly_the_matching_words() {
    let mut d = Dictionary::new();
    for w in words(&["CAT", "CAR", "DOG", "COW", "STONE"]) {
        d.add(&w);
    }
    let found = d.lookup(&Pattern::from_text("CA."));
    assert_eq!(sorted_texts(&found), vec!["CAR".to_string(), "CAT".to_string()]);
    let none = d.lookup(&Pattern::from_text("ZZ."));
    assert!(none.is_empty());
}

#[test]
fn lookup_on_unpopulated_size_class_is_empty() {
    let mut d = Dictionary::new();
    d.add(&Word::from_text("CAT"));
    assert!(d.lookup(&Pattern::from_text(".....")).is_empty());
    let empty = Dictionary::new();
    assert!(empty.lookup(&Pattern::from_text("...")).is_empty());
}

#[test]
fn lookup_all_wildcards_returns_the_whole_size_class() {
    let mut d = Dictionary::new();
    for w in words(&["CAT", "DOG", "COW", "STONE"]) {
        d.add(&w);
    }
    let found = d.lookup(&Pattern::from_text("..."));
    assert_eq!(
        sorted_texts(&found),
        vec!["CAT".to_string(), "COW".to_string(), "DOG".to_string()]
    );
}

#[test]
fn lookup_returns_each_word_once() {
    let mut d = Dictionary::new();
    d.add(&Word::from_text("CAT"));
    d.add(&Word::from_text("CAT"));
    let found = d.lookup(&Pattern::from_text("..."));
    assert_eq!(found.len(), 1);
}

#[test]
fn ranked_dictionary_scores_default_to_zero() {
    let mut d = RankedDictionary::new();
    let cat = Word::from_text("CAT");
    assert_eq!(d.get_score(&cat), None);
    d.add(&cat);
    assert_eq!(d.get_score(&cat), Some(0));
    assert!(d.set_score(&cat, 55));
    assert_eq!(d.get_score(&cat), Some(55));
    // storing the word again resets its score to the default
    d.add(&cat);
    assert_eq!(d.get_score(&cat), Some(0));
    assert!(!d.set_score(&Word::from_text("DOG"), 10));
}

#[test]
fn ranked_membership_and_lookup() {
    let mut d = RankedDictionary::new();
    for w in words(&["CAT", "CAR", "DOG"]) {
        d.add(&w);
    }
    assert!(d.contains(&Word::from_text("CAR")));
    d.remove(&Word::from_text("CAR"));
    assert!(!d.contains(&Word::from_text("CAR")));
    let found = d.lookup(&Pattern::from_text("..."));
    assert_eq!(sorted_texts(&found), vec!["CAT".to_string(), "DOG".to_string()]);
}

#[test]
fn lookup_range_bounds_are_inclusive() {
    let mut d = RankedDictionary::new();
    let at_bound = Word::from_text("CAT");
    let below = Word::from_text("DOG");
    let above = Word::from_text("COW");
    d.add(&at_bound);
    d.add(&below);
    d.add(&above);
    d.set_score(&at_bound, 40);
    d.set_score(&below, 39);
    d.set_score(&above, 80);
    let found = d.lookup_range(&Pattern::from_text("..."), Some(40), None);
    let texts = sorted_texts(&found);
    assert!(texts.contains(&"CAT".to_string()));
    assert!(!texts.contains(&"DOG".to_string()));
    assert!(texts.contains(&"COW".to_string()));
    let capped = d.lookup_range(&Pattern::from_text("..."), Some(40), Some(40));
    assert_eq!(sorted_texts(&capped), vec!["CAT".to_string()]);
    let all = d.lookup_range(&Pattern::from_text("..."), None, None);
    assert_eq!(all.len(), 3);
}

#[test]
fn lookup_range_respects_the_pattern() {
    let mut d = RankedDictionary::new();
    for w in words(&["CAT", "CAR", "DOG"]) {
        d.add(&w);
        d.set_score(&w, 50);
    }
    let found = d.lookup_range(&Pattern::from_text("CA."), Some(40), None);
    assert_eq!(sorted_texts(&found), vec!["CAR".to_string(), "CAT".to_string()]);
    assert!(d.lookup_range(&Pattern::from_text("....."), None, None).is_empty());
}
