use vocab_api::models::{ApiError, Language, VocabularyEntry};
use vocab_api::rocket;
use vocab_api::routes::languages;
use vocab_api::routes::vocabulary;

fn language(iso: &str, endonym: &str) -> Language {
    Language {
        language_id: None,
        iso: iso.to_string(),
        script: None,
        endonym: endonym.to_string(),
        exonym_en: None,
        stage: None,
        language_family: None,
        area_used: None,
    }
}

fn entry(language_id: i64, part_of_speech: &str, lemma: &str) -> VocabularyEntry {
    VocabularyEntry {
        word_id: None,
        language_id,
        part_of_speech: part_of_speech.to_string(),
        lemma: lemma.to_string(),
        transliteration: None,
        definition: None,
        origin_lang: None,
        process: None,
        etymology_notes: None,
        tag: None,
        notes: None,
    }
}

#[test]
fn test_create_then_list_has_one_matching_record() {
    let mut store = rocket();
    languages::create(&mut store, language("de", "Deutsch")).unwrap();
    let created = languages::create(&mut store, language("en", "English")).unwrap();
    assert_eq!(created.language_id, Some(2));
    assert_eq!(created.iso, "en");
    assert_eq!(created.endonym, "English");

    let listed = languages::list(&store);
    assert_eq!(listed.len(), 2);
    let matching: Vec<&Language> = listed
        .iter()
        .filter(|l| l.language_id == Some(2))
        .collect();
    assert_eq!(matching.len(), 1);
    assert_eq!(matching[0].iso, "en");
    assert_eq!(matching[0].endonym, "English");
}

#[test]
fn test_create_assigns_sequential_fresh_ids() {
    let mut store = rocket();
    let a = languages::create(&mut store, language("de", "Deutsch")).unwrap();
    let b = languages::create(&mut store, language("en", "English")).unwrap();
    let c = languages::create(&mut store, language("fr", "français")).unwrap();
    assert_eq!(a.language_id, Some(1));
    assert_eq!(b.language_id, Some(2));
    assert_eq!(c.language_id, Some(3));
}

#[test]
fn test_create_language_validation_error() {
    let mut store = rocket();
    assert_eq!(
        languages::create(&mut store, language("", "Deutsch")),
        Err(ApiError::Validation)
    );
    assert_eq!(
        languages::create(&mut store, language("de", "")),
        Err(ApiError::Validation)
    );
    assert_eq!(languages::list(&store).len(), 0);
}

#[test]
fn test_end_to_end_create_and_ordered_list() {
    let mut store = rocket();
    languages::create(&mut store, language("de", "Deutsch")).unwrap();
    languages::create(&mut store, language("en", "English")).unwrap();
    let created = languages::create(&mut store, language("ja", "日本語")).unwrap();
    assert_eq!(created.language_id, Some(3));
    assert_eq!(created.iso, "ja");
    assert_eq!(created.endonym, "日本語");

    let listed = languages::list(&store);
    let endonyms: Vec<&str> = listed.iter().map(|l| l.endonym.as_str()).collect();
    assert_eq!(endonyms, vec!["Deutsch", "English", "日本語"]);
    assert_eq!(listed[2].language_id, Some(3));
    assert_eq!(listed[2].iso, "ja");
}

#[test]
fn test_update_then_list_reflects_every_field() {
    let mut store = rocket();
    languages::create(&mut store, language("de", "Deutsch")).unwrap();
    languages::create(&mut store, language("en", "English")).unwrap();

    let mut body = language("eng", "English (modern)");
    body.script = Some("Latin".to_string());
    body.exonym_en = Some("English".to_string());
    body.stage = Some("modern".to_string());
    body.language_family = Some("Germanic".to_string());
    body.area_used = Some("worldwide".to_string());
    let updated = languages::update(&mut store, 2, body).unwrap();
    assert_eq!(updated.language_id, Some(2));
    assert_eq!(updated.iso, "eng");
    assert_eq!(updated.script, Some("Latin".to_string()));

    let listed = languages::list(&store);
    assert_eq!(listed.len(), 2);
    let refreshed = listed.iter().find(|l| l.language_id == Some(2)).unwrap();
    assert_eq!(refreshed.iso, "eng");
    assert_eq!(refreshed.endonym, "English (modern)");
    assert_eq!(refreshed.script, Some("Latin".to_string()));
    assert_eq!(refreshed.exonym_en, Some("English".to_string()));
    assert_eq!(refreshed.stage, Some("modern".to_string()));
    assert_eq!(refreshed.language_family, Some("Germanic".to_string()));
    assert_eq!(refreshed.area_used, Some("worldwide".to_string()));
    let untouched = listed.iter().find(|l| l.language_id == Some(1)).unwrap();
    assert_eq!(untouched.iso, "de");
    assert_eq!(untouched.endonym, "Deutsch");
    assert_eq!(untouched.script, None);
}

#[test]
fn test_update_missing_language_is_not_found() {
    let mut store = rocket();
    languages::create(&mut store, language("de", "Deutsch")).unwrap();
    assert_eq!(
        languages::update(&mut store, 42, language("en", "English")),
        Err(ApiError::NotFound)
    );
    let listed = languages::list(&store);
    assert_eq!(listed.len(), 1);
    assert_eq!(listed[0].iso, "de");
}

#[test]
fn test_delete_language_twice_succeeds() {
    let mut store = rocket();
    languages::create(&mut store, language("de", "Deutsch")).unwrap();
    languages::delete(&mut store, 1);
    assert_eq!(languages::list(&store).len(), 0);
    languages::delete(&mut store, 1);
    assert_eq!(languages::list(&store).len(), 0);
}

#[test]
fn test_delete_language_cascades_to_vocabulary() {
    let mut store = rocket();
    languages::create(&mut store, language("de", "Deutsch")).unwrap();
    languages::create(&mut store, language("en", "English")).unwrap();
    vocabulary::create(&mut store, 1, entry(1, "noun", "Apfel")).unwrap();
    vocabulary::create(&mut store, 1, entry(1, "noun", "Birne")).unwrap();
    vocabulary::create(&mut store, 2, entry(2, "noun", "apple")).unwrap();

    languages::delete(&mut store, 1);
    assert_eq!(vocabulary::list(&store, 1).len(), 0);
    let kept = vocabulary::list(&store, 2);
    assert_eq!(kept.len(), 1);
    assert_eq!(kept[0].lemma, "apple");
}

#[test]
fn test_vocabulary_list_empty_for_language_without_entries() {
    let mut store = rocket();
    languages::create(&mut store, language("de", "Deutsch")).unwrap();
    assert_eq!(vocabulary::list(&store, 1).len(), 0);
    // An unknown language also lists to empty, not to an error.
    assert_eq!(vocabulary::list(&store, 99).len(), 0);
}

#[test]
fn test_vocabulary_create_path_overrides_body_language_id() {
    let mut store = rocket();
    for (iso, endonym) in [
        ("de", "Deutsch"),
        ("en", "English"),
        ("fr", "français"),
        ("es", "español"),
        ("it", "italiano"),
    ] {
        languages::create(&mut store, language(iso, endonym)).unwrap();
    }
    let body = entry(7, "noun", "parola");
    let stored = vocabulary::create(&mut store, 5, body).unwrap();
    assert_eq!(stored.language_id, 5);
    assert_eq!(stored.word_id, Some(1));

    let listed = vocabulary::list(&store, 5);
    assert_eq!(listed.len(), 1);
    assert_eq!(listed[0].language_id, 5);
    assert_eq!(vocabulary::list(&store, 7).len(), 0);
}

#[test]
fn test_vocabulary_create_errors() {
    let mut store = rocket();
    languages::create(&mut store, language("de", "Deutsch")).unwrap();
    assert_eq!(
        vocabulary::create(&mut store, 1, entry(1, "", "Apfel")),
        Err(ApiError::Validation)
    );
    assert_eq!(
        vocabulary::create(&mut store, 1, entry(1, "noun", "")),
        Err(ApiError::Validation)
    );
    assert_eq!(
        vocabulary::create(&mut store, 9, entry(9, "noun", "Apfel")),
        Err(ApiError::NotFound)
    );
    assert_eq!(vocabulary::list(&store, 1).len(), 0);
}

#[test]
fn test_vocabulary_update_wrong_language_is_not_found() {
    let mut store = rocket();
    languages::create(&mut store, language("de", "Deutsch")).unwrap();
    languages::create(&mut store, language("en", "English")).unwrap();
    languages::create(&mut store, language("fr", "français")).unwrap();
    languages::create(&mut store, language("es", "español")).unwrap();
    // Fill word identifiers 1 through 9 under language 1, then store
    // word 10 under language 4.
    for i in 0..9 {
        let lemma = format!("wort_{}", i);
        vocabulary::create(&mut store, 1, entry(1, "noun", &lemma)).unwrap();
    }
    let word = vocabulary::create(&mut store, 4, entry(4, "noun", "palabra")).unwrap();
    assert_eq!(word.word_id, Some(10));

    // Word 10 belongs to language 4; updating it under language 3 must
    // fail as not-found and must not touch the stored row.
    assert_eq!(
        vocabulary::update(&mut store, 3, 10, entry(3, "verb", "changed")),
        Err(ApiError::NotFound)
    );
    let listed = vocabulary::list(&store, 4);
    assert_eq!(listed.len(), 1);
    assert_eq!(listed[0].lemma, "palabra");
    assert_eq!(listed[0].part_of_speech, "noun");
}

#[test]
fn test_vocabulary_update_replaces_fields() {
    let mut store = rocket();
    languages::create(&mut store, language("de", "Deutsch")).unwrap();
    vocabulary::create(&mut store, 1, entry(1, "noun", "Apfel")).unwrap();
    let mut body = entry(1, "verb", "laufen");
    body.notes = Some("updated note".to_string());
    let updated = vocabulary::update(&mut store, 1, 1, body).unwrap();
    assert_eq!(updated.word_id, Some(1));
    assert_eq!(updated.language_id, 1);
    assert_eq!(updated.part_of_speech, "verb");
    assert_eq!(updated.lemma, "laufen");
    assert_eq!(updated.notes, Some("updated note".to_string()));

    let listed = vocabulary::list(&store, 1);
    assert_eq!(listed.len(), 1);
    assert_eq!(listed[0].lemma, "laufen");
    assert_eq!(listed[0].notes, Some("updated note".to_string()));
}

#[test]
fn test_vocabulary_update_validation_error() {
    let mut store = rocket();
    languages::create(&mut store, language("de", "Deutsch")).unwrap();
    vocabulary::create(&mut store, 1, entry(1, "noun", "Apfel")).unwrap();
    assert_eq!(
        vocabulary::update(&mut store, 1, 1, entry(1, "noun", "")),
        Err(ApiError::Validation)
    );
    assert_eq!(vocabulary::list(&store, 1)[0].lemma, "Apfel");
}

#[test]
fn test_vocabulary_delete_twice_succeeds() {
    let mut store = rocket();
    languages::create(&mut store, language("de", "Deutsch")).unwrap();
    vocabulary::create(&mut store, 1, entry(1, "noun", "Apfel")).unwrap();
    vocabulary::delete(&mut store, 1, 1);
    assert_eq!(vocabulary::list(&store, 1).len(), 0);
    vocabulary::delete(&mut store, 1, 1);
    assert_eq!(vocabulary::list(&store, 1).len(), 0);
}

#[test]
fn test_vocabulary_delete_scoped_by_language() {
    let mut store = rocket();
    languages::create(&mut store, language("de", "Deutsch")).unwrap();
    languages::create(&mut store, language("en", "English")).unwrap();
    let word = vocabulary::create(&mut store, 2, entry(2, "noun", "apple")).unwrap();
    assert_eq!(word.word_id, Some(1));
    // Deleting word 1 under the wrong language removes nothing.
    vocabulary::delete(&mut store, 1, 1);
    assert_eq!(vocabulary::list(&store, 2).len(), 1);
    vocabulary::delete(&mut store, 2, 1);
    assert_eq!(vocabulary::list(&store, 2).len(), 0);
}

#[test]
fn test_vocabulary_list_sorted_by_lemma() {
    let mut store = rocket();
    languages::create(&mut store, language("en", "English")).unwrap();
    for lemma in ["orange", "apple", "banana"] {
        vocabulary::create(&mut store, 1, entry(1, "noun", lemma)).unwrap();
    }
    let listed = vocabulary::list(&store, 1);
    let lemmas: Vec<&str> = listed.iter().map(|e| e.lemma.as_str()).collect();
    assert_eq!(lemmas, vec!["apple", "banana", "orange"]);
}

#[test]
fn test_languages_list_sorted_by_endonym() {
    let mut store = rocket();
    for (iso, endonym) in [("fr", "français"), ("de", "Deutsch"), ("es", "español")] {
        languages::create(&mut store, language(iso, endonym)).unwrap();
    }
    let listed = languages::list(&store);
    let endonyms: Vec<&str> = listed.iter().map(|l| l.endonym.as_str()).collect();
    assert_eq!(endonyms, vec!["Deutsch", "español", "français"]);
}
