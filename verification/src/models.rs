//! The two record types the service stores, and the validity rules on them.
//!
//! A `Language` describes one language; a `VocabularyEntry` is one word
//! belonging to a language. Identifiers are assigned by the store on insert,
//! never supplied by a client, so a record arriving from a client carries
//! `None` (or an ignored value) in its identifier field.

use vstd::prelude::*;

verus! {

/// One language record. `iso` and `endonym` are required (non-empty);
/// the remaining descriptive strings are optional.
#[derive(Debug, PartialEq, Eq)]
pub struct Language {
    pub language_id: Option<i64>,
    pub iso: String,
    pub script: Option<String>,
    pub endonym: String,
    pub exonym_en: Option<String>,
    pub stage: Option<String>,
    pub language_family: Option<String>,
    pub area_used: Option<String>,
}

/// One vocabulary record, always owned by the language named in
/// `language_id`. `part_of_speech` and `lemma` are required (non-empty);
/// the remaining descriptive strings are optional.
#[derive(Debug, PartialEq, Eq)]
pub struct VocabularyEntry {
    pub word_id: Option<i64>,
    pub language_id: i64,
    pub part_of_speech: String,
    pub lemma: String,
    pub transliteration: Option<String>,
    pub definition: Option<String>,
    pub origin_lang: Option<String>,
    pub process: Option<String>,
    pub etymology_notes: Option<String>,
    pub tag: Option<String>,
    pub notes: Option<String>,
}

/// The errors a request can end in before it reaches storage: a body whose
/// required fields are missing or empty, or a path that names no stored row.
#[derive(Clone, Copy, Debug, PartialEq, Eq, Structural)]
pub enum ApiError {
    Validation,
    NotFound,
}

/// A language body is acceptable when both required fields are non-empty.
pub open spec fn language_valid(l: Language) -> bool {
    l.iso@.len() > 0 && l.endonym@.len() > 0
}

/// An entry body is acceptable when both required fields are non-empty.
pub open spec fn entry_valid(e: VocabularyEntry) -> bool {
    e.part_of_speech@.len() > 0 && e.lemma@.len() > 0
}

/// The record as it is stored: the client body with the identifier the
/// store assigned in place of whatever the body carried.
pub open spec fn language_with_id(l: Language, id: i64) -> Language {
    Language {
        language_id: Some(id),
        iso: l.iso,
        script: l.script,
        endonym: l.endonym,
        exonym_en: l.exonym_en,
        stage: l.stage,
        language_family: l.language_family,
        area_used: l.area_used,
    }
}

/// The entry as it is stored: the client body with the store-assigned
/// `word_id` and the path's `language_id`, which overrides the body's own.
pub open spec fn entry_with_ids(e: VocabularyEntry, word_id: i64, language_id: i64) -> VocabularyEntry {
    VocabularyEntry {
        word_id: Some(word_id),
        language_id,
        part_of_speech: e.part_of_speech,
        lemma: e.lemma,
        transliteration: e.transliteration,
        definition: e.definition,
        origin_lang: e.origin_lang,
        process: e.process,
        etymology_notes: e.etymology_notes,
        tag: e.tag,
        notes: e.notes,
    }
}

fn clone_opt_string(o: &Option<String>) -> (r: Option<String>)
    ensures
        r == *o,
{
    match o {
        Some(s) => Some(s.clone()),
        None => None,
    }
}

impl Language {
    /// Whether both required fields are non-empty, decided in code.
    pub fn is_valid(&self) -> (r: bool)
        ensures
            r == language_valid(*self),
    {
        !self.iso.as_str().is_empty() && !self.endonym.as_str().is_empty()
    }

    /// A field-for-field copy of this record.
    pub fn duplicate(&self) -> (r: Language)
        ensures
            r == *self,
    {
        Language {
            language_id: self.language_id,
            iso: self.iso.clone(),
            script: clone_opt_string(&self.script),
            endonym: self.endonym.clone(),
            exonym_en: clone_opt_string(&self.exonym_en),
            stage: clone_opt_string(&self.stage),
            language_family: clone_opt_string(&self.language_family),
            area_used: clone_opt_string(&self.area_used),
        }
    }

    /// This record with `language_id` replaced by `id`, consuming the record.
    pub fn into_with_id(self, id: i64) -> (r: Language)
        ensures
            r == language_with_id(self, id),
    {
        Language {
            language_id: Some(id),
            iso: self.iso,
            script: self.script,
            endonym: self.endonym,
            exonym_en: self.exonym_en,
            stage: self.stage,
            language_family: self.language_family,
            area_used: self.area_used,
        }
    }
}

impl VocabularyEntry {
    /// Whether both required fields are non-empty, decided in code.
    pub fn is_valid(&self) -> (r: bool)
        ensures
            r == entry_valid(*self),
    {
        !self.part_of_speech.as_str().is_empty() && !self.lemma.as_str().is_empty()
    }

    /// A field-for-field copy of this record.
    pub fn duplicate(&self) -> (r: VocabularyEntry)
        ensures
            r == *self,
    {
        VocabularyEntry {
            word_id: self.word_id,
            language_id: self.language_id,
            part_of_speech: self.part_of_speech.clone(),
            lemma: self.lemma.clone(),
            transliteration: clone_opt_string(&self.transliteration),
            definition: clone_opt_string(&self.definition),
            origin_lang: clone_opt_string(&self.origin_lang),
            process: clone_opt_string(&self.process),
            etymology_notes: clone_opt_string(&self.etymology_notes),
            tag: clone_opt_string(&self.tag),
            notes: clone_opt_string(&self.notes),
        }
    }

    /// This record with both identifiers replaced, consuming the record.
    pub fn into_with_ids(self, word_id: i64, language_id: i64) -> (r: VocabularyEntry)
        ensures
            r == entry_with_ids(self, word_id, language_id),
    {
        VocabularyEntry {
            word_id: Some(word_id),
            language_id,
            part_of_speech: self.part_of_speech,
            lemma: self.lemma,
            transliteration: self.transliteration,
            definition: self.definition,
            origin_lang: self.origin_lang,
            process: self.process,
            etymology_notes: self.etymology_notes,
            tag: self.tag,
            notes: self.notes,
        }
    }
}

} // verus!
