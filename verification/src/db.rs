//! The store: the service's model of its two tables.
//!
//! A `Store` holds the `languages` and `vocabulary` tables together with the
//! counters from which row identifiers are assigned. Its well-formedness
//! invariant is the schema's integrity rules: every stored row carries an
//! identifier below the table's counter, identifiers are unique within a
//! table, and every vocabulary row references an existing language.

use vstd::prelude::*;
use crate::models::{Language, VocabularyEntry};

verus! {

/// The languages table with the rows carrying `id` removed.
pub open spec fn langs_without(s: Seq<Language>, id: i64) -> Seq<Language>
    decreases s.len(),
{
    if s.len() == 0 {
        Seq::empty()
    } else {
        let rest = langs_without(s.drop_last(), id);
        if s.last().language_id == Some(id) {
            rest
        } else {
            rest.push(s.last())
        }
    }
}

/// The vocabulary table with every row of language `id` removed.
pub open spec fn vocab_without_language(s: Seq<VocabularyEntry>, id: i64) -> Seq<VocabularyEntry>
    decreases s.len(),
{
    if s.len() == 0 {
        Seq::empty()
    } else {
        let rest = vocab_without_language(s.drop_last(), id);
        if s.last().language_id == id {
            rest
        } else {
            rest.push(s.last())
        }
    }
}

/// The vocabulary table with the rows matching both identifiers removed.
pub open spec fn vocab_without_word(
    s: Seq<VocabularyEntry>,
    language_id: i64,
    word_id: i64,
) -> Seq<VocabularyEntry>
    decreases s.len(),
{
    if s.len() == 0 {
        Seq::empty()
    } else {
        let rest = vocab_without_word(s.drop_last(), language_id, word_id);
        if s.last().word_id == Some(word_id) && s.last().language_id == language_id {
            rest
        } else {
            rest.push(s.last())
        }
    }
}

/// The rows of the vocabulary table belonging to language `id`, in table
/// order.
pub open spec fn vocab_for(s: Seq<VocabularyEntry>, id: i64) -> Seq<VocabularyEntry>
    decreases s.len(),
{
    if s.len() == 0 {
        Seq::empty()
    } else {
        let rest = vocab_for(s.drop_last(), id);
        if s.last().language_id == id {
            rest.push(s.last())
        } else {
            rest
        }
    }
}

/// Every language row a delete keeps stands in the original table, and
/// does not carry the deleted identifier; this returns its position there.
pub proof fn lemma_langs_without_member(s: Seq<Language>, id: i64, i: int) -> (j: int)
    requires
        0 <= i < langs_without(s, id).len(),
    ensures
        0 <= j < s.len(),
        s[j] == langs_without(s, id)[i],
        s[j].language_id != Some(id),
    decreases s.len(),
{
    let rest = langs_without(s.drop_last(), id);
    if i < rest.len() {
        lemma_langs_without_member(s.drop_last(), id, i)
    } else {
        s.len() - 1
    }
}

/// A language row that does not carry the deleted identifier survives the
/// delete.
pub proof fn lemma_langs_without_keeps(s: Seq<Language>, id: i64, j: int)
    requires
        0 <= j < s.len(),
        s[j].language_id != Some(id),
    ensures
        langs_without(s, id).contains(s[j]),
    decreases s.len(),
{
    let rest = langs_without(s.drop_last(), id);
    if j == s.len() - 1 {
        assert(langs_without(s, id)[rest.len() as int] == s[j]);
    } else {
        lemma_langs_without_keeps(s.drop_last(), id, j);
        let w = choose|w: int| 0 <= w < rest.len() && rest[w] == s.drop_last()[j];
        assert(langs_without(s, id)[w] == s[j]);
    }
}

/// Deleting a language keeps the languages table sound, and afterwards no
/// row carries the deleted identifier.
pub proof fn lemma_langs_without_wf(s: Seq<Language>, id: i64, next: i64)
    requires
        languages_wf(s, next),
    ensures
        languages_wf(langs_without(s, id), next),
        !seq_has_language(langs_without(s, id), id),
        forall|i: int|
            0 <= i < langs_without(s, id).len() ==> (#[trigger] langs_without(s, id)[i]).language_id
                != Some(id),
{
    let f = langs_without(s, id);
    assert forall|i: int| 0 <= i < f.len() implies ((#[trigger] f[i]).language_id is Some && 1 <= f[i].language_id->0 < next && f[i].language_id != Some(id)) by {
        let j = lemma_langs_without_member(s, id, i);
    }
    assert forall|i: int, j: int| 0 <= i < j < f.len() implies (#[trigger] f[i]).language_id != (
    #[trigger] f[j]).language_id by {
        let a = lemma_langs_without_member(s, id, i);
        let b = lemma_langs_without_member(s, id, j);
        if a == b {
            lemma_langs_without_distinct_positions(s, id, i, j);
        }
    }
}

/// Two distinct kept positions come from two distinct original positions.
proof fn lemma_langs_without_distinct_positions(s: Seq<Language>, id: i64, i: int, j: int)
    requires
        0 <= i < j < langs_without(s, id).len(),
        forall|a: int, b: int|
            0 <= a < b < s.len() ==> (#[trigger] s[a]).language_id != (#[trigger] s[b]).language_id,
    ensures
        langs_without(s, id)[i].language_id != langs_without(s, id)[j].language_id,
    decreases s.len(),
{
    let rest = langs_without(s.drop_last(), id);
    if j < rest.len() {
        lemma_langs_without_distinct_positions(s.drop_last(), id, i, j);
    } else {
        let m = lemma_langs_without_member(s.drop_last(), id, i);
        assert(s[m] == langs_without(s, id)[i]);
        assert(langs_without(s, id)[j] == s[s.len() - 1]);
    }
}

/// Deleting an identifier that no row carries changes nothing.
pub proof fn lemma_langs_without_identity(s: Seq<Language>, id: i64)
    requires
        forall|i: int| 0 <= i < s.len() ==> (#[trigger] s[i]).language_id != Some(id),
    ensures
        langs_without(s, id) == s,
    decreases s.len(),
{
    if s.len() > 0 {
        lemma_langs_without_identity(s.drop_last(), id);
        assert(langs_without(s, id) =~= s);
    } else {
        assert(langs_without(s, id) =~= s);
    }
}

/// Every vocabulary row a language delete keeps stands in the original
/// table and belongs to another language; this returns its position there.
pub proof fn lemma_vocab_without_language_member(s: Seq<VocabularyEntry>, id: i64, i: int) -> (j:
    int)
    requires
        0 <= i < vocab_without_language(s, id).len(),
    ensures
        0 <= j < s.len(),
        s[j] == vocab_without_language(s, id)[i],
        s[j].language_id != id,
    decreases s.len(),
{
    let rest = vocab_without_language(s.drop_last(), id);
    if i < rest.len() {
        lemma_vocab_without_language_member(s.drop_last(), id, i)
    } else {
        s.len() - 1
    }
}

/// The cascade keeps the vocabulary table sound, and afterwards no row
/// belongs to the deleted language.
pub proof fn lemma_vocab_without_language_wf(s: Seq<VocabularyEntry>, id: i64, next: i64)
    requires
        vocabulary_wf(s, next),
    ensures
        vocabulary_wf(vocab_without_language(s, id), next),
        forall|i: int|
            0 <= i < vocab_without_language(s, id).len() ==> (#[trigger] vocab_without_language(
                s,
                id,
            )[i]).language_id != id,
{
    let f = vocab_without_language(s, id);
    assert forall|i: int| 0 <= i < f.len() implies ((#[trigger] f[i]).word_id is Some && 1 <= f[i].word_id->0 < next && f[i].language_id != id) by {
        let j = lemma_vocab_without_language_member(s, id, i);
    }
    assert forall|i: int, j: int| 0 <= i < j < f.len() implies (#[trigger] f[i]).word_id != (
    #[trigger] f[j]).word_id by {
        lemma_vocab_without_language_distinct_positions(s, id, i, j);
    }
}

/// Two distinct kept positions carry distinct word identifiers.
proof fn lemma_vocab_without_language_distinct_positions(
    s: Seq<VocabularyEntry>,
    id: i64,
    i: int,
    j: int,
)
    requires
        0 <= i < j < vocab_without_language(s, id).len(),
        forall|a: int, b: int|
            0 <= a < b < s.len() ==> (#[trigger] s[a]).word_id != (#[trigger] s[b]).word_id,
    ensures
        vocab_without_language(s, id)[i].word_id != vocab_without_language(s, id)[j].word_id,
    decreases s.len(),
{
    let rest = vocab_without_language(s.drop_last(), id);
    if j < rest.len() {
        lemma_vocab_without_language_distinct_positions(s.drop_last(), id, i, j);
    } else {
        let m = lemma_vocab_without_language_member(s.drop_last(), id, i);
        assert(s[m] == vocab_without_language(s, id)[i]);
        assert(vocab_without_language(s, id)[j] == s[s.len() - 1]);
    }
}

/// A cascade for a language no row belongs to changes nothing.
pub proof fn lemma_vocab_without_language_identity(s: Seq<VocabularyEntry>, id: i64)
    requires
        forall|i: int| 0 <= i < s.len() ==> (#[trigger] s[i]).language_id != id,
    ensures
        vocab_without_language(s, id) == s,
    decreases s.len(),
{
    if s.len() > 0 {
        lemma_vocab_without_language_identity(s.drop_last(), id);
        assert(vocab_without_language(s, id) =~= s);
    } else {
        assert(vocab_without_language(s, id) =~= s);
    }
}

/// Every vocabulary row a word delete keeps stands in the original table
/// and does not match the deleted pair; this returns its position there.
pub proof fn lemma_vocab_without_word_member(
    s: Seq<VocabularyEntry>,
    language_id: i64,
    word_id: i64,
    i: int,
) -> (j: int)
    requires
        0 <= i < vocab_without_word(s, language_id, word_id).len(),
    ensures
        0 <= j < s.len(),
        s[j] == vocab_without_word(s, language_id, word_id)[i],
        !(s[j].word_id == Some(word_id) && s[j].language_id == language_id),
    decreases s.len(),
{
    let rest = vocab_without_word(s.drop_last(), language_id, word_id);
    if i < rest.len() {
        lemma_vocab_without_word_member(s.drop_last(), language_id, word_id, i)
    } else {
        s.len() - 1
    }
}

/// Deleting one word keeps the vocabulary table sound, and afterwards no
/// row matches the deleted pair.
pub proof fn lemma_vocab_without_word_wf(
    s: Seq<VocabularyEntry>,
    language_id: i64,
    word_id: i64,
    next: i64,
)
    requires
        vocabulary_wf(s, next),
    ensures
        vocabulary_wf(vocab_without_word(s, language_id, word_id), next),
        !seq_has_entry(vocab_without_word(s, language_id, word_id), language_id, word_id),
{
    let f = vocab_without_word(s, language_id, word_id);
    assert forall|i: int| 0 <= i < f.len() implies ((#[trigger] f[i]).word_id is Some && 1 <= f[i].word_id->0 < next && !(f[i].word_id == Some(word_id) && f[i].language_id == language_id)) by {
        let j = lemma_vocab_without_word_member(s, language_id, word_id, i);
    }
    assert forall|i: int, j: int| 0 <= i < j < f.len() implies (#[trigger] f[i]).word_id != (
    #[trigger] f[j]).word_id by {
        lemma_vocab_without_word_distinct_positions(s, language_id, word_id, i, j);
    }
}

/// Two distinct kept positions carry distinct word identifiers.
proof fn lemma_vocab_without_word_distinct_positions(
    s: Seq<VocabularyEntry>,
    language_id: i64,
    word_id: i64,
    i: int,
    j: int,
)
    requires
        0 <= i < j < vocab_without_word(s, language_id, word_id).len(),
        forall|a: int, b: int|
            0 <= a < b < s.len() ==> (#[trigger] s[a]).word_id != (#[trigger] s[b]).word_id,
    ensures
        vocab_without_word(s, language_id, word_id)[i].word_id != vocab_without_word(
            s,
            language_id,
            word_id,
        )[j].word_id,
    decreases s.len(),
{
    let rest = vocab_without_word(s.drop_last(), language_id, word_id);
    if j < rest.len() {
        lemma_vocab_without_word_distinct_positions(s.drop_last(), language_id, word_id, i, j);
    } else {
        let m = lemma_vocab_without_word_member(s.drop_last(), language_id, word_id, i);
        assert(s[m] == vocab_without_word(s, language_id, word_id)[i]);
        assert(vocab_without_word(s, language_id, word_id)[j] == s[s.len() - 1]);
    }
}

/// Deleting a pair that no row matches changes nothing.
pub proof fn lemma_vocab_without_word_identity(
    s: Seq<VocabularyEntry>,
    language_id: i64,
    word_id: i64,
)
    requires
        forall|i: int|
            0 <= i < s.len() ==> !((#[trigger] s[i]).word_id == Some(word_id) && s[i].language_id
                == language_id),
    ensures
        vocab_without_word(s, language_id, word_id) == s,
    decreases s.len(),
{
    if s.len() > 0 {
        lemma_vocab_without_word_identity(s.drop_last(), language_id, word_id);
        assert(vocab_without_word(s, language_id, word_id) =~= s);
    } else {
        assert(vocab_without_word(s, language_id, word_id) =~= s);
    }
}

/// A language's listing is empty exactly when no stored row belongs to it.
pub proof fn lemma_vocab_for_empty(s: Seq<VocabularyEntry>, id: i64)
    ensures
        vocab_for(s, id).len() == 0 <==> (forall|i: int|
            0 <= i < s.len() ==> (#[trigger] s[i]).language_id != id),
    decreases s.len(),
{
    if s.len() > 0 {
        lemma_vocab_for_empty(s.drop_last(), id);
        let pre = s.drop_last();
        if forall|i: int| 0 <= i < s.len() ==> (#[trigger] s[i]).language_id != id {
            assert forall|i: int| 0 <= i < pre.len() implies (#[trigger] pre[i]).language_id
                != id by {
                assert(pre[i] == s[i]);
            }
            assert(s.last().language_id != id);
            assert(vocab_for(s, id).len() == 0);
        } else {
            if vocab_for(s, id).len() == 0 {
                assert(s.last().language_id != id);
                assert(vocab_for(pre, id).len() == 0);
                assert forall|i: int| 0 <= i < s.len() implies (#[trigger] s[i]).language_id
                    != id by {
                    if i < s.len() - 1 {
                        assert(s[i] == pre[i]);
                    }
                }
                assert(false);
            }
        }
    }
}

/// The two tables and the identifier counters. Deleting a language removes
/// its vocabulary with it (cascade), so the reference rule can never be
/// broken by a delete.
pub struct Store {
    pub languages: Vec<Language>,
    pub vocabulary: Vec<VocabularyEntry>,
    pub next_language_id: i64,
    pub next_word_id: i64,
}

/// The languages table is sound on its own: every row has an assigned
/// identifier in `1 .. next_id`, and no identifier repeats.
pub open spec fn languages_wf(s: Seq<Language>, next_id: i64) -> bool {
    &&& forall|i: int|
        0 <= i < s.len() ==> {
            &&& (#[trigger] s[i]).language_id is Some
            &&& 1 <= s[i].language_id->0 < next_id
        }
    &&& forall|i: int, j: int|
        0 <= i < j < s.len() ==> (#[trigger] s[i]).language_id != (#[trigger] s[j]).language_id
}

/// The vocabulary table is sound on its own, in the same way.
pub open spec fn vocabulary_wf(s: Seq<VocabularyEntry>, next_id: i64) -> bool {
    &&& forall|i: int|
        0 <= i < s.len() ==> {
            &&& (#[trigger] s[i]).word_id is Some
            &&& 1 <= s[i].word_id->0 < next_id
        }
    &&& forall|i: int, j: int|
        0 <= i < j < s.len() ==> (#[trigger] s[i]).word_id != (#[trigger] s[j]).word_id
}

/// Some row of the languages table carries this identifier.
pub open spec fn seq_has_language(s: Seq<Language>, id: i64) -> bool {
    exists|i: int| 0 <= i < s.len() && (#[trigger] s[i]).language_id == Some(id)
}

/// Some row of the vocabulary table carries this `word_id` under this
/// `language_id`; updates and deletes are scoped by the pair.
pub open spec fn seq_has_entry(s: Seq<VocabularyEntry>, language_id: i64, word_id: i64) -> bool {
    exists|i: int|
        0 <= i < s.len() && (#[trigger] s[i]).word_id == Some(word_id) && s[i].language_id
            == language_id
}

impl Store {
    /// The schema's integrity rules, all together.
    pub open spec fn wf(self) -> bool {
        &&& 1 <= self.next_language_id
        &&& 1 <= self.next_word_id
        &&& languages_wf(self.languages@, self.next_language_id)
        &&& vocabulary_wf(self.vocabulary@, self.next_word_id)
        &&& forall|i: int|
            0 <= i < self.vocabulary@.len() ==> seq_has_language(
                self.languages@,
                (#[trigger] self.vocabulary@[i]).language_id,
            )
    }

    /// Some stored language carries this identifier.
    pub open spec fn has_language(self, id: i64) -> bool {
        seq_has_language(self.languages@, id)
    }

    /// Some stored entry carries this pair of identifiers.
    pub open spec fn has_entry(self, language_id: i64, word_id: i64) -> bool {
        seq_has_entry(self.vocabulary@, language_id, word_id)
    }

    /// An empty store, counters at their starting value.
    pub fn new() -> (s: Store)
        ensures
            s.wf(),
            s.languages@ =~= Seq::<Language>::empty(),
            s.vocabulary@ =~= Seq::<VocabularyEntry>::empty(),
            s.next_language_id == 1,
            s.next_word_id == 1,
    {
        Store { languages: Vec::new(), vocabulary: Vec::new(), next_language_id: 1, next_word_id: 1 }
    }

    /// The index of the language row carrying `id`, if any.
    pub fn find_language(&self, id: i64) -> (r: Option<usize>)
        ensures
            match r {
                Some(i) => i < self.languages@.len() && self.languages@[i as int].language_id
                    == Some(id),
                None => !self.has_language(id),
            },
    {
        let n = self.languages.len();
        let mut i: usize = 0;
        while i < n
            invariant
                i <= n,
                n == self.languages@.len(),
                forall|k: int| 0 <= k < i ==> (#[trigger] self.languages@[k]).language_id != Some(id),
            decreases n - i,
        {
            match self.languages[i].language_id {
                Some(stored) => {
                    if stored == id {
                        return Some(i);
                    }
                },
                None => {},
            }
            i = i + 1;
        }
        None
    }

    /// The index of the vocabulary row carrying `word_id` under
    /// `language_id`, if any. A row whose `word_id` matches but which
    /// belongs to another language does not count.
    pub fn find_entry(&self, language_id: i64, word_id: i64) -> (r: Option<usize>)
        ensures
            match r {
                Some(i) => i < self.vocabulary@.len() && self.vocabulary@[i as int].word_id
                    == Some(word_id) && self.vocabulary@[i as int].language_id == language_id,
                None => !self.has_entry(language_id, word_id),
            },
    {
        let n = self.vocabulary.len();
        let mut i: usize = 0;
        while i < n
            invariant
                i <= n,
                n == self.vocabulary@.len(),
                forall|k: int|
                    0 <= k < i ==> !((#[trigger] self.vocabulary@[k]).word_id == Some(word_id)
                        && self.vocabulary@[k].language_id == language_id),
            decreases n - i,
        {
            let matches_word = match self.vocabulary[i].word_id {
                Some(stored) => stored == word_id,
                None => false,
            };
            if matches_word && self.vocabulary[i].language_id == language_id {
                return Some(i);
            }
            i = i + 1;
        }
        None
    }
}

} // verus!
