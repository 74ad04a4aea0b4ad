//! The vocabulary surface: list, create, update, delete, all scoped to a
//! language.
//!
//! Every function takes the owning language's identifier from the request
//! path. The path value is authoritative: whatever `language_id` a body
//! carries, the stored row belongs to the language named in the path, and
//! updates and deletes touch a row only when both its `word_id` and its
//! `language_id` match the path.

use vstd::prelude::*;
use vstd::seq_lib::lemma_multiset_commutative;
use crate::db::{
    Store, vocab_for, vocab_without_word, seq_has_language, lemma_vocab_without_word_wf, lemma_vocab_without_word_member, lemma_vocab_without_word_identity,
    lemma_vocab_for_empty,
};
use crate::models::{ApiError, VocabularyEntry, entry_valid, entry_with_ids};
use crate::order::{lex_leq, lemma_lex_total, lemma_lex_trans, str_leq};

verus! {

/// The sequence is ordered by `lemma`, ascending.
pub open spec fn entries_sorted(s: Seq<VocabularyEntry>) -> bool {
    forall|i: int, j: int| 0 <= i < j < s.len() ==> #[trigger] lex_leq(s[i].lemma@, s[j].lemma@)
}

/// Places one record into a run of records sorted by `lemma`, keeping the
/// run sorted.
fn insert_sorted(out: &mut Vec<VocabularyEntry>, e: VocabularyEntry)
    requires
        entries_sorted(old(out)@),
    ensures
        entries_sorted(final(out)@),
        final(out)@.to_multiset() == old(out)@.to_multiset().insert(e),
{
    broadcast use vstd::seq_lib::group_to_multiset_ensures;
    broadcast use vstd::multiset::group_multiset_axioms;

    let ghost s0 = out@;
    let mut j: usize = 0;
    loop
        invariant
            j <= out@.len(),
            out@ == s0,
            forall|k: int| 0 <= k < j ==> !lex_leq(e.lemma@, (#[trigger] out@[k]).lemma@),
        ensures
            j <= out@.len(),
            out@ == s0,
            forall|k: int| 0 <= k < j ==> !lex_leq(e.lemma@, (#[trigger] out@[k]).lemma@),
            j < out@.len() ==> lex_leq(e.lemma@, out@[j as int].lemma@),
        decreases out@.len() - j,
    {
        if j == out.len() {
            break;
        }
        if str_leq(e.lemma.as_str(), out[j].lemma.as_str()) {
            break;
        }
        j = j + 1;
    }
    proof {
        assert forall|k: int| 0 <= k < j implies lex_leq(s0[k].lemma@, e.lemma@) by {
            lemma_lex_total(e.lemma@, s0[k].lemma@);
        }
    }
    out.insert(j, e);
    proof {
        let t = out@;
        s0.insert_ensures(j as int, e);
        assert forall|p: int, q: int| 0 <= p < q < t.len() implies lex_leq(
            t[p].lemma@,
            t[q].lemma@,
        ) by {
            if q < j {
                assert(t[p] == s0[p] && t[q] == s0[q]);
            } else if q == j {
                assert(t[q] == e && t[p] == s0[p]);
            } else {
                assert(t[q] == s0[q - 1]);
                if p < j {
                    assert(t[p] == s0[p]);
                    if p < q - 1 {
                        assert(lex_leq(s0[p].lemma@, s0[q - 1].lemma@));
                    }
                } else if p == j {
                    assert(t[p] == e);
                    if j < s0.len() {
                        assert(lex_leq(e.lemma@, s0[j as int].lemma@));
                        if j < q - 1 {
                            assert(lex_leq(s0[j as int].lemma@, s0[q - 1].lemma@));
                            lemma_lex_trans(e.lemma@, s0[j as int].lemma@, s0[q - 1].lemma@);
                        }
                    }
                } else {
                    assert(t[p] == s0[p - 1]);
                    if p - 1 < q - 1 {
                        assert(lex_leq(s0[p - 1].lemma@, s0[q - 1].lemma@));
                    }
                }
            }
        }
        let left = s0.subrange(0, j as int);
        let right = s0.subrange(j as int, s0.len() as int);
        assert(t == left.push(e) + right);
        assert(left + right =~= s0);
        lemma_multiset_commutative(left.push(e), right);
        lemma_multiset_commutative(left, right);
        assert(left.push(e).to_multiset() =~= left.to_multiset().insert(e));
        assert(t.to_multiset() =~= s0.to_multiset().insert(e));
    }
}

/// Every vocabulary entry of the named language, ordered by `lemma`
/// ascending. An identifier naming no stored language yields the empty
/// listing, not an error.
pub fn list(s: &Store, language_id: i64) -> (r: Vec<VocabularyEntry>)
    ensures
        r@.to_multiset() == vocab_for(s.vocabulary@, language_id).to_multiset(),
        entries_sorted(r@),
{
    let mut r: Vec<VocabularyEntry> = Vec::new();
    let n = s.vocabulary.len();
    let mut i: usize = 0;
    proof {
        assert(s.vocabulary@.subrange(0, 0) =~= Seq::<VocabularyEntry>::empty());
    }
    while i < n
        invariant
            i <= n,
            n == s.vocabulary@.len(),
            r@.to_multiset() == vocab_for(s.vocabulary@.subrange(0, i as int), language_id)
                .to_multiset(),
            entries_sorted(r@),
        decreases n - i,
    {
        let ghost pre = s.vocabulary@.subrange(0, i as int);
        let ghost elem = s.vocabulary@[i as int];
        if s.vocabulary[i].language_id == language_id {
            insert_sorted(&mut r, s.vocabulary[i].duplicate());
        }
        proof {
            let prefix = s.vocabulary@.subrange(0, i + 1);
            assert(prefix.drop_last() =~= pre);
            assert(prefix.last() == elem);
            vocab_for(pre, language_id).to_multiset_ensures();
            assert(r@.to_multiset() == vocab_for(prefix, language_id).to_multiset());
        }
        i = i + 1;
    }
    proof {
        assert(s.vocabulary@.subrange(0, n as int) =~= s.vocabulary@);
    }
    r
}

/// Stores a new entry under the language named in the path. The body's
/// required fields must be non-empty, else the request ends in a
/// validation error; the language must exist, else it ends in not-found;
/// on either error the store is untouched. On success the stored record —
/// the body under a fresh `word_id` and the path's `language_id`, whatever
/// `language_id` the body itself carried — is appended and returned.
pub fn create(s: &mut Store, language_id: i64, entry: VocabularyEntry) -> (r: Result<
    VocabularyEntry,
    ApiError,
>)
    requires
        old(s).wf(),
        old(s).next_word_id < i64::MAX,
    ensures
        final(s).wf(),
        r is Ok <==> entry_valid(entry) && old(s).has_language(language_id),
        match r {
            Ok(stored) => {
                &&& stored == entry_with_ids(entry, old(s).next_word_id, language_id)
                &&& stored.language_id == language_id
                &&& forall|i: int|
                    0 <= i < old(s).vocabulary@.len() ==> (
                    #[trigger] old(s).vocabulary@[i]).word_id != Some(old(s).next_word_id)
                &&& final(s).vocabulary@ == old(s).vocabulary@.push(stored)
                &&& final(s).languages@ == old(s).languages@
                &&& final(s).next_word_id == old(s).next_word_id + 1
                &&& final(s).next_language_id == old(s).next_language_id
            },
            Err(e) => {
                &&& *final(s) == *old(s)
                &&& (e == ApiError::Validation <==> !entry_valid(entry))
                &&& (e == ApiError::NotFound <==> entry_valid(entry) && !old(s).has_language(
                    language_id,
                ))
            },
        },
{
    if !entry.is_valid() {
        return Err(ApiError::Validation);
    }
    match s.find_language(language_id) {
        None => Err(ApiError::NotFound),
        Some(_found) => {
            let id = s.next_word_id;
            let stored = entry.into_with_ids(id, language_id);
            let response = stored.duplicate();
            s.vocabulary.push(stored);
            s.next_word_id = id + 1;
            proof {
                let pre = old(s).vocabulary@;
                let post = s.vocabulary@;
                assert(post == pre.push(stored));
                assert forall|a: int, b: int| 0 <= a < b < post.len() implies (
                #[trigger] post[a]).word_id != (#[trigger] post[b]).word_id by {
                    if b == post.len() - 1 {
                        assert(post[a] == pre[a]);
                        assert(pre[a].word_id->0 < id);
                    } else {
                        assert(post[a] == pre[a] && post[b] == pre[b]);
                    }
                }
                assert forall|i: int| 0 <= i < pre.len() implies (#[trigger] pre[i]).word_id
                    != Some(id) by {
                    assert(pre[i].word_id->0 < id);
                }
                assert forall|v: int| 0 <= v < post.len() implies seq_has_language(
                    s.languages@,
                    (#[trigger] post[v]).language_id,
                ) by {
                    if v < post.len() - 1 {
                        assert(post[v] == pre[v]);
                        assert(seq_has_language(old(s).languages@, pre[v].language_id));
                    }
                }
            }
            Ok(response)
        },
    }
}

/// Replaces every field of the entry matching both path identifiers with
/// the body, keeping `word_id` and the path's `language_id`. A body with
/// an empty required field ends in a validation error. A `word_id` that is
/// stored under a different language counts as absent: the request ends in
/// not-found and no row — in particular not that other language's row — is
/// touched. On either error the store is untouched.
pub fn update(s: &mut Store, language_id: i64, word_id: i64, entry: VocabularyEntry) -> (r: Result<
    VocabularyEntry,
    ApiError,
>)
    requires
        old(s).wf(),
    ensures
        final(s).wf(),
        r is Ok <==> entry_valid(entry) && old(s).has_entry(language_id, word_id),
        match r {
            Ok(stored) => {
                &&& stored == entry_with_ids(entry, word_id, language_id)
                &&& exists|i: int|
                    {
                        &&& 0 <= i < old(s).vocabulary@.len()
                        &&& old(s).vocabulary@[i].word_id == Some(word_id)
                        &&& old(s).vocabulary@[i].language_id == language_id
                        &&& final(s).vocabulary@ == old(s).vocabulary@.update(i, stored)
                    }
                &&& final(s).languages@ == old(s).languages@
                &&& final(s).next_language_id == old(s).next_language_id
                &&& final(s).next_word_id == old(s).next_word_id
            },
            Err(e) => {
                &&& *final(s) == *old(s)
                &&& (e == ApiError::Validation <==> !entry_valid(entry))
                &&& (e == ApiError::NotFound <==> entry_valid(entry) && !old(s).has_entry(
                    language_id,
                    word_id,
                ))
            },
        },
{
    if !entry.is_valid() {
        return Err(ApiError::Validation);
    }
    match s.find_entry(language_id, word_id) {
        None => Err(ApiError::NotFound),
        Some(i) => {
            let stored = entry.into_with_ids(word_id, language_id);
            let response = stored.duplicate();
            s.vocabulary.remove(i);
            s.vocabulary.insert(i, stored);
            proof {
                let pre = old(s).vocabulary@;
                let post = s.vocabulary@;
                assert(post =~= pre.update(i as int, stored));
                assert(forall|k: int|
                    0 <= k < post.len() ==> (#[trigger] post[k]).word_id == pre[k].word_id);
                assert(forall|k: int|
                    0 <= k < post.len() ==> (#[trigger] post[k]).language_id
                        == pre[k].language_id);
                assert forall|a: int, b: int| 0 <= a < b < post.len() implies (
                #[trigger] post[a]).word_id != (#[trigger] post[b]).word_id by {
                    assert(pre[a].word_id != pre[b].word_id);
                }
                assert forall|v: int| 0 <= v < post.len() implies seq_has_language(
                    s.languages@,
                    (#[trigger] post[v]).language_id,
                ) by {
                    assert(seq_has_language(old(s).languages@, pre[v].language_id));
                }
            }
            Ok(response)
        },
    }
}

/// Removes the entry matching both path identifiers. Deletion is
/// idempotent: a pair matching no row — including a `word_id` stored under
/// a different language — leaves the store as it is, and the request still
/// succeeds; this function never fails.
pub fn delete(s: &mut Store, language_id: i64, word_id: i64)
    requires
        old(s).wf(),
    ensures
        final(s).wf(),
        final(s).vocabulary@ == vocab_without_word(old(s).vocabulary@, language_id, word_id),
        final(s).languages@ == old(s).languages@,
        final(s).next_language_id == old(s).next_language_id,
        final(s).next_word_id == old(s).next_word_id,
        !final(s).has_entry(language_id, word_id),
{
    let mut kept: Vec<VocabularyEntry> = Vec::new();
    let n = s.vocabulary.len();
    let mut i: usize = 0;
    proof {
        assert(s.vocabulary@.subrange(0, 0) =~= Seq::<VocabularyEntry>::empty());
    }
    while i < n
        invariant
            i <= n,
            n == s.vocabulary@.len(),
            kept@ == vocab_without_word(
                s.vocabulary@.subrange(0, i as int),
                language_id,
                word_id,
            ),
        decreases n - i,
    {
        let matches_word = match s.vocabulary[i].word_id {
            Some(stored) => stored == word_id,
            None => false,
        };
        if !(matches_word && s.vocabulary[i].language_id == language_id) {
            kept.push(s.vocabulary[i].duplicate());
        }
        proof {
            let prefix = s.vocabulary@.subrange(0, i + 1);
            assert(prefix.drop_last() =~= s.vocabulary@.subrange(0, i as int));
            assert(prefix.last() == s.vocabulary@[i as int]);
            assert(kept@ == vocab_without_word(prefix, language_id, word_id));
        }
        i = i + 1;
    }
    proof {
        assert(s.vocabulary@.subrange(0, n as int) =~= s.vocabulary@);
    }
    s.vocabulary = kept;
    proof {
        lemma_vocab_without_word_wf(
            old(s).vocabulary@,
            language_id,
            word_id,
            old(s).next_word_id,
        );
        assert forall|v: int| 0 <= v < s.vocabulary@.len() implies seq_has_language(
            s.languages@,
            (#[trigger] s.vocabulary@[v]).language_id,
        ) by {
            let j = lemma_vocab_without_word_member(
                old(s).vocabulary@,
                language_id,
                word_id,
                v,
            );
            assert(seq_has_language(old(s).languages@, old(s).vocabulary@[j].language_id));
        }
    }
}

/// Law: a language that owns no vocabulary rows lists to the empty
/// sequence — an empty array, never an error. This holds whether or not
/// the language itself exists, so an unknown identifier also yields the
/// empty listing.
///
/// `table` is the vocabulary table and `listed` any listing of it for
/// `language_id` (as `list`'s contract states it).
pub proof fn lemma_list_empty_without_entries(
    table: Seq<VocabularyEntry>,
    language_id: i64,
    listed: Seq<VocabularyEntry>,
)
    requires
        forall|i: int| 0 <= i < table.len() ==> (#[trigger] table[i]).language_id != language_id,
        listed.to_multiset() == vocab_for(table, language_id).to_multiset(),
    ensures
        listed =~= Seq::<VocabularyEntry>::empty(),
{
    broadcast use vstd::seq_lib::group_to_multiset_ensures;

    lemma_vocab_for_empty(table, language_id);
    assert(vocab_for(table, language_id).len() == 0);
    assert(vocab_for(table, language_id).to_multiset().len() == 0);
    assert(listed.to_multiset().len() == 0);
    assert(listed.len() == 0);
}

/// Law: deleting the same vocabulary pair twice in succession leaves
/// exactly the state the first delete left — and a delete never fails, so
/// the second request reports success like the first.
pub proof fn lemma_delete_idempotent(vocab: Seq<VocabularyEntry>, language_id: i64, word_id: i64)
    ensures
        vocab_without_word(vocab_without_word(vocab, language_id, word_id), language_id, word_id)
            == vocab_without_word(vocab, language_id, word_id),
{
    let f = vocab_without_word(vocab, language_id, word_id);
    assert forall|i: int| 0 <= i < f.len() implies !((#[trigger] f[i]).word_id == Some(word_id)
        && f[i].language_id == language_id) by {
        let j = lemma_vocab_without_word_member(vocab, language_id, word_id, i);
    }
    lemma_vocab_without_word_identity(f, language_id, word_id);
}

} // verus!
