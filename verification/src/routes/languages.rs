//! The languages surface: list, create, update, delete.
//!
//! Each function is the decision part of one endpoint. It takes the store
//! and the plain values the request carried, and its contract states the
//! response and the new store state for every input.

use vstd::prelude::*;
use vstd::seq_lib::lemma_multiset_commutative;
use crate::db::{
    Store, langs_without, vocab_without_language, lemma_langs_without_wf,
    lemma_langs_without_keeps, lemma_langs_without_member, lemma_langs_without_identity,
    lemma_vocab_without_language_wf, lemma_vocab_without_language_member,
    lemma_vocab_without_language_identity, languages_wf, seq_has_language,
};
use crate::models::{ApiError, Language, VocabularyEntry, language_valid, language_with_id};
use crate::order::{lex_leq, lemma_lex_total, lemma_lex_trans, str_leq};

verus! {

/// The sequence is ordered by `endonym`, ascending.
pub open spec fn languages_sorted(s: Seq<Language>) -> bool {
    forall|i: int, j: int|
        0 <= i < j < s.len() ==> #[trigger] lex_leq(s[i].endonym@, s[j].endonym@)
}

/// Places one record into a run of records sorted by `endonym`, keeping
/// the run sorted.
fn insert_sorted(out: &mut Vec<Language>, e: Language)
    requires
        languages_sorted(old(out)@),
    ensures
        languages_sorted(final(out)@),
        final(out)@.to_multiset() == old(out)@.to_multiset().insert(e),
{
    broadcast use vstd::seq_lib::group_to_multiset_ensures;
    broadcast use vstd::multiset::group_multiset_axioms;

    let ghost s0 = out@;
    let mut j: usize = 0;
    loop
        invariant
            j <= out@.len(),
            out@ == s0,
            forall|k: int| 0 <= k < j ==> !lex_leq(e.endonym@, (#[trigger] out@[k]).endonym@),
        ensures
            j <= out@.len(),
            out@ == s0,
            forall|k: int| 0 <= k < j ==> !lex_leq(e.endonym@, (#[trigger] out@[k]).endonym@),
            j < out@.len() ==> lex_leq(e.endonym@, out@[j as int].endonym@),
        decreases out@.len() - j,
    {
        if j == out.len() {
            break;
        }
        if str_leq(e.endonym.as_str(), out[j].endonym.as_str()) {
            break;
        }
        j = j + 1;
    }
    proof {
        assert forall|k: int| 0 <= k < j implies lex_leq(s0[k].endonym@, e.endonym@) by {
            lemma_lex_total(e.endonym@, s0[k].endonym@);
        }
    }
    out.insert(j, e);
    proof {
        let t = out@;
        s0.insert_ensures(j as int, e);
        assert forall|p: int, q: int| 0 <= p < q < t.len() implies lex_leq(
            t[p].endonym@,
            t[q].endonym@,
        ) by {
            if q < j {
                assert(t[p] == s0[p] && t[q] == s0[q]);
            } else if q == j {
                assert(t[q] == e && t[p] == s0[p]);
            } else {
                assert(t[q] == s0[q - 1]);
                if p < j {
                    assert(t[p] == s0[p]);
                    if p < q - 1 {
                        assert(lex_leq(s0[p].endonym@, s0[q - 1].endonym@));
                    }
                } else if p == j {
                    assert(t[p] == e);
                    if j < s0.len() {
                        assert(lex_leq(e.endonym@, s0[j as int].endonym@));
                        if j < q - 1 {
                            assert(lex_leq(s0[j as int].endonym@, s0[q - 1].endonym@));
                            lemma_lex_trans(e.endonym@, s0[j as int].endonym@, s0[q - 1].endonym@);
                        }
                    }
                } else {
                    assert(t[p] == s0[p - 1]);
                    if p - 1 < q - 1 {
                        assert(lex_leq(s0[p - 1].endonym@, s0[q - 1].endonym@));
                    }
                }
            }
        }
        let left = s0.subrange(0, j as int);
        let right = s0.subrange(j as int, s0.len() as int);
        assert(t == left.push(e) + right);
        assert(left + right =~= s0);
        lemma_multiset_commutative(left.push(e), right);
        lemma_multiset_commutative(left, right);
        assert(left.push(e).to_multiset() =~= left.to_multiset().insert(e));
        assert(t.to_multiset() =~= s0.to_multiset().insert(e));
    }
}

/// Every stored language, ordered by `endonym` ascending. The whole table
/// is returned: no pagination, no filtering.
pub fn list(s: &Store) -> (r: Vec<Language>)
    ensures
        r@.to_multiset() == s.languages@.to_multiset(),
        languages_sorted(r@),
{
    broadcast use vstd::seq_lib::group_to_multiset_ensures;

    let mut r: Vec<Language> = Vec::new();
    let n = s.languages.len();
    let mut i: usize = 0;
    proof {
        assert(s.languages@.subrange(0, 0) =~= Seq::<Language>::empty());
    }
    while i < n
        invariant
            i <= n,
            n == s.languages@.len(),
            r@.to_multiset() == s.languages@.subrange(0, i as int).to_multiset(),
            languages_sorted(r@),
        decreases n - i,
    {
        insert_sorted(&mut r, s.languages[i].duplicate());
        proof {
            let pre = s.languages@.subrange(0, i as int);
            let elem = s.languages@[i as int];
            pre.to_multiset_ensures();
            assert(s.languages@.subrange(0, i + 1) =~= pre.push(elem));
            assert(pre.push(elem).to_multiset() =~= pre.to_multiset().insert(elem));
            assert(r@.to_multiset() =~= s.languages@.subrange(0, i + 1).to_multiset());
        }
        i = i + 1;
    }
    proof {
        assert(s.languages@.subrange(0, n as int) =~= s.languages@);
    }
    r
}

/// Stores a new language. The body's required fields must be non-empty,
/// else the request ends in a validation error and the store is untouched.
/// On success the stored record — the body under a freshly assigned,
/// previously unused identifier — is appended to the table and returned.
pub fn create(s: &mut Store, language: Language) -> (r: Result<Language, ApiError>)
    requires
        old(s).wf(),
        old(s).next_language_id < i64::MAX,
    ensures
        final(s).wf(),
        r is Ok <==> language_valid(language),
        match r {
            Ok(stored) => {
                &&& stored == language_with_id(language, old(s).next_language_id)
                &&& !old(s).has_language(old(s).next_language_id)
                &&& final(s).languages@ == old(s).languages@.push(stored)
                &&& final(s).vocabulary@ == old(s).vocabulary@
                &&& final(s).next_language_id == old(s).next_language_id + 1
                &&& final(s).next_word_id == old(s).next_word_id
            },
            Err(e) => {
                &&& e == ApiError::Validation
                &&& *final(s) == *old(s)
            },
        },
{
    if !language.is_valid() {
        return Err(ApiError::Validation);
    }
    let id = s.next_language_id;
    let stored = language.into_with_id(id);
    let response = stored.duplicate();
    s.languages.push(stored);
    s.next_language_id = id + 1;
    proof {
        let pre = old(s).languages@;
        let post = s.languages@;
        assert(post == pre.push(stored));
        assert forall|a: int, b: int| 0 <= a < b < post.len() implies (
        #[trigger] post[a]).language_id != (#[trigger] post[b]).language_id by {
            if b == post.len() - 1 {
                assert(post[a] == pre[a]);
                assert(pre[a].language_id->0 < id);
            } else {
                assert(post[a] == pre[a] && post[b] == pre[b]);
            }
        }
        assert(!old(s).has_language(id)) by {
            if seq_has_language(pre, id) {
                let w = choose|w: int|
                    0 <= w < pre.len() && (#[trigger] pre[w]).language_id == Some(id);
                assert(pre[w].language_id->0 < id);
            }
        }
        assert forall|v: int| 0 <= v < s.vocabulary@.len() implies seq_has_language(
            post,
            (#[trigger] s.vocabulary@[v]).language_id,
        ) by {
            let lid = s.vocabulary@[v].language_id;
            assert(seq_has_language(pre, lid));
            let w = choose|w: int|
                0 <= w < pre.len() && (#[trigger] pre[w]).language_id == Some(lid);
            assert(post[w].language_id == Some(lid));
        }
    }
    Ok(response)
}

/// Replaces every field of the language matching `language_id` with the
/// body, keeping the identifier. A body with an empty required field ends
/// in a validation error; an identifier matching no row ends in not-found.
/// On either error the store is untouched.
pub fn update(s: &mut Store, language_id: i64, language: Language) -> (r: Result<
    Language,
    ApiError,
>)
    requires
        old(s).wf(),
    ensures
        final(s).wf(),
        r is Ok <==> language_valid(language) && old(s).has_language(language_id),
        match r {
            Ok(stored) => {
                &&& stored == language_with_id(language, language_id)
                &&& exists|i: int|
                    {
                        &&& 0 <= i < old(s).languages@.len()
                        &&& old(s).languages@[i].language_id == Some(language_id)
                        &&& final(s).languages@ == old(s).languages@.update(i, stored)
                    }
                &&& final(s).vocabulary@ == old(s).vocabulary@
                &&& final(s).next_language_id == old(s).next_language_id
                &&& final(s).next_word_id == old(s).next_word_id
            },
            Err(e) => {
                &&& *final(s) == *old(s)
                &&& (e == ApiError::Validation <==> !language_valid(language))
                &&& (e == ApiError::NotFound <==> language_valid(language) && !old(s).has_language(
                    language_id,
                ))
            },
        },
{
    if !language.is_valid() {
        return Err(ApiError::Validation);
    }
    match s.find_language(language_id) {
        None => Err(ApiError::NotFound),
        Some(i) => {
            let stored = language.into_with_id(language_id);
            let response = stored.duplicate();
            s.languages.remove(i);
            s.languages.insert(i, stored);
            proof {
                let pre = old(s).languages@;
                let post = s.languages@;
                assert(post =~= pre.update(i as int, stored));
                assert(forall|k: int|
                    0 <= k < post.len() ==> (#[trigger] post[k]).language_id
                        == pre[k].language_id);
                assert forall|a: int, b: int| 0 <= a < b < post.len() implies (
                #[trigger] post[a]).language_id != (#[trigger] post[b]).language_id by {
                    assert(pre[a].language_id != pre[b].language_id);
                }
                assert forall|v: int| 0 <= v < s.vocabulary@.len() implies seq_has_language(
                    post,
                    (#[trigger] s.vocabulary@[v]).language_id,
                ) by {
                    let lid = s.vocabulary@[v].language_id;
                    assert(seq_has_language(pre, lid));
                    let w = choose|w: int|
                        0 <= w < pre.len() && (#[trigger] pre[w]).language_id == Some(lid);
                    assert(post[w].language_id == Some(lid));
                }
            }
            Ok(response)
        },
    }
}

/// Removes the language matching `language_id`, and with it every
/// vocabulary entry it owned, so no entry is left pointing at a missing
/// language. Deletion is idempotent: an identifier matching no row leaves
/// the store as it is, and the request still succeeds — this function
/// never fails.
pub fn delete(s: &mut Store, language_id: i64)
    requires
        old(s).wf(),
    ensures
        final(s).wf(),
        final(s).languages@ == langs_without(old(s).languages@, language_id),
        final(s).vocabulary@ == vocab_without_language(old(s).vocabulary@, language_id),
        final(s).next_language_id == old(s).next_language_id,
        final(s).next_word_id == old(s).next_word_id,
        !final(s).has_language(language_id),
{
    let mut kept: Vec<Language> = Vec::new();
    let n = s.languages.len();
    let mut i: usize = 0;
    proof {
        assert(s.languages@.subrange(0, 0) =~= Seq::<Language>::empty());
    }
    while i < n
        invariant
            i <= n,
            n == s.languages@.len(),
            kept@ == langs_without(s.languages@.subrange(0, i as int), language_id),
        decreases n - i,
    {
        let keep = match s.languages[i].language_id {
            Some(stored) => stored != language_id,
            None => true,
        };
        if keep {
            kept.push(s.languages[i].duplicate());
        }
        proof {
            let prefix = s.languages@.subrange(0, i + 1);
            assert(prefix.drop_last() =~= s.languages@.subrange(0, i as int));
            assert(prefix.last() == s.languages@[i as int]);
            assert(kept@ == langs_without(prefix, language_id));
        }
        i = i + 1;
    }
    let mut voc_kept: Vec<VocabularyEntry> = Vec::new();
    let m = s.vocabulary.len();
    let mut k: usize = 0;
    proof {
        assert(s.languages@.subrange(0, n as int) =~= s.languages@);
        assert(s.vocabulary@.subrange(0, 0) =~= Seq::<VocabularyEntry>::empty());
    }
    while k < m
        invariant
            k <= m,
            m == s.vocabulary@.len(),
            voc_kept@ == vocab_without_language(s.vocabulary@.subrange(0, k as int), language_id),
        decreases m - k,
    {
        if s.vocabulary[k].language_id != language_id {
            voc_kept.push(s.vocabulary[k].duplicate());
        }
        proof {
            let prefix = s.vocabulary@.subrange(0, k + 1);
            assert(prefix.drop_last() =~= s.vocabulary@.subrange(0, k as int));
            assert(prefix.last() == s.vocabulary@[k as int]);
            assert(voc_kept@ == vocab_without_language(prefix, language_id));
        }
        k = k + 1;
    }
    proof {
        assert(s.vocabulary@.subrange(0, m as int) =~= s.vocabulary@);
    }
    s.languages = kept;
    s.vocabulary = voc_kept;
    proof {
        lemma_langs_without_wf(old(s).languages@, language_id, old(s).next_language_id);
        lemma_vocab_without_language_wf(old(s).vocabulary@, language_id, old(s).next_word_id);
        let langs = s.languages@;
        let vocs = s.vocabulary@;
        assert forall|v: int| 0 <= v < vocs.len() implies seq_has_language(
            langs,
            (#[trigger] vocs[v]).language_id,
        ) by {
            let j = lemma_vocab_without_language_member(
                old(s).vocabulary@,
                language_id,
                v,
            );
            let lid = vocs[v].language_id;
            assert(seq_has_language(old(s).languages@, lid));
            let w = choose|w: int|
                0 <= w < old(s).languages@.len() && (#[trigger] old(s).languages@[w]).language_id
                    == Some(lid);
            lemma_langs_without_keeps(old(s).languages@, language_id, w);
            let x = old(s).languages@[w];
            let u = langs.lemma_contains_to_index(x);
            assert(langs[u].language_id == Some(lid));
        }
    }
}

/// Law: after creating a language on a sound table, the listing holds
/// exactly one record carrying the newly assigned identifier — the stored
/// record itself, field for field — and that identifier was carried by no
/// record before the create.
///
/// `pre` is the table before the create, `stored` the record the create
/// appended (as `create`'s contract states it), and `listed` any listing
/// of the table afterwards (as `list`'s contract states it).
pub proof fn lemma_create_then_list(
    pre: Seq<Language>,
    next_id: i64,
    stored: Language,
    listed: Seq<Language>,
)
    requires
        languages_wf(pre, next_id),
        stored.language_id == Some(next_id),
        listed.to_multiset() == pre.push(stored).to_multiset(),
    ensures
        !seq_has_language(pre, next_id),
        listed.to_multiset().count(stored) == 1,
        forall|x: Language|
            #[trigger] listed.contains(x) && x.language_id == Some(next_id) ==> x == stored,
{
    broadcast use vstd::seq_lib::group_to_multiset_ensures;
    broadcast use vstd::multiset::group_multiset_axioms;

    assert(!seq_has_language(pre, next_id)) by {
        if seq_has_language(pre, next_id) {
            let w = choose|w: int|
                0 <= w < pre.len() && (#[trigger] pre[w]).language_id == Some(next_id);
            assert(pre[w].language_id->0 < next_id);
        }
    }
    assert(pre.to_multiset().count(stored) == 0) by {
        if pre.to_multiset().count(stored) > 0 {
            assert(pre.contains(stored));
            let w = choose|w: int| 0 <= w < pre.len() && pre[w] == stored;
            assert(pre[w].language_id->0 < next_id);
        }
    }
    assert(pre.push(stored).to_multiset() =~= pre.to_multiset().insert(stored));
    assert forall|x: Language|
        #[trigger] listed.contains(x) && x.language_id == Some(next_id) implies x == stored by {
        assert(listed.to_multiset().count(x) > 0);
        if x != stored {
            assert(pre.to_multiset().count(x) > 0);
            assert(pre.contains(x));
            let w = choose|w: int| 0 <= w < pre.len() && pre[w] == x;
            assert(pre[w].language_id->0 < next_id);
        }
    }
}

/// Law: after updating a language on a sound table, the listing is the
/// old table with the updated record standing in for the old record under
/// the same identifier: the updated record appears exactly once, with
/// every field taken from the update body, and every record under another
/// identifier is untouched.
///
/// `pre` is the table before the update, `i` the position of the updated
/// row, `stored` the record the update wrote (as `update`'s contract
/// states it), and `listed` any listing of the table afterwards.
pub proof fn lemma_update_then_list(
    pre: Seq<Language>,
    next_id: i64,
    i: int,
    stored: Language,
    listed: Seq<Language>,
)
    requires
        languages_wf(pre, next_id),
        0 <= i < pre.len(),
        stored.language_id == pre[i].language_id,
        listed.to_multiset() == pre.update(i, stored).to_multiset(),
    ensures
        listed.to_multiset() == pre.to_multiset().remove(pre[i]).insert(stored),
        listed.to_multiset().count(stored) == 1,
        forall|x: Language|
            x.language_id != pre[i].language_id ==> #[trigger] listed.to_multiset().count(x)
                == pre.to_multiset().count(x),
{
    broadcast use vstd::seq_lib::group_to_multiset_ensures;
    broadcast use vstd::multiset::group_multiset_axioms;

    let s1 = pre.subrange(0, i);
    let s2 = pre.subrange(i + 1, pre.len() as int);
    assert(pre =~= s1.push(pre[i]) + s2);
    assert(pre.update(i, stored) =~= s1.push(stored) + s2);
    lemma_multiset_commutative(s1.push(pre[i]), s2);
    lemma_multiset_commutative(s1.push(stored), s2);
    assert(s1.push(pre[i]).to_multiset() =~= s1.to_multiset().insert(pre[i]));
    assert(s1.push(stored).to_multiset() =~= s1.to_multiset().insert(stored));
    assert(s1.to_multiset().count(stored) == 0) by {
        if s1.to_multiset().count(stored) > 0 {
            assert(s1.contains(stored));
            let w = choose|w: int| 0 <= w < s1.len() && s1[w] == stored;
            assert(pre[w] == stored);
            assert(pre[w].language_id != pre[i].language_id);
        }
    }
    assert(s2.to_multiset().count(stored) == 0) by {
        if s2.to_multiset().count(stored) > 0 {
            assert(s2.contains(stored));
            let w = choose|w: int| 0 <= w < s2.len() && s2[w] == stored;
            assert(pre[w + i + 1] == stored);
            assert(pre[w + i + 1].language_id != pre[i].language_id);
        }
    }
    assert(listed.to_multiset() =~= pre.to_multiset().remove(pre[i]).insert(stored));
    assert(listed.to_multiset().count(stored) == 1);
    assert forall|x: Language| x.language_id != pre[i].language_id implies (
    #[trigger] listed.to_multiset().count(x)) == pre.to_multiset().count(x) by {
        assert(x != stored && x != pre[i]);
    }
}

/// Law: deleting the same language identifier twice in succession leaves
/// exactly the state the first delete left, in both tables — and a delete
/// never fails, so the second request reports success like the first.
pub proof fn lemma_delete_idempotent(langs: Seq<Language>, vocab: Seq<VocabularyEntry>, id: i64)
    ensures
        langs_without(langs_without(langs, id), id) == langs_without(langs, id),
        vocab_without_language(vocab_without_language(vocab, id), id) == vocab_without_language(
            vocab,
            id,
        ),
{
    let f = langs_without(langs, id);
    assert forall|i: int| 0 <= i < f.len() implies (#[trigger] f[i]).language_id != Some(id) by {
        let j = lemma_langs_without_member(langs, id, i);
    }
    lemma_langs_without_identity(f, id);
    let g = vocab_without_language(vocab, id);
    assert forall|i: int| 0 <= i < g.len() implies (#[trigger] g[i]).language_id != id by {
        let j = lemma_vocab_without_language_member(vocab, id, i);
    }
    lemma_vocab_without_language_identity(g, id);
}

} // verus!
