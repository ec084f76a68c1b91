//! Where the terms of a document stand.
//!
//! The index keeps a number for each occurrence of a term. The laws here say that
//! these numbers are the places of the term in the fields of the document, no more
//! and no fewer, and that a document is as long as its fields have terms together.
use crate::tokenizer;
use crate::tokenizer::{document_len, document_tokens, field_terms, term_occurrences};
use vstd::prelude::*;

verus! {

/// The terms of each field.
pub open spec fn page(fields: Seq<Seq<char>>) -> Seq<Seq<Seq<char>>> {
    fields.map_values(|field: Seq<char>| field_terms(field))
}

/// The terms of all fields, one field after the other.
pub open spec fn all_terms(fields: Seq<Seq<char>>) -> Seq<Seq<char>> {
    page(fields).flatten()
}

/// Every occurrence of a term has a number of its own: at most 64 fields, of at most
/// 2 to the 26th terms each.
pub open spec fn numbered(fields: Seq<Seq<char>>) -> bool {
    &&& fields.len() <= 64
    &&& forall|f: int|
        0 <= f < fields.len() ==> field_terms(#[trigger] fields[f]).len() <= 0x400_0000
}

/// `term` is the term with this offset in this field.
pub open spec fn stands_at(
    fields: Seq<Seq<char>>,
    term: Seq<char>,
    field: int,
    offset: int,
) -> bool {
    &&& 0 <= field < fields.len()
    &&& 0 <= offset < page(fields)[field].len()
    &&& page(fields)[field][offset] == term
}

/// The terms of a document with one field more.
pub(crate) proof fn lemma_one_field_more(fields: Seq<Seq<char>>)
    requires
        fields.len() > 0,
    ensures
        all_terms(fields) == all_terms(fields.drop_last()) + field_terms(fields.last()),
{
    let (whole, front) = (page(fields), page(fields.drop_last()));
    assert(whole.drop_last() =~= front);
    assert(whole.last() == field_terms(fields.last()));
    whole.lemma_flatten_and_flatten_alt_are_equivalent();
    front.lemma_flatten_and_flatten_alt_are_equivalent();
}

/// The tokens of a document are its terms in their order.
pub proof fn tokens_are_the_terms(fields: Seq<Seq<char>>)
    ensures
        document_tokens(fields).map_values(|token: (Seq<char>, u32)| token.0) == all_terms(fields),
        document_tokens(fields).len() == all_terms(fields).len(),
    decreases fields.len(),
{
    let name = |token: (Seq<char>, u32)| token.0;
    if fields.len() == 0 {
        assert(page(fields) =~= Seq::empty());
        assert(document_tokens(fields).map_values(name) =~= all_terms(fields));
    } else {
        lemma_one_field_more(fields);
        tokens_are_the_terms(fields.drop_last());
        assert(document_tokens(fields).map_values(name) =~= document_tokens(
            fields.drop_last(),
        ).map_values(name) + field_terms(fields.last()));
    }
}

/// The terms of a document stand field by field. The number of each tells its field and
/// its offset there, as far as numbers reach: 64 columns of 2^26 places.
pub proof fn terms_stand_in_order(fields: Seq<Seq<char>>, field: int, offset: int)
    requires
        0 <= field < fields.len(),
        0 <= offset < page(fields)[field].len(),
    ensures
        ({
            let index = all_terms(fields.take(field)).len() + offset;
            &&& 0 <= index < document_tokens(fields).len()
            &&& document_tokens(fields)[index].0 == page(fields)[field][offset]
            &&& document_tokens(fields)[index].1 as int / 0x400_0000 == if field < 64 {
                field
            } else {
                63
            }
            &&& document_tokens(fields)[index].1 as int % 0x400_0000 == if offset < 0x400_0000 {
                offset
            } else {
                0x3ff_ffff
            }
        }),
    decreases fields.len(),
{
    let front = fields.drop_last();
    let before = document_tokens(front);
    let own = tokenizer::field_tokens(
        tokenizer::column_of(fields.len() - 1),
        field_terms(fields.last()),
    );
    assert(document_tokens(fields) == before + own);
    tokens_are_the_terms(front);
    if field == fields.len() - 1 {
        assert(fields.take(field) =~= front);
        assert(page(fields)[field] == field_terms(fields.last()));
        assert((before + own)[before.len() + offset] == own[offset]);
    } else {
        assert(front.take(field) =~= fields.take(field));
        assert(page(front)[field] == page(fields)[field]);
        terms_stand_in_order(front, field, offset);
    }
}

/// The length of a document is the number of its terms, as long as 32 bits can hold
/// it; longer documents all have the largest length.
pub proof fn length_is_the_number_of_terms(fields: Seq<Seq<char>>)
    ensures
        all_terms(fields).len() <= u32::MAX ==> document_len(fields) == all_terms(fields).len(),
        all_terms(fields).len() > u32::MAX ==> document_len(fields) == u32::MAX,
{
    tokens_are_the_terms(fields);
}

/// What is counted of a document is what stands in it: a term occurs as often as it is
/// among the terms of the fields.
pub proof fn occurrences_count_the_term(fields: Seq<Seq<char>>, term: Seq<char>)
    ensures
        term_occurrences(fields, term).len() == all_terms(fields).to_multiset().count(term),
{
    tokens_are_the_terms(fields);
    lemma_count(document_tokens(fields), term);
}

proof fn lemma_count(tokens: Seq<(Seq<char>, u32)>, term: Seq<char>)
    ensures
        tokenizer::occurrences(tokens, term).len() == tokens.map_values(
            |token: (Seq<char>, u32)| token.0,
        ).to_multiset().count(term),
    decreases tokens.len(),
{
    broadcast use vstd::seq_lib::group_to_multiset_ensures;

    let name = |token: (Seq<char>, u32)| token.0;
    if tokens.len() > 0 {
        let front = tokens.drop_last();
        lemma_count(front, term);
        assert(tokens.map_values(name) =~= front.map_values(name).push(tokens.last().0));
    } else {
        assert(tokens.map_values(name) =~= Seq::empty());
    }
}

/// The numbers of a term among tokens are those of the tokens of the term.
proof fn lemma_occurs(tokens: Seq<(Seq<char>, u32)>, term: Seq<char>, position: u32)
    ensures
        tokenizer::occurrences(tokens, term).contains(position) == tokens.contains(
            (term, position),
        ),
    decreases tokens.len(),
{
    let found = tokenizer::occurrences(tokens, term);
    if tokens.len() > 0 {
        let front = tokens.drop_last();
        let before = tokenizer::occurrences(front, term);
        lemma_occurs(front, term, position);
        assert(tokens =~= front.push(tokens.last()));
        if tokens.last() == (term, position) {
            assert(found[found.len() - 1] == position);
            assert(tokens[tokens.len() - 1] == (term, position));
        }
        if before.contains(position) {
            let i = choose|i: int| 0 <= i < before.len() && before[i] == position;
            assert(found[i] == position);
            let j = choose|j: int| 0 <= j < front.len() && front[j] == (term, position);
            assert(tokens[j] == (term, position));
        }
        if found.contains(position) && !before.contains(position) {
            let i = choose|i: int| 0 <= i < found.len() && found[i] == position;
            if i < before.len() {
                assert(before[i] == position);
            }
        }
        if tokens.contains((term, position)) && !front.contains((term, position)) {
            let j = choose|j: int| 0 <= j < tokens.len() && tokens[j] == (term, position);
            if j < front.len() {
                assert(front[j] == (term, position));
            }
        }
    }
}

/// The tokens of a document and the places in its fields.
pub(crate) proof fn lemma_token_places(fields: Seq<Seq<char>>, term: Seq<char>, position: u32)
    requires
        numbered(fields),
    ensures
        document_tokens(fields).contains((term, position)) == stands_at(
            fields,
            term,
            position as int / 0x400_0000,
            position as int % 0x400_0000,
        ),
    decreases fields.len(),
{
    let (f, p) = (position as int / 0x400_0000, position as int % 0x400_0000);
    let tokens = document_tokens(fields);
    if fields.len() > 0 {
        let front = fields.drop_last();
        let last = fields.len() - 1;
        let terms = field_terms(fields.last());
        let before = document_tokens(front);
        let own = tokenizer::field_tokens(last, terms);
        assert(numbered(front)) by {
            assert forall|g: int| 0 <= g < front.len() implies field_terms(
                #[trigger] front[g],
            ).len() <= 0x400_0000 by {
                assert(front[g] == fields[g]);
            }
        }
        lemma_token_places(front, term, position);
        assert(tokens == before + own);
        assert(field_terms(fields[last]).len() <= 0x400_0000);
        assert forall|i: int| 0 <= i < own.len() implies (#[trigger] own[i]) == (
            terms[i],
            (last * 0x400_0000 + i) as u32,
        ) by {}
        if tokens.contains((term, position)) {
            let j = choose|j: int| 0 <= j < tokens.len() && tokens[j] == (term, position);
            if j < before.len() {
                assert(before[j] == (term, position));
                assert(front[f] == fields[f]);
                assert(page(front)[f] == page(fields)[f]);
            } else {
                let i = j - before.len();
                assert(own[i] == tokens[j]);
                assert(position == last * 0x400_0000 + i);
                assert(f == last && p == i);
                assert(page(fields)[f] == terms);
            }
        }
        if stands_at(fields, term, f, p) {
            if f < last {
                assert(front[f] == fields[f]);
                assert(page(front)[f] == page(fields)[f]);
                assert(before.contains((term, position)));
                let j = choose|j: int| 0 <= j < before.len() && before[j] == (term, position);
                assert(tokens[j] == (term, position));
            } else {
                assert(page(fields)[f] == terms);
                assert(own[p] == (term, position));
                assert(tokens[before.len() + p] == (term, position));
            }
        }
    }
}

/// The numbers kept of a term tell where it stands: number `f * 2^26 + p` is kept if
/// and only if the term with offset `p` in field `f` is that term.
pub proof fn numbers_are_places(fields: Seq<Seq<char>>, term: Seq<char>, position: u32)
    requires
        numbered(fields),
    ensures
        term_occurrences(fields, term).contains(position) == stands_at(
            fields,
            term,
            position as int / 0x400_0000,
            position as int % 0x400_0000,
        ),
{
    lemma_occurs(document_tokens(fields), term, position);
    lemma_token_places(fields, term, position);
}

/// And each place has its number.
pub proof fn places_have_numbers(
    fields: Seq<Seq<char>>,
    term: Seq<char>,
    field: int,
    offset: int,
)
    requires
        numbered(fields),
        stands_at(fields, term, field, offset),
    ensures
        0 <= field * 0x400_0000 + offset <= u32::MAX,
        term_occurrences(fields, term).contains((field * 0x400_0000 + offset) as u32),
{
    assert(page(fields)[field] == field_terms(fields[field]));
    let position = (field * 0x400_0000 + offset) as u32;
    assert(position as int / 0x400_0000 == field && position as int % 0x400_0000 == offset);
    numbers_are_places(fields, term, position);
}

} // verus!
