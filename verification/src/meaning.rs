//! What a query asks of a document, told by the terms of its fields.
use crate::matching;
use crate::matching::{in_column, matches_in_column, position_column};
use crate::places;
use crate::places::{numbered, page, stands_at};
use crate::query::{lemma_child_decreases, Query};
use crate::text;
use crate::tokenizer;
use crate::tokenizer::{field_terms, term_occurrences};
use vstd::prelude::*;

verus! {

/// A document with these fields, as the index sees it.
pub open spec fn reading(fields: Seq<Seq<char>>) -> spec_fn(Seq<char>) -> Seq<u32> {
    |term: Seq<char>| term_occurrences(fields, term)
}

/// A field that counts where a column may be required.
pub open spec fn counts(field: int, column: Option<u8>) -> bool {
    column matches Some(required) ==> field == required
}

/// The document with the fields outside of one column emptied.
pub open spec fn only(fields: Seq<Seq<char>>, column: u8) -> Seq<Seq<char>> {
    Seq::new(
        fields.len(),
        |f: int|
            if f == column {
                fields[f]
            } else {
                Seq::empty()
            },
    )
}

/// The terms stand in one field that counts, from this offset on, one right after
/// the other.
pub open spec fn runs_at(
    fields: Seq<Seq<char>>,
    terms: Seq<Seq<char>>,
    column: Option<u8>,
    field: int,
    offset: int,
) -> bool {
    &&& 0 <= field < fields.len()
    &&& counts(field, column)
    &&& 0 <= offset
    &&& offset + terms.len() <= page(fields)[field].len()
    &&& page(fields)[field].subrange(offset, offset + terms.len()) == terms
}

/// The terms stand in one field that counts at these offsets, each at one of its own,
/// and no two of the offsets are further apart than `distance`.
pub open spec fn gathers_at(
    fields: Seq<Seq<char>>,
    terms: Seq<Seq<char>>,
    distance: u32,
    column: Option<u8>,
    field: int,
    offsets: Seq<int>,
) -> bool {
    &&& counts(field, column)
    &&& offsets.len() == terms.len()
    &&& forall|k: int|
        0 <= k < terms.len() ==> stands_at(fields, terms[k], field, #[trigger] offsets[k])
    &&& forall|j: int, k: int|
        0 <= j < k < terms.len() ==> #[trigger] offsets[j] != #[trigger] offsets[k]
    &&& forall|j: int, k: int|
        0 <= j < terms.len() && 0 <= k < terms.len() ==> #[trigger] offsets[j]
            - #[trigger] offsets[k] <= distance
}

/// No number is shared by two occurrences, and none lies behind the last.
pub open spec fn spaced(fields: Seq<Seq<char>>) -> bool {
    numbered(fields) && (fields.len() == 64 ==> field_terms(fields[63]).len() < 0x400_0000)
}

/// A number kept of a term is one of its places.
proof fn lemma_at(fields: Seq<Seq<char>>, term: Seq<char>, i: int)
    requires
        numbered(fields),
        0 <= i < term_occurrences(fields, term).len(),
    ensures
        ({
            let position = term_occurrences(fields, term)[i] as int;
            stands_at(fields, term, position / 0x400_0000, position % 0x400_0000)
        }),
{
    let position = term_occurrences(fields, term)[i];
    assert(term_occurrences(fields, term).contains(position));
    places::numbers_are_places(fields, term, position);
}

/// A place of a term has an index among the numbers kept of it.
proof fn lemma_index(fields: Seq<Seq<char>>, term: Seq<char>, field: int, offset: int) -> (index:
    int)
    requires
        numbered(fields),
        stands_at(fields, term, field, offset),
    ensures
        0 <= index < term_occurrences(fields, term).len(),
        term_occurrences(fields, term)[index] == field * 0x400_0000 + offset,
        offset < 0x400_0000,
        field < 64,
        (field * 0x400_0000 + offset) / 0x400_0000 == field,
        (field * 0x400_0000 + offset) % 0x400_0000 == offset,
{
    places::places_have_numbers(fields, term, field, offset);
    assert(page(fields)[field] == field_terms(fields[field]));
    let found = term_occurrences(fields, term);
    let position = (field * 0x400_0000 + offset) as u32;
    choose|i: int| 0 <= i < found.len() && found[i] == position
}

proof fn lemma_any(fields: Seq<Seq<char>>, term: Seq<char>, column: Option<u8>)
    requires
        numbered(fields),
    ensures
        matching::any_in_column(term_occurrences(fields, term), column) == exists|
            f: int,
            p: int,
        | #[trigger]
            stands_at(fields, term, f, p) && counts(f, column),
{
    let found = term_occurrences(fields, term);
    if matching::any_in_column(found, column) {
        let i = choose|i: int|
            0 <= i < found.len() && in_column(#[trigger] found[i] as int, column);
        lemma_at(fields, term, i);
        let position = found[i] as int;
        assert(stands_at(fields, term, position / 0x400_0000, position % 0x400_0000));
    }
    if exists|f: int, p: int| #[trigger] stands_at(fields, term, f, p) && counts(f, column) {
        let (f, p) = choose|f: int, p: int| #[trigger]
            stands_at(fields, term, f, p) && counts(f, column);
        let i = lemma_index(fields, term, f, p);
        assert(in_column(found[i] as int, column));
    }
}

proof fn lemma_phrase(fields: Seq<Seq<char>>, terms: Seq<Seq<char>>, column: Option<u8>)
    requires
        spaced(fields),
    ensures
        matching::phrase_matches(reading(fields), terms, column) == (terms.len() > 0 && exists|
            f: int,
            p: int,
        |
            runs_at(fields, terms, column, f, p)),
{
    let at = reading(fields);
    if matching::phrase_matches(at, terms, column) {
        let first = at(terms[0]);
        let i = choose|i: int|
            0 <= i < first.len() && in_column((#[trigger] first[i]) as int, column)
                && matching::phrase_follows(at, terms, first[i]);
        let start = first[i];
        let (f, p) = (start as int / 0x400_0000, start as int % 0x400_0000);
        lemma_at(fields, terms[0], i);
        assert forall|k: int| 0 <= k < terms.len() implies stands_at(
            fields,
            #[trigger] terms[k],
            f,
            p + k,
        ) by {
            if k > 0 {
                let next = matching::position_after(start, k);
                assert(matching::step_holds(at(terms[k]), start, k));
                places::numbers_are_places(fields, terms[k], next);
                assert(next as int / 0x400_0000 == f);
                assert(page(fields)[f] == field_terms(fields[f]));
                assert(next as int == start + k);
            }
        }
        let run = page(fields)[f].subrange(p, p + terms.len());
        assert(stands_at(fields, terms[terms.len() - 1], f, p + (terms.len() - 1)));
        assert(run =~= terms) by {
            assert forall|k: int| 0 <= k < terms.len() implies run[k] == #[trigger] terms[k] by {
                assert(stands_at(fields, terms[k], f, p + k));
            }
        }
        assert(runs_at(fields, terms, column, f, p));
    }
    if terms.len() > 0 && exists|f: int, p: int| runs_at(fields, terms, column, f, p) {
        let (f, p) = choose|f: int, p: int| runs_at(fields, terms, column, f, p);
        let run = page(fields)[f].subrange(p, p + terms.len());
        assert forall|k: int| 0 <= k < terms.len() implies stands_at(
            fields,
            #[trigger] terms[k],
            f,
            p + k,
        ) by {
            assert(run[k] == page(fields)[f][p + k]);
        }
        assert(stands_at(fields, terms[0], f, p + 0));
        let i = lemma_index(fields, terms[0], f, p);
        let first = at(terms[0]);
        let start = first[i];
        assert(matching::phrase_follows(at, terms, start)) by {
            assert forall|k: int| 1 <= k < terms.len() implies matching::step_holds(
                at(#[trigger] terms[k]),
                start,
                k,
            ) by {
                assert(stands_at(fields, terms[k], f, p + k));
                let j = lemma_index(fields, terms[k], f, p + k);
                assert(page(fields)[f] == field_terms(fields[f]));
                assert(matching::position_after(start, k) == start + k);
                assert(at(terms[k])[j] == matching::position_after(start, k));
            }
        }
        assert(in_column(first[i] as int, column));
    }
}

/// Of positions in a stretch, each has a rank.
proof fn lemma_rank(positions: Seq<u32>, low: int, high: int, rank: nat) -> (index: int)
    requires
        rank < matching::count_between(positions, low, high),
    ensures
        0 <= index < positions.len(),
        low <= positions[index] <= high,
        matching::count_between(positions.take(index), low, high) == rank,
    decreases positions.len(),
{
    let front = positions.drop_last();
    if rank < matching::count_between(front, low, high) {
        let index = lemma_rank(front, low, high, rank);
        assert(positions.take(index) =~= front.take(index));
        index
    } else {
        assert(positions.take(positions.len() - 1) =~= front);
        positions.len() - 1
    }
}

/// The indices of the positions in a stretch.
spec fn within(positions: Seq<u32>, low: int, high: int) -> Set<int> {
    Set::new(|i: int| 0 <= i < positions.len() && low <= positions[i] <= high)
}

proof fn lemma_within(positions: Seq<u32>, low: int, high: int)
    ensures
        within(positions, low, high).finite(),
        within(positions, low, high).len() == matching::count_between(positions, low, high),
    decreases positions.len(),
{
    if positions.len() == 0 {
        assert(within(positions, low, high) =~= Set::empty());
    } else {
        let front = positions.drop_last();
        let last = positions.len() - 1;
        lemma_within(front, low, high);
        if low <= positions[last] <= high {
            assert(within(positions, low, high) =~= within(front, low, high).insert(last));
        } else {
            assert(within(positions, low, high) =~= within(front, low, high));
        }
    }
}

/// The places of a term among terms.
spec fn naming(terms: Seq<Seq<char>>, term: Seq<char>) -> Set<int> {
    Set::new(|k: int| 0 <= k < terms.len() && terms[k] == term)
}

proof fn lemma_naming(terms: Seq<Seq<char>>, term: Seq<char>)
    ensures
        naming(terms, term).finite(),
        naming(terms, term).len() == matching::multiplicity(terms, term),
    decreases terms.len(),
{
    if terms.len() == 0 {
        assert(naming(terms, term) =~= Set::empty());
    } else {
        let front = terms.drop_last();
        let last = terms.len() - 1;
        lemma_naming(front, term);
        if terms[last] == term {
            assert(naming(terms, term) =~= naming(front, term).insert(last));
        } else {
            assert(naming(terms, term) =~= naming(front, term));
        }
    }
}

/// Earlier mentions of a term are fewer.
proof fn lemma_mentions(terms: Seq<Seq<char>>, j: int, k: int)
    requires
        0 <= j <= k < terms.len(),
    ensures
        matching::multiplicity(terms.take(j), terms[k]) <= matching::multiplicity(
            terms.take(k),
            terms[k],
        ),
        j < k && terms[j] == terms[k] ==> matching::multiplicity(terms.take(j), terms[k])
            < matching::multiplicity(terms.take(k), terms[k]),
        matching::multiplicity(terms.take(k), terms[k]) < matching::multiplicity(terms, terms[k]),
{
    let term = terms[k];
    lemma_naming(terms.take(j), term);
    lemma_naming(terms.take(k), term);
    lemma_naming(terms, term);
    let (few, some, all) = (
        naming(terms.take(j), term),
        naming(terms.take(k), term),
        naming(terms, term),
    );
    assert(few.subset_of(some)) by {
        assert forall|i: int| few.contains(i) implies some.contains(i) by {
            assert(terms.take(j)[i] == terms.take(k)[i]);
        }
    }
    vstd::set_lib::lemma_len_subset(few, some);
    assert(some.insert(k).subset_of(all)) by {
        assert forall|i: int| some.insert(k).contains(i) implies all.contains(i) by {
            if i != k {
                assert(terms.take(k)[i] == terms[i]);
            }
        }
    }
    vstd::set_lib::lemma_len_subset(some.insert(k), all);
    if j < k && terms[j] == term {
        assert(few.insert(j).subset_of(some)) by {
            assert forall|i: int| few.insert(j).contains(i) implies some.contains(i) by {
                if i != j {
                    assert(terms.take(j)[i] == terms.take(k)[i]);
                } else {
                    assert(terms.take(k)[j] == terms[j]);
                }
            }
        }
        vstd::set_lib::lemma_len_subset(few.insert(j), some);
    }
}

/// Among the positions of a term in a stretch, the index has as many before it as the
/// term has mentions before mention `k`.
spec fn takes(
    at: spec_fn(Seq<char>) -> Seq<u32>,
    terms: Seq<Seq<char>>,
    low: int,
    high: int,
    k: int,
    index: int,
) -> bool {
    &&& 0 <= index < at(terms[k]).len()
    &&& low <= at(terms[k])[index] <= high
    &&& matching::count_between(at(terms[k]).take(index), low, high) == matching::multiplicity(
        terms.take(k),
        terms[k],
    )
}

/// A stretch that holds the terms has room for each at an offset of its own.
proof fn lemma_gathered(
    fields: Seq<Seq<char>>,
    terms: Seq<Seq<char>>,
    distance: u32,
    column: Option<u8>,
    low: int,
    high: int,
) -> (offsets: Seq<int>)
    requires
        numbered(fields),
        terms.len() > 0,
        matching::near_window(reading(fields), terms, distance, column, low, high),
    ensures
        gathers_at(fields, terms, distance, column, low / 0x400_0000, offsets),
{
    let at = reading(fields);
    let field = low / 0x400_0000;
    let indices = Seq::new(
        terms.len(),
        |k: int| choose|index: int| takes(at, terms, low, high, k, index),
    );
    assert forall|k: int| 0 <= k < terms.len() implies takes(
        at,
        terms,
        low,
        high,
        k,
        #[trigger] indices[k],
    ) by {
        lemma_mentions(terms, k, k);
        assert(matching::count_between(at(terms[k]), low, high) >= matching::multiplicity(
            terms,
            terms[k],
        ));
        let index = lemma_rank(
            at(terms[k]),
            low,
            high,
            matching::multiplicity(terms.take(k), terms[k]),
        );
        assert(takes(at, terms, low, high, k, index));
    }
    let offsets = Seq::new(
        terms.len(),
        |k: int| at(terms[k])[indices[k]] as int - field * 0x400_0000,
    );
    assert forall|k: int| 0 <= k < terms.len() implies stands_at(
        fields,
        terms[k],
        field,
        #[trigger] offsets[k],
    ) by {
        assert(takes(at, terms, low, high, k, indices[k]));
        lemma_at(fields, terms[k], indices[k]);
        let position = at(terms[k])[indices[k]] as int;
        assert(position_column(low) == position_column(high));
        assert(position / 0x400_0000 == field);
        assert(position % 0x400_0000 == offsets[k]);
    }
    assert forall|j: int, k: int| 0 <= j < k < terms.len() implies #[trigger] offsets[j]
        != #[trigger] offsets[k] by {
        assert(stands_at(fields, terms[j], field, offsets[j]));
        assert(stands_at(fields, terms[k], field, offsets[k]));
        assert(takes(at, terms, low, high, j, indices[j]));
        assert(takes(at, terms, low, high, k, indices[k]));
        if offsets[j] == offsets[k] {
            assert(terms[j] == terms[k]);
            lemma_mentions(terms, j, k);
            tokenizer::term_occurrences_sorted(fields, terms[k]);
            let found = at(terms[k]);
            let (a, b) = (indices[j], indices[k]);
            assert(found == term_occurrences(fields, terms[k]));
            assert(a != b);
            if a < b {
                assert(found[a] < found[b]);
            } else {
                assert(found[b] < found[a]);
            }
        }
    }
    assert forall|j: int, k: int|
        0 <= j < terms.len() && 0 <= k < terms.len() implies #[trigger] offsets[j]
        - #[trigger] offsets[k] <= distance by {
        assert(takes(at, terms, low, high, j, indices[j]));
        assert(takes(at, terms, low, high, k, indices[k]));
    }
    offsets
}

/// The lowest and the highest of some offsets.
proof fn lemma_ends(offsets: Seq<int>) -> (ends: (int, int))
    requires
        offsets.len() > 0,
    ensures
        0 <= ends.0 < offsets.len(),
        0 <= ends.1 < offsets.len(),
        forall|k: int|
            0 <= k < offsets.len() ==> offsets[ends.0] <= #[trigger] offsets[k] <= offsets[ends.1],
    decreases offsets.len(),
{
    if offsets.len() == 1 {
        (0, 0)
    } else {
        let front = offsets.drop_last();
        let last = offsets.len() - 1;
        let (low, high) = lemma_ends(front);
        assert forall|k: int| 0 <= k < last implies offsets[low] <= #[trigger] offsets[k]
            <= offsets[high] by {
            assert(front[k] == offsets[k]);
        }
        (
            if offsets[last] < offsets[low] {
                last
            } else {
                low
            },
            if offsets[last] > offsets[high] {
                last
            } else {
                high
            },
        )
    }
}

/// Terms at offsets of their own lie in a stretch that holds them all.
proof fn lemma_stretch(
    fields: Seq<Seq<char>>,
    terms: Seq<Seq<char>>,
    distance: u32,
    column: Option<u8>,
    field: int,
    offsets: Seq<int>,
)
    requires
        numbered(fields),
        terms.len() > 0,
        gathers_at(fields, terms, distance, column, field, offsets),
    ensures
        matching::near_matches(reading(fields), terms, distance, column),
{
    let at = reading(fields);
    let (first, last) = lemma_ends(offsets);
    let base = field * 0x400_0000;
    let (low, high) = (base + offsets[first], base + offsets[last]);
    assert(stands_at(fields, terms[first], field, offsets[first]));
    assert(stands_at(fields, terms[last], field, offsets[last]));
    let _ = lemma_index(fields, terms[first], field, offsets[first]);
    let _ = lemma_index(fields, terms[last], field, offsets[last]);
    assert forall|k: int| 0 <= k < terms.len() implies matching::count_between(
        at(#[trigger] terms[k]),
        low,
        high,
    ) >= matching::multiplicity(terms, terms[k]) by {
        let term = terms[k];
        let found = at(term);
        let named = naming(terms, term);
        let inside = within(found, low, high);
        let spot = |i: int|
            choose|index: int|
                0 <= index < found.len() && found[index] == base + offsets[i];
        assert forall|i: int| #[trigger] named.contains(i) implies inside.contains(spot(i))
            && found[spot(i)] == base + offsets[i] by {
            assert(stands_at(fields, terms[i], field, offsets[i]));
            let index = lemma_index(fields, term, field, offsets[i]);
            assert(0 <= index < found.len() && found[index] == base + offsets[i]);
        }
        let image = named.map(spot);
        assert forall|i: int, j: int|
            named.contains(i) && named.contains(j) && i != j implies spot(i) != spot(j) by {
            if i < j {
                assert(offsets[i] != offsets[j]);
            } else {
                assert(offsets[j] != offsets[i]);
            }
        }
        lemma_naming(terms, term);
        lemma_within(found, low, high);
        lemma_injection(named, spot);
        assert(image.subset_of(inside)) by {
            assert forall|x: int| image.contains(x) implies inside.contains(x) by {
                let i = choose|i: int| named.contains(i) && spot(i) == x;
                assert(named.contains(i));
            }
        }
        vstd::set_lib::lemma_len_subset(image, inside);
    }
    assert(matching::near_window(at, terms, distance, column, low, high));
}

/// As many values as arguments, where no two arguments have one value.
proof fn lemma_injection(from: Set<int>, f: spec_fn(int) -> int)
    requires
        from.finite(),
        forall|i: int, j: int|
            from.contains(i) && from.contains(j) && i != j ==> f(i) != f(j),
    ensures
        from.map(f).finite(),
        from.map(f).len() == from.len(),
    decreases from.len(),
{
    if from.len() == 0 {
        assert(from =~= Set::empty());
        assert(from.map(f) =~= Set::empty());
    } else {
        let x = from.choose();
        let fewer = from.remove(x);
        lemma_injection(fewer, f);
        assert(!fewer.map(f).contains(f(x))) by {
            if fewer.map(f).contains(f(x)) {
                let y = choose|y: int| fewer.contains(y) && f(y) == f(x);
                assert(from.contains(y) && from.contains(x) && y != x);
            }
        }
        assert(from.map(f) =~= fewer.map(f).insert(f(x))) by {
            assert forall|z: int| from.map(f).contains(z) == fewer.map(f).insert(f(x)).contains(
                z,
            ) by {
                if from.map(f).contains(z) {
                    let y = choose|y: int| from.contains(y) && f(y) == z;
                    if y != x {
                        assert(fewer.contains(y));
                    }
                }
                if fewer.map(f).contains(z) {
                    let y = choose|y: int| fewer.contains(y) && f(y) == z;
                    assert(from.contains(y));
                }
                if z == f(x) {
                    assert(from.contains(x));
                }
            }
        }
    }
}

proof fn lemma_near(
    fields: Seq<Seq<char>>,
    terms: Seq<Seq<char>>,
    distance: u32,
    column: Option<u8>,
)
    requires
        numbered(fields),
    ensures
        matching::near_matches(reading(fields), terms, distance, column) == (terms.len() > 0
            && exists|f: int, offsets: Seq<int>|
            gathers_at(fields, terms, distance, column, f, offsets)),
{
    if matching::near_matches(reading(fields), terms, distance, column) {
        let (low, high) = choose|low: int, high: int|
            matching::near_window(reading(fields), terms, distance, column, low, high);
        let offsets = lemma_gathered(fields, terms, distance, column, low, high);
        assert(gathers_at(fields, terms, distance, column, low / 0x400_0000, offsets));
    }
    if terms.len() > 0 && exists|f: int, offsets: Seq<int>|
        gathers_at(fields, terms, distance, column, f, offsets) {
        let (f, offsets) = choose|f: int, offsets: Seq<int>|
            gathers_at(fields, terms, distance, column, f, offsets);
        lemma_stretch(fields, terms, distance, column, f, offsets);
    }
}

/// A document matches a term if and only if the term is one of those of its fields.
pub proof fn term_asks_for_the_term(fields: Seq<Seq<char>>, query: Query, name: Seq<char>)
    requires
        query matches Query::Term(term) && term@ == name,
    ensures
        matching::matches(query, reading(fields)) == places::all_terms(fields).contains(name),
{
    lemma_anywhere(fields, name);
}

/// Without a required column, a term has a position if and only if it stands somewhere.
proof fn lemma_anywhere(fields: Seq<Seq<char>>, term: Seq<char>)
    ensures
        matching::any_in_column(reading(fields)(term), None) == places::all_terms(
            fields,
        ).contains(term),
{
    broadcast use vstd::seq_lib::group_to_multiset_ensures;

    let at = reading(fields)(term);
    places::occurrences_count_the_term(fields, term);
    assert(places::all_terms(fields).to_multiset().count(term) > 0 <==> places::all_terms(
        fields,
    ).contains(term));
    if at.len() > 0 {
        assert(matching::in_column(at[0] as int, None));
    }
}

/// A document matches a prefix if and only if one of the terms of its fields begins
/// with it.
pub proof fn prefix_asks_for_a_beginning(
    fields: Seq<Seq<char>>,
    query: Query,
    beginning: Seq<char>,
)
    requires
        query matches Query::Prefix(prefix) && prefix@ == beginning,
    ensures
        matching::matches(query, reading(fields)) == exists|term: Seq<char>| #[trigger]
            places::all_terms(fields).contains(term) && beginning.is_prefix_of(term),
{
    let at = reading(fields);
    assert forall|term: Seq<char>|
        matching::any_in_column(#[trigger] at(term), None) == places::all_terms(fields).contains(
            term,
        ) by {
        lemma_anywhere(fields, term);
    }
    assert forall|term: Seq<char>| #[trigger]
        text::starts_with(term, beginning) == beginning.is_prefix_of(term) by {
        text::beginnings_are_first_characters(term, beginning);
    }
    if matching::matches(query, at) {
        let term = choose|term: Seq<char>|
            text::starts_with(term, beginning) && matching::any_in_column(
                #[trigger] at(term),
                None,
            );
        assert(places::all_terms(fields).contains(term) && beginning.is_prefix_of(term));
    }
    if exists|term: Seq<char>| #[trigger]
        places::all_terms(fields).contains(term) && beginning.is_prefix_of(term) {
        let term = choose|term: Seq<char>| #[trigger]
            places::all_terms(fields).contains(term) && beginning.is_prefix_of(term);
        assert(matching::any_in_column(at(term), None));
    }
}

/// A document matches a phrase if and only if one of its fields has the terms one
/// right after the other: they are the terms of the field from some offset on.
pub proof fn phrase_asks_for_consecutive_terms(
    fields: Seq<Seq<char>>,
    query: Query,
    terms: Seq<Seq<char>>,
)
    requires
        spaced(fields),
        query matches Query::Phrase(names) && text::texts(names@) == terms,
        terms.len() > 0,
    ensures
        matching::matches(query, reading(fields)) == exists|f: int, p: int|
            0 <= f < fields.len() && 0 <= p && p + terms.len() <= field_terms(fields[f]).len()
                && #[trigger] field_terms(fields[f]).subrange(p, p + terms.len()) == terms,
{
    lemma_phrase(fields, terms, None);
    if matching::matches(query, reading(fields)) {
        let (f, p) = choose|f: int, p: int| runs_at(fields, terms, None, f, p);
        assert(page(fields)[f] == field_terms(fields[f]));
        assert(field_terms(fields[f]).subrange(p, p + terms.len()) == terms);
    }
    if exists|f: int, p: int|
        0 <= f < fields.len() && 0 <= p && p + terms.len() <= field_terms(fields[f]).len()
            && #[trigger] field_terms(fields[f]).subrange(p, p + terms.len()) == terms {
        let (f, p) = choose|f: int, p: int|
            0 <= f < fields.len() && 0 <= p && p + terms.len() <= field_terms(fields[f]).len()
                && #[trigger] field_terms(fields[f]).subrange(p, p + terms.len()) == terms;
        assert(page(fields)[f] == field_terms(fields[f]));
        assert(runs_at(fields, terms, None, f, p));
    }
}

/// The terms stand at these offsets of a text, each mention at one of its own, and no
/// two of the offsets are further apart than `distance`.
pub open spec fn close_together(
    text: Seq<Seq<char>>,
    terms: Seq<Seq<char>>,
    distance: u32,
    offsets: Seq<int>,
) -> bool {
    &&& offsets.len() == terms.len()
    &&& offsets.no_duplicates()
    &&& forall|k: int|
        0 <= k < terms.len() ==> 0 <= #[trigger] offsets[k] < text.len() && text[offsets[k]]
            == terms[k]
    &&& forall|j: int, k: int|
        0 <= j < terms.len() && 0 <= k < terms.len() ==> #[trigger] offsets[j]
            - #[trigger] offsets[k] <= distance
}

/// A document matches terms near each other if and only if one of its fields has them
/// all, each mention at an offset of its own, with no two of these offsets further
/// apart than the distance.
pub proof fn near_asks_for_close_terms(
    fields: Seq<Seq<char>>,
    query: Query,
    terms: Seq<Seq<char>>,
    distance: u32,
)
    requires
        numbered(fields),
        query matches Query::Near { terms: names, distance: limit } && text::texts(names@) == terms
            && limit == distance,
        terms.len() > 0,
    ensures
        matching::matches(query, reading(fields)) == exists|f: int, offsets: Seq<int>|
            0 <= f < fields.len() && #[trigger] close_together(
                field_terms(fields[f]),
                terms,
                distance,
                offsets,
            ),
{
    lemma_near(fields, terms, distance, None);
    if exists|f: int, offsets: Seq<int>|
        gathers_at(fields, terms, distance, None, f, offsets) {
        let (f, offsets) = choose|f: int, offsets: Seq<int>|
            gathers_at(fields, terms, distance, None, f, offsets);
        assert(stands_at(fields, terms[0], f, offsets[0]));
        assert(page(fields)[f] == field_terms(fields[f]));
        assert forall|k: int| 0 <= k < terms.len() implies 0 <= #[trigger] offsets[k]
            < field_terms(fields[f]).len() && field_terms(fields[f])[offsets[k]] == terms[k] by {
            assert(stands_at(fields, terms[k], f, offsets[k]));
        }
        assert(close_together(field_terms(fields[f]), terms, distance, offsets));
    }
    if exists|f: int, offsets: Seq<int>|
        0 <= f < fields.len() && #[trigger] close_together(
            field_terms(fields[f]),
            terms,
            distance,
            offsets,
        ) {
        let (f, offsets) = choose|f: int, offsets: Seq<int>|
            0 <= f < fields.len() && #[trigger] close_together(
                field_terms(fields[f]),
                terms,
                distance,
                offsets,
            );
        assert(page(fields)[f] == field_terms(fields[f]));
        assert(gathers_at(fields, terms, distance, None, f, offsets));
    }
}

/// A phrase and terms near each other ask for at least one term.
pub proof fn no_terms_match_nothing(query: Query, at: spec_fn(Seq<char>) -> Seq<u32>)
    requires
        (query matches Query::Phrase(names) && names@.len() == 0) || (query matches Query::Near {
            terms: names,
            distance,
        } && names@.len() == 0),
    ensures
        !matching::matches(query, at),
{
}

/// Conjunction, disjunction, negation and the query for everything mean what their
/// names say.
pub proof fn connectives_are_boolean(query: Query, at: spec_fn(Seq<char>) -> Seq<u32>)
    ensures
        query matches Query::And(children) ==> (matching::matches(query, at) <==> forall|i: int|
            0 <= i < children@.len() ==> matching::matches(#[trigger] children@[i], at)),
        query matches Query::Or(children) ==> (matching::matches(query, at) <==> exists|i: int|
            0 <= i < children@.len() && matching::matches(#[trigger] children@[i], at)),
        query matches Query::Not(child) ==> matching::matches(query, at) != matching::matches(
            *child,
            at,
        ),
        query is All ==> matching::matches(query, at),
{
}

/// Whether a part of the query is itself restricted to a column.
pub open spec fn restricts(query: Query) -> bool
    decreases query,
{
    match query {
        Query::Column { column, query } => true,
        Query::And(children) => exists|i: int|
            0 <= i < children@.len() && restricts(#[trigger] children@[i]),
        Query::Or(children) => exists|i: int|
            0 <= i < children@.len() && restricts(#[trigger] children@[i]),
        Query::Not(child) => restricts(*child),
        _ => false,
    }
}

/// What is left of a document where only one column counts.
proof fn lemma_only(fields: Seq<Seq<char>>, column: u8)
    ensures
        only(fields, column).len() == fields.len(),
        spaced(fields) ==> spaced(only(fields, column)),
        forall|term: Seq<char>, f: int, p: int| #[trigger]
            stands_at(only(fields, column), term, f, p) == (stands_at(fields, term, f, p) && f
                == column),
        forall|f: int| 0 <= f < fields.len() && f != column ==> (#[trigger] page(
            only(fields, column),
        )[f]).len() == 0,
        0 <= column < fields.len() ==> page(only(fields, column))[column as int] == page(
            fields,
        )[column as int],
{
    let left = only(fields, column);
    crate::words::empty_text_has_no_terms();
    assert forall|f: int| 0 <= f < fields.len() implies #[trigger] page(left)[f] == if f
        == column {
        page(fields)[f]
    } else {
        field_terms(Seq::empty())
    } by {}
    if spaced(fields) {
        assert forall|f: int| 0 <= f < left.len() implies field_terms(#[trigger] left[f]).len()
            <= 0x400_0000 by {
            assert(field_terms(fields[f]).len() <= 0x400_0000);
        }
    }
}

/// Without further restrictions, within a column is in a document of that column.
proof fn lemma_within_column(fields: Seq<Seq<char>>, query: Query, column: u8)
    requires
        spaced(fields),
        !restricts(query),
    ensures
        matches_in_column(query, reading(fields), Some(column)) == matches_in_column(
            query,
            reading(only(fields, column)),
            None,
        ),
    decreases query,
{
    let left = only(fields, column);
    let (at, there) = (reading(fields), reading(left));
    lemma_only(fields, column);
    match query {
        Query::Term(term) => {
            lemma_same_any(fields, column, term@);
        },
        Query::Prefix(prefix) => {
            assert forall|term: Seq<char>|
                #![trigger at(term)]
                #![trigger there(term)]
                matching::any_in_column(at(term), Some(column)) == matching::any_in_column(
                    there(term),
                    None,
                ) by {
                lemma_same_any(fields, column, term);
            }
            assert(matches_in_column(query, at, Some(column)) == matches_in_column(
                query,
                there,
                None,
            ));
        },
        Query::Phrase(names) => {
            let terms = text::texts(names@);
            lemma_phrase(fields, terms, Some(column));
            lemma_phrase(left, terms, None);
            if terms.len() > 0 {
                assert forall|f: int, p: int|
                    #![trigger runs_at(fields, terms, Some(column), f, p)]
                    #![trigger runs_at(left, terms, None, f, p)]
                    runs_at(fields, terms, Some(column), f, p) == runs_at(
                        left,
                        terms,
                        None,
                        f,
                        p,
                    ) by {
                    lemma_same_run(fields, column, terms, f, p);
                }
            }
        },
        Query::Near { terms: names, distance } => {
            let terms = text::texts(names@);
            lemma_near(fields, terms, distance, Some(column));
            lemma_near(left, terms, distance, None);
            if terms.len() > 0 {
                assert forall|f: int, offsets: Seq<int>|
                    #![trigger gathers_at(fields, terms, distance, Some(column), f, offsets)]
                    #![trigger gathers_at(left, terms, distance, None, f, offsets)]
                    gathers_at(fields, terms, distance, Some(column), f, offsets) == gathers_at(
                        left,
                        terms,
                        distance,
                        None,
                        f,
                        offsets,
                    ) by {
                    lemma_same_gathering(fields, column, terms, distance, f, offsets);
                }
            }
        },
        Query::Column { column: inner, query: child } => {},
        Query::And(children) => {
            assert forall|i: int| 0 <= i < children@.len() implies matches_in_column(
                #[trigger] children@[i],
                at,
                Some(column),
            ) == matches_in_column(children@[i], there, None) by {
                lemma_child_decreases(query, children@, i);
                lemma_within_column(fields, children@[i], column);
            }
        },
        Query::Or(children) => {
            assert forall|i: int| 0 <= i < children@.len() implies matches_in_column(
                #[trigger] children@[i],
                at,
                Some(column),
            ) == matches_in_column(children@[i], there, None) by {
                lemma_child_decreases(query, children@, i);
                lemma_within_column(fields, children@[i], column);
            }
        },
        Query::Not(child) => {
            lemma_within_column(fields, *child, column);
        },
        Query::All => {},
    }
}

proof fn lemma_same_any(fields: Seq<Seq<char>>, column: u8, term: Seq<char>)
    requires
        spaced(fields),
    ensures
        matching::any_in_column(term_occurrences(fields, term), Some(column))
            == matching::any_in_column(term_occurrences(only(fields, column), term), None),
{
    let left = only(fields, column);
    lemma_only(fields, column);
    lemma_any(fields, term, Some(column));
    lemma_any(left, term, None);
    if exists|f: int, p: int| #[trigger]
        stands_at(fields, term, f, p) && counts(f, Some(column)) {
        let (f, p) = choose|f: int, p: int| #[trigger]
            stands_at(fields, term, f, p) && counts(f, Some(column));
        assert(stands_at(left, term, f, p));
        assert(counts(f, None));
    }
    if exists|f: int, p: int| #[trigger] stands_at(left, term, f, p) && counts(f, None) {
        let (f, p) = choose|f: int, p: int| #[trigger]
            stands_at(left, term, f, p) && counts(f, None);
        assert(stands_at(fields, term, f, p));
        assert(counts(f, Some(column)));
    }
}

proof fn lemma_same_run(
    fields: Seq<Seq<char>>,
    column: u8,
    terms: Seq<Seq<char>>,
    f: int,
    p: int,
)
    requires
        terms.len() > 0,
    ensures
        runs_at(fields, terms, Some(column), f, p) == runs_at(
            only(fields, column),
            terms,
            None,
            f,
            p,
        ),
{
    lemma_only(fields, column);
    if 0 <= f < fields.len() && f != column {
        assert(page(only(fields, column))[f].len() == 0);
    }
}

proof fn lemma_same_gathering(
    fields: Seq<Seq<char>>,
    column: u8,
    terms: Seq<Seq<char>>,
    distance: u32,
    f: int,
    offsets: Seq<int>,
)
    requires
        terms.len() > 0,
    ensures
        gathers_at(fields, terms, distance, Some(column), f, offsets) == gathers_at(
            only(fields, column),
            terms,
            distance,
            None,
            f,
            offsets,
        ),
{
    let left = only(fields, column);
    lemma_only(fields, column);
    if gathers_at(fields, terms, distance, Some(column), f, offsets) {
        assert forall|k: int| 0 <= k < terms.len() implies stands_at(
            left,
            terms[k],
            f,
            #[trigger] offsets[k],
        ) by {
            assert(stands_at(fields, terms[k], f, offsets[k]));
        }
    }
    if gathers_at(left, terms, distance, None, f, offsets) {
        assert(stands_at(left, terms[0], f, offsets[0]));
        assert forall|k: int| 0 <= k < terms.len() implies stands_at(
            fields,
            terms[k],
            f,
            #[trigger] offsets[k],
        ) by {
            assert(stands_at(left, terms[k], f, offsets[k]));
        }
    }
}

/// Within a column only that field counts: a restricted query matches a document if
/// and only if the query matches the document whose other fields are empty.
pub proof fn column_asks_for_one_field(fields: Seq<Seq<char>>, query: Query, column: u8)
    requires
        spaced(fields),
        query matches Query::Column { column: required, query: child } && required == column
            && !restricts(*child),
    ensures
        matching::matches(query, reading(fields)) == matching::matches(
            *query->Column_query,
            reading(only(fields, column)),
        ),
{
    lemma_within_column(fields, *query->Column_query, column);
}

/// A restriction within a restriction: to the same column it adds nothing, to another
/// column it leaves nothing.
pub proof fn nested_columns_agree_or_exclude(
    query: Query,
    outer: u8,
    inner: u8,
    at: spec_fn(Seq<char>) -> Seq<u32>,
)
    requires
        query matches Query::Column { column, query: child } && column == outer && (
        *child matches Query::Column { column: column2, query: grandchild } && column2 == inner),
    ensures
        outer == inner ==> matching::matches(query, at) == matching::matches(
            *query->Column_query,
            at,
        ),
        outer != inner ==> !matching::matches(query, at),
{
    let child = *query->Column_query;
    assert(matches_in_column(query, at, None) == matches_in_column(child, at, Some(outer)));
}

} // verus!
