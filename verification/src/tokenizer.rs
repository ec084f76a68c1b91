//! Splits the fields of a document into terms with positions.
//!
//! Runs of letters, digits and underscores become one lowercase term. Runs of
//! Chinese, Japanese and Korean characters become overlapping pairs, so that
//! such text can be searched without a dictionary.
use crate::text;
use crate::text::TermMap;
use vstd::prelude::*;

verus! {

/// A position holds the column above this many bits.
pub const COLUMN_SHIFT: u32 = 26;

/// The largest offset within a column; later terms share it.
pub const MAX_POSITION: u32 = 0x3ff_ffff;

/// The last column; later fields share it.
pub const MAX_COLUMN: u32 = 63;

/// One term of a document and where it stands.
#[derive(Debug)]
pub struct TokenOccurrence {
    pub term: String,
    pub position: u32,
}

impl View for TokenOccurrence {
    type V = (Seq<char>, u32);

    open spec fn view(&self) -> (Seq<char>, u32) {
        (self.term@, self.position)
    }
}

/// Chinese, Japanese and Korean characters.
pub open spec fn cjk(ch: char) -> bool {
    ||| 0x3400 <= ch as u32 <= 0x4dbf
    ||| 0x4e00 <= ch as u32 <= 0x9fff
    ||| 0xf900 <= ch as u32 <= 0xfaff
    ||| 0x3040 <= ch as u32 <= 0x30ff
    ||| 0xac00 <= ch as u32 <= 0xd7af
}

/// What a character does to the run it stands in.
pub enum CharClass {
    Separator,
    Word,
    Cjk,
}

pub open spec fn class(ch: char) -> CharClass {
    if cjk(ch) {
        CharClass::Cjk
    } else if text::alphanumeric(ch) || ch == '_' {
        CharClass::Word
    } else {
        CharClass::Separator
    }
}

/// How many characters at the front of `chars` are of the class `wanted`.
pub open spec fn run_len(chars: Seq<char>, wanted: CharClass) -> nat
    decreases chars.len(),
{
    if chars.len() == 0 || class(chars[0]) != wanted {
        0
    } else {
        1 + run_len(chars.skip(1), wanted)
    }
}

/// The terms that one run of characters of one class stands for.
pub open spec fn run_terms(run: Seq<char>, kind: CharClass) -> Seq<Seq<char>> {
    match kind {
        CharClass::Separator => Seq::empty(),
        CharClass::Word => seq![text::lowercase(run)],
        CharClass::Cjk => if run.len() == 1 {
            seq![run]
        } else {
            Seq::new((run.len() - 1) as nat, |i: int| run.subrange(i, i + 2))
        },
    }
}

/// The terms of a text: those of its maximal runs, in order.
pub open spec fn field_terms(chars: Seq<char>) -> Seq<Seq<char>>
    decreases chars.len(),
{
    if chars.len() == 0 {
        Seq::empty()
    } else {
        let kind = class(chars[0]);
        let len = run_len(chars, kind);
        if len == 0 || len > chars.len() {
            Seq::empty()
        } else {
            run_terms(chars.take(len as int), kind) + field_terms(chars.skip(len as int))
        }
    }
}

/// The position of the term with this offset in this column.
pub open spec fn position_at(column: int, offset: int) -> u32 {
    (column * 0x400_0000 + if offset < MAX_POSITION {
        offset
    } else {
        MAX_POSITION as int
    }) as u32
}

pub open spec fn field_tokens(column: int, terms: Seq<Seq<char>>) -> Seq<(Seq<char>, u32)> {
    Seq::new(terms.len(), |i: int| (terms[i], position_at(column, i)))
}

/// The column of the field with this index.
pub open spec fn column_of(field: int) -> int {
    if field < MAX_COLUMN {
        field
    } else {
        MAX_COLUMN as int
    }
}

/// The terms of all fields, field by field.
pub open spec fn document_tokens(fields: Seq<Seq<char>>) -> Seq<(Seq<char>, u32)>
    decreases fields.len(),
{
    if fields.len() == 0 {
        Seq::empty()
    } else {
        document_tokens(fields.drop_last()) + field_tokens(
            column_of(fields.len() - 1),
            field_terms(fields.last()),
        )
    }
}

/// The length of a document in terms, as far as 32 bits can tell.
pub open spec fn document_len(fields: Seq<Seq<char>>) -> u32 {
    if document_tokens(fields).len() < u32::MAX {
        document_tokens(fields).len() as u32
    } else {
        u32::MAX
    }
}

/// Where `term` stands among `tokens`, in order.
pub open spec fn occurrences(tokens: Seq<(Seq<char>, u32)>, term: Seq<char>) -> Seq<u32>
    decreases tokens.len(),
{
    if tokens.len() == 0 {
        Seq::empty()
    } else {
        let before = occurrences(tokens.drop_last(), term);
        if tokens.last().0 == term {
            before.push(tokens.last().1)
        } else {
            before
        }
    }
}

/// Where `term` stands in a document with these fields.
pub open spec fn term_occurrences(fields: Seq<Seq<char>>, term: Seq<char>) -> Seq<u32> {
    occurrences(document_tokens(fields), term)
}

proof fn lemma_run_len(chars: Seq<char>, wanted: CharClass)
    ensures
        run_len(chars, wanted) <= chars.len(),
        chars.len() > 0 && class(chars[0]) == wanted ==> run_len(chars, wanted) > 0,
    decreases chars.len(),
{
    if chars.len() > 0 && class(chars[0]) == wanted {
        lemma_run_len(chars.skip(1), wanted);
    }
}

proof fn lemma_run_len_exact(run: Seq<char>, rest: Seq<char>, kind: CharClass)
    requires
        forall|i: int| 0 <= i < run.len() ==> class(#[trigger] run[i]) == kind,
        rest.len() == 0 || class(rest[0]) != kind,
    ensures
        run_len(run + rest, kind) == run.len(),
    decreases run.len(),
{
    let all = run + rest;
    if run.len() > 0 {
        assert(all[0] == run[0]);
        assert(all.skip(1) =~= run.skip(1) + rest);
        assert forall|i: int| 0 <= i < run.skip(1).len() implies class(#[trigger] run.skip(1)[i])
            == kind by {
            assert(run.skip(1)[i] == run[i + 1]);
        }
        lemma_run_len_exact(run.skip(1), rest, kind);
    } else {
        assert(all =~= rest);
    }
}

pub(crate) proof fn lemma_flush(run: Seq<char>, rest: Seq<char>, kind: CharClass)
    requires
        run.len() > 0,
        forall|i: int| 0 <= i < run.len() ==> class(#[trigger] run[i]) == kind,
        rest.len() == 0 || class(rest[0]) != kind,
    ensures
        field_terms(run + rest) == run_terms(run, kind) + field_terms(rest),
{
    let all = run + rest;
    lemma_run_len_exact(run, rest, kind);
    assert(all[0] == run[0]);
    assert(all.take(run.len() as int) =~= run);
    assert(all.skip(run.len() as int) =~= rest);
}

pub(crate) proof fn lemma_skip_separator(rest: Seq<char>)
    requires
        rest.len() > 0,
        class(rest[0]) == CharClass::Separator,
    ensures
        field_terms(rest) == field_terms(rest.skip(1)),
{
    let tail = rest.skip(1);
    let kind = CharClass::Separator;
    lemma_run_len(rest, kind);
    lemma_run_len(tail, kind);
    let len = run_len(rest, kind);
    assert(len == 1 + run_len(tail, kind));
    assert(field_terms(rest) =~= field_terms(rest.skip(len as int)));
    assert(rest.skip(len as int) =~= tail.skip(len - 1));
    if tail.len() > 0 && class(tail[0]) == kind {
        assert(field_terms(tail) =~= field_terms(tail.skip(len - 1)));
    } else {
        assert(tail.skip(0) =~= tail);
    }
}

/// A text has no more terms than characters.
pub proof fn field_terms_bound(chars: Seq<char>)
    ensures
        field_terms(chars).len() <= chars.len(),
    decreases chars.len(),
{
    if chars.len() > 0 {
        let kind = class(chars[0]);
        let len = run_len(chars, kind);
        lemma_run_len(chars, kind);
        field_terms_bound(chars.skip(len as int));
    }
}

/// How many characters the fields hold together.
pub open spec fn total_chars(fields: Seq<Seq<char>>) -> nat
    decreases fields.len(),
{
    if fields.len() == 0 {
        0
    } else {
        total_chars(fields.drop_last()) + fields.last().len()
    }
}

/// A document has no more terms than characters.
pub proof fn document_tokens_bound(fields: Seq<Seq<char>>)
    ensures
        document_tokens(fields).len() <= total_chars(fields),
        document_len(fields) <= total_chars(fields),
    decreases fields.len(),
{
    if fields.len() > 0 {
        document_tokens_bound(fields.drop_last());
        field_terms_bound(fields.last());
    }
}

proof fn lemma_document_tokens_sorted(fields: Seq<Seq<char>>)
    requires
        fields.len() <= 64,
    ensures
        forall|i: int|
            0 <= i < document_tokens(fields).len() ==> (#[trigger] document_tokens(fields)[i]).1
                < fields.len() * 0x400_0000,
        forall|i: int, j: int|
            0 <= i < j < document_tokens(fields).len() ==> (#[trigger] document_tokens(fields)[i]).1
                <= (#[trigger] document_tokens(fields)[j]).1,
        (forall|f: int| 0 <= f < fields.len() ==> field_terms(#[trigger] fields[f]).len()
            <= 0x400_0000) ==> (forall|i: int, j: int|
            0 <= i < j < document_tokens(fields).len() ==> (#[trigger] document_tokens(fields)[i]).1
                < (#[trigger] document_tokens(fields)[j]).1),
    decreases fields.len(),
{
    if fields.len() > 0 {
        let front = fields.drop_last();
        lemma_document_tokens_sorted(front);
        assert(forall|f: int| 0 <= f < front.len() ==> front[f] == fields[f]);
        assert(fields.last() == fields[fields.len() - 1]);
        let before = document_tokens(front);
        let last = field_tokens(fields.len() - 1, field_terms(fields.last()));
        let all = document_tokens(fields);
        assert(all == before + last);
        assert(forall|i: int| 0 <= i < before.len() ==> all[i] == before[i]);
        assert forall|i: int| before.len() <= i < all.len() implies (#[trigger] all[i]).1 as int
            == (fields.len() - 1) * 0x400_0000 + if i - before.len() < MAX_POSITION {
            i - before.len()
        } else {
            MAX_POSITION as int
        } by {
            assert(all[i] == last[i - before.len()]);
        }
    }
}

proof fn lemma_occurrences_come_from_tokens(tokens: Seq<(Seq<char>, u32)>, term: Seq<char>, k: int)
    requires
        0 <= k < occurrences(tokens, term).len(),
    ensures
        exists|i: int|
            0 <= i < tokens.len() && (#[trigger] tokens[i]).0 == term && tokens[i].1 == occurrences(
                tokens,
                term,
            )[k],
    decreases tokens.len(),
{
    let front = tokens.drop_last();
    if tokens.last().0 == term && k == occurrences(tokens, term).len() - 1 {
        assert(tokens[tokens.len() - 1] == tokens.last());
    } else {
        lemma_occurrences_come_from_tokens(front, term, k);
        let i = choose|i: int|
            0 <= i < front.len() && (#[trigger] front[i]).0 == term && front[i].1 == occurrences(
                front,
                term,
            )[k];
        assert(tokens[i] == front[i]);
    }
}

proof fn lemma_occurrences_sorted(tokens: Seq<(Seq<char>, u32)>, term: Seq<char>)
    requires
        forall|i: int, j: int|
            0 <= i < j < tokens.len() ==> (#[trigger] tokens[i]).1 <= (#[trigger] tokens[j]).1,
    ensures
        forall|i: int, j: int|
            0 <= i < j < occurrences(tokens, term).len() ==> #[trigger] occurrences(tokens, term)[i]
                <= #[trigger] occurrences(tokens, term)[j],
        (forall|i: int, j: int|
            0 <= i < j < tokens.len() ==> (#[trigger] tokens[i]).1 < (#[trigger] tokens[j]).1) ==> (
        forall|i: int, j: int|
            0 <= i < j < occurrences(tokens, term).len() ==> #[trigger] occurrences(tokens, term)[i]
                < #[trigger] occurrences(tokens, term)[j]),
    decreases tokens.len(),
{
    if tokens.len() > 0 {
        let front = tokens.drop_last();
        assert(forall|i: int| 0 <= i < front.len() ==> front[i] == tokens[i]);
        lemma_occurrences_sorted(front, term);
        let before = occurrences(front, term);
        if tokens.last().0 == term {
            assert forall|k: int| 0 <= k < before.len() implies exists|i: int|
                0 <= i < front.len() && (#[trigger] tokens[i]).1 == #[trigger] before[k] by {
                lemma_occurrences_come_from_tokens(front, term, k);
                let i = choose|i: int|
                    0 <= i < front.len() && (#[trigger] front[i]).0 == term && front[i].1
                        == before[k];
                assert(tokens[i].1 == before[k]);
            }
            assert(tokens[tokens.len() - 1] == tokens.last());
        }
    }
}

/// In a document of at most 64 fields the positions of a term stand in order.
/// Where no field has more terms than offsets, no position stands twice.
pub proof fn term_occurrences_sorted(fields: Seq<Seq<char>>, term: Seq<char>)
    requires
        fields.len() <= 64,
    ensures
        forall|i: int, j: int|
            0 <= i < j < term_occurrences(fields, term).len() ==> #[trigger] term_occurrences(
                fields,
                term,
            )[i] <= #[trigger] term_occurrences(fields, term)[j],
        (forall|f: int| 0 <= f < fields.len() ==> field_terms(#[trigger] fields[f]).len()
            <= 0x400_0000) ==> (forall|i: int, j: int|
            0 <= i < j < term_occurrences(fields, term).len() ==> #[trigger] term_occurrences(
                fields,
                term,
            )[i] < #[trigger] term_occurrences(fields, term)[j]),
{
    lemma_document_tokens_sorted(fields);
    lemma_occurrences_sorted(document_tokens(fields), term);
}

proof fn lemma_occurrences_bound(tokens: Seq<(Seq<char>, u32)>, term: Seq<char>)
    ensures
        occurrences(tokens, term).len() <= tokens.len(),
    decreases tokens.len(),
{
    if tokens.len() > 0 {
        lemma_occurrences_bound(tokens.drop_last(), term);
    }
}

/// A term occurs in a document no more often than the document has terms.
pub proof fn term_occurrences_bound(fields: Seq<Seq<char>>, term: Seq<char>)
    ensures
        term_occurrences(fields, term).len() <= document_tokens(fields).len(),
{
    lemma_occurrences_bound(document_tokens(fields), term);
}

/// `str::to_lowercase` of a search term.
pub fn normalize_term(term: &str) -> (normal: String)
    ensures
        normal@ == text::lowercase(term@),
{
    term.to_lowercase()
}

/// Whether `ch` is a Chinese, Japanese or Korean character.
pub fn is_cjk(ch: char) -> (result: bool)
    ensures
        result == cjk(ch),
{
    let code: u32 = ch as u32;
    (0x3400 <= code && code <= 0x4dbf) || (0x4e00 <= code && code <= 0x9fff) || (0xf900 <= code
        && code <= 0xfaff) || (0x3040 <= code && code <= 0x30ff) || (0xac00 <= code && code
        <= 0xd7af)
}

/// Every term has characters.
pub open spec fn no_empty_terms(tokens: Seq<TokenOccurrence>) -> bool {
    forall|i: int| 0 <= i < tokens.len() ==> (#[trigger] tokens[i]).term@.len() > 0
}

/// Tokens with characters only hold no empty term.
pub proof fn empty_term_does_not_occur(tokens: Seq<TokenOccurrence>)
    requires
        no_empty_terms(tokens),
    ensures
        occurrences(
            tokens.map_values(|token: TokenOccurrence| token@),
            Seq::empty(),
        ).len() == 0,
    decreases tokens.len(),
{
    let shown = |token: TokenOccurrence| token@;
    if tokens.len() > 0 {
        let front = tokens.drop_last();
        assert(tokens.map_values(shown).drop_last() =~= front.map_values(shown));
        assert(tokens[tokens.len() - 1].term@.len() > 0);
        assert forall|i: int| 0 <= i < front.len() implies (
        #[trigger] front[i]).term@.len() > 0 by {
            assert(tokens[i].term@.len() > 0);
        }
        empty_term_does_not_occur(front);
    }
}

/// What stands in `tokens` when the fields before gave `base` and the current
/// field has given `terms` so far.
spec fn tokens_hold(
    tokens: Seq<TokenOccurrence>,
    offset: u32,
    base: Seq<(Seq<char>, u32)>,
    column: int,
    terms: Seq<Seq<char>>,
) -> bool {
    &&& tokens.map_values(|token: TokenOccurrence| token@) == base + field_tokens(column, terms)
    &&& no_empty_terms(tokens)
    &&& offset == if terms.len() < u32::MAX {
        terms.len() as int
    } else {
        u32::MAX as int
    }
}

fn push_token(
    tokens: &mut Vec<TokenOccurrence>,
    offset: &mut u32,
    column: u32,
    term: String,
    Ghost(base): Ghost<Seq<(Seq<char>, u32)>>,
    Ghost(terms): Ghost<Seq<Seq<char>>>,
)
    requires
        column <= 63,
        term@.len() > 0,
        tokens_hold(old(tokens)@, *old(offset), base, column as int, terms),
    ensures
        tokens_hold(final(tokens)@, *final(offset), base, column as int, terms.push(term@)),
{
    let place: u32 = if *offset < MAX_POSITION {
        *offset
    } else {
        MAX_POSITION
    };
    let ghost before = tokens@;
    let token = TokenOccurrence { term, position: column * 0x400_0000 + place };
    tokens.push(token);
    *offset = (*offset).saturating_add(1);
    proof {
        let shown = |token: TokenOccurrence| token@;
        assert(tokens@.map_values(shown) =~= before.map_values(shown).push(token@));
        assert(base + field_tokens(column as int, terms.push(term@)) =~= (base + field_tokens(
            column as int,
            terms,
        )).push(token@));
    }
}

fn flush_word(
    word: &mut String,
    tokens: &mut Vec<TokenOccurrence>,
    offset: &mut u32,
    column: u32,
    Ghost(base): Ghost<Seq<(Seq<char>, u32)>>,
    Ghost(terms): Ghost<Seq<Seq<char>>>,
) -> (now: Ghost<Seq<Seq<char>>>)
    requires
        column <= 63,
        tokens_hold(old(tokens)@, *old(offset), base, column as int, terms),
    ensures
        now@ == if old(word)@.len() == 0 {
            terms
        } else {
            terms + run_terms(old(word)@, CharClass::Word)
        },
        tokens_hold(final(tokens)@, *final(offset), base, column as int, now@),
        final(word)@ == Seq::<char>::empty(),
{
    if word.as_str().is_empty() {
        assert(word@ =~= Seq::empty());
        return Ghost(terms);
    }
    push_token(tokens, offset, column, word.as_str().to_lowercase(), Ghost(base), Ghost(terms));
    assert(terms.push(text::lowercase(word@)) =~= terms + run_terms(word@, CharClass::Word));
    let ghost now = terms + run_terms(word@, CharClass::Word);
    *word = String::new();
    Ghost(now)
}

fn flush_cjk(
    run: &mut Vec<char>,
    tokens: &mut Vec<TokenOccurrence>,
    offset: &mut u32,
    column: u32,
    Ghost(base): Ghost<Seq<(Seq<char>, u32)>>,
    Ghost(terms): Ghost<Seq<Seq<char>>>,
) -> (now: Ghost<Seq<Seq<char>>>)
    requires
        column <= 63,
        tokens_hold(old(tokens)@, *old(offset), base, column as int, terms),
    ensures
        now@ == if old(run)@.len() == 0 {
            terms
        } else {
            terms + run_terms(old(run)@, CharClass::Cjk)
        },
        tokens_hold(final(tokens)@, *final(offset), base, column as int, now@),
        final(run)@ == Seq::<char>::empty(),
{
    if run.len() == 0 {
        assert(run@ =~= Seq::empty());
        return Ghost(terms);
    }
    let ghost all = run_terms(run@, CharClass::Cjk);
    if run.len() == 1 {
        let mut term = String::new();
        term.push(run[0]);
        assert(term@ =~= run@);
        push_token(tokens, offset, column, term, Ghost(base), Ghost(terms));
        assert(terms.push(run@) =~= terms + all);
    } else {
        let mut index: usize = 0;
        assert(terms + all.take(0) =~= terms);
        while index < run.len() - 1
            invariant
                index + 1 <= run@.len(),
                run@.len() >= 2,
                column <= 63,
                all == run_terms(run@, CharClass::Cjk),
                tokens_hold(
                    tokens@,
                    *offset,
                    base,
                    column as int,
                    terms + all.take(index as int),
                ),
            decreases run@.len() - index,
        {
            let mut term = String::new();
            term.push(run[index]);
            term.push(run[index + 1]);
            assert(term@ =~= all[index as int]);
            push_token(
                tokens,
                offset,
                column,
                term,
                Ghost(base),
                Ghost(terms + all.take(index as int)),
            );
            assert((terms + all.take(index as int)).push(all[index as int]) =~= terms + all.take(
                index + 1,
            ));
            index = index + 1;
        }
        assert(all.take(index as int) =~= all);
    }
    run.clear();
    Ghost(terms + all)
}

proof fn lemma_tokenizer_step(pending: Seq<char>, kind: CharClass, rest: Seq<char>)
    requires
        rest.len() > 0,
        kind != CharClass::Separator,
        forall|i: int| 0 <= i < pending.len() ==> class(#[trigger] pending[i]) == kind,
    ensures
        ({
            let first = class(rest[0]);
            let kept = if first == kind {
                pending.push(rest[0])
            } else if first == CharClass::Separator {
                Seq::empty()
            } else {
                seq![rest[0]]
            };
            let flushed = if first == kind || pending.len() == 0 {
                Seq::empty()
            } else {
                run_terms(pending, kind)
            };
            field_terms(pending + rest) == flushed + field_terms(kept + rest.skip(1))
        }),
{
    let first = class(rest[0]);
    assert(rest =~= seq![rest[0]] + rest.skip(1));
    if first == kind {
        assert(pending + rest =~= pending.push(rest[0]) + rest.skip(1));
        assert(Seq::empty() + field_terms(pending + rest) =~= field_terms(pending + rest));
    } else {
        if pending.len() > 0 {
            lemma_flush(pending, rest, kind);
        } else {
            assert(pending + rest =~= rest);
            assert(Seq::empty() + field_terms(rest) =~= field_terms(rest));
        }
        if first == CharClass::Separator {
            lemma_skip_separator(rest);
            assert(Seq::<char>::empty() + rest.skip(1) =~= rest.skip(1));
        }
    }
}

/// Appends the terms of one field.
fn tokenize_field(
    field: &str,
    column: u32,
    tokens: &mut Vec<TokenOccurrence>,
    Ghost(base): Ghost<Seq<(Seq<char>, u32)>>,
) -> (offset: u32)
    requires
        column <= 63,
        old(tokens)@.map_values(|token: TokenOccurrence| token@) == base,
        no_empty_terms(old(tokens)@),
    ensures
        tokens_hold(final(tokens)@, offset, base, column as int, field_terms(field@)),
{
    let mut word = String::new();
    let mut run: Vec<char> = Vec::new();
    let mut offset: u32 = 0;
    let ghost mut terms: Seq<Seq<char>> = Seq::empty();
    proof {
        assert(base + field_tokens(column as int, terms) =~= base);
        assert(terms + field_terms(word@ + run@ + field@) =~= field_terms(field@)) by {
            assert(word@ + run@ + field@ =~= field@);
        }
        assert(field@.skip(0) =~= field@);
    }
    for ch in it: field.chars()
        invariant
            column <= 63,
            it.seq() == field@,
            word@.len() == 0 || run@.len() == 0,
            forall|i: int| 0 <= i < word@.len() ==> class(#[trigger] word@[i]) == CharClass::Word,
            forall|i: int| 0 <= i < run@.len() ==> class(#[trigger] run@[i]) == CharClass::Cjk,
            tokens_hold(tokens@, offset, base, column as int, terms),
            field_terms(field@) == terms + field_terms(
                word@ + run@ + field@.skip(it.index() as int),
            ),
    {
        let ghost rest = field@.skip(it.index() as int);
        let ghost (word0, run0, terms0) = (word@, run@, terms);
        proof {
            assert(rest[0] == ch);
            assert(rest.skip(1) =~= field@.skip(it.index() + 1));
            if run0.len() > 0 {
                assert(word0 + run0 =~= run0);
                lemma_tokenizer_step(run0, CharClass::Cjk, rest);
            } else {
                assert(word0 + run0 =~= word0);
                lemma_tokenizer_step(word0, CharClass::Word, rest);
            }
        }
        if is_cjk(ch) {
            let now = flush_word(
                &mut word,
                tokens,
                &mut offset,
                column,
                Ghost(base),
                Ghost(terms),
            );
            proof {
                terms = now@;
            }
            run.push(ch);
        } else {
            let now = flush_cjk(&mut run, tokens, &mut offset, column, Ghost(base), Ghost(terms));
            proof {
                terms = now@;
            }
            if ch.is_alphanumeric() || ch == '_' {
                word.push(ch);
            } else {
                let now = flush_word(
                    &mut word,
                    tokens,
                    &mut offset,
                    column,
                    Ghost(base),
                    Ghost(terms),
                );
                proof {
                    terms = now@;
                }
            }
        }
        proof {
            let next = field@.skip(it.index() + 1);
            let pending = word@ + run@;
            assert(pending =~= if word@.len() == 0 {
                run@
            } else {
                word@
            });
            let first = class(ch);
            let kind = if run0.len() > 0 {
                CharClass::Cjk
            } else {
                CharClass::Word
            };
            let old_pending = word0 + run0;
            let flushed = if first == kind || old_pending.len() == 0 {
                Seq::empty()
            } else {
                run_terms(old_pending, kind)
            };
            let kept = if first == kind {
                old_pending.push(ch)
            } else if first == CharClass::Separator {
                Seq::empty()
            } else {
                seq![ch]
            };
            assert(pending =~= kept);
            assert(terms =~= terms0 + flushed);
            assert(terms0 + (flushed + field_terms(pending + next)) =~= terms + field_terms(
                pending + next,
            ));
        }
    }
    proof {
        let pending = word@ + run@;
        assert(field@.skip(field@.len() as int) =~= Seq::empty());
        assert(pending + Seq::<char>::empty() =~= pending);
        if pending.len() > 0 {
            let kind = if run@.len() > 0 {
                CharClass::Cjk
            } else {
                CharClass::Word
            };
            assert(pending =~= if run@.len() > 0 {
                run@
            } else {
                word@
            });
            lemma_flush(pending, Seq::empty(), kind);
            assert(field_terms(pending) =~= run_terms(pending, kind));
        }
    }
    let ghost (word0, run0) = (word@, run@);
    let now = flush_word(&mut word, tokens, &mut offset, column, Ghost(base), Ghost(terms));
    let last = flush_cjk(&mut run, tokens, &mut offset, column, Ghost(base), Ghost(now@));
    assert(last@ =~= field_terms(field@));
    offset
}

/// The terms of all fields with their positions, and how many there are.
pub fn tokenize_fields(fields: &[String]) -> (result: (Vec<TokenOccurrence>, u32))
    ensures
        result.0@.map_values(|token: TokenOccurrence| token@) == document_tokens(
            text::texts(fields@),
        ),
        result.1 == document_len(text::texts(fields@)),
        no_empty_terms(result.0@),
{
    let mut tokens: Vec<TokenOccurrence> = Vec::new();
    let mut total: u32 = 0;
    let mut index: usize = 0;
    let ghost all = text::texts(fields@);
    assert(all.take(0) =~= Seq::empty());
    assert(tokens@.map_values(|token: TokenOccurrence| token@) =~= Seq::empty());
    while index < fields.len()
        invariant
            index <= fields@.len(),
            all == text::texts(fields@),
            tokens@.map_values(|token: TokenOccurrence| token@) == document_tokens(
                all.take(index as int),
            ),
            total == document_len(all.take(index as int)),
            no_empty_terms(tokens@),
        decreases fields@.len() - index,
    {
        let column: u32 = if index < MAX_COLUMN as usize {
            index as u32
        } else {
            MAX_COLUMN
        };
        let ghost base = document_tokens(all.take(index as int));
        let offset: u32 = tokenize_field(fields[index].as_str(), column, &mut tokens, Ghost(base));
        proof {
            assert(all.take(index + 1).drop_last() =~= all.take(index as int));
            assert(all.take(index + 1).last() == fields@[index as int]@);
        }
        total = total.saturating_add(offset);
        index = index + 1;
    }
    assert(all.take(index as int) =~= all);
    (tokens, total)
}

/// Collects the positions of each term.
pub fn group_positions(tokens: Vec<TokenOccurrence>) -> (grouped: TermMap<Vec<u32>>)
    ensures
        grouped.wf(),
        ({
            let shown = tokens@.map_values(|token: TokenOccurrence| token@);
            forall|term: Seq<char>|
                match #[trigger] grouped.lookup(term) {
                    Some(positions) => positions@.len() > 0 && positions@ == occurrences(
                        shown,
                        term,
                    ),
                    None => occurrences(shown, term).len() == 0,
                }
        }),
{
    let mut grouped: TermMap<Vec<u32>> = TermMap::new();
    let ghost shown = tokens@.map_values(|token: TokenOccurrence| token@);
    let mut done: usize = 0;
    while done < tokens.len()
        invariant
            done <= tokens@.len(),
            shown == tokens@.map_values(|token: TokenOccurrence| token@),
            grouped.wf(),
            forall|term: Seq<char>|
                match #[trigger] grouped.lookup(term) {
                    Some(positions) => positions@.len() > 0 && positions@ == occurrences(
                        shown.take(done as int),
                        term,
                    ),
                    None => occurrences(shown.take(done as int), term).len() == 0,
                },
        decreases tokens@.len() - done,
    {
        let token = &tokens[done];
        let ghost before = grouped;
        let (found, index) = grouped.search(token.term.as_str());
        proof {
            assert(shown.take(done + 1).drop_last() =~= shown.take(done as int));
            assert(shown.take(done + 1).last() == token@);
            assert(grouped.lookup(token.term@) is Some == found);
        }
        if found {
            proof {
                grouped.lemma_lookup(index as int);
            }
            let mut positions: Vec<u32> = grouped.replace_at(index, Vec::new());
            positions.push(token.position);
            grouped.replace_at(index, positions);
        } else {
            let mut positions: Vec<u32> = Vec::new();
            positions.push(token.position);
            assert(occurrences(shown.take(done as int), token.term@) =~= Seq::empty());
            assert(positions@ =~= occurrences(shown.take(done + 1), token.term@));
            grouped.insert_at(index, token.term.clone(), positions);
        }
        done = done + 1;
    }
    assert(shown.take(done as int) =~= shown);
    grouped
}

} // verus!
