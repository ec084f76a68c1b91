//! Which terms a text has, told by how texts are put together.
//!
//! Every text is a row of words, of runs of Chinese, Japanese and Korean characters,
//! and of separators between them. The laws here say what each of these contributes,
//! and that the terms of a text are those of its pieces, one piece after the other.
use crate::text;
use crate::tokenizer;
use crate::tokenizer::{class, field_terms, run_len, CharClass};
use vstd::prelude::*;

verus! {

/// The code points of the character lie in this block.
pub open spec fn in_block(ch: char, first: int, last: int) -> bool {
    first <= ch as int <= last
}

/// A character of Chinese, Japanese or Korean writing, by the blocks of Unicode:
/// Hiragana, Katakana, the unified ideographs with their first extension, the
/// compatibility ideographs, and the Hangul syllables.
pub open spec fn ideographic(ch: char) -> bool {
    ||| in_block(ch, 0x3040, 0x309f)
    ||| in_block(ch, 0x30a0, 0x30ff)
    ||| in_block(ch, 0x4e00, 0x9fff)
    ||| in_block(ch, 0x3400, 0x4dbf)
    ||| in_block(ch, 0xf900, 0xfaff)
    ||| in_block(ch, 0xac00, 0xd7af)
}

/// A letter, a digit or an underscore of another writing.
pub open spec fn wordlike(ch: char) -> bool {
    !ideographic(ch) && (text::alphanumeric(ch) || ch == '_')
}

/// The characters that are taken two by two are those of six blocks and no others;
/// the ends of each block belong to it and their neighbours do not.
pub proof fn ideographs_are_those_of_six_blocks(ch: char)
    ensures
        tokenizer::cjk(ch) == ideographic(ch),
        ch as int == 0x3040 || ch as int == 0x309f || ch as int == 0x30a0 || ch as int == 0x30ff
            ==> tokenizer::cjk(ch),
        ch as int == 0x3400 || ch as int == 0x4dbf || ch as int == 0x4e00 || ch as int == 0x9fff
            ==> tokenizer::cjk(ch),
        ch as int == 0xf900 || ch as int == 0xfaff || ch as int == 0xac00 || ch as int == 0xd7af
            ==> tokenizer::cjk(ch),
        ch as int == 0x303f || ch as int == 0x3100 || ch as int == 0x33ff || ch as int == 0x4dc0
            || ch as int == 0x4dff || ch as int == 0xa000 || ch as int == 0xabff || ch as int
            == 0xd7b0 || ch as int == 0xf8ff || ch as int == 0xfb00 ==> !tokenizer::cjk(ch),
{
}

/// A text without characters has no terms.
pub proof fn empty_text_has_no_terms()
    ensures
        field_terms(Seq::empty()).len() == 0,
{
}

proof fn lemma_run(chars: Seq<char>, wanted: CharClass)
    ensures
        run_len(chars, wanted) <= chars.len(),
        forall|i: int| 0 <= i < run_len(chars, wanted) ==> class(#[trigger] chars[i]) == wanted,
        run_len(chars, wanted) < chars.len() ==> class(chars[run_len(chars, wanted) as int])
            != wanted,
    decreases chars.len(),
{
    if chars.len() > 0 && class(chars[0]) == wanted {
        let rest = chars.skip(1);
        lemma_run(rest, wanted);
        assert forall|i: int| 0 <= i < run_len(chars, wanted) implies class(#[trigger] chars[i])
            == wanted by {
            if i > 0 {
                assert(rest[i - 1] == chars[i]);
            }
        }
        if run_len(chars, wanted) < chars.len() {
            assert(rest[run_len(rest, wanted) as int] == chars[run_len(chars, wanted) as int]);
        }
    }
}

/// Where the class of the characters changes, a text falls into two.
proof fn lemma_split(left: Seq<char>, right: Seq<char>)
    requires
        left.len() == 0 || right.len() == 0 || class(left.last()) != class(right[0]),
    ensures
        field_terms(left + right) == field_terms(left) + field_terms(right),
    decreases left.len(),
{
    if left.len() == 0 {
        assert(left + right =~= right);
        assert(field_terms(left) + field_terms(right) =~= field_terms(right));
    } else if right.len() == 0 {
        assert(left + right =~= left);
        assert(field_terms(left) + field_terms(right) =~= field_terms(left));
    } else {
        let kind = class(left[0]);
        let len = run_len(left, kind) as int;
        lemma_run(left, kind);
        let (run, rest) = (left.take(len), left.skip(len));
        assert(len > 0);
        assert forall|i: int| 0 <= i < run.len() implies class(#[trigger] run[i]) == kind by {
            assert(run[i] == left[i]);
        }
        let behind = rest + right;
        assert(left + right =~= run + behind);
        if len < left.len() {
            assert(behind[0] == left[len]);
            assert(rest[0] == left[len]);
            assert(rest.last() == left.last());
        } else {
            assert(behind =~= right);
            assert(left.last() == left[len - 1]);
        }
        tokenizer::lemma_flush(run, behind, kind);
        tokenizer::lemma_flush(run, rest, kind);
        assert(left =~= run + rest);
        lemma_split(rest, right);
        assert(field_terms(left + right) =~= field_terms(left) + field_terms(right));
    }
}

/// A character that is neither wordlike nor ideographic separates: the terms of a
/// text with it are those in front of it and then those behind it.
pub proof fn separators_part_a_text(front: Seq<char>, separator: char, behind: Seq<char>)
    requires
        !ideographic(separator),
        !wordlike(separator),
    ensures
        field_terms(front.push(separator) + behind) == field_terms(front) + field_terms(behind),
    decreases front.len(),
{
    let tail = seq![separator] + behind;
    ideographs_are_those_of_six_blocks(separator);
    assert(class(separator) == CharClass::Separator);
    assert(front.push(separator) + behind =~= front + tail);
    tokenizer::lemma_skip_separator(tail);
    assert(tail.skip(1) =~= behind);
    if front.len() > 0 && class(front.last()) == CharClass::Separator {
        let (before, last) = (front.drop_last(), front.last());
        separators_part_a_text(before, last, tail);
        assert(before.push(last) + tail =~= front + tail);
        separators_part_a_text(before, last, Seq::empty());
        assert(before.push(last) + Seq::<char>::empty() =~= front);
        assert(field_terms(Seq::empty()) =~= Seq::empty());
        assert(field_terms(before) + Seq::empty() =~= field_terms(before));
    } else {
        lemma_split(front, tail);
    }
}

/// Between ideographic and other characters a text falls into two as well.
pub proof fn writings_part_a_text(front: Seq<char>, behind: Seq<char>)
    requires
        front.len() > 0,
        behind.len() > 0,
        ideographic(front.last()) != ideographic(behind[0]),
    ensures
        field_terms(front + behind) == field_terms(front) + field_terms(behind),
{
    ideographs_are_those_of_six_blocks(front.last());
    ideographs_are_those_of_six_blocks(behind[0]);
    lemma_split(front, behind);
}

/// Wordlike characters in a row are one term: the word in lower case.
pub proof fn a_word_is_one_term(word: Seq<char>)
    requires
        word.len() > 0,
        forall|i: int| 0 <= i < word.len() ==> wordlike(#[trigger] word[i]),
    ensures
        field_terms(word) == seq![text::lowercase(word)],
{
    assert forall|i: int| 0 <= i < word.len() implies class(#[trigger] word[i])
        == CharClass::Word by {
        ideographs_are_those_of_six_blocks(word[i]);
    }
    tokenizer::lemma_flush(word, Seq::empty(), CharClass::Word);
    assert(word + Seq::<char>::empty() =~= word);
    assert(field_terms(Seq::empty()) =~= Seq::empty());
    assert(field_terms(word) =~= seq![text::lowercase(word)]);
}

/// Ideographic characters in a row are as many terms as there are neighbours, each
/// of two characters; one such character alone is a term.
pub proof fn ideographs_are_taken_two_by_two(run: Seq<char>)
    requires
        run.len() > 0,
        forall|i: int| 0 <= i < run.len() ==> ideographic(#[trigger] run[i]),
    ensures
        run.len() == 1 ==> field_terms(run) == seq![run],
        run.len() == 2 ==> field_terms(run) == seq![run],
        run.len() >= 2 ==> field_terms(run).len() == run.len() - 1,
        run.len() >= 2 ==> forall|i: int|
            0 <= i < run.len() - 1 ==> #[trigger] field_terms(run)[i] == seq![run[i], run[i + 1]],
{
    assert forall|i: int| 0 <= i < run.len() implies class(#[trigger] run[i])
        == CharClass::Cjk by {
        ideographs_are_those_of_six_blocks(run[i]);
    }
    let terms = field_terms(run);
    tokenizer::lemma_flush(run, Seq::empty(), CharClass::Cjk);
    assert(run + Seq::<char>::empty() =~= run);
    assert(field_terms(Seq::empty()) =~= Seq::empty());
    assert(terms =~= tokenizer::run_terms(run, CharClass::Cjk));
    if run.len() >= 2 {
        assert forall|i: int| 0 <= i < run.len() - 1 implies #[trigger] terms[i] == seq![
            run[i],
            run[i + 1],
        ] by {
            assert(terms[i] =~= seq![run[i], run[i + 1]]);
        }
    }
    if run.len() == 2 {
        assert(run =~= seq![run[0], run[1]]);
        assert(terms =~= seq![run]);
    }
}

/// A text all of whose characters separate has no terms.
pub proof fn separators_are_no_terms(text: Seq<char>)
    requires
        forall|i: int|
            0 <= i < text.len() ==> !wordlike(#[trigger] text[i]) && !ideographic(text[i]),
    ensures
        field_terms(text).len() == 0,
    decreases text.len(),
{
    if text.len() > 0 {
        let fewer = text.drop_last();
        separators_are_no_terms(fewer);
        separators_part_a_text(fewer, text.last(), Seq::empty());
        assert(fewer.push(text.last()) + Seq::<char>::empty() =~= text);
    }
}

} // verus!
