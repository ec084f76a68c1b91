//! Strings as the database sees them: case folding, character classes, the
//! order of terms, and maps keyed by terms.
use std::sync::Arc;
use vstd::prelude::*;
use vstd::utf8::{encode_utf8, valid_utf8};

verus! {

/// What `str::to_lowercase` makes of a text.
pub uninterp spec fn lowercase(text: Seq<char>) -> Seq<char>;

/// What `char::is_alphanumeric` says of a character.
pub uninterp spec fn alphanumeric(ch: char) -> bool;

/// `str::to_lowercase` depends on the text alone. Each character is mapped to
/// one or more characters, so only the empty text has an empty image.
pub assume_specification[ str::to_lowercase ](chars: &str) -> (lower: String)
    ensures
        lower@ == lowercase(chars@),
        chars@.len() > 0 ==> lower@.len() > 0,
;

/// `char::is_alphanumeric` depends on the character alone.
pub assume_specification[ char::is_alphanumeric ](ch: char) -> (result: bool)
    ensures
        result == alphanumeric(ch),
;

/// `String::push` appends one character.
pub assume_specification[ String::push ](string: &mut String, ch: char)
    ensures
        final(string)@ == old(string)@.push(ch),
;

/// `String::from_utf8` succeeds exactly on well-formed UTF-8, with the text that
/// has those bytes.
#[verifier::external_body]
pub(crate) fn string_from_utf8(bytes: Vec<u8>) -> (text: Option<String>)
    ensures
        match text {
            Some(text) => valid_utf8(bytes@) && encode_utf8(text@) == bytes@,
            None => !valid_utf8(bytes@),
        },
{
    String::from_utf8(bytes).ok()
}

/// `Arc::clone` gives a second handle to the same value.
#[verifier::external_body]
pub(crate) fn share<T>(shared: &Arc<T>) -> (copy: Arc<T>)
    ensures
        copy == *shared,
{
    Arc::clone(shared)
}

/// Whether `left` comes before `right` in dictionary order.
pub open spec fn bytes_before(left: Seq<u8>, right: Seq<u8>) -> bool
    decreases left.len(),
{
    if right.len() == 0 {
        false
    } else if left.len() == 0 {
        true
    } else if left[0] != right[0] {
        left[0] < right[0]
    } else {
        bytes_before(left.skip(1), right.skip(1))
    }
}

/// Texts are ordered by their UTF-8 bytes.
pub open spec fn text_before(left: Seq<char>, right: Seq<char>) -> bool {
    bytes_before(encode_utf8(left), encode_utf8(right))
}

/// Whether the UTF-8 bytes of `text` begin with those of `prefix`.
pub open spec fn starts_with(text: Seq<char>, prefix: Seq<char>) -> bool {
    encode_utf8(prefix).is_prefix_of(encode_utf8(text))
}

/// A text begins with another if and only if its first characters are those of the
/// other.
pub proof fn beginnings_are_first_characters(text: Seq<char>, prefix: Seq<char>)
    ensures
        starts_with(text, prefix) == prefix.is_prefix_of(text),
    decreases prefix.len(),
{
    let (p, t) = (encode_utf8(prefix), encode_utf8(text));
    if prefix.len() == 0 {
        assert(p =~= t.subrange(0, 0));
        assert(prefix =~= text.subrange(0, 0));
    } else {
        vstd::utf8::encode_utf8_first_scalar(prefix);
        vstd::utf8::char_is_scalar(prefix[0]);
        let (few, rest) = (prefix.drop_first(), text.drop_first());
        let head = vstd::utf8::encode_scalar(prefix[0] as u32);
        assert(p == head + encode_utf8(few));
        if text.len() > 0 {
            vstd::utf8::encode_utf8_first_scalar(text);
            let first = vstd::utf8::encode_scalar(text[0] as u32);
            assert(t == first + encode_utf8(rest));
            beginnings_are_first_characters(rest, few);
            if p.is_prefix_of(t) {
                assert forall|i: int| 0 <= i < p.len() implies #[trigger] p[i] == t[i] by {
                    assert(t.subrange(0, p.len() as int)[i] == t[i]);
                }
                assert(prefix[0] as u32 == text[0] as u32);
                let code = text[0] as u32;
                vstd::utf8::char_u32_cast(prefix[0], code);
                vstd::utf8::char_u32_cast(text[0], code);
                assert(prefix[0] == text[0]);
                assert(encode_utf8(few) =~= encode_utf8(rest).subrange(
                    0,
                    encode_utf8(few).len() as int,
                )) by {
                    assert forall|i: int| 0 <= i < encode_utf8(few).len() implies encode_utf8(
                        few,
                    )[i] == #[trigger] encode_utf8(rest)[i] by {
                        assert(p[head.len() + i] == t[head.len() + i]);
                    }
                }
                assert(few.is_prefix_of(rest));
                assert forall|i: int| 0 <= i < prefix.len() implies prefix[i]
                    == #[trigger] text[i] by {
                    if i > 0 {
                        assert(few[i - 1] == rest.subrange(0, few.len() as int)[i - 1]);
                    }
                }
                assert(prefix =~= text.subrange(0, prefix.len() as int));
            }
            if prefix.is_prefix_of(text) {
                assert(prefix[0] == text.subrange(0, prefix.len() as int)[0]);
                assert(few =~= rest.subrange(0, few.len() as int)) by {
                    assert forall|i: int| 0 <= i < few.len() implies few[i]
                        == #[trigger] rest[i] by {
                        assert(prefix[i + 1] == text.subrange(0, prefix.len() as int)[i + 1]);
                    }
                }
                assert(p =~= t.subrange(0, p.len() as int)) by {
                    assert forall|i: int| 0 <= i < p.len() implies p[i] == #[trigger] t[i] by {
                        if i >= head.len() {
                            assert(encode_utf8(few)[i - head.len()] == encode_utf8(rest).subrange(
                                0,
                                encode_utf8(few).len() as int,
                            )[i - head.len()]);
                        }
                    }
                }
            }
        }
    }
}

/// The characters of each string.
pub open spec fn texts(strings: Seq<String>) -> Seq<Seq<char>> {
    strings.map_values(|string: String| string@)
}

/// How one text lies to another.
#[derive(Clone, Copy, Debug, PartialEq, Eq, Structural)]
pub enum TextOrder {
    Before,
    Same,
    After,
}

/// Different texts have different UTF-8 bytes.
pub proof fn utf8_injective(left: Seq<char>, right: Seq<char>)
    requires
        encode_utf8(left) == encode_utf8(right),
    ensures
        left == right,
{
    vstd::utf8::encode_utf8_decode_utf8(left);
    vstd::utf8::encode_utf8_decode_utf8(right);
}

proof fn lemma_bytes_before_irreflexive(bytes: Seq<u8>)
    ensures
        !bytes_before(bytes, bytes),
    decreases bytes.len(),
{
    if bytes.len() > 0 {
        lemma_bytes_before_irreflexive(bytes.skip(1));
    }
}

proof fn lemma_bytes_before_transitive(a: Seq<u8>, b: Seq<u8>, c: Seq<u8>)
    requires
        bytes_before(a, b),
        bytes_before(b, c),
    ensures
        bytes_before(a, c),
    decreases a.len(),
{
    if a.len() > 0 && b.len() > 0 && c.len() > 0 && a[0] == b[0] && b[0] == c[0] {
        lemma_bytes_before_transitive(a.skip(1), b.skip(1), c.skip(1));
    }
}

proof fn lemma_bytes_before_total(a: Seq<u8>, b: Seq<u8>)
    ensures
        a == b || bytes_before(a, b) || bytes_before(b, a),
    decreases a.len(),
{
    if a.len() > 0 && b.len() > 0 {
        if a[0] == b[0] {
            lemma_bytes_before_total(a.skip(1), b.skip(1));
            if a.skip(1) == b.skip(1) {
                assert(a =~= seq![a[0]] + a.skip(1));
                assert(b =~= seq![b[0]] + b.skip(1));
            }
        }
    } else if a.len() == 0 && b.len() == 0 {
        assert(a =~= b);
    }
}

/// The order of texts is strict and total.
pub proof fn text_order_laws(a: Seq<char>, b: Seq<char>, c: Seq<char>)
    ensures
        !text_before(a, a),
        text_before(a, b) && text_before(b, c) ==> text_before(a, c),
        a == b || text_before(a, b) || text_before(b, a),
        !(text_before(a, b) && text_before(b, a)),
{
    let (x, y, z) = (encode_utf8(a), encode_utf8(b), encode_utf8(c));
    lemma_bytes_before_irreflexive(x);
    if bytes_before(x, y) && bytes_before(y, z) {
        lemma_bytes_before_transitive(x, y, z);
    }
    lemma_bytes_before_total(x, y);
    if x == y {
        utf8_injective(a, b);
    }
    if bytes_before(x, y) && bytes_before(y, x) {
        lemma_bytes_before_transitive(x, y, x);
    }
}

/// Each text stands before those behind it.
pub open spec fn sorted_texts(texts: Seq<Seq<char>>) -> bool {
    forall|i: int, j: int|
        0 <= i < j < texts.len() ==> text_before(#[trigger] texts[i], #[trigger] texts[j])
}

/// Sorted texts are determined by which they are.
pub proof fn sorted_texts_agree(a: Seq<Seq<char>>, b: Seq<Seq<char>>)
    requires
        sorted_texts(a),
        sorted_texts(b),
        forall|text: Seq<char>| #[trigger] a.contains(text) == b.contains(text),
    ensures
        a == b,
    decreases a.len(),
{
    if a.len() == 0 {
        if b.len() > 0 {
            assert(b.contains(b[0]));
            assert(a.contains(b[0]));
        }
        assert(a =~= b);
    } else {
        assert(a.contains(a[a.len() - 1]));
        assert(b.contains(a[a.len() - 1]));
        let (x, y) = (a.last(), b.last());
        assert(b.contains(b[b.len() - 1]));
        assert(a.contains(y));
        let at = choose|i: int| 0 <= i < b.len() && b[i] == x;
        let place = choose|i: int| 0 <= i < a.len() && a[i] == y;
        text_order_laws(x, y, x);
        text_order_laws(x, x, x);
        assert(x == y) by {
            if at < b.len() - 1 && place < a.len() - 1 {
                assert(text_before(b[at], b[b.len() - 1]));
                assert(text_before(a[place], a[a.len() - 1]));
            }
        }
        let (front, other) = (a.drop_last(), b.drop_last());
        assert forall|text: Seq<char>| #[trigger] front.contains(text) == other.contains(text) by {
            assert(a.contains(text) == b.contains(text));
            if front.contains(text) {
                let i = choose|i: int| 0 <= i < front.len() && front[i] == text;
                assert(a[i] == text && text_before(a[i], a[a.len() - 1]));
                let j = choose|j: int| 0 <= j < b.len() && b[j] == text;
                assert(j < b.len() - 1);
                assert(other[j] == text);
            }
            if other.contains(text) {
                let i = choose|i: int| 0 <= i < other.len() && other[i] == text;
                assert(b[i] == text && text_before(b[i], b[b.len() - 1]));
                let j = choose|j: int| 0 <= j < a.len() && a[j] == text;
                assert(j < a.len() - 1);
                assert(front[j] == text);
            }
        }
        sorted_texts_agree(front, other);
        assert(a =~= front.push(x));
        assert(b =~= other.push(y));
    }
}

proof fn lemma_prefix_not_after(prefix: Seq<u8>, bytes: Seq<u8>)
    requires
        prefix.is_prefix_of(bytes),
    ensures
        !bytes_before(bytes, prefix),
    decreases prefix.len(),
{
    if prefix.len() > 0 {
        assert(prefix[0] == bytes.take(prefix.len() as int)[0]);
        assert(prefix.skip(1) =~= bytes.skip(1).take(prefix.len() - 1)) by {
            assert(prefix =~= bytes.take(prefix.len() as int));
        }
        assert(prefix.skip(1).is_prefix_of(bytes.skip(1)));
        lemma_prefix_not_after(prefix.skip(1), bytes.skip(1));
    }
}

proof fn lemma_prefix_run_ends(prefix: Seq<u8>, a: Seq<u8>, b: Seq<u8>)
    requires
        !bytes_before(a, prefix),
        !prefix.is_prefix_of(a),
        bytes_before(a, b),
    ensures
        !prefix.is_prefix_of(b),
    decreases prefix.len(),
{
    if prefix.len() == 0 {
        assert(a.take(0) =~= prefix);
    } else if prefix.is_prefix_of(b) {
        assert(prefix =~= b.take(prefix.len() as int));
        assert(prefix[0] == b[0]);
        if a.len() > 0 && a[0] == prefix[0] {
            assert(prefix.skip(1) =~= b.skip(1).take(prefix.len() - 1));
            assert(prefix.skip(1).is_prefix_of(b.skip(1)));
            if prefix.skip(1).is_prefix_of(a.skip(1)) {
                assert(prefix =~= a.take(prefix.len() as int)) by {
                    assert(prefix.skip(1) =~= a.skip(1).take(prefix.len() - 1));
                    assert forall|i: int| 0 <= i < prefix.len() implies prefix[i] == a[i] by {
                        if i > 0 {
                            assert(prefix.skip(1)[i - 1] == a.skip(1).take(prefix.len() - 1)[i - 1]);
                        }
                    }
                }
            }
            lemma_prefix_run_ends(prefix.skip(1), a.skip(1), b.skip(1));
        }
    }
}

/// In dictionary order the texts with a given prefix stand together: none comes
/// before the prefix itself, and none comes after a later text without it.
pub proof fn prefix_run(prefix: Seq<char>, a: Seq<char>, b: Seq<char>)
    ensures
        starts_with(a, prefix) ==> !text_before(a, prefix),
        !text_before(a, prefix) && !starts_with(a, prefix) && text_before(a, b) ==> !starts_with(
            b,
            prefix,
        ),
{
    let (p, x, y) = (encode_utf8(prefix), encode_utf8(a), encode_utf8(b));
    if p.is_prefix_of(x) {
        lemma_prefix_not_after(p, x);
    } else if !bytes_before(x, p) && bytes_before(x, y) {
        lemma_prefix_run_ends(p, x, y);
    }
}

/// Compares two texts by their UTF-8 bytes.
pub fn text_order(left: &str, right: &str) -> (order: TextOrder)
    ensures
        match order {
            TextOrder::Before => text_before(left@, right@),
            TextOrder::Same => left@ == right@,
            TextOrder::After => text_before(right@, left@),
        },
{
    let a: &[u8] = left.as_bytes();
    let b: &[u8] = right.as_bytes();
    let mut index: usize = 0;
    assert(a@.skip(0) =~= a@ && b@.skip(0) =~= b@);
    while index < a.len() && index < b.len()
        invariant
            index <= a@.len(),
            index <= b@.len(),
            forall|i: int| 0 <= i < index ==> a@[i] == b@[i],
            bytes_before(a@, b@) == bytes_before(a@.skip(index as int), b@.skip(index as int)),
            bytes_before(b@, a@) == bytes_before(b@.skip(index as int), a@.skip(index as int)),
            a@ == encode_utf8(left@),
            b@ == encode_utf8(right@),
        decreases a@.len() - index,
    {
        assert(a@.skip(index as int).skip(1) =~= a@.skip(index + 1));
        assert(b@.skip(index as int).skip(1) =~= b@.skip(index + 1));
        if a[index] < b[index] {
            return TextOrder::Before;
        }
        if b[index] < a[index] {
            return TextOrder::After;
        }
        index = index + 1;
    }
    if index < b.len() {
        TextOrder::Before
    } else if index < a.len() {
        TextOrder::After
    } else {
        assert(a@ =~= b@);
        proof {
            utf8_injective(left@, right@);
        }
        TextOrder::Same
    }
}

/// Whether `text` begins with `prefix`.
pub fn has_prefix(text: &str, prefix: &str) -> (result: bool)
    ensures
        result == starts_with(text@, prefix@),
{
    let a: &[u8] = text.as_bytes();
    let p: &[u8] = prefix.as_bytes();
    if p.len() > a.len() {
        return false;
    }
    let mut index: usize = 0;
    while index < p.len()
        invariant
            index <= p@.len() <= a@.len(),
            forall|i: int| 0 <= i < index ==> a@[i] == p@[i],
            a@ == encode_utf8(text@),
            p@ == encode_utf8(prefix@),
        decreases p@.len() - index,
    {
        if a[index] != p[index] {
            assert(a@.take(p@.len() as int)[index as int] != p@[index as int]);
            return false;
        }
        index = index + 1;
    }
    assert(p@ =~= a@.take(p@.len() as int));
    true
}

/// Whether the UTF-8 bytes of `text` end with those of `suffix`.
pub open spec fn ends_with(text: Seq<char>, suffix: Seq<char>) -> bool {
    encode_utf8(suffix).is_suffix_of(encode_utf8(text))
}

/// Whether `text` ends with `suffix`.
pub fn has_suffix(text: &str, suffix: &str) -> (result: bool)
    ensures
        result == ends_with(text@, suffix@),
{
    let a: &[u8] = text.as_bytes();
    let p: &[u8] = suffix.as_bytes();
    if p.len() > a.len() {
        return false;
    }
    let end: usize = a.len();
    let start: usize = end - p.len();
    let mut index: usize = 0;
    while index < p.len()
        invariant
            start + p@.len() == end,
            end == a@.len(),
            index <= p@.len(),
            a@ == encode_utf8(text@),
            p@ == encode_utf8(suffix@),
            forall|i: int| 0 <= i < index ==> a@[start + i] == p@[i],
        decreases p@.len() - index,
    {
        if a[start + index] != p[index] {
            assert(a@.subrange(start as int, a@.len() as int)[index as int] != p@[index as int]);
            return false;
        }
        index = index + 1;
    }
    assert(a@.subrange(start as int, a@.len() as int) =~= p@);
    true
}

/// A map from terms to values, kept in the order of the terms.
#[derive(Debug)]
pub struct TermMap<V> {
    pub entries: Vec<(String, V)>,
}

impl<V> TermMap<V> {
    pub open spec fn spec_len(self) -> nat {
        self.entries@.len()
    }

    /// The term at `index`.
    pub open spec fn key(self, index: int) -> Seq<char> {
        self.entries@[index].0@
    }

    /// The value at `index`.
    pub open spec fn value(self, index: int) -> V {
        self.entries@[index].1
    }

    /// The terms stand in strictly increasing order.
    pub open spec fn wf(self) -> bool {
        forall|i: int, j: int|
            0 <= i < j < self.spec_len() ==> text_before(#[trigger] self.key(i), #[trigger] self.key(
                j,
            ))
    }

    /// Where `term` stands, if it is there.
    pub open spec fn position(self, term: Seq<char>) -> int {
        choose|i: int| 0 <= i < self.spec_len() && #[trigger] self.key(i) == term
    }

    pub open spec fn has(self, term: Seq<char>) -> bool {
        exists|i: int| 0 <= i < self.spec_len() && #[trigger] self.key(i) == term
    }

    /// The value of `term`, if it has one.
    pub open spec fn lookup(self, term: Seq<char>) -> Option<V> {
        if self.has(term) {
            Some(self.value(self.position(term)))
        } else {
            None
        }
    }

    /// In a well-formed map no term stands twice.
    pub proof fn lemma_lookup(self, index: int)
        requires
            self.wf(),
            0 <= index < self.spec_len(),
        ensures
            self.has(self.key(index)),
            self.position(self.key(index)) == index,
            self.lookup(self.key(index)) == Some(self.value(index)),
    {
        let term = self.key(index);
        let other = self.position(term);
        assert(self.key(other) == term);
        text_order_laws(term, term, term);
        if other < index {
            assert(text_before(self.key(other), self.key(index)));
        }
        if index < other {
            assert(text_before(self.key(index), self.key(other)));
        }
    }

    pub fn new() -> (map: Self)
        ensures
            map.wf(),
            map.spec_len() == 0,
            forall|term: Seq<char>| map.lookup(term) is None,
    {
        TermMap { entries: Vec::new() }
    }

    /// Finds `term`, or the place where it belongs.
    pub fn search(&self, term: &str) -> (found: (bool, usize))
        requires
            self.wf(),
        ensures
            found.1 <= self.spec_len(),
            found.0 == self.has(term@),
            found.0 ==> found.1 < self.spec_len() && self.key(found.1 as int) == term@,
            forall|i: int| 0 <= i < found.1 ==> text_before(#[trigger] self.key(i), term@),
            forall|i: int|
                found.1 <= i < self.spec_len() && !(found.0 && i == found.1) ==> text_before(
                    term@,
                    #[trigger] self.key(i),
                ),
    {
        let mut low: usize = 0;
        let mut high: usize = self.entries.len();
        while low < high
            invariant
                low <= high <= self.spec_len(),
                self.wf(),
                forall|i: int| 0 <= i < low ==> text_before(#[trigger] self.key(i), term@),
                forall|i: int|
                    high <= i < self.spec_len() ==> text_before(term@, #[trigger] self.key(i)),
            decreases high - low,
        {
            let middle: usize = low + (high - low) / 2;
            let order: TextOrder = text_order(self.entries[middle].0.as_str(), term);
            let ghost key = self.key(middle as int);
            match order {
                TextOrder::Before => {
                    assert forall|i: int| 0 <= i < middle + 1 implies text_before(
                        #[trigger] self.key(i),
                        term@,
                    ) by {
                        if i < middle {
                            assert(text_before(self.key(i), key));
                            text_order_laws(self.key(i), key, term@);
                        }
                    }
                    low = middle + 1;
                },
                TextOrder::Same => {
                    return (true, middle);
                },
                TextOrder::After => {
                    assert forall|i: int| middle <= i < self.spec_len() implies text_before(
                        term@,
                        #[trigger] self.key(i),
                    ) by {
                        if i > middle {
                            assert(text_before(key, self.key(i)));
                            text_order_laws(term@, key, self.key(i));
                        }
                    }
                    high = middle;
                },
            }
        }
        assert(!self.has(term@)) by {
            if self.has(term@) {
                let i = self.position(term@);
                assert(self.key(i) == term@);
                text_order_laws(term@, term@, term@);
            }
        }
        (false, low)
    }

    /// The value of `term`, if it has one.
    pub fn get(&self, term: &str) -> (value: Option<&V>)
        requires
            self.wf(),
        ensures
            match value {
                Some(value) => self.lookup(term@) == Some(*value),
                None => self.lookup(term@) is None,
            },
    {
        let (found, index) = self.search(term);
        if found {
            proof {
                self.lemma_lookup(index as int);
            }
            Some(&self.entries[index].1)
        } else {
            None
        }
    }

    /// Adds `term` at the place that `search` gave for it.
    pub fn insert_at(&mut self, index: usize, term: String, value: V)
        requires
            old(self).wf(),
            index <= old(self).spec_len(),
            forall|i: int| 0 <= i < index ==> text_before(#[trigger] old(self).key(i), term@),
            forall|i: int|
                index <= i < old(self).spec_len() ==> text_before(term@, #[trigger] old(self).key(i)),
        ensures
            final(self).wf(),
            final(self).entries@ == old(self).entries@.insert(index as int, (term, value)),
            final(self).lookup(term@) == Some(value),
            forall|other: Seq<char>|
                other != term@ ==> #[trigger] final(self).lookup(other) == old(self).lookup(other),
    {
        let ghost before = *self;
        self.entries.insert(index, (term, value));
        let ghost after = *self;
        proof {
            assert(forall|i: int| 0 <= i < index ==> after.key(i) == before.key(i));
            assert(forall|i: int|
                index < i < after.spec_len() ==> after.key(i) == before.key(i - 1));
            assert forall|i: int, j: int| 0 <= i < j < after.spec_len() implies text_before(
                #[trigger] after.key(i),
                #[trigger] after.key(j),
            ) by {
                if i < index && j > index {
                    assert(text_before(before.key(i), before.key(j - 1)));
                } else if j < index {
                    assert(text_before(before.key(i), before.key(j)));
                } else if i > index {
                    assert(text_before(before.key(i - 1), before.key(j - 1)));
                } else if j == index {
                    assert(text_before(before.key(i), term@));
                } else {
                    assert(text_before(term@, before.key(j - 1)));
                }
            }
            assert(after.key(index as int) == term@);
            after.lemma_lookup(index as int);
            assert forall|other: Seq<char>| other != term@ implies #[trigger] after.lookup(other)
                == before.lookup(other) by {
                if before.has(other) {
                    let at = before.position(other);
                    before.lemma_lookup(at);
                    let moved = if at < index {
                        at
                    } else {
                        at + 1
                    };
                    assert(after.key(moved) == other);
                    after.lemma_lookup(moved);
                } else if after.has(other) {
                    let at = after.position(other);
                    assert(after.key(at) == other);
                    let moved = if at < index {
                        at
                    } else {
                        at - 1
                    };
                    assert(before.key(moved) == other);
                }
            }
        }
    }

    /// Replaces the value at `index` and hands out the old one.
    pub fn replace_at(&mut self, index: usize, value: V) -> (replaced: V)
        requires
            old(self).wf(),
            index < old(self).spec_len(),
        ensures
            final(self).wf(),
            final(self).spec_len() == old(self).spec_len(),
            forall|i: int|
                0 <= i < old(self).spec_len() ==> #[trigger] final(self).key(i) == old(self).key(i),
            forall|i: int|
                0 <= i < old(self).spec_len() && i != index ==> #[trigger] final(self).value(i)
                    == old(self).value(i),
            final(self).value(index as int) == value,
            replaced == old(self).value(index as int),
            final(self).lookup(old(self).key(index as int)) == Some(value),
            forall|other: Seq<char>|
                other != old(self).key(index as int) ==> #[trigger] final(self).lookup(other)
                    == old(self).lookup(other),
    {
        let ghost before = *self;
        let mut value = value;
        std::mem::swap(&mut value, &mut self.entries[index].1);
        let ghost after = *self;
        proof {
            assert(forall|i: int| 0 <= i < before.spec_len() ==> after.key(i) == before.key(i));
            assert(after.wf());
            after.lemma_lookup(index as int);
            let term = before.key(index as int);
            assert forall|other: Seq<char>| other != term implies #[trigger] after.lookup(other)
                == before.lookup(other) by {
                if before.has(other) {
                    let at = before.position(other);
                    before.lemma_lookup(at);
                    assert(after.key(at) == other);
                    after.lemma_lookup(at);
                } else if after.has(other) {
                    let at = after.position(other);
                    assert(before.key(at) == other);
                }
            }
        }
        value
    }

    /// Takes the entry at `index` out of the map.
    pub fn remove_at(&mut self, index: usize) -> (removed: (String, V))
        requires
            old(self).wf(),
            index < old(self).spec_len(),
        ensures
            final(self).wf(),
            final(self).entries@ == old(self).entries@.remove(index as int),
            removed == old(self).entries@[index as int],
            final(self).lookup(old(self).key(index as int)) is None,
            forall|other: Seq<char>|
                other != old(self).key(index as int) ==> #[trigger] final(self).lookup(other)
                    == old(self).lookup(other),
    {
        let ghost before = *self;
        let removed = self.entries.remove(index);
        let ghost after = *self;
        proof {
            let term = before.key(index as int);
            assert(forall|i: int| 0 <= i < index ==> after.key(i) == before.key(i));
            assert(forall|i: int|
                index <= i < after.spec_len() ==> after.key(i) == before.key(i + 1));
            assert forall|i: int, j: int| 0 <= i < j < after.spec_len() implies text_before(
                #[trigger] after.key(i),
                #[trigger] after.key(j),
            ) by {
                let from = if i < index {
                    i
                } else {
                    i + 1
                };
                let to = if j < index {
                    j
                } else {
                    j + 1
                };
                assert(text_before(before.key(from), before.key(to)));
            }
            assert forall|other: Seq<char>| true implies #[trigger] after.lookup(other) == (
            if other == term {
                None
            } else {
                before.lookup(other)
            }) by {
                if after.has(other) {
                    let at = after.position(other);
                    let from = if at < index {
                        at
                    } else {
                        at + 1
                    };
                    assert(before.key(from) == other);
                    before.lemma_lookup(from);
                    before.lemma_lookup(index as int);
                } else if before.has(other) && other != term {
                    let from = before.position(other);
                    before.lemma_lookup(from);
                    let at = if from < index {
                        from
                    } else {
                        from - 1
                    };
                    assert(after.key(at) == other);
                }
            }
        }
        removed
    }
}

/// A copy of `texts` with the same characters.
pub fn copy_texts(texts: &Vec<String>) -> (copy: Vec<String>)
    ensures
        copy@ == texts@,
{
    let mut copy: Vec<String> = Vec::with_capacity(texts.len());
    let mut done: usize = 0;
    while done < texts.len()
        invariant
            done <= texts@.len(),
            copy@ == texts@.take(done as int),
        decreases texts@.len() - done,
    {
        copy.push(texts[done].clone());
        assert(texts@.take(done + 1) =~= texts@.take(done as int).push(texts@[done as int]));
        done = done + 1;
    }
    assert(texts@.take(done as int) =~= texts@);
    copy
}

} // verus!
