//! Finding positions in a source text, and trimming intervals to their code.

use core::cmp::Ordering;
use substring::Substring;
use vstd::prelude::*;
use vstd::std_specs::cmp::{PartialEqSpecImpl, PartialOrdSpecImpl};
use vstd::std_specs::iter::IteratorSpec;
use crate::permutation::{lemma_map_values_permutation, lemma_same_elements};
use crate::region::{point, pos_le, Region};

verus! {

/// A place in a text: a line and a column, both counted from 1, and, once it
/// has been looked up, the number of characters that come before it.
///
/// Two places are equal when line and column are, and they are ordered by
/// line and then by column; `pos` plays no part in either.
#[derive(Clone, Copy, Debug)]
pub struct StrPos {
    pub line: usize,
    pub col: usize,
    pub pos: Option<usize>,
}

impl StrPos {
    /// Line and column as a pair of integers.
    pub open spec fn key(self) -> (int, int) {
        (self.line as int, self.col as int)
    }

    /// How `self` stands to `other`: by line first, then by column.
    pub open spec fn ordering(self, other: StrPos) -> Ordering {
        if self.line < other.line {
            Ordering::Less
        } else if self.line > other.line {
            Ordering::Greater
        } else if self.col < other.col {
            Ordering::Less
        } else if self.col > other.col {
            Ordering::Greater
        } else {
            Ordering::Equal
        }
    }

    /// The place at `line` and `col`, not yet looked up.
    pub fn new(line: usize, col: usize) -> (p: Self)
        ensures
            p == (StrPos { line, col, pos: None }),
    {
        Self { line, col, pos: None }
    }

    /// Moves past the character `next.1`: the offset grows by one, and line
    /// and column go on as [`step`] says. A place that has no offset yet
    /// gets one from `next.0`, which is then taken as the number of
    /// characters that come before `next.1` in its text.
    pub fn advance(&mut self, next: (usize, char))
        requires
            offset_after(old(self).pos, next.0) <= usize::MAX,
            next.1 == '\n' ==> old(self).line < usize::MAX,
            next.1 != '\n' ==> old(self).col < usize::MAX,
        ensures
            final(self).pos == Some(offset_after(old(self).pos, next.0) as usize),
            final(self).key() == step(old(self).key(), next.1),
    {
        self.pos = Some(
            match self.pos {
                Some(offset) => offset + 1,
                None => next.0 + 1,
            },
        );
        if next.1 == '\n' {
            self.line += 1;
            self.col = 1;
        } else {
            self.col += 1;
        }
    }

    /// Compares by line first, then by column.
    pub fn cmp(&self, other: &Self) -> (o: Ordering)
        ensures
            o == self.ordering(*other),
    {
        if self.line < other.line {
            Ordering::Less
        } else if self.line > other.line {
            Ordering::Greater
        } else if self.col < other.col {
            Ordering::Less
        } else if self.col > other.col {
            Ordering::Greater
        } else {
            Ordering::Equal
        }
    }
}

impl PartialEq for StrPos {
    fn eq(&self, other: &Self) -> (equal: bool) {
        self.line == other.line && self.col == other.col
    }
}

impl PartialEqSpecImpl for StrPos {
    open spec fn obeys_eq_spec() -> bool {
        true
    }

    open spec fn eq_spec(&self, other: &Self) -> bool {
        self.line == other.line && self.col == other.col
    }
}

impl Eq for StrPos {

}

impl PartialOrd for StrPos {
    fn partial_cmp(&self, other: &Self) -> (o: Option<Ordering>) {
        Some(self.cmp(other))
    }
}

impl PartialOrdSpecImpl for StrPos {
    open spec fn obeys_partial_cmp_spec() -> bool {
        true
    }

    open spec fn partial_cmp_spec(&self, other: &Self) -> Option<Ordering> {
        Some(self.ordering(*other))
    }
}

/// The offset of a place one character after a place with the offset `pos`:
/// one more. Where `pos` is none, `index` is taken for it.
pub open spec fn offset_after(pos: Option<usize>, index: usize) -> int {
    match pos {
        Some(offset) => offset + 1,
        None => index + 1,
    }
}

/// Whether `c` is whitespace, as `char::is_whitespace` tells it.
pub uninterp spec fn white_space(c: char) -> bool;

/// Calls `char::is_whitespace`, which says whether a character has the
/// Unicode property White_Space. The contract gives that answer a name and
/// claims nothing else about it.
#[verifier::external_body]
fn is_whitespace(c: char) -> (b: bool)
    ensures
        b == white_space(c),
{
    c.is_whitespace()
}

/// The position one character after `p`: a line feed begins the next line,
/// any other character takes one column.
pub open spec fn step(p: (int, int), c: char) -> (int, int) {
    if c == '\n' {
        (p.0 + 1, 1)
    } else {
        (p.0, p.1 + 1)
    }
}

/// The position reached from `p` by reading all of `text`.
pub open spec fn advanced(p: (int, int), text: Seq<char>) -> (int, int)
    decreases text.len(),
{
    if text.len() == 0 {
        p
    } else {
        step(advanced(p, text.drop_last()), text.last())
    }
}

/// How many whitespace characters `text` begins with.
pub open spec fn leading_space(text: Seq<char>) -> nat
    decreases text.len(),
{
    if text.len() == 0 || !white_space(text[0]) {
        0
    } else {
        1 + leading_space(text.drop_first())
    }
}

/// The length of `text` without the whitespace it ends with: the index just
/// after its last character that is not whitespace, or 0 if it has none.
pub open spec fn content_end(text: Seq<char>) -> nat
    decreases text.len(),
{
    if text.len() == 0 {
        0
    } else if !white_space(text.last()) {
        text.len()
    } else {
        content_end(text.drop_last())
    }
}

/// `text` without the whitespace at either end.
pub open spec fn trimmed(text: Seq<char>) -> Seq<char> {
    if content_end(text) == 0 {
        Seq::empty()
    } else {
        text.subrange(leading_space(text) as int, content_end(text) as int)
    }
}

/// Whether line and column of `p` can each be held in a `usize`.
pub open spec fn fits(p: (int, int)) -> bool {
    p.0 <= usize::MAX && p.1 <= usize::MAX
}

/// Whether every place on the way from `start` to the end of the code in
/// `text` can be held in a `usize` pair. Whitespace after the code does not
/// count, so a text of nothing but whitespace always fits.
pub open spec fn content_fits(start: (usize, usize), text: Seq<char>) -> bool {
    forall|k: int|
        0 <= k <= content_end(text) ==> fits(#[trigger] advanced(point(start), text.take(k)))
}

/// Where a narrowing stands after part of a text: where the code starts as
/// far as it is known, where it ends so far, the place after what was read,
/// and whether any code was read.
#[derive(Clone, Copy, Debug, PartialEq, Eq)]
pub struct Shrink {
    pub start: (usize, usize),
    pub end: (usize, usize),
    pub running: (usize, usize),
    pub seen: bool,
}

/// The narrowing `state` after one more character `c`, which is whitespace
/// if `blank` says so. The place read up to moves on by one step. Whitespace
/// before any code moves the start along; code moves the end to just after
/// itself; whitespace after code moves neither.
pub open spec fn shrink_stepped(state: Shrink, c: char, blank: bool) -> Shrink {
    let next = step(point(state.running), c);
    let next = (next.0 as usize, next.1 as usize);
    Shrink {
        start: if blank && !state.seen {
            next
        } else {
            state.start
        },
        end: if blank {
            state.end
        } else {
            next
        },
        running: next,
        seen: state.seen || !blank,
    }
}

/// `region`, which spans `text`, narrowed to what `text` holds besides the
/// whitespace at its ends. Where `text` is nothing but whitespace the result
/// is the empty interval at the region's start.
pub open spec fn shrinkwrapped(region: Region, text: Seq<char>) -> Region {
    let from = point(region.start);
    let start = advanced(from, text.take(leading_space(text) as int));
    let end = advanced(from, text.take(content_end(text) as int));
    if content_end(text) == 0 {
        Region { end: region.start, ..region }
    } else {
        Region {
            start: (start.0 as usize, start.1 as usize),
            end: (end.0 as usize, end.1 as usize),
            ..region
        }
    }
}

/// Reading a text moves a position by at most one line and at most one
/// column for each character.
pub proof fn lemma_advanced_bounds(p: (int, int), text: Seq<char>)
    requires
        0 <= p.0,
        0 <= p.1,
    ensures
        p.0 <= advanced(p, text).0 <= p.0 + text.len(),
        1 <= advanced(p, text).1 || advanced(p, text).1 == p.1,
        0 <= advanced(p, text).1 <= p.1 + text.len(),
    decreases text.len(),
{
    if text.len() > 0 {
        lemma_advanced_bounds(p, text.drop_last());
    }
}

/// What one more character does to the count of leading whitespace.
pub proof fn lemma_leading_space_push(text: Seq<char>, c: char)
    ensures
        leading_space(text) <= text.len(),
        leading_space(text.push(c)) == if leading_space(text) == text.len() && white_space(c) {
            text.len() + 1
        } else {
            leading_space(text)
        },
    decreases text.len(),
{
    let longer = text.push(c);
    if text.len() == 0 {
        assert(longer.drop_first() =~= Seq::<char>::empty());
        assert(leading_space(longer.drop_first()) == 0);
        assert(longer[0] == c);
    } else {
        lemma_leading_space_push(text.drop_first(), c);
        assert(longer.drop_first() =~= text.drop_first().push(c));
        assert(longer[0] == text[0]);
    }
}

/// The leading whitespace of a text ends before its content does, unless the
/// text has no content.
pub proof fn lemma_content_bounds(text: Seq<char>)
    ensures
        leading_space(text) <= text.len(),
        content_end(text) <= text.len(),
        content_end(text) == 0 <==> leading_space(text) == text.len(),
        content_end(text) > 0 ==> leading_space(text) < content_end(text),
        content_end(text) > 0 ==> !white_space(text[leading_space(text) as int]),
        content_end(text) > 0 ==> !white_space(text[content_end(text) - 1]),
        forall|i: int| 0 <= i < leading_space(text) ==> white_space(#[trigger] text[i]),
        forall|i: int| content_end(text) <= i < text.len() ==> white_space(#[trigger] text[i]),
    decreases text.len(),
{
    if text.len() > 0 {
        let front = text.drop_last();
        lemma_content_bounds(front);
        lemma_leading_space_push(front, text.last());
        assert(front.push(text.last()) =~= text);
    }
}

/// Where a reader of `text` stands after its first `k` characters, having
/// begun at line 1, column 1.
pub open spec fn cursor(text: Seq<char>, k: int) -> (int, int) {
    advanced((1, 1), text.take(k))
}

/// Whether a reader of `text` is at `target` or beyond it after `k`
/// characters.
pub open spec fn reached(text: Seq<char>, target: (int, int), k: int) -> bool {
    0 <= k <= text.len() && pos_le(target, cursor(text, k))
}

/// Whether `k` is the offset of `target` in `text`: the least number of
/// characters after which a reader is at `target` or beyond it.
pub open spec fn is_offset(text: Seq<char>, target: (int, int), k: int) -> bool {
    reached(text, target, k) && forall|j: int| 0 <= j < k ==> !reached(text, target, j)
}

/// Whether `target` has an offset in `text`: whether a reader is at `target`
/// or beyond it once the whole text is read.
pub open spec fn resolvable(text: Seq<char>, target: (int, int)) -> bool {
    reached(text, target, text.len() as int)
}

/// The offset of `target` in `text`, where it has one.
pub open spec fn offset_of(text: Seq<char>, target: (int, int)) -> int {
    choose|k: int| is_offset(text, target, k)
}

/// Whether the places of `positions` come in ascending order.
pub open spec fn ordered(positions: Seq<StrPos>) -> bool {
    forall|i: int, j: int|
        0 <= i <= j < positions.len() ==> pos_le(
            #[trigger] positions[i].key(),
            #[trigger] positions[j].key(),
        )
}

impl StrPos {
    /// `self` after it has been looked up in `text`: with its offset, where it
    /// has one, and as it is, where it has none.
    pub open spec fn resolved(self, text: Seq<char>) -> StrPos {
        if resolvable(text, self.key()) {
            StrPos { pos: Some(offset_of(text, self.key()) as usize), ..self }
        } else {
            self
        }
    }
}

/// Each of `positions` after it has been looked up in `text`.
pub open spec fn resolved_all(text: Seq<char>, positions: Seq<StrPos>) -> Seq<StrPos> {
    positions.map_values(|p: StrPos| p.resolved(text))
}

/// One more character moves the reader by one step.
pub proof fn lemma_cursor_step(text: Seq<char>, k: int)
    requires
        0 <= k < text.len(),
    ensures
        cursor(text, k + 1) == step(cursor(text, k), text[k]),
{
    assert(text.take(k + 1).drop_last() =~= text.take(k));
}

/// The reader never goes back: each character takes it to a later place.
pub proof fn lemma_cursor_increases(text: Seq<char>, j: int, k: int)
    requires
        0 <= j <= k <= text.len(),
    ensures
        pos_le(cursor(text, j), cursor(text, k)),
        j < k ==> cursor(text, j) != cursor(text, k),
        cursor(text, j).1 >= 1,
        1 <= cursor(text, j).0 <= j + 1,
        cursor(text, j).1 <= j + 1,
    decreases k - j,
{
    lemma_advanced_bounds((1, 1), text.take(j));
    if j < k {
        lemma_cursor_step(text, j);
        lemma_cursor_increases(text, j + 1, k);
    }
}

/// A place that has an offset has exactly one, and `offset_of` is it.
pub proof fn lemma_offset_unique(text: Seq<char>, target: (int, int), k: int)
    requires
        is_offset(text, target, k),
    ensures
        resolvable(text, target),
        offset_of(text, target) == k,
{
    lemma_cursor_increases(text, k, text.len() as int);
    let other = offset_of(text, target);
    assert(is_offset(text, target, other));
}

/// A place that the reader gets to has an offset.
pub proof fn lemma_offset_exists(text: Seq<char>, target: (int, int), k: int)
    requires
        reached(text, target, k),
    ensures
        is_offset(text, target, offset_of(text, target)),
        0 <= offset_of(text, target) <= k,
    decreases k,
{
    if forall|j: int| 0 <= j < k ==> !reached(text, target, j) {
        lemma_offset_unique(text, target, k);
    } else {
        let j = choose|j: int| 0 <= j < k && reached(text, target, j);
        lemma_offset_exists(text, target, j);
    }
}

/// The reader's place after `k` characters has the offset `k`: no earlier
/// place of the reader is at it or beyond it.
pub proof fn lemma_cursor_resolves(text: Seq<char>, k: int)
    requires
        0 <= k <= text.len(),
    ensures
        resolvable(text, cursor(text, k)),
        offset_of(text, cursor(text, k)) == k,
{
    assert forall|j: int| 0 <= j < k implies !reached(text, cursor(text, k), j) by {
        lemma_cursor_increases(text, j, k);
    }
    lemma_offset_unique(text, cursor(text, k), k);
}

/// The very start of a text, line 1 and column 1, has the offset 0.
pub proof fn lemma_start_resolves_to_zero(text: Seq<char>)
    ensures
        resolvable(text, (1, 1)),
        offset_of(text, (1, 1)) == 0,
{
    assert(text.take(0) =~= Seq::<char>::empty());
    lemma_cursor_resolves(text, 0);
}

/// The place just after the last character of a text has the length of the
/// text as its offset.
pub proof fn lemma_end_resolves_to_length(text: Seq<char>)
    ensures
        resolvable(text, cursor(text, text.len() as int)),
        offset_of(text, cursor(text, text.len() as int)) == text.len(),
{
    lemma_cursor_resolves(text, text.len() as int);
}

/// A lookup gives every place the offset that the text gives to its line and
/// column, whatever was looked up together with it. So two lookups in one
/// text, of the same places or of others, agree on every place that both
/// hold.
pub proof fn lemma_offsets_determined(
    text: Seq<char>,
    asked: Seq<StrPos>,
    found: Seq<StrPos>,
    asked_again: Seq<StrPos>,
    found_again: Seq<StrPos>,
)
    requires
        found.to_multiset() == resolved_all(text, asked).to_multiset(),
        found_again.to_multiset() == resolved_all(text, asked_again).to_multiset(),
    ensures
        forall|i: int|
            0 <= i < found.len() && resolvable(text, found[i].key()) ==> (#[trigger] found[i]).pos
                == Some(offset_of(text, found[i].key()) as usize),
        forall|i: int, j: int|
            0 <= i < found.len() && 0 <= j < found_again.len() && found[i].key()
                == found_again[j].key() && resolvable(text, found[i].key()) ==> (
            #[trigger] found[i]).pos == (#[trigger] found_again[j]).pos,
{
    lemma_offsets_of_lookup(text, asked, found);
    lemma_offsets_of_lookup(text, asked_again, found_again);
}

/// After a lookup every place that has an offset carries it.
proof fn lemma_offsets_of_lookup(text: Seq<char>, asked: Seq<StrPos>, found: Seq<StrPos>)
    requires
        found.to_multiset() == resolved_all(text, asked).to_multiset(),
    ensures
        forall|i: int|
            0 <= i < found.len() && resolvable(text, found[i].key()) ==> (#[trigger] found[i]).pos
                == Some(offset_of(text, found[i].key()) as usize),
{
    lemma_same_elements(found, resolved_all(text, asked));
    assert forall|i: int|
        0 <= i < found.len() && resolvable(text, found[i].key()) implies (#[trigger] found[i]).pos
        == Some(offset_of(text, found[i].key()) as usize) by {
        assert(resolved_all(text, asked).contains(found[i]));
        let m = choose|m: int| 0 <= m < asked.len() && resolved_all(text, asked)[m] == found[i];
        assert(found[i] == asked[m].resolved(text));
    }
}

/// Sorts with `slice::sort_by`, comparing by [`StrPos::cmp`]. The contract
/// says of it what std documents: afterwards the slice holds the elements it
/// held before, in ascending order. In which order equal places come is left
/// open here.
#[verifier::external_body]
fn sort_positions(positions: &mut [StrPos])
    ensures
        final(positions)@.to_multiset() == old(positions)@.to_multiset(),
        ordered(final(positions)@),
{
    positions.sort_by(|a, b| a.cmp(b));
}

/// The error of a lookup: the text ends before one of the places.
#[derive(Clone, Copy, Debug, PartialEq, Eq, Structural)]
pub struct PositionNotFound;

/// Looking places up one by one commutes with reordering them.
pub proof fn lemma_resolved_all_permutation(text: Seq<char>, a: Seq<StrPos>, b: Seq<StrPos>)
    requires
        a.to_multiset() == b.to_multiset(),
    ensures
        resolved_all(text, a).to_multiset() == resolved_all(text, b).to_multiset(),
{
    let lookup = |p: StrPos| p.resolved(text);
    lemma_map_values_permutation(a, b, lookup);
    assert(a.map_values(lookup) =~= resolved_all(text, a));
    assert(b.map_values(lookup) =~= resolved_all(text, b));
}

/// A lookup moves no place: places in ascending order stay so.
proof fn lemma_lookup_keeps_order(text: Seq<char>, positions: Seq<StrPos>)
    requires
        ordered(positions),
    ensures
        ordered(resolved_all(text, positions)),
{
    let found = resolved_all(text, positions);
    assert forall|i: int, j: int| 0 <= i <= j < found.len() implies pos_le(
        #[trigger] found[i].key(),
        #[trigger] found[j].key(),
    ) by {
        assert(pos_le(positions[i].key(), positions[j].key()));
    }
}

/// Looks up every one of `positions` in `string`, in one pass over it, and
/// leaves them sorted. A place that the text does not hold gets the offset of
/// the first place after it that the text does hold. The lookup fails when
/// the text ends before one of the places; those keep the `pos` they had.
pub fn find_all(string: &str, positions: &mut [StrPos]) -> (found: Result<(), PositionNotFound>)
    requires
        string@.len() < usize::MAX,
    ensures
        ordered(final(positions)@),
        final(positions)@.to_multiset() == resolved_all(string@, old(positions)@).to_multiset(),
        found is Ok <==> forall|i: int|
            0 <= i < old(positions)@.len() ==> resolvable(
                string@,
                #[trigger] old(positions)@[i].key(),
            ),
{
    sort_positions(positions);
    let ghost text = string@;
    let ghost sorted = positions@;
    let n = positions.len();
    let mut next_pos_index: usize = 0;

    let mut current_pos = StrPos::new(1, 1);
    current_pos.pos = Some(0);
    let mut offset: usize = 0;
    let mut chars = string.chars();

    proof {
        lemma_resolved_all_permutation(text, sorted, old(positions)@);
        lemma_same_elements(sorted, old(positions)@);
        assert(text.take(0) =~= Seq::<char>::empty());
    }

    while next_pos_index < n
        invariant
            text == string@,
            text.len() < usize::MAX,
            positions@.len() == n,
            sorted.len() == n,
            old(positions)@.len() == n,
            ordered(sorted),
            next_pos_index <= n,
            offset <= text.len(),
            chars.remaining() == text.skip(offset as int),
            current_pos.key() == cursor(text, offset as int),
            current_pos.pos == Some(offset),
            forall|i: int|
                0 <= i < next_pos_index ==> resolvable(text, sorted[i].key()) && #[trigger] positions@[i]
                    == sorted[i].resolved(text),
            forall|i: int| next_pos_index <= i < n ==> #[trigger] positions@[i] == sorted[i],
            forall|i: int, j: int|
                next_pos_index <= i < n && 0 <= j < offset ==> !#[trigger] reached(
                    text,
                    sorted[i].key(),
                    j,
                ),
            resolved_all(text, sorted).to_multiset() == resolved_all(
                text,
                old(positions)@,
            ).to_multiset(),
            forall|i: int| 0 <= i < n ==> old(positions)@.contains(#[trigger] sorted[i]),
        decreases (n - next_pos_index) + (text.len() - offset),
    {
        let ghost target = sorted[next_pos_index as int].key();
        proof {
            lemma_cursor_increases(text, offset as int, text.len() as int);
        }
        if current_pos >= positions[next_pos_index] {
            proof {
                assert(reached(text, target, offset as int));
                lemma_offset_unique(text, target, offset as int);
            }
            positions[next_pos_index].pos = current_pos.pos;
            next_pos_index += 1;
        } else {
            proof {
                assert forall|i: int| next_pos_index <= i < n implies !#[trigger] reached(
                    text,
                    sorted[i].key(),
                    offset as int,
                ) by {
                    assert(pos_le(target, sorted[i].key()));
                }
            }
            match chars.next() {
                Some(c) => {
                    proof {
                        assert(c == text[offset as int]);
                        assert(text.skip(offset as int).drop_first() =~= text.skip(offset + 1));
                        lemma_cursor_step(text, offset as int);
                    }
                    current_pos.advance((offset, c));
                    offset += 1;
                },
                None => {
                    proof {
                        assert(offset == text.len());
                        assert(!resolvable(text, target));
                        assert(positions@ =~= resolved_all(text, sorted));
                        lemma_lookup_keeps_order(text, sorted);
                        let missing = choose|m: int|
                            0 <= m < n && old(positions)@[m] == sorted[next_pos_index as int];
                        assert(!resolvable(text, old(positions)@[missing].key()));
                    }
                    return Err(PositionNotFound);
                },
            }
        }
    }
    proof {
        assert(positions@ =~= resolved_all(text, sorted));
        lemma_lookup_keeps_order(text, sorted);
        assert forall|i: int| 0 <= i < n implies resolvable(
            text,
            #[trigger] old(positions)@[i].key(),
        ) by {
            lemma_same_elements(old(positions)@, sorted);
            assert(sorted.contains(old(positions)@[i]));
            let m = choose|m: int| 0 <= m < n && sorted[m] == old(positions)@[i];
            assert(positions@[m] == sorted[m].resolved(text));
        }
    }
    Ok(())
}

/// The characters of `text` from index `start` up to index `end`, both cut
/// down to the length of `text`; none where `end` is not beyond `start`.
pub open spec fn char_range(text: Seq<char>, start: int, end: int) -> Seq<char> {
    if end <= start {
        Seq::empty()
    } else if start >= text.len() {
        Seq::empty()
    } else if end >= text.len() {
        text.subrange(start, text.len() as int)
    } else {
        text.subrange(start, end)
    }
}

/// Calls `Substring::substring` of the substring crate, which slices a string
/// by character indices. Its source returns the empty string where `end` is
/// not beyond `start`, and otherwise the characters from `start` up to `end`,
/// an index past the last character standing for the end of the string.
#[verifier::external_body]
fn char_substring<'a>(s: &'a str, start: usize, end: usize) -> (sub: &'a str)
    ensures
        sub@ == char_range(s@, start as int, end as int),
{
    s.substring(start, end)
}

/// The text that `region` spans in `text`: what lies between the offsets of
/// its two ends.
pub open spec fn region_text(text: Seq<char>, region: Region) -> Seq<char> {
    char_range(
        text,
        offset_of(text, point(region.start)),
        offset_of(text, point(region.end)),
    )
}

/// Whether both ends of `region` have an offset in `text`.
pub open spec fn spans_text(text: Seq<char>, region: Region) -> bool {
    resolvable(text, point(region.start)) && resolvable(text, point(region.end))
}

/// Finds, by bisection, a place with the given line and column among
/// `positions`, which are in ascending order and hold such a place.
fn locate(positions: &Vec<StrPos>, line: usize, col: usize) -> (index: usize)
    requires
        ordered(positions@),
        exists|i: int| 0 <= i < positions@.len() && positions@[i].key() == (line as int, col as int),
    ensures
        index < positions@.len(),
        positions@[index as int].key() == (line as int, col as int),
{
    let ghost target = (line as int, col as int);
    let mut low: usize = 0;
    let mut high: usize = positions.len();
    loop
        invariant
            ordered(positions@),
            target == (line as int, col as int),
            0 <= low < high <= positions@.len(),
            exists|i: int| low <= i < high && positions@[i].key() == target,
        decreases high - low,
    {
        let mid = low + (high - low) / 2;
        let here = &positions[mid];
        let ghost wanted = choose|i: int| low <= i < high && positions@[i].key() == target;
        if here.line == line && here.col == col {
            return mid;
        } else if here.line < line || (here.line == line && here.col < col) {
            proof {
                if wanted <= mid {
                    assert(pos_le(positions@[wanted].key(), positions@[mid as int].key()));
                }
            }
            low = mid + 1;
        } else {
            proof {
                if wanted >= mid {
                    assert(pos_le(positions@[mid as int].key(), positions@[wanted].key()));
                }
            }
            high = mid;
        }
    }
}

/// Pairs every region with the text that it spans in `file_content`: the
/// characters from the offset of its start up to the offset of its end. Fails
/// when the text ends before an end of one of the regions.
pub fn get_region_text<'a>(regions: Vec<Region>, file_content: &'a str) -> (texts: Result<
    Vec<(Region, &'a str)>,
    PositionNotFound,
>)
    requires
        file_content@.len() < usize::MAX,
    ensures
        texts is Ok <==> forall|i: int|
            0 <= i < regions@.len() ==> spans_text(file_content@, #[trigger] regions@[i]),
        texts matches Ok(pairs) ==> {
            &&& pairs@.len() == regions@.len()
            &&& forall|i: int|
                0 <= i < pairs@.len() ==> {
                    &&& (#[trigger] pairs@[i]).0 == regions@[i]
                    &&& pairs@[i].1@ == region_text(file_content@, regions@[i])
                }
        },
{
    let ghost text = file_content@;
    let mut positions = Vec::<StrPos>::new();

    for i in 0..regions.len()
        invariant
            positions@.len() == 2 * i,
            forall|j: int|
                0 <= j < i ==> {
                    &&& #[trigger] positions@[2 * j] == (StrPos {
                        line: regions@[j].start.0,
                        col: regions@[j].start.1,
                        pos: None,
                    })
                    &&& positions@[2 * j + 1] == (StrPos {
                        line: regions@[j].end.0,
                        col: regions@[j].end.1,
                        pos: None,
                    })
                },
    {
        let region = &regions[i];
        let start_pos = StrPos::new(region.start.0, region.start.1);
        let end_pos = StrPos::new(region.end.0, region.end.1);

        positions.push(start_pos);
        positions.push(end_pos);
    }

    let ghost asked = positions@;
    let found = find_all(file_content, positions.as_mut_slice());
    if found.is_err() {
        proof {
            let missing = choose|m: int|
                0 <= m < asked.len() && !resolvable(text, #[trigger] asked[m].key());
            let j = missing / 2;
            assert(asked[2 * j].key() == point(regions@[j].start));
            assert(asked[2 * j + 1].key() == point(regions@[j].end));
            assert(!spans_text(text, regions@[j]));
        }
        return Err(PositionNotFound);
    }
    proof {
        lemma_same_elements(resolved_all(text, asked), positions@);
        lemma_same_elements(positions@, resolved_all(text, asked));
        assert forall|j: int| 0 <= j < regions@.len() implies spans_text(
            text,
            #[trigger] regions@[j],
        ) by {
            assert(asked[2 * j].key() == point(regions@[j].start));
            assert(asked[2 * j + 1].key() == point(regions@[j].end));
        }
        assert forall|j: int| 0 <= j < regions@.len() implies positions@.contains(
            #[trigger] asked[2 * j].resolved(text),
        ) && positions@.contains(asked[2 * j + 1].resolved(text)) by {
            assert(resolved_all(text, asked)[2 * j] == asked[2 * j].resolved(text));
            assert(resolved_all(text, asked)[2 * j + 1] == asked[2 * j + 1].resolved(text));
        }
        assert forall|k: int| 0 <= k < positions@.len() implies (#[trigger] positions@[k]).pos
            == Some(offset_of(text, positions@[k].key()) as usize) && 0 <= offset_of(
            text,
            positions@[k].key(),
        ) <= text.len() by {
            assert(resolved_all(text, asked).contains(positions@[k]));
            let m = choose|m: int|
                0 <= m < asked.len() && resolved_all(text, asked)[m] == positions@[k];
            assert(resolvable(text, asked[m].key()));
            lemma_offset_exists(text, asked[m].key(), text.len() as int);
        }
    }

    let mut output: Vec<(Region, &'a str)> = Vec::new();

    for i in 0..regions.len()
        invariant
            text == file_content@,
            text.len() < usize::MAX,
            ordered(positions@),
            positions@.len() == asked.len(),
            asked.len() == 2 * regions@.len(),
            forall|j: int|
                0 <= j < regions@.len() ==> {
                    &&& positions@.contains(#[trigger] asked[2 * j].resolved(text))
                    &&& positions@.contains(asked[2 * j + 1].resolved(text))
                    &&& asked[2 * j].key() == point(regions@[j].start)
                    &&& asked[2 * j + 1].key() == point(regions@[j].end)
                },
            forall|k: int|
                0 <= k < positions@.len() ==> (#[trigger] positions@[k]).pos == Some(
                    offset_of(text, positions@[k].key()) as usize,
                ) && 0 <= offset_of(text, positions@[k].key()) <= text.len(),
            output@.len() == i,
            forall|j: int|
                0 <= j < i ==> {
                    &&& (#[trigger] output@[j]).0 == regions@[j]
                    &&& output@[j].1@ == region_text(text, regions@[j])
                },
    {
        let region = regions[i];
        proof {
            assert(positions@.contains(asked[2 * i].resolved(text)));
            assert(positions@.contains(asked[2 * i + 1].resolved(text)));
        }
        let start_index = locate(&positions, region.start.0, region.start.1);
        let start_pos = positions[start_index].pos.unwrap();

        let end_index = locate(&positions, region.end.0, region.end.1);
        let end_pos = positions[end_index].pos.unwrap();

        let region_substring = char_substring(file_content, start_pos, end_pos);
        output.push((region, region_substring));
    }

    Ok(output)
}

/// Reading one text and then another is reading the two in a row.
pub proof fn lemma_advanced_concat(p: (int, int), first: Seq<char>, second: Seq<char>)
    ensures
        advanced(p, first + second) == advanced(advanced(p, first), second),
    decreases second.len(),
{
    if second.len() == 0 {
        assert(first + second =~= first);
    } else {
        lemma_advanced_concat(p, first, second.drop_last());
        assert((first + second).drop_last() =~= first + second.drop_last());
    }
}

/// Reading on never leads back: each character takes a position to a later
/// one.
pub proof fn lemma_advanced_increases(p: (int, int), text: Seq<char>, j: int, k: int)
    requires
        0 <= j <= k <= text.len(),
    ensures
        pos_le(advanced(p, text.take(j)), advanced(p, text.take(k))),
        j < k ==> advanced(p, text.take(j)) != advanced(p, text.take(k)),
    decreases k - j,
{
    if j < k {
        assert(text.take(j + 1).drop_last() =~= text.take(j));
        lemma_advanced_increases(p, text, j + 1, k);
    }
}

/// A narrowed interval lies inside the one it was narrowed from: it starts
/// no earlier, ends no earlier than it starts, and ends no later than the
/// text does.
pub proof fn lemma_shrinkwrapped_within(region: Region, text: Seq<char>)
    requires
        content_fits(region.start, text),
    ensures
        pos_le(point(region.start), point(shrinkwrapped(region, text).start)),
        pos_le(point(shrinkwrapped(region, text).start), point(shrinkwrapped(region, text).end)),
        pos_le(point(shrinkwrapped(region, text).end), advanced(point(region.start), text)),
{
    let from = point(region.start);
    let lead = leading_space(text) as int;
    let end = content_end(text) as int;
    lemma_content_bounds(text);
    assert(text.take(0) =~= Seq::<char>::empty());
    assert(text.take(text.len() as int) =~= text);
    lemma_advanced_bounds(from, text.take(lead));
    lemma_advanced_bounds(from, text.take(end));
    lemma_advanced_increases(from, text, 0, text.len() as int);
    if end > 0 {
        lemma_advanced_increases(from, text, 0, lead);
        lemma_advanced_increases(from, text, lead, end);
        lemma_advanced_increases(from, text, end, text.len() as int);
    }
}

/// An interval whose text is nothing but whitespace shrinks to the empty
/// interval at its start, wherever it starts: such a text always fits.
pub proof fn lemma_blank_shrinks_to_start(region: Region, text: Seq<char>)
    requires
        forall|i: int| 0 <= i < text.len() ==> white_space(#[trigger] text[i]),
    ensures
        content_fits(region.start, text),
        shrinkwrapped(region, text) == (Region { end: region.start, ..region }),
{
    lemma_content_bounds(text);
    assert(text.take(0) =~= Seq::<char>::empty());
}

/// An interval that spans just its code is left alone: where the text begins
/// and ends with a character that is not whitespace, and the interval ends
/// where reading the text from its start leads, narrowing changes nothing,
/// whatever whitespace and line feeds lie inside.
pub proof fn lemma_tight_text_is_left_alone(region: Region, text: Seq<char>)
    requires
        text.len() > 0,
        !white_space(text[0]),
        !white_space(text.last()),
        point(region.end) == advanced(point(region.start), text),
    ensures
        shrinkwrapped(region, text) == region,
{
    assert(text.take(0) =~= Seq::<char>::empty());
    assert(text.take(text.len() as int) =~= text);
}

/// Shrinking twice is shrinking once: an interval that was narrowed to its
/// code, taken with the text that is left of it, stays as it is.
pub proof fn lemma_shrinkwrap_idempotent(region: Region, text: Seq<char>)
    requires
        content_fits(region.start, text),
    ensures
        shrinkwrapped(shrinkwrapped(region, text), trimmed(text)) == shrinkwrapped(region, text),
{
    let once = shrinkwrapped(region, text);
    let rest = trimmed(text);
    let from = point(region.start);
    lemma_content_bounds(text);
    if content_end(text) == 0 {
        assert(content_end(rest) == 0);
    } else {
        let lead = leading_space(text) as int;
        let end = content_end(text) as int;
        lemma_advanced_bounds(from, text.take(lead));
        lemma_advanced_bounds(from, text.take(end));
        assert(point(once.start) == advanced(from, text.take(lead)));
        assert(point(once.end) == advanced(from, text.take(end)));
        assert(rest[0] == text[lead]);
        assert(rest.last() == text[end - 1]);
        assert(leading_space(rest) == 0);
        assert(content_end(rest) == rest.len());
        assert(rest.take(0) =~= Seq::<char>::empty());
        assert(rest.take(rest.len() as int) =~= rest);
        assert(text.take(lead) + rest =~= text.take(end));
        lemma_advanced_concat(from, text.take(lead), rest);
    }
}

/// What an interval spans once it has been narrowed is the text that it
/// spanned before, without the whitespace at either end. This holds where
/// the interval starts at a place that the text has, `start` characters in,
/// and what it spans goes on to `end` characters in.
pub proof fn lemma_shrunk_region_spans_trimmed_text(
    text: Seq<char>,
    region: Region,
    start: int,
    end: int,
)
    requires
        0 <= start <= end <= text.len(),
        point(region.start) == cursor(text, start),
        content_fits(region.start, text.subrange(start, end)),
    ensures
        region_text(text, shrinkwrapped(region, text.subrange(start, end))) == trimmed(
            text.subrange(start, end),
        ),
{
    let span = text.subrange(start, end);
    let once = shrinkwrapped(region, span);
    let from = point(region.start);
    lemma_content_bounds(span);
    if content_end(span) == 0 {
        lemma_cursor_resolves(text, start);
    } else {
        let lead = leading_space(span) as int;
        let last = content_end(span) as int;
        lemma_advanced_bounds(from, span.take(lead));
        lemma_advanced_bounds(from, span.take(last));
        assert(text.take(start) + span.take(lead) =~= text.take(start + lead));
        assert(text.take(start) + span.take(last) =~= text.take(start + last));
        lemma_advanced_concat((1, 1), text.take(start), span.take(lead));
        lemma_advanced_concat((1, 1), text.take(start), span.take(last));
        assert(point(once.start) == cursor(text, start + lead));
        assert(point(once.end) == cursor(text, start + last));
        lemma_cursor_resolves(text, start + lead);
        lemma_cursor_resolves(text, start + last);
        assert(text.subrange(start + lead, start + last) =~= span.subrange(lead, last));
    }
}

/// One step of a narrowing: takes the character `c`, of which `blank` says
/// whether it is whitespace.
pub fn shrink_step(state: Shrink, c: char, blank: bool) -> (next: Shrink)
    requires
        c == '\n' ==> state.running.0 < usize::MAX,
        c != '\n' ==> state.running.1 < usize::MAX,
    ensures
        next == shrink_stepped(state, c, blank),
{
    let running = if c == '\n' {
        (state.running.0 + 1, 1)
    } else {
        (state.running.0, state.running.1 + 1)
    };
    Shrink {
        start: if blank && !state.seen {
            running
        } else {
            state.start
        },
        end: if blank {
            state.end
        } else {
            running
        },
        running,
        seen: state.seen || !blank,
    }
}

/// A character that is not whitespace belongs to the code of its text.
proof fn lemma_code_reaches(text: Seq<char>, i: int)
    requires
        0 <= i < text.len(),
        !white_space(text[i]),
    ensures
        i < content_end(text),
{
    lemma_content_bounds(text);
}

/// Narrows `region`, which spans `region_str`, to what the text holds besides
/// the whitespace at its ends. Gives none where a line or a column on the
/// way to the end of the code is beyond what a `usize` holds.
pub fn shrinkwrap_checked(region: Region, region_str: &str) -> (wrapped: Option<Region>)
    ensures
        wrapped is Some <==> content_fits(region.start, region_str@),
        wrapped matches Some(narrowed) ==> narrowed == shrinkwrapped(region, region_str@),
{
    let ghost text = region_str@;
    let ghost from = point(region.start);
    let mut state = Shrink {
        start: region.start,
        end: region.start,
        running: region.start,
        seen: false,
    };
    // Set once a place could not be held: from then on only whitespace may
    // follow, and `state` stays as it is.
    let mut lost = false;
    let ghost mut lost_at: int = 0;
    proof {
        assert(text.take(0) =~= Seq::<char>::empty());
    }

    for c in it: region_str.chars()
        invariant
            it.seq() == text,
            text == region_str@,
            from == point(region.start),
            !lost ==> point(state.running) == advanced(from, text.take(it.index() as int)),
            !lost ==> forall|k: int|
                0 <= k <= it.index() ==> fits(#[trigger] advanced(from, text.take(k))),
            lost ==> 1 <= lost_at <= it.index() && !fits(advanced(from, text.take(lost_at))),
            lost ==> forall|k: int|
                0 <= k < lost_at ==> fits(#[trigger] advanced(from, text.take(k))),
            lost ==> forall|j: int| lost_at - 1 <= j < it.index() ==> white_space(#[trigger] text[j]),
            state.seen <==> content_end(text.take(it.index() as int)) > 0,
            state.seen ==> point(state.start) == advanced(
                from,
                text.take(leading_space(text.take(it.index() as int)) as int),
            ),
            !state.seen && !lost ==> state.start == state.running,
            point(state.end) == advanced(
                from,
                text.take(content_end(text.take(it.index() as int)) as int),
            ),
    {
        let ghost i = it.index() as int;
        proof {
            let seen = text.take(i);
            assert(text.take(i + 1).drop_last() =~= seen);
            assert(text.take(i + 1) =~= seen.push(c));
            lemma_leading_space_push(seen, c);
            lemma_content_bounds(seen);
            assert(text.take(i + 1).take(i + 1) =~= text.take(i + 1));
            assert(seen.take(i) =~= seen);
        }
        let blank = is_whitespace(c);
        let room = if c == '\n' {
            state.running.0 < usize::MAX
        } else {
            state.running.1 < usize::MAX
        };
        if lost || !room {
            if !blank {
                proof {
                    lemma_code_reaches(text, i);
                    let unfit = if lost {
                        lost_at
                    } else {
                        i + 1
                    };
                    assert(!fits(advanced(from, text.take(unfit))));
                }
                return None;
            }
            if !lost {
                lost = true;
                proof {
                    lost_at = i + 1;
                }
            }
        } else {
            state = shrink_step(state, c, blank);
        }
    }

    proof {
        assert(text.take(text.len() as int) =~= text);
        lemma_content_bounds(text);
        if lost && content_end(text) >= lost_at {
            assert(white_space(text[content_end(text) - 1]));
        }
    }
    if state.seen {
        Some(
            Region {
                id: region.id,
                start: state.start,
                end: state.end,
                count: region.count,
                has_count: region.has_count,
                is_gap: region.is_gap,
            },
        )
    } else {
        Some(
            Region {
                id: region.id,
                start: region.start,
                end: region.start,
                count: region.count,
                has_count: region.has_count,
                is_gap: region.is_gap,
            },
        )
    }
}

/// Whether `region` can be narrowed over `region_str`: whether no line or
/// column on the way to the end of the code is beyond what a `usize` holds.
pub fn can_shrinkwrap(region: &Region, region_str: &str) -> (fits: bool)
    ensures
        fits == content_fits(region.start, region_str@),
{
    shrinkwrap_checked(*region, region_str).is_some()
}

/// Narrows `region`, which spans `region_str`, to what the text holds besides
/// the whitespace at its ends.
pub fn shrinkwrap(region: Region, region_str: &str) -> (wrapped: Region)
    requires
        content_fits(region.start, region_str@),
    ensures
        wrapped == shrinkwrapped(region, region_str@),
{
    match shrinkwrap_checked(region, region_str) {
        Some(narrowed) => narrowed,
        None => region,
    }
}

} // verus!
