//! A set of dense indices, as a bitmap.

use super::checked_span;
use super::ring::deque_slot;
use crate::error::GraphError;
use crate::nonzero::NonZeroUsize;
use std::collections::VecDeque;
use vstd::prelude::*;

verus! {

/// State of one index in an [`IndexSet`].
#[derive(Debug, Clone, Copy, PartialEq, Eq, Structural)]
pub enum Membership {
    /// The index is in the set.
    Member,
    /// The index is not in the set but could be added.
    Vacant,
    /// The index is below the retirement horizon and cannot return.
    Retired,
}

/// Bits per word of an [`IndexSet`].
const BITS: u64 = 64;

/// What an [`IndexSet`] holds: its members, nothing below `floor` ever again, and
/// no two members `limit` or more apart.
#[verifier::ext_equal]
pub struct IndexSetView {
    /// Retirement horizon.
    pub floor: u64,
    /// Largest live span.
    pub limit: usize,
    /// The members.
    pub members: Set<u64>,
}

/// Whether `low` is the least of `members`.
pub open spec fn is_least(members: Set<u64>, low: u64) -> bool {
    members.contains(low) && forall|i: u64| #[trigger] members.contains(i) ==> low <= i
}

/// Whether `high` is the greatest of `members`.
pub open spec fn is_greatest(members: Set<u64>, high: u64) -> bool {
    members.contains(high) && forall|i: u64| #[trigger] members.contains(i) ==> i <= high
}

/// A finite set with a member has a least and a greatest one.
pub proof fn extremes_exist(members: Set<u64>)
    requires
        members.finite(),
        members.len() > 0,
    ensures
        exists|low: u64| is_least(members, low),
        exists|high: u64| is_greatest(members, high),
    decreases members.len(),
{
    let some = members.choose();
    let rest = members.remove(some);
    if rest.len() == 0 {
        rest.lemma_len0_is_empty();
        assert forall|i: u64| members.contains(i) implies i == some by {
            if i != some {
                assert(rest.contains(i));
            }
        }
        assert(is_least(members, some));
        assert(is_greatest(members, some));
    } else {
        extremes_exist(rest);
        let low = choose|low: u64| is_least(rest, low);
        let high = choose|high: u64| is_greatest(rest, high);
        assert forall|i: u64| members.contains(i) implies i == some || low <= i <= high by {
            if i != some {
                assert(rest.contains(i));
            }
        }
        assert(is_least(members, if some < low {
            some
        } else {
            low
        }));
        assert(is_greatest(members, if some > high {
            some
        } else {
            high
        }));
    }
}

impl IndexSetView {
    /// The members are finitely many, none of them retired, and all within the
    /// live span.
    pub open spec fn wf(self) -> bool {
        &&& self.members.finite()
        &&& self.members.len() <= self.limit
        &&& forall|i: u64| #[trigger] self.members.contains(i) ==> self.floor <= i
        &&& forall|i: u64, j: u64| #[trigger]
            self.members.contains(i) && #[trigger] self.members.contains(j) ==> j - i < self.limit
    }

    /// Lowest index of the live range once `index` is a member.
    pub open spec fn low_with(self, index: u64) -> u64 {
        choose|low: u64| is_least(self.members.insert(index), low)
    }

    /// Highest index of the live range once `index` is a member.
    pub open spec fn high_with(self, index: u64) -> u64 {
        choose|high: u64| is_greatest(self.members.insert(index), high)
    }

    /// Why `index` cannot be inserted, or `None` when it can.
    pub open spec fn insert_error(self, index: u64) -> Option<GraphError> {
        if index < self.floor {
            Some(GraphError::IndexRetired { index, floor: self.floor })
        } else {
            super::span_error(
                index,
                self.low_with(index) as int,
                self.high_with(index) as int,
                self.limit,
            )
        }
    }

    /// The set with `index` inserted.
    pub open spec fn inserted(self, index: u64) -> Self {
        IndexSetView { members: self.members.insert(index), ..self }
    }

    /// The set with `index` removed.
    pub open spec fn removed(self, index: u64) -> Self {
        IndexSetView { members: self.members.remove(index), ..self }
    }

    /// The set after retiring below `horizon`.
    pub open spec fn retired(self, horizon: u64) -> Self {
        IndexSetView {
            floor: if horizon > self.floor {
                horizon
            } else {
                self.floor
            },
            members: self.members.filter(|i: u64| i >= horizon),
            ..self
        }
    }

    /// The live range with `index` runs from its least to its greatest member.
    pub proof fn live_range(self, index: u64)
        requires
            self.members.finite(),
        ensures
            is_least(self.members.insert(index), self.low_with(index)),
            is_greatest(self.members.insert(index), self.high_with(index)),
            self.low_with(index) <= index <= self.high_with(index),
    {
        let all = self.members.insert(index);
        assert(all.contains(index));
        extremes_exist(all);
    }
}

/// What is inserted stays within the live span, and the span never changes.
pub proof fn insertion_keeps_span(set: IndexSetView, index: u64)
    requires
        set.wf(),
        set.insert_error(index) is None,
    ensures
        set.inserted(index).wf(),
        set.inserted(index).limit == set.limit,
{
    set.live_range(index);
    let low = set.low_with(index);
    let high = set.high_with(index);
    let all = set.members.insert(index);
    let range = Set::<u64>::range_inclusive(low, high);
    broadcast use vstd::set_lib::range_set_properties;

    assert(all.subset_of(range));
    vstd::set_lib::lemma_len_subset(all, range);
}

/// Removal and retirement keep the members within the live span, which never
/// changes.
pub proof fn removal_keeps_span(set: IndexSetView, index: u64, horizon: u64)
    requires
        set.wf(),
    ensures
        set.removed(index).wf(),
        set.removed(index).limit == set.limit,
        set.retired(horizon).wf(),
        set.retired(horizon).limit == set.limit,
{
    vstd::set_lib::lemma_len_subset(set.members.remove(index), set.members);
    vstd::set_lib::lemma_len_subset(
        set.members.filter(|i: u64| i >= horizon),
        set.members,
    );
}

/// Any two members lie within the live span.
pub proof fn members_lie_within_span(set: IndexSetView, a: u64, b: u64)
    requires
        set.wf(),
        set.members.contains(a),
        set.members.contains(b),
    ensures
        b - a < set.limit,
{
}

/// Whether `values` ascends strictly.
pub open spec fn ascending(values: Seq<u64>) -> bool {
    forall|i: int, j: int| 0 <= i < j < values.len() ==> values[i] < values[j]
}

/// Whether `word` has bit `bit` set.
spec fn has_bit(word: u64, bit: u64) -> bool {
    word & (1u64 << bit) != 0
}

/// What setting, clearing and masking do to one bit of a word.
proof fn bit_laws(word: u64, bit: u64, other: u64)
    by (bit_vector)
    requires
        bit < 64,
        other < 64,
    ensures
        !has_bit(0, other),
        has_bit(word | (1u64 << bit), other) == (has_bit(word, other) || other == bit),
        has_bit(word & !(1u64 << bit), other) == (has_bit(word, other) && other != bit),
        has_bit(word & !(((1u64 << bit) - 1) as u64), other) == (has_bit(word, other) && other >= bit),
        (1u64 << bit) >= 1,
        has_bit(word, other) ==> word != 0,
{
}

/// The lowest set bit of a word.
fn lowest_bit(word: u64) -> (out: u64)
    requires
        word != 0,
    ensures
        out < 64,
        has_bit(word, out),
        forall|b: u64| b < out ==> !#[trigger] has_bit(word, b),
{
    let mut bit: u64 = 0;
    while word & (1u64 << bit) == 0
        invariant
            bit < 64,
            word != 0,
            forall|b: u64| b < bit ==> !#[trigger] has_bit(word, b),
        decreases 64 - bit,
    {
        if bit == 63 {
            proof {
                assert forall|b: u64| b < 64 implies !#[trigger] has_bit(word, b) by {}
                no_bits(word);
            }
            return bit;
        }
        bit += 1;
    }
    bit
}

/// The highest set bit of a word.
fn highest_bit(word: u64) -> (out: u64)
    requires
        word != 0,
    ensures
        out < 64,
        has_bit(word, out),
        forall|b: u64| out < b < 64 ==> !#[trigger] has_bit(word, b),
{
    let mut bit: u64 = 63;
    while word & (1u64 << bit) == 0
        invariant
            bit < 64,
            word != 0,
            forall|b: u64| bit < b < 64 ==> !#[trigger] has_bit(word, b),
        decreases bit,
    {
        if bit == 0 {
            proof {
                assert forall|b: u64| b < 64 implies !#[trigger] has_bit(word, b) by {}
                no_bits(word);
            }
            return bit;
        }
        bit -= 1;
    }
    bit
}

/// A word without set bits is zero.
proof fn no_bits(word: u64)
    requires
        forall|b: u64| b < 64 ==> !#[trigger] has_bit(word, b),
    ensures
        word == 0,
{
    no_bits_below(word, 64);
    assert(word >> 0u64 == word) by (bit_vector);
}

/// A word whose bits from `64 - n` on are clear is zero when shifted past the rest.
proof fn no_bits_below(word: u64, n: u64)
    requires
        n <= 64,
        forall|b: u64| b < 64 ==> !#[trigger] has_bit(word, b),
    ensures
        n > 0 ==> word >> ((64 - n) as u64) == 0,
    decreases n,
{
    if n > 0 {
        no_bits_below(word, (n - 1) as u64);
        let b = (64 - n) as u64;
        assert(!has_bit(word, b));
        assert(word >> b == 0) by (bit_vector)
            requires
                b < 64,
                word & (1u64 << b) == 0,
                b == 63 || word >> ((b + 1) as u64) == 0,
        ;
    }
}

/// A set of dense `u64` indices, as a bitmap over `[base, base + bits)`.
///
/// Membership, insertion, and removal are bit operations, `len` is maintained
/// rather than counted, and iteration is a word scan that skips empty words.
#[derive(Debug)]
pub struct IndexSet {
    base: u64,
    /// Highest horizon ever retired. Load-bearing here: retirement leaves `base`
    /// word-aligned *below* the horizon, so without this an insert into the
    /// masked-off remainder of the front word would resurrect a retired index.
    floor: u64,
    limit: NonZeroUsize,
    words: VecDeque<u64>,
    len: usize,
}

/// Whether the bitmap `words` starting at `base` has the bit of `index` set.
spec fn in_bitmap(base: u64, words: Seq<u64>, index: u64) -> bool {
    &&& base <= index
    &&& (index - base) / 64 < words.len()
    &&& has_bit(words[(index - base) / 64], ((index - base) % 64) as u64)
}

impl View for IndexSet {
    type V = IndexSetView;

    closed spec fn view(&self) -> IndexSetView {
        IndexSetView {
            floor: self.floor,
            limit: self.limit.value(),
            members: Set::new(|i: u64| in_bitmap(self.base, self.words@, i)),
        }
    }
}

impl IndexSet {
    /// The bitmap is word-aligned and addressable, and its members are counted.
    spec fn laid_out(&self) -> bool {
        &&& self.base % 64 == 0
        &&& self.base + 64 * self.words@.len() <= u64::MAX + 1
        &&& self@.members.finite()
        &&& self.len == self@.members.len()
    }

    /// The members are within their span, and the bitmap reaches no further than
    /// the words of the least and the greatest of them.
    pub closed spec fn wf(&self) -> bool {
        &&& self@.wf()
        &&& self.laid_out()
        &&& self.words@.len() > 0 ==> self.words@[0] != 0 && self.words@.last() != 0
    }

    /// A well-formed set's view is well-formed.
    pub proof fn wf_view(&self)
        requires
            self.wf(),
        ensures
            self@.wf(),
    {
    }

    /// An empty set, anchored by its first insert.
    ///
    /// `max_span` bounds the live index range, as for
    /// [`Ring::new`](crate::index::Ring::new). It counts indices, not words.
    #[must_use]
    pub fn new(max_span: NonZeroUsize) -> (out: Self)
        ensures
            out@ == (IndexSetView {
                floor: 0,
                limit: max_span.value(),
                members: Set::empty(),
            }),
            out.wf(),
    {
        let out = IndexSet {
            base: 0,
            floor: 0,
            limit: max_span,
            words: VecDeque::new(),
            len: 0,
        };
        assert(out@.members =~= Set::empty());
        out
    }

    /// Number of members.
    #[must_use]
    pub fn len(&self) -> (out: usize)
        requires
            self.wf(),
        ensures
            out == self@.members.len(),
    {
        self.len
    }

    /// True when the set has no members.
    #[must_use]
    pub fn is_empty(&self) -> (out: bool)
        requires
            self.wf(),
        ensures
            out == (self@.members == Set::<u64>::empty()),
    {
        proof {
            if self.len == 0 {
                self@.members.lemma_len0_is_empty();
            }
        }
        self.len == 0
    }

    /// Highest horizon ever passed to
    /// [`retire_below`](IndexSet::retire_below). No index below this can become a
    /// member again.
    #[must_use]
    pub fn floor(&self) -> (out: u64)
        ensures
            out == self@.floor,
    {
        self.floor
    }

    /// Configured maximum live span.
    #[must_use]
    pub fn max_span(&self) -> (out: NonZeroUsize)
        ensures
            out.value() == self@.limit,
    {
        self.limit
    }

    /// Offset of `index` from `base`, when the bitmap covers it.
    fn offset(&self, index: u64) -> (out: Option<u64>)
        ensures
            match out {
                Some(off) => {
                    &&& self.base <= index
                    &&& off == index - self.base
                    &&& off / 64 < self.words@.len()
                },
                None => !(self.base <= index && (index - self.base) / 64 < self.words@.len()),
            },
    {
        if index < self.base {
            return None;
        }
        let off: u64 = index - self.base;
        if off / BITS < self.words.len() as u64 {
            Some(off)
        } else {
            None
        }
    }

    /// Insert `index`, reporting whether it became a new member.
    ///
    /// Grows in either direction: a vacant index below `base` is accepted.
    ///
    /// # Errors
    ///
    /// As [`Ring::ensure`](crate::index::Ring::ensure). On any error the set is
    /// unchanged.
    pub fn insert(&mut self, index: u64) -> (result: Result<bool, GraphError>)
        requires
            old(self).wf(),
        ensures
            final(self).wf(),
            match result {
                Ok(new) => {
                    &&& old(self)@.insert_error(index) is None
                    &&& new == !old(self)@.members.contains(index)
                    &&& final(self)@ == old(self)@.inserted(index)
                },
                Err(error) => {
                    &&& old(self)@.insert_error(index) == Some(error)
                    &&& final(self)@ == old(self)@
                },
            },
    {
        let ghost before = self@;
        if index < self.floor {
            return Err(GraphError::IndexRetired { index, floor: self.floor });
        }
        proof {
            before.live_range(index);
        }
        let (lo, hi) = self.range_with(index);
        match checked_span(index, lo, hi, self.limit) {
            Ok(_) => {},
            Err(error) => return Err(error),
        }
        proof {
            insertion_keeps_span(before, index);
        }
        // Anchor on a word boundary so retirement can drop whole words.
        let aligned: u64 = index - index % BITS;
        if self.words.len() == 0 {
            self.base = aligned;
        }
        assert(self@.members =~= before.members);
        self.grow(index, aligned);
        let off: u64 = index - self.base;
        let at: usize = (off / BITS) as usize;
        let word: u64 = self.words[at];
        let bit: u64 = 1u64 << (off % BITS);
        let ghost words = self.words@;
        if word & bit != 0 {
            proof {
                assert(before.members.insert(index) =~= before.members);
                bit_laws(word, 0, (off % 64) as u64);
            }
            return Ok(false);
        }
        let slot = deque_slot(&mut self.words, at);
        *slot = word | bit;
        self.len += 1;
        proof {
            assert(self.words@ == words.update(at as int, word | bit));
            assert forall|i: u64| in_bitmap(self.base, self.words@, i) == (in_bitmap(
                self.base,
                words,
                i,
            ) || i == index) by {
                if self.base <= i && (i - self.base) / 64 == at {
                    bit_laws(word, (off % 64) as u64, ((i - self.base) % 64) as u64);
                }
            }
            assert(self@.members =~= before.members.insert(index));
            bit_laws(word, (off % 64) as u64, (off % 64) as u64);
            bit_laws(word | bit, 0, (off % 64) as u64);
        }
        Ok(true)
    }

    /// The live range once `index` is a member.
    fn range_with(&self, index: u64) -> (out: (u64, u64))
        requires
            self.wf(),
        ensures
            out.0 == self@.low_with(index),
            out.1 == self@.high_with(index),
            out.0 <= index <= out.1,
            self.words@.len() > 0 ==> self.base + 64 > out.0 && out.1 + 64 >= self.base + 64
                * self.words@.len(),
    {
        proof {
            self@.live_range(index);
        }
        if self.words.len() == 0 {
            assert forall|i: u64| self@.members.insert(index).contains(i) implies i == index by {}
            return (index, index);
        }
        let last: usize = self.words.len() - 1;
        let start: u64 = self.base + last as u64 * BITS;
        let low_bit: u64 = lowest_bit(self.words[0]);
        let high_bit: u64 = highest_bit(self.words[last]);
        let least: u64 = self.base + low_bit;
        let greatest: u64 = start + high_bit;
        proof {
            assert(in_bitmap(self.base, self.words@, least));
            assert((greatest - self.base) / 64 == last && (greatest - self.base) % 64 == high_bit);
            assert(in_bitmap(self.base, self.words@, greatest));
            assert forall|i: u64| self@.members.contains(i) implies least <= i <= greatest by {
                let at = (i - self.base) / 64;
                let bit = ((i - self.base) % 64) as u64;
                assert(has_bit(self.words@[at], bit));
                if at == 0 {
                    assert(bit >= low_bit);
                }
                if at == last {
                    assert(bit <= high_bit);
                }
            }
        }
        let lo: u64 = if index < least {
            index
        } else {
            least
        };
        let hi: u64 = if index > greatest {
            index
        } else {
            greatest
        };
        proof {
            let all = self@.members.insert(index);
            assert(all.contains(least) && all.contains(greatest) && all.contains(index));
            assert(is_least(all, lo));
            assert(is_greatest(all, hi));
        }
        (lo, hi)
    }

    /// Grow the bitmap with empty words until it covers `index`, whose word
    /// starts at `aligned`.
    fn grow(&mut self, index: u64, aligned: u64)
        requires
            aligned == index - index % 64,
            old(self).base % 64 == 0,
            old(self).base + 64 * old(self).words@.len() <= u64::MAX + 1,
            old(self).words@.len() == 0 ==> old(self).base == aligned,
            old(self).base - index < usize::MAX,
            index - old(self).base < usize::MAX + 64,
        ensures
            final(self).base % 64 == 0,
            final(self).base <= index,
            (index - final(self).base) / 64 < final(self).words@.len(),
            final(self).base + 64 * final(self).words@.len() <= u64::MAX + 1,
            final(self).words@.len() > 0,
            (index - final(self).base) / 64 == 0 || old(self).words@.len() > 0
                && final(self).words@[0] == old(self).words@[0],
            (index - final(self).base) / 64 == final(self).words@.len() - 1
                || old(self).words@.len() > 0 && final(self).words@.last()
                == old(self).words@.last(),
            final(self).floor == old(self).floor,
            final(self).limit == old(self).limit,
            final(self).len == old(self).len,
            final(self)@.members == old(self)@.members,
    {
        if aligned < self.base && self.words.len() > 0 {
            let extra: usize = ((self.base - aligned) / BITS) as usize;
            self.grow_front(aligned, extra);
        }
        let target: u64 = (index - self.base) / BITS;
        self.grow_back(target);
    }

    /// Put `extra` empty words before the bitmap, which then starts at `aligned`.
    fn grow_front(&mut self, aligned: u64, extra: usize)
        requires
            aligned + 64 * extra == old(self).base,
        ensures
            final(self).base == aligned,
            final(self).words@.len() == old(self).words@.len() + extra,
            old(self).words@.len() > 0 ==> final(self).words@.last() == old(self).words@.last(),
            final(self).floor == old(self).floor,
            final(self).limit == old(self).limit,
            final(self).len == old(self).len,
            final(self)@.members == old(self)@.members,
    {
        let ghost before = *self;
        self.words.reserve(extra);
        let mut added: usize = 0;
        while added < extra
            invariant
                added <= extra,
                self.words@.len() == before.words@.len() + added,
                self.words@.subrange(added as int, self.words@.len() as int) == before.words@,
                forall|i: int| 0 <= i < added ==> #[trigger] self.words@[i] == 0,
                self.base == before.base,
                self.floor == before.floor,
                self.limit == before.limit,
                self.len == before.len,
            decreases extra - added,
        {
            let ghost words = self.words@;
            self.words.push_front(0);
            added += 1;
            assert(self.words@.subrange(added as int, self.words@.len() as int) =~= words.subrange(
                added - 1,
                words.len() as int,
            ));
        }
        self.base = aligned;
        assert(before.words@.len() > 0 ==> self.words@.subrange(
            extra as int,
            self.words@.len() as int,
        ).last() == self.words@.last());
        assert forall|i: u64| in_bitmap(self.base, self.words@, i) == in_bitmap(
            before.base,
            before.words@,
            i,
        ) by {
            bit_laws(0, 0, ((i - self.base) % 64) as u64);
            if i >= before.base {
                assert((i - self.base) / 64 == (i - before.base) / 64 + extra);
                assert((i - self.base) % 64 == (i - before.base) % 64);
                if (i - before.base) / 64 < before.words@.len() {
                    assert(self.words@.subrange(extra as int, self.words@.len() as int)[(i
                        - before.base) / 64] == self.words@[(i - self.base) / 64]);
                }
            }
        }
        assert(self@.members =~= before@.members);
    }

    /// Put empty words behind the bitmap until it has word number `target`.
    fn grow_back(&mut self, target: u64)
        requires
            target < usize::MAX,
        ensures
            final(self).base == old(self).base,
            final(self).words@.len() == (if old(self).words@.len() <= target {
                target + 1
            } else {
                old(self).words@.len() as int
            }),
            old(self).words@.len() > 0 ==> final(self).words@[0] == old(self).words@[0],
            old(self).words@.len() > target ==> final(self).words@ == old(self).words@,
            final(self).floor == old(self).floor,
            final(self).limit == old(self).limit,
            final(self).len == old(self).len,
            final(self)@.members == old(self)@.members,
    {
        let ghost front = *self;
        while self.words.len() as u64 <= target
            invariant
                front.base == self.base,
                front.floor == self.floor,
                front.limit == self.limit,
                front.len == self.len,
                front.words@.len() <= self.words@.len(),
                self.words@.len() <= front.words@.len() || self.words@.len() <= target + 1,
                target < usize::MAX,
                self.words@.subrange(0, front.words@.len() as int) == front.words@,
                forall|i: int|
                    front.words@.len() <= i < self.words@.len() ==> #[trigger] self.words@[i] == 0,
            decreases target + 1 - self.words@.len(),
        {
            let ghost words = self.words@;
            self.words.push_back(0);
            assert(self.words@.subrange(0, front.words@.len() as int) =~= words.subrange(
                0,
                front.words@.len() as int,
            ));
        }
        assert(self.words@.len() == front.words@.len() ==> self.words@ =~= front.words@);
        assert(front.words@.len() > 0 ==> self.words@.subrange(0, front.words@.len() as int)[0]
            == self.words@[0]);
        assert forall|i: u64| in_bitmap(self.base, self.words@, i) == in_bitmap(
            front.base,
            front.words@,
            i,
        ) by {
            if i >= front.base {
                let at = (i - front.base) / 64;
                if at < front.words@.len() {
                    assert(self.words@.subrange(0, front.words@.len() as int)[at]
                        == self.words@[at]);
                }
                bit_laws(0, 0, ((i - self.base) % 64) as u64);
            }
        }
        assert(self@.members =~= front@.members);
    }

    /// Remove `index`, reporting whether it was present.
    pub fn remove(&mut self, index: u64) -> (out: bool)
        requires
            old(self).wf(),
        ensures
            final(self).wf(),
            out == old(self)@.members.contains(index),
            final(self)@ == old(self)@.removed(index),
    {
        let ghost before = self@;
        let off: u64 = match self.offset(index) {
            Some(off) => off,
            None => {
                assert(before.members.remove(index) =~= before.members);
                return false;
            },
        };
        let at: usize = (off / BITS) as usize;
        let word: u64 = self.words[at];
        let bit: u64 = 1u64 << (off % BITS);
        let ghost words = self.words@;
        assert(in_bitmap(self.base, words, index) == (word & bit != 0));
        assert(before.members.contains(index) == (word & bit != 0));
        if word & bit == 0 {
            assert(before.members.remove(index) =~= before.members);
            return false;
        }
        let slot = deque_slot(&mut self.words, at);
        *slot = word & !bit;
        self.len -= 1;
        proof {
            assert(self.words@ == words.update(at as int, word & !bit));
            assert forall|i: u64| in_bitmap(self.base, self.words@, i) == (in_bitmap(
                self.base,
                words,
                i,
            ) && i != index) by {
                if self.base <= i && (i - self.base) / 64 == at {
                    bit_laws(word, (off % 64) as u64, ((i - self.base) % 64) as u64);
                }
            }
            assert(self@.members =~= before.members.remove(index));
            removal_keeps_span(before, index, 0);
        }
        self.trim();
        true
    }

    /// Drop empty words at both ends of the bitmap.
    fn trim(&mut self)
        requires
            old(self)@.wf(),
            old(self).laid_out(),
        ensures
            final(self).wf(),
            final(self)@ == old(self)@,
            final(self).words@.len() <= old(self).words@.len(),
    {
        let ghost before = *self;
        while self.words.len() > 0 && self.words[self.words.len() - 1] == 0
            invariant
                self@ == before@,
                before@.wf(),
                self.laid_out(),
                self.words@.len() <= before.words@.len(),
            decreases self.words@.len(),
        {
            let ghost at = *self;
            self.words.pop_back();
            proof {
                assert forall|i: u64| in_bitmap(self.base, self.words@, i) == in_bitmap(
                    at.base,
                    at.words@,
                    i,
                ) by {
                    bit_laws(0, 0, ((i - at.base) % 64) as u64);
                }
                assert(self@.members =~= at@.members);
            }
        }
        while self.words.len() > 0 && self.words[0] == 0
            invariant
                self@ == before@,
                before@.wf(),
                self.laid_out(),
                self.words@.len() <= before.words@.len(),
                self.words@.len() > 0 ==> self.words@.last() != 0,
            decreases self.words@.len(),
        {
            let ghost at = *self;
            self.words.pop_front();
            self.base += BITS;
            proof {
                assert forall|i: u64| in_bitmap(self.base, self.words@, i) == in_bitmap(
                    at.base,
                    at.words@,
                    i,
                ) by {
                    bit_laws(0, 0, ((i - at.base) % 64) as u64);
                    if i >= self.base {
                        assert((i - at.base) / 64 == (i - self.base) / 64 + 1);
                        assert((i - at.base) % 64 == (i - self.base) % 64);
                    }
                }
                assert(self@.members =~= at@.members);
            }
        }
    }

    /// True when `index` is a member.
    #[must_use]
    pub fn contains(&self, index: u64) -> (out: bool)
        ensures
            out == self@.members.contains(index),
    {
        match self.offset(index) {
            Some(off) => self.words[(off / BITS) as usize] & (1u64 << (off % BITS)) != 0,
            None => false,
        }
    }

    /// State of `index`: a member, vacant, or retired.
    #[must_use]
    pub fn status(&self, index: u64) -> (out: Membership)
        ensures
            out == if self@.members.contains(index) {
                Membership::Member
            } else if index < self@.floor {
                Membership::Retired
            } else {
                Membership::Vacant
            },
    {
        if self.contains(index) {
            Membership::Member
        } else if index < self.floor {
            Membership::Retired
        } else {
            Membership::Vacant
        }
    }

    /// True when `index` is below the retirement horizon.
    #[must_use]
    pub fn is_retired(&self, index: u64) -> (out: bool)
        ensures
            out == (index < self@.floor),
    {
        index < self.floor
    }

    /// Members in `[lo, hi)`, ascending.
    ///
    /// Seeks to the first word overlapping `lo`, so this costs one pass over the
    /// words spanning the request rather than over the whole set.
    pub fn range(&self, lo: u64, hi: u64) -> (out: Vec<u64>)
        requires
            self.wf(),
        ensures
            ascending(out@),
            forall|i: u64| #[trigger]
                out@.contains(i) <==> self@.members.contains(i) && lo <= i < hi,
    {
        if lo >= hi {
            return Vec::new();
        }
        self.collect(lo, hi - 1)
    }

    /// Every member, ascending.
    pub fn iter(&self) -> (out: Vec<u64>)
        requires
            self.wf(),
        ensures
            ascending(out@),
            forall|i: u64| #[trigger] out@.contains(i) <==> self@.members.contains(i),
    {
        self.collect(0, u64::MAX)
    }

    /// Members in `[lo, last]`, ascending.
    fn collect(&self, lo: u64, last: u64) -> (out: Vec<u64>)
        requires
            self.wf(),
            lo <= last,
        ensures
            ascending(out@),
            forall|i: u64| #[trigger]
                out@.contains(i) <==> self@.members.contains(i) && lo <= i <= last,
    {
        let mut out: Vec<u64> = Vec::new();
        let mut at: usize = 0;
        if lo > self.base {
            let first: u64 = (lo - self.base) / BITS;
            if first >= self.words.len() as u64 {
                return out;
            }
            at = first as usize;
        }
        while at < self.words.len() && self.base + at as u64 * BITS <= last
            invariant
                self.wf(),
                lo <= last,
                at <= self.words@.len(),
                ascending(out@),
                forall|i: u64| #[trigger]
                    out@.contains(i) <==> self@.members.contains(i) && lo <= i <= last && i
                        < self.base + 64 * at,
            decreases self.words@.len() - at,
        {
            let word: u64 = self.words[at];
            if word != 0 {
                self.collect_word(&mut out, at, lo, last);
            } else {
                assert forall|i: u64| self.base + 64 * at <= i < self.base + 64 * (at
                    + 1) implies !self@.members.contains(i) by {
                    bit_laws(0, 0, ((i - self.base) % 64) as u64);
                }
            }
            at += 1;
        }
        out
    }

    /// Append the members of word `at` within `[lo, last]`, ascending.
    fn collect_word(&self, out: &mut Vec<u64>, at: usize, lo: u64, last: u64)
        requires
            self.wf(),
            at < self.words@.len(),
            ascending(old(out)@),
            forall|i: u64| #[trigger]
                old(out)@.contains(i) <==> self@.members.contains(i) && lo <= i <= last && i
                    < self.base + 64 * at,
        ensures
            ascending(final(out)@),
            forall|i: u64| #[trigger]
                final(out)@.contains(i) <==> self@.members.contains(i) && lo <= i <= last && i
                    < self.base + 64 * (at + 1),
    {
        let word: u64 = self.words[at];
        let start: u64 = self.base + at as u64 * BITS;
        let mut bit: u64 = 0;
        while bit < BITS
            invariant
                self.wf(),
                at < self.words@.len(),
                word == self.words@[at as int],
                start == self.base + 64 * at,
                bit <= 64,
                ascending(out@),
                forall|i: u64| #[trigger]
                    out@.contains(i) <==> self@.members.contains(i) && lo <= i <= last && i < start
                        + bit,
            decreases 64 - bit,
        {
            let index: u64 = start + bit;
            assert((index - self.base) / 64 == at && (index - self.base) % 64 == bit);
            let ghost before = out@;
            if word & (1u64 << bit) != 0 && lo <= index && index <= last {
                assert forall|k: int| 0 <= k < before.len() implies before[k] < index by {
                    assert(before.contains(before[k]));
                }
                out.push(index);
                assert forall|i: u64| #[trigger] out@.contains(i) <==> before.contains(i) || i
                    == index by {
                    if before.contains(i) {
                        let k = choose|k: int| 0 <= k < before.len() && before[k] == i;
                        assert(out@[k] == i);
                    }
                    if i == index {
                        assert(out@[before.len() as int] == index);
                    }
                }
            }
            bit += 1;
        }
    }

    /// Number of members in the first `cut` positions of the front word.
    fn count_front(&self, cut: u64) -> (out: usize)
        requires
            self.laid_out(),
            0 < self.words@.len(),
            cut <= 64,
        ensures
            out == self@.members.filter(|i: u64| i < self.base + cut).len(),
    {
        let word: u64 = self.words[0];
        let mut count: usize = 0;
        let mut bit: u64 = 0;
        assert(self@.members.filter(|i: u64| i < self.base + bit) =~= Set::empty());
        while bit < cut
            invariant
                self.laid_out(),
                0 < self.words@.len(),
                word == self.words@[0],
                bit <= cut <= 64,
                count <= bit,
                count == self@.members.filter(|i: u64| i < self.base + bit).len(),
            decreases cut - bit,
        {
            let ghost here = (self.base + bit) as u64;
            let ghost counted = self@.members.filter(|i: u64| i < self.base + bit);
            let ghost next = self@.members.filter(|i: u64| i < self.base + (bit + 1));
            if word & (1u64 << bit) != 0 {
                assert(next =~= counted.insert(here));
                count += 1;
            } else {
                assert(next =~= counted);
            }
            bit += 1;
        }
        count
    }

    /// Drop every member below `horizon`, advancing
    /// [`floor`](IndexSet::floor).
    pub fn retire_below(&mut self, horizon: u64)
        requires
            old(self).wf(),
        ensures
            final(self).wf(),
            final(self)@ == old(self)@.retired(horizon),
    {
        let ghost before = self@;
        proof {
            removal_keeps_span(before, 0, horizon);
        }
        if horizon <= self.base {
            if horizon > self.floor {
                self.floor = horizon;
            }
            assert(before.members.filter(|i: u64| i >= horizon) =~= before.members);
            assert(self@.members =~= before.members);
            return;
        }
        let ghost kept = before.members.filter(|i: u64| i >= horizon);
        while self.words.len() > 0 && horizon - self.base >= BITS
            invariant
                self.laid_out(),
                self.base <= horizon,
                self.floor == before.floor,
                self.limit.value() == before.limit,
                kept == before.members.filter(|i: u64| i >= horizon),
                self@.members.filter(|i: u64| i >= horizon) == kept,
            decreases self.words@.len(),
        {
            let ghost at = *self;
            let dropped: usize = self.count_front(BITS);
            proof {
                vstd::set_lib::lemma_len_subset(
                    at@.members.filter(|i: u64| i < at.base + BITS),
                    at@.members,
                );
            }
            self.words.pop_front();
            self.len -= dropped;
            self.base += BITS;
            proof {
                let front = at@.members.filter(|i: u64| i < at.base + BITS);
                assert forall|i: u64| in_bitmap(self.base, self.words@, i) == (in_bitmap(
                    at.base,
                    at.words@,
                    i,
                ) && i >= self.base) by {
                    if i >= self.base {
                        assert((i - at.base) / 64 == (i - self.base) / 64 + 1);
                        assert((i - at.base) % 64 == (i - self.base) % 64);
                    }
                }
                assert(self@.members =~= at@.members.difference(front));
                assert(self@.members.intersect(front) =~= Set::empty());
                assert(at@.members =~= self@.members.union(front));
                vstd::set_lib::lemma_set_disjoint_lens(self@.members, front);
                assert(self@.members.filter(|i: u64| i >= horizon) =~= at@.members.filter(
                    |i: u64| i >= horizon,
                ));
            }
        }
        let ghost at = *self;
        if self.words.len() == 0 {
            assert(self@.members =~= Set::empty());
            assert(kept =~= Set::empty());
        } else if horizon > self.base {
            // A partial word at the front, so `cut` is in `1..BITS`.
            let cut: u64 = horizon - self.base;
            let dropped: usize = self.count_front(cut);
            proof {
                bit_laws(0, cut, 0);
                vstd::set_lib::lemma_len_subset(
                    at@.members.filter(|i: u64| i < at.base + cut),
                    at@.members,
                );
            }
            let mask: u64 = (1u64 << cut) - 1;
            let word: u64 = self.words[0];
            let slot = deque_slot(&mut self.words, 0);
            *slot = word & !mask;
            self.len -= dropped;
            proof {
                assert(self.words@ == at.words@.update(0, word & !mask));
                let front = at@.members.filter(|i: u64| i < at.base + cut);
                assert forall|i: u64| in_bitmap(self.base, self.words@, i) == (in_bitmap(
                    at.base,
                    at.words@,
                    i,
                ) && i >= horizon) by {
                    if i >= self.base && (i - self.base) / 64 == 0 {
                        bit_laws(word, cut, ((i - self.base) % 64) as u64);
                    }
                }
                assert(self@.members =~= at@.members.difference(front));
                assert(at@.members =~= self@.members.union(front));
                vstd::set_lib::lemma_set_disjoint_lens(self@.members, front);
            }
        } else {
            assert(self@.members =~= kept);
        }
        if horizon > self.floor {
            self.floor = horizon;
        }
        assert(self@.members =~= kept);
        self.trim();
    }
}

/// A retired index never becomes a member again: inserting it is refused, and
/// the horizon that refuses it only rises.
pub proof fn retired_index_never_returns(set: IndexSetView, horizon: u64, index: u64)
    requires
        set.wf(),
        index < horizon,
    ensures
        !set.retired(horizon).members.contains(index),
        set.retired(horizon).insert_error(index) == Some(
            GraphError::IndexRetired { index, floor: set.retired(horizon).floor },
        ),
        set.retired(horizon).floor >= horizon,
        set.retired(horizon).floor >= set.floor,
        set.inserted(index).floor == set.floor,
{
}

} // verus!
