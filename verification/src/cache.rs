//! The offset cache: for every three-element key seen so far, the positions
//! where it occurred, most recent first.

use std::collections::BTreeMap;
use vstd::prelude::*;
use vstd::std_specs::iter::IteratorSpec;

verus! {

/// A singly linked list that is never empty.
pub struct SimpleList<T> {
    next: Option<Box<SimpleList<T>>>,
    value: T,
}

/// The number of nodes behind an optional link.
spec fn link_len<T>(link: Option<Box<SimpleList<T>>>) -> nat {
    match link {
        Some(node) => node.view().len(),
        None => 0,
    }
}

/// Takes a chain of nodes apart one node at a time, so that no node is
/// released while it still owns a chain.
fn dismantle<T>(node: &mut SimpleList<T>)
    ensures
        final(node).view() == seq![old(node).view()[0]],
    opens_invariants none
    no_unwind
{
    let mut rest: Option<Box<SimpleList<T>>> = None;
    core::mem::swap(&mut node.next, &mut rest);
    loop
        invariant
            node.view() == seq![old(node).view()[0]],
        decreases link_len(rest),
    {
        match rest {
            Some(mut head) => {
                let mut tail: Option<Box<SimpleList<T>>> = None;
                core::mem::swap(&mut head.next, &mut tail);
                rest = tail;
            },
            None => {
                break ;
            },
        }
    }
}

impl<T> Drop for SimpleList<T> {
    fn drop(&mut self)
        opens_invariants none
        no_unwind
    {
        dismantle(self);
    }
}

impl<T> SimpleList<T> {
    /// The values of the list, head first.
    pub closed spec fn view(&self) -> Seq<T>
        decreases self,
    {
        match self.next {
            Some(node) => seq![self.value] + node.view(),
            None => seq![self.value],
        }
    }

    /// A list has at least its head.
    pub proof fn lemma_nonempty(&self)
        ensures
            self.view().len() >= 1,
    {
    }

    /// A node with `value` in front of the list `next`.
    pub fn new(value: T, next: Box<Self>) -> (r: Box<Self>)
        ensures
            r.view() == seq![value] + next.view(),
    {
        Box::new(Self { value, next: Some(next) })
    }

    /// A list of the one value `value`.
    pub fn new_leaf(value: T) -> (r: Box<Self>)
        ensures
            r.view() == seq![value],
    {
        Box::new(Self { value, next: None })
    }

    /// Replaces everything behind the head by the list `next`.
    pub fn link(&mut self, next: Box<Self>)
        ensures
            final(self).view() == seq![old(self).view()[0]] + next.view(),
    {
        self.next = Some(next);
    }

    /// Drops everything behind the head.
    pub fn unlink(&mut self)
        ensures
            final(self).view() == seq![old(self).view()[0]],
    {
        let next = self.next.take();
    }

    /// The list behind the head, if there is one.
    pub fn next(&self) -> (r: Option<&Box<Self>>)
        ensures
            match r {
                Some(node) => self.view().len() > 1 && node.view() == self.view().drop_first(),
                None => self.view().len() == 1,
            },
    {
        proof {
            if self.next is Some {
                assert(self.view().drop_first() =~= self.next->0.view());
            }
        }
        self.next.as_ref()
    }

    /// The list behind the head, if there is one, for changing it.
    pub fn next_mut(&mut self) -> (r: Option<&mut Box<Self>>)
        ensures
            match r {
                Some(node) => {
                    &&& old(self).view().len() > 1
                    &&& node.view() == old(self).view().drop_first()
                    &&& final(self).view() == seq![old(self).view()[0]] + final(node).view()
                },
                None => old(self).view().len() == 1 && final(self).view() == old(self).view(),
            },
    {
        proof {
            if self.next is Some {
                assert(self.view().drop_first() =~= self.next->0.view());
            }
        }
        self.next.as_mut()
    }

    /// The head value.
    pub fn as_ref(&self) -> (r: &T)
        ensures
            *r == self.view()[0],
    {
        &self.value
    }

    /// A copy of the head value.
    pub fn value(&self) -> (r: T) where T: Copy
        ensures
            r == self.view()[0],
    {
        self.value
    }
}

/// Whether every value is greater than all values after it.
pub open spec fn strictly_decreasing(s: Seq<u32>) -> bool {
    forall|i: int, j: int| 0 <= i < j < s.len() ==> s[i] > s[j]
}

/// The longest prefix of `s` whose values are all at least `min_value`.
pub open spec fn fresh_prefix(s: Seq<u32>, min_value: u32) -> Seq<u32>
    decreases s.len(),
{
    if s.len() == 0 || s[0] < min_value {
        Seq::empty()
    } else {
        seq![s[0]] + fresh_prefix(s.drop_first(), min_value)
    }
}

/// The fresh prefix is a prefix, and all its values are at least
/// `min_value`; it stops at the first value below `min_value`.
pub proof fn lemma_fresh_prefix(s: Seq<u32>, min_value: u32)
    ensures
        fresh_prefix(s, min_value).len() <= s.len(),
        fresh_prefix(s, min_value) == s.take(fresh_prefix(s, min_value).len() as int),
        forall|i: int|
            0 <= i < fresh_prefix(s, min_value).len() ==> #[trigger] s[i] >= min_value,
        fresh_prefix(s, min_value).len() < s.len() ==> s[fresh_prefix(s, min_value).len() as int]
            < min_value,
    decreases s.len(),
{
    let p = fresh_prefix(s, min_value);
    if s.len() == 0 || s[0] < min_value {
        assert(p =~= s.take(0));
    } else {
        let t = s.drop_first();
        lemma_fresh_prefix(t, min_value);
        let q = fresh_prefix(t, min_value);
        assert(p =~= s.take(p.len() as int));
        assert forall|i: int| 0 <= i < p.len() implies #[trigger] s[i] >= min_value by {
            if i > 0 {
                assert(t[i - 1] >= min_value);
            }
        }
        if p.len() < s.len() {
            assert(t[q.len() as int] < min_value);
        }
    }
}

/// In a strictly decreasing list the fresh prefix holds exactly the values
/// that are at least `min_value`, and is strictly decreasing itself.
pub proof fn lemma_fresh_prefix_of_decreasing(s: Seq<u32>, min_value: u32)
    requires
        strictly_decreasing(s),
    ensures
        strictly_decreasing(fresh_prefix(s, min_value)),
        forall|v: u32|
            fresh_prefix(s, min_value).contains(v) <==> s.contains(v) && v >= min_value,
{
    lemma_fresh_prefix(s, min_value);
    let p = fresh_prefix(s, min_value);
    assert forall|v: u32| p.contains(v) <==> s.contains(v) && v >= min_value by {
        if p.contains(v) {
            let i = choose|i: int| 0 <= i < p.len() && p[i] == v;
            assert(s[i] == v);
        }
        if s.contains(v) && v >= min_value {
            let i = choose|i: int| 0 <= i < s.len() && s[i] == v;
            if i >= p.len() {
                assert(s[p.len() as int] < min_value);
            }
            assert(p[i] == v);
        }
    }
}

/// Cuts the list behind `root` at the first value below `min_value`; the
/// head itself is known to stay.
fn cut_stale(root: &mut Box<SimpleList<u32>>, min_value: u32)
    requires
        old(root).view()[0] >= min_value,
    ensures
        final(root).view() == fresh_prefix(old(root).view(), min_value),
{
    let ghost whole = root.view();
    let ghost mut done: Seq<u32> = Seq::empty();
    let mut node = root;
    proof {
        node.lemma_nonempty();
        assert(done + fresh_prefix(node.view(), min_value) =~= fresh_prefix(whole, min_value));
        assert(done + final(node).view() =~= final(node).view());
    }
    loop
        invariant_except_break
            done + fresh_prefix(node.view(), min_value) == fresh_prefix(whole, min_value),
        invariant
            node.view().len() >= 1,
            node.view()[0] >= min_value,
            final(root).view() == done + final(node).view(),
        ensures
            done + node.view() == fresh_prefix(whole, min_value),
        decreases node.view().len(),
    {
        let ghost here = node.view();
        let stop = match node.next() {
            Some(next) => {
                proof {
                    next.lemma_nonempty();
                }
                next.value() < min_value
            },
            None => false,
        };
        proof {
            assert(fresh_prefix(here, min_value) =~= seq![here[0]] + fresh_prefix(
                here.drop_first(),
                min_value,
            ));
        }
        if stop {
            node.unlink();
            proof {
                assert(fresh_prefix(here.drop_first(), min_value) =~= Seq::<u32>::empty());
                assert(done + node.view() =~= done + fresh_prefix(here, min_value));
            }
            break ;
        }
        match node.next_mut() {
            Some(next) => {
                proof {
                    assert(done.push(here[0]) + fresh_prefix(next.view(), min_value) =~= done
                        + fresh_prefix(here, min_value));
                    assert(done.push(here[0]) + final(next).view() =~= done + (seq![here[0]]
                        + final(next).view()));
                    done = done.push(here[0]);
                }
                node = next;
            },
            None => {
                proof {
                    assert(fresh_prefix(here.drop_first(), min_value) =~= Seq::<u32>::empty());
                    assert(done + node.view() =~= done + fresh_prefix(here, min_value));
                }
                break ;
            },
        }
    }
}

/// The positions of one key, most recent first.
pub struct OffsetList {
    root: Box<SimpleList<u32>>,
}

impl OffsetList {
    /// The positions, most recent first.
    pub closed spec fn view(&self) -> Seq<u32> {
        self.root.view()
    }

    /// A list is never empty.
    pub proof fn lemma_nonempty(&self)
        ensures
            self.view().len() >= 1,
    {
        self.root.lemma_nonempty();
    }

    /// A list of the one position `value`.
    pub fn new(value: u32) -> (r: Self)
        ensures
            r.view() == seq![value],
    {
        Self { root: SimpleList::new_leaf(value) }
    }

    /// Puts `value` in front of the list.
    pub fn push(&mut self, value: u32)
        ensures
            final(self).view() == seq![value] + old(self).view(),
    {
        let mut head = SimpleList::new_leaf(value);
        core::mem::swap(&mut self.root, &mut head);
        self.root.link(head);
    }

    /// The first node of the list.
    pub fn root<'a>(&'a self) -> (r: &'a Box<SimpleList<u32>>)
        ensures
            r.view() == self.view(),
    {
        &self.root
    }

    /// The most recent position.
    pub fn nearest(&self) -> (r: u32)
        ensures
            r == self.view()[0],
    {
        self.root.value()
    }

    /// Cuts the list at the first position below `min_value`.  Where
    /// already the most recent position is below it, the list is left as it
    /// is and `false` is returned: the list is of no more use.
    pub fn retain(&mut self, min_value: u32) -> (r: bool)
        ensures
            r == (old(self).view()[0] >= min_value),
            r ==> final(self).view() == fresh_prefix(old(self).view(), min_value),
            !r ==> final(self).view() == old(self).view(),
    {
        if self.nearest() < min_value {
            return false;
        }
        cut_stale(&mut self.root, min_value);
        true
    }

    /// A walk over the list that turns positions into distances from
    /// `current`, and ends at the first position below `min_value`.
    pub fn distance_iter<'a>(&'a self, current: usize, min_value: usize) -> (r: DistanceIter<'a>)
        ensures
            r.remaining() == self.view(),
            r.current() == current,
            r.min_value() == min_value,
    {
        DistanceIter { node: Some(&self.root), current, min_value }
    }
}

/// A walk over an offset list.
pub struct DistanceIter<'a> {
    node: Option<&'a Box<SimpleList<u32>>>,
    current: usize,
    min_value: usize,
}

impl<'a> DistanceIter<'a> {
    /// The positions not yet visited, most recent first.
    pub closed spec fn remaining(&self) -> Seq<u32> {
        match self.node {
            Some(node) => node.view(),
            None => Seq::empty(),
        }
    }

    /// The position that distances are measured from.
    pub closed spec fn current(&self) -> usize {
        self.current
    }

    /// The least position that is still of use.
    pub closed spec fn min_value(&self) -> usize {
        self.min_value
    }

    /// Visits the next position.  Returns its distance from the current
    /// position, or `None` where no position is left or the position lies
    /// below the least one of use.
    pub fn next(&mut self) -> (r: Option<usize>)
        requires
            old(self).remaining().len() > 0 && old(self).remaining()[0] >= old(self).min_value()
                ==> old(self).remaining()[0] <= old(self).current(),
        ensures
            final(self).current() == old(self).current(),
            final(self).min_value() == old(self).min_value(),
            old(self).remaining().len() == 0 ==> r is None && final(self).remaining() == old(
                self,
            ).remaining(),
            old(self).remaining().len() > 0 ==> {
                &&& final(self).remaining() == old(self).remaining().drop_first()
                &&& r == if old(self).remaining()[0] >= old(self).min_value() {
                    Some((old(self).current() - old(self).remaining()[0]) as usize)
                } else {
                    None
                }
            },
    {
        match self.node {
            Some(node) => {
                let next = node.next();
                proof {
                    if next is None {
                        assert(node.view().drop_first() =~= Seq::<u32>::empty());
                    }
                }
                self.node = next;
                let value = node.value() as usize;
                if value >= self.min_value {
                    return Some(self.current - value);
                }
                None
            },
            None => None,
        }
    }
}

/// Whether the order of `K` is one that an ordered map can rely on.
pub open spec fn key_order_ok<K: Ord>() -> bool {
    vstd::laws_cmp::obeys_cmp::<K>()
}

/// A rolling key over the last three elements of a buffer.
pub trait MatchingKey: Sized {
    /// The elements of the buffer.
    type ElementType: Copy;

    /// What three elements are packed into.
    type KeyType: Copy + Ord;

    /// The three elements that the key was formed from, oldest first.
    spec fn window(&self) -> (Self::ElementType, Self::ElementType, Self::ElementType);

    /// The key of three elements.
    spec fn key_of(
        val0: Self::ElementType,
        val1: Self::ElementType,
        val2: Self::ElementType,
    ) -> Self::KeyType;

    /// A key for a buffer too short to have one.
    fn null() -> Self;

    /// The key of three elements, oldest first.
    fn new(val0: Self::ElementType, val1: Self::ElementType, val2: Self::ElementType) -> (r: Self)
        ensures
            r.window() == (val0, val1, val2),
    ;

    /// The packed key.
    fn key_value(&self) -> (r: Self::KeyType)
        ensures
            r == Self::key_of(self.window().0, self.window().1, self.window().2),
    ;

    /// Moves the window on by one element: the oldest leaves, `new_value`
    /// enters.
    fn advance(&mut self, new_value: Self::ElementType)
        ensures
            final(self).window() == (old(self).window().1, old(self).window().2, new_value),
    ;
}

/// Three bytes packed big-endian into 24 bits.
#[derive(Debug, Clone, Copy, PartialEq, Eq, PartialOrd, Ord)]
pub struct MatchingBytesKey(u32);

impl MatchingBytesKey {
    /// A key has 24 bits.
    #[verifier::type_invariant]
    spec fn fits(self) -> bool {
        self.0 <= 0xFF_FF_FF
    }
}

/// The packing of three bytes tells any two triples apart.
pub proof fn lemma_bytes_key_injective(a0: u8, a1: u8, a2: u8, b0: u8, b1: u8, b2: u8)
    ensures
        MatchingBytesKey::key_of(a0, a1, a2) == MatchingBytesKey::key_of(b0, b1, b2) <==> a0 == b0
            && a1 == b1 && a2 == b2,
{
    assert((((a0 as u32) << 16) | ((a1 as u32) << 8) | (a2 as u32)) == (((b0 as u32) << 16) | ((
    b1 as u32) << 8) | (b2 as u32)) <==> a0 == b0 && a1 == b1 && a2 == b2) by (bit_vector);
}

impl MatchingKey for MatchingBytesKey {
    type ElementType = u8;

    type KeyType = u32;

    closed spec fn window(&self) -> (u8, u8, u8) {
        (((self.0 >> 16) & 0xFF) as u8, ((self.0 >> 8) & 0xFF) as u8, (self.0 & 0xFF) as u8)
    }

    open spec fn key_of(val0: u8, val1: u8, val2: u8) -> u32 {
        ((val0 as u32) << 16) | ((val1 as u32) << 8) | (val2 as u32)
    }

    fn null() -> (r: Self)
        ensures
            r.window() == (0u8, 0u8, 0u8),
    {
        let packed: u32 = 0;
        assert(((packed >> 16) & 0xFF) as u8 == 0 && ((packed >> 8) & 0xFF) as u8 == 0 && (packed
            & 0xFF) as u8 == 0) by (bit_vector)
            requires
                packed == 0,
        ;
        Self(packed)
    }

    fn new(val0: u8, val1: u8, val2: u8) -> (r: Self) {
        let packed = ((val0 as u32) << 16) | ((val1 as u32) << 8) | (val2 as u32);
        assert(packed <= 0xFF_FF_FF && ((packed >> 16) & 0xFF) as u8 == val0 && ((packed >> 8)
            & 0xFF) as u8 == val1 && (packed & 0xFF) as u8 == val2) by (bit_vector)
            requires
                packed == ((val0 as u32) << 16) | ((val1 as u32) << 8) | (val2 as u32),
        ;
        Self(packed)
    }

    fn key_value(&self) -> (r: u32) {
        proof {
            use_type_invariant(self);
        }
        let packed = self.0;
        assert(packed == (((((packed >> 16) & 0xFF) as u8) as u32) << 16) | (((((packed >> 8)
            & 0xFF) as u8) as u32) << 8) | (((packed & 0xFF) as u8) as u32)) by (bit_vector)
            requires
                packed <= 0xFF_FF_FF,
        ;
        packed
    }

    fn advance(&mut self, new_value: u8) {
        let before = self.0;
        let packed = ((before << 8) | (new_value as u32)) & 0xFF_FF_FF;
        assert(packed <= 0xFF_FF_FF && ((packed >> 16) & 0xFF) as u8 == ((before >> 8) & 0xFF) as u8
            && ((packed >> 8) & 0xFF) as u8 == (before & 0xFF) as u8 && (packed & 0xFF) as u8
            == new_value) by (bit_vector)
            requires
                packed == ((before << 8) | (new_value as u32)) & 0xFF_FF_FF,
        ;
        self.0 = packed;
    }
}

/// The key of the three elements of `input` that start at `p`.
pub open spec fn key_at<KEY: MatchingKey>(input: Seq<KEY::ElementType>, p: int) -> KEY::KeyType {
    KEY::key_of(input[p], input[p + 1], input[p + 2])
}

/// The number of positions of a buffer of `len` elements that have a key:
/// a key needs three elements, and a buffer of fewer than four has none.
pub open spec fn key_limit(len: nat) -> nat {
    if len < 4 {
        0
    } else {
        (len - 2) as nat
    }
}

/// The least position that lies within `max_distance` of `cursor`.
pub open spec fn window_start(cursor: nat, max_distance: nat) -> nat {
    if cursor >= max_distance {
        (cursor - max_distance) as nat
    } else {
        0
    }
}

/// What the lists of a cache are to the buffer once the positions below
/// `count` have been entered: every list is non-empty and strictly
/// decreasing and holds only positions below `count` that have the key of
/// the list; and every position within `max_distance` of `count` is in the
/// list of its key.
pub open spec fn indexes<KEY: MatchingKey>(
    lists: Map<KEY::KeyType, Seq<u32>>,
    input: Seq<KEY::ElementType>,
    count: nat,
    max_distance: nat,
) -> bool {
    &&& forall|k: KEY::KeyType| #[trigger]
        lists.contains_key(k) ==> lists[k].len() >= 1 && strictly_decreasing(lists[k])
    &&& forall|k: KEY::KeyType, i: int|
        lists.contains_key(k) && 0 <= i < lists[k].len() ==> (#[trigger] lists[k][i]) < count
            && key_at::<KEY>(input, lists[k][i] as int) == k
    &&& forall|p: int|
        window_start(count, max_distance) <= p < count ==> {
            let k = #[trigger] key_at::<KEY>(input, p);
            lists.contains_key(k) && lists[k].contains(p as u32)
        }
}

/// The lists after `value` has been put in front of the list of `key`.
pub open spec fn inserted<K>(lists: Map<K, Seq<u32>>, key: K, value: u32) -> Map<K, Seq<u32>> {
    lists.insert(
        key,
        if lists.contains_key(key) {
            seq![value] + lists[key]
        } else {
            seq![value]
        },
    )
}

/// The lists after a sweep: a list whose most recent position is below
/// `min_value` is gone, every other list is cut at its first position below
/// `min_value`.
pub open spec fn pruned<K>(lists: Map<K, Seq<u32>>, min_value: u32) -> Map<K, Seq<u32>> {
    Map::new(
        |k: K| lists.contains_key(k) && lists[k].len() > 0 && lists[k][0] >= min_value,
        |k: K| fresh_prefix(lists[k], min_value),
    )
}

/// The lists after position `value` has been entered: the position is put
/// in front of the list of its key, and if the map then has twice
/// `max_distance` keys or more, the lists are swept of the positions that
/// are more than `max_distance` before `value`.
pub open spec fn step_lists<KEY: MatchingKey>(
    lists: Map<KEY::KeyType, Seq<u32>>,
    input: Seq<KEY::ElementType>,
    value: nat,
    max_distance: nat,
) -> Map<KEY::KeyType, Seq<u32>> {
    let entered = inserted(lists, key_at::<KEY>(input, value as int), value as u32);
    if entered.dom().len() >= 2 * max_distance {
        pruned(entered, window_start(value, max_distance) as u32)
    } else {
        entered
    }
}

/// The lists after the `count` positions from `cursor` on have been
/// entered, one after the other.
pub open spec fn advanced_lists<KEY: MatchingKey>(
    lists: Map<KEY::KeyType, Seq<u32>>,
    input: Seq<KEY::ElementType>,
    cursor: nat,
    count: nat,
    max_distance: nat,
) -> Map<KEY::KeyType, Seq<u32>>
    decreases count,
{
    if count == 0 {
        lists
    } else {
        step_lists::<KEY>(
            advanced_lists::<KEY>(lists, input, cursor, (count - 1) as nat, max_distance),
            input,
            (cursor + count - 1) as nat,
            max_distance,
        )
    }
}

/// After a sweep every position that is still stored is at least
/// `min_value`.
pub proof fn lemma_pruned_is_fresh<K>(lists: Map<K, Seq<u32>>, min_value: u32)
    ensures
        forall|k: K, i: int|
            pruned(lists, min_value).contains_key(k) && 0 <= i < pruned(lists, min_value)[k].len()
                ==> (#[trigger] pruned(lists, min_value)[k][i]) >= min_value,
{
    assert forall|k: K, i: int|
        pruned(lists, min_value).contains_key(k) && 0 <= i < pruned(
            lists,
            min_value,
        )[k].len() implies (#[trigger] pruned(lists, min_value)[k][i]) >= min_value by {
        lemma_fresh_prefix(lists[k], min_value);
    }
}

/// Where entering a position has set off a sweep, every position that is
/// still stored lies within `max_distance` of the position entered.
pub proof fn lemma_swept_is_within_window<KEY: MatchingKey>(
    lists: Map<KEY::KeyType, Seq<u32>>,
    input: Seq<KEY::ElementType>,
    value: nat,
    max_distance: nat,
)
    requires
        value <= u32::MAX,
        inserted(lists, key_at::<KEY>(input, value as int), value as u32).dom().len() >= 2
            * max_distance,
    ensures
        forall|k: KEY::KeyType, i: int|
            step_lists::<KEY>(lists, input, value, max_distance).contains_key(k) && 0 <= i
                < step_lists::<KEY>(lists, input, value, max_distance)[k].len() ==> (
            #[trigger] step_lists::<KEY>(lists, input, value, max_distance)[k][i]) >= window_start(
                value,
                max_distance,
            ),
{
    let entered = inserted(lists, key_at::<KEY>(input, value as int), value as u32);
    lemma_pruned_is_fresh(entered, window_start(value, max_distance) as u32);
}

/// Entering position `count` under its key keeps the lists an index of the
/// buffer, now of the positions up to `count`.
pub proof fn lemma_inserted_indexes<KEY: MatchingKey>(
    lists: Map<KEY::KeyType, Seq<u32>>,
    input: Seq<KEY::ElementType>,
    count: nat,
    max_distance: nat,
)
    requires
        indexes::<KEY>(lists, input, count, max_distance),
        count <= u32::MAX,
    ensures
        indexes::<KEY>(
            inserted(lists, key_at::<KEY>(input, count as int), count as u32),
            input,
            count + 1,
            max_distance,
        ),
{
    let key = key_at::<KEY>(input, count as int);
    let value = count as u32;
    let after = inserted(lists, key, value);
    assert forall|k: KEY::KeyType| #[trigger] after.contains_key(k) implies after[k].len() >= 1
        && strictly_decreasing(after[k]) by {
        if k == key && lists.contains_key(key) {
            let before = lists[key];
            assert forall|i: int, j: int| 0 <= i < j < after[k].len() implies after[k][i]
                > after[k][j] by {
                assert(after[k][j] == before[j - 1]);
                if i > 0 {
                    assert(after[k][i] == before[i - 1]);
                }
            }
        }
    }
    assert forall|k: KEY::KeyType, i: int|
        after.contains_key(k) && 0 <= i < after[k].len() implies (#[trigger] after[k][i]) < count
        + 1 && key_at::<KEY>(input, after[k][i] as int) == k by {
        if k == key && lists.contains_key(key) && i > 0 {
            assert(after[k][i] == lists[key][i - 1]);
        }
    }
    assert forall|p: int| window_start(count + 1, max_distance) <= p < count + 1 implies ({
        let k = #[trigger] key_at::<KEY>(input, p);
        after.contains_key(k) && after[k].contains(p as u32)
    }) by {
        let k = key_at::<KEY>(input, p);
        if p == count {
            assert(after[k][0] == value);
        } else {
            assert(lists[k].contains(p as u32));
            let i = choose|i: int| 0 <= i < lists[k].len() && lists[k][i] == p as u32;
            if k == key {
                assert(after[k][i + 1] == p as u32);
            }
        }
    }
}

/// A sweep with a bound at or below the start of the window keeps the
/// lists an index of the buffer.
pub proof fn lemma_pruned_indexes<KEY: MatchingKey>(
    lists: Map<KEY::KeyType, Seq<u32>>,
    input: Seq<KEY::ElementType>,
    count: nat,
    max_distance: nat,
    min_value: u32,
)
    requires
        indexes::<KEY>(lists, input, count, max_distance),
        min_value <= window_start(count, max_distance),
        count <= u32::MAX,
    ensures
        indexes::<KEY>(pruned(lists, min_value), input, count, max_distance),
{
    let after = pruned(lists, min_value);
    assert forall|k: KEY::KeyType| #[trigger] after.contains_key(k) implies after[k].len() >= 1
        && strictly_decreasing(after[k]) by {
        lemma_fresh_prefix_of_decreasing(lists[k], min_value);
        assert(lists[k].contains(lists[k][0]));
        assert(after[k].contains(lists[k][0]));
    }
    assert forall|k: KEY::KeyType, i: int|
        after.contains_key(k) && 0 <= i < after[k].len() implies (#[trigger] after[k][i]) < count
        && key_at::<KEY>(input, after[k][i] as int) == k by {
        lemma_fresh_prefix(lists[k], min_value);
        assert(after[k][i] == lists[k][i]);
    }
    assert forall|p: int| window_start(count, max_distance) <= p < count implies ({
        let k = #[trigger] key_at::<KEY>(input, p);
        after.contains_key(k) && after[k].contains(p as u32)
    }) by {
        let k = key_at::<KEY>(input, p);
        assert(lists[k].contains(p as u32));
        let i = choose|i: int| 0 <= i < lists[k].len() && lists[k][i] == p as u32;
        assert(lists[k][0] >= lists[k][i]);
        lemma_fresh_prefix_of_decreasing(lists[k], min_value);
    }
}

/// A list whose positions are all at least `min_value` is its own fresh
/// prefix.
proof fn lemma_fresh_prefix_of_fresh(s: Seq<u32>, min_value: u32)
    requires
        forall|i: int| 0 <= i < s.len() ==> s[i] >= min_value,
    ensures
        fresh_prefix(s, min_value) == s,
    decreases s.len(),
{
    if s.len() > 0 {
        let t = s.drop_first();
        assert forall|i: int| 0 <= i < t.len() implies t[i] >= min_value by {
            assert(t[i] == s[i + 1]);
        }
        lemma_fresh_prefix_of_fresh(t, min_value);
        assert(seq![s[0]] + t =~= s);
    } else {
        assert(fresh_prefix(s, min_value) =~= s);
    }
}

/// The items of a walk over references, copied out in order.
fn copied<'x, K: Copy + 'x, I: Iterator<Item = &'x K>>(walk: I) -> (r: Vec<K>)
    requires
        walk.obeys_prophetic_iter_laws(),
        walk.decrease() is Some,
    ensures
        r@ == walk.remaining().unref(),
{
    let mut walk = walk;
    let mut items: Vec<K> = Vec::new();
    let ghost all = walk.remaining().unref();
    loop
        invariant
            walk.obeys_prophetic_iter_laws(),
            walk.decrease() is Some,
            items@ + walk.remaining().unref() == all,
        ensures
            items@ == all,
        decreases walk.decrease()->0,
    {
        let ghost rest = walk.remaining();
        let next = walk.next();
        match next {
            Some(item) => {
                items.push(*item);
                assert(items@ + walk.remaining().unref() =~= all) by {
                    assert(walk.remaining().unref() =~= rest.unref().drop_first());
                }
            },
            None => {
                assert(items@ =~= items@ + walk.remaining().unref());
                break ;
            },
        }
    }
    items
}

/// The offset cache over a buffer: an ordered map from keys to offset
/// lists, a rolling key for the three elements at the cursor, and the
/// cursor that says which positions have been entered.
pub struct MatchingCache<'a, KEY: MatchingKey> {
    input: &'a [KEY::ElementType],
    key: KEY,
    cache: BTreeMap<KEY::KeyType, OffsetList>,
    cursor: usize,
    limit: usize,
    max_distance: usize,
}

/// The offset cache over bytes.
pub type OffsetCache<'a> = MatchingCache<'a, MatchingBytesKey>;

impl<'a, KEY: MatchingKey> MatchingCache<'a, KEY> {
    /// The buffer that the cache is about.
    pub closed spec fn input(&self) -> Seq<KEY::ElementType> {
        self.input@
    }

    /// The positions below the cursor have been entered.
    pub closed spec fn cursor(&self) -> nat {
        self.cursor as nat
    }

    /// How far back a position is of use.
    pub closed spec fn max_distance(&self) -> nat {
        self.max_distance as nat
    }

    /// The positions stored for each key, most recent first.
    pub closed spec fn lists(&self) -> Map<KEY::KeyType, Seq<u32>> {
        Map::new(
            |k: KEY::KeyType| self.cache@.contains_key(k),
            |k: KEY::KeyType| self.cache@[k].view(),
        )
    }

    /// The cursor never passes this position: the positions from here on
    /// have no key.
    pub open spec fn limit(&self) -> nat {
        key_limit(self.input().len())
    }

    /// What never changes: the order of the keys is sound, positions fit
    /// 32 bits, the limit is that of the buffer, and twice the window is a
    /// number.
    spec fn steady(&self) -> bool {
        &&& key_order_ok::<KEY::KeyType>()
        &&& self.input@.len() <= u32::MAX
        &&& self.limit == key_limit(self.input@.len())
        &&& self.cursor <= self.limit
        &&& 2 * self.max_distance <= usize::MAX
    }

    /// Whether the rolling key is that of position `p`.
    spec fn key_is_at(&self, p: int) -> bool {
        self.key.window() == (self.input@[p], self.input@[p + 1], self.input@[p + 2])
    }

    /// The invariant of the cache: the lists index the positions below the
    /// cursor, and the rolling key is that of the cursor.
    pub closed spec fn wf(&self) -> bool {
        &&& self.steady()
        &&& self.cursor < self.limit ==> self.key_is_at(self.cursor as int)
        &&& indexes::<KEY>(self.lists(), self.input@, self.cursor as nat, self.max_distance as nat)
    }

    /// What the invariant says of the lists.
    pub proof fn lemma_wf(&self)
        requires
            self.wf(),
        ensures
            key_order_ok::<KEY::KeyType>(),
            self.input().len() <= u32::MAX,
            self.cursor() <= self.limit(),
            indexes::<KEY>(self.lists(), self.input(), self.cursor(), self.max_distance()),
            forall|k: KEY::KeyType| #[trigger]
                self.lists().contains_key(k) ==> strictly_decreasing(self.lists()[k]),
            forall|k: KEY::KeyType, i: int|
                self.lists().contains_key(k) && 0 <= i < self.lists()[k].len() ==> (
                #[trigger] self.lists()[k][i]) < self.cursor(),
    {
    }

    /// An empty cache over `input`, with the cursor at the start.
    pub fn new(input: &'a [KEY::ElementType], max_distance: usize) -> (r: Self)
        requires
            key_order_ok::<KEY::KeyType>(),
            input@.len() <= u32::MAX,
            2 * max_distance <= usize::MAX,
        ensures
            r.wf(),
            r.input() == input@,
            r.cursor() == 0,
            r.max_distance() == max_distance,
            r.lists() == Map::<KEY::KeyType, Seq<u32>>::empty(),
    {
        let r = if input.len() < 4 {
            Self {
                input,
                key: KEY::null(),
                cache: BTreeMap::new(),
                cursor: 0,
                limit: 0,
                max_distance,
            }
        } else {
            Self {
                input,
                key: KEY::new(input[0], input[1], input[2]),
                cache: BTreeMap::new(),
                cursor: 0,
                limit: input.len() - 2,
                max_distance,
            }
        };
        assert(r.lists() =~= Map::<KEY::KeyType, Seq<u32>>::empty());
        r
    }

    /// Enters the next `step` positions, or as many as have a key, and
    /// moves the cursor behind them.
    pub fn advance(&mut self, step: usize)
        requires
            old(self).wf(),
        ensures
            final(self).wf(),
            final(self).input() == old(self).input(),
            final(self).max_distance() == old(self).max_distance(),
            final(self).cursor() == if old(self).cursor() + step <= old(self).limit() {
                old(self).cursor() + step
            } else {
                old(self).limit() as int
            },
            final(self).lists() == advanced_lists::<KEY>(
                old(self).lists(),
                old(self).input(),
                old(self).cursor(),
                (final(self).cursor() - old(self).cursor()) as nat,
                old(self).max_distance(),
            ),
    {
        let limit = self.limit;
        let mut cursor = self.cursor;
        if cursor >= limit {
            return ;
        }
        let mut done: usize = 0;
        while done < step
            invariant_except_break
                cursor < limit,
                self.key_is_at(cursor as int),
            invariant
                self.steady(),
                self.input == old(self).input,
                self.max_distance == old(self).max_distance,
                self.cursor == old(self).cursor,
                self.limit == limit,
                done <= step,
                cursor == old(self).cursor + done,
                cursor <= limit,
                indexes::<KEY>(self.lists(), self.input@, cursor as nat, self.max_distance as nat),
                self.lists() == advanced_lists::<KEY>(
                    old(self).lists(),
                    self.input@,
                    self.cursor as nat,
                    done as nat,
                    self.max_distance as nat,
                ),
            ensures
                cursor == limit || (done == step && self.key_is_at(cursor as int)),
            decreases step - done,
        {
            let key = self.key.key_value();
            self._insert(key, cursor);
            cursor += 1;
            done += 1;
            if cursor >= limit {
                break ;
            }
            let incoming = self.input[cursor + 2];
            self.key.advance(incoming);
        }
        self.cursor = cursor;
    }

    /// The walk over the earlier positions that have the key of the
    /// cursor; `None` where the cursor has no key or the key has no list.
    pub fn matches<'b>(&'b self) -> (r: Option<DistanceIter<'b>>)
        requires
            self.wf(),
        ensures
            match r {
                Some(walk) => {
                    &&& self.cursor() < self.limit()
                    &&& self.lists().contains_key(key_at::<KEY>(self.input(), self.cursor() as int))
                    &&& walk.remaining() == self.lists()[key_at::<KEY>(
                        self.input(),
                        self.cursor() as int,
                    )]
                    &&& walk.current() == self.cursor()
                    &&& walk.min_value() == window_start(self.cursor(), self.max_distance())
                },
                None => self.cursor() >= self.limit() || !self.lists().contains_key(
                    key_at::<KEY>(self.input(), self.cursor() as int),
                ),
            },
    {
        if self.cursor >= self.limit {
            return None;
        }
        let min_value = if self.cursor >= self.max_distance {
            self.cursor - self.max_distance
        } else {
            0
        };
        let key = self.key.key_value();
        match self.cache.get(&key) {
            Some(list) => Some(list.distance_iter(self.cursor, min_value)),
            None => None,
        }
    }

    /// Enters position `value` under `key`, then sweeps the lists of what
    /// lies further before `value` than the window if the map has grown to
    /// twice the window.
    fn _insert(&mut self, key: KEY::KeyType, value: usize)
        requires
            old(self).steady(),
            old(self).cursor <= value < old(self).limit,
            key == key_at::<KEY>(old(self).input@, value as int),
            indexes::<KEY>(
                old(self).lists(),
                old(self).input@,
                value as nat,
                old(self).max_distance as nat,
            ),
        ensures
            final(self).steady(),
            final(self).input == old(self).input,
            final(self).key == old(self).key,
            final(self).cursor == old(self).cursor,
            final(self).limit == old(self).limit,
            final(self).max_distance == old(self).max_distance,
            final(self).lists() == step_lists::<KEY>(
                old(self).lists(),
                old(self).input@,
                value as nat,
                old(self).max_distance as nat,
            ),
            indexes::<KEY>(
                final(self).lists(),
                final(self).input@,
                (value + 1) as nat,
                final(self).max_distance as nat,
            ),
    {
        let position = value as u32;
        let ghost before = self.lists();
        let found = self.cache.remove(&key);
        match found {
            Some(mut list) => {
                list.push(position);
                self.cache.insert(key, list);
            },
            None => {
                self.cache.insert(key, OffsetList::new(position));
            },
        }
        proof {
            assert(self.lists() =~= inserted(before, key, position));
            lemma_inserted_indexes::<KEY>(
                before,
                self.input@,
                value as nat,
                self.max_distance as nat,
            );
            assert(self.lists().dom() =~= self.cache@.dom());
        }
        if self.cache.len() >= self.max_distance * 2 {
            let min_value = if value >= self.max_distance {
                (value - self.max_distance) as u32
            } else {
                0
            };
            proof {
                lemma_pruned_indexes::<KEY>(
                    self.lists(),
                    self.input@,
                    (value + 1) as nat,
                    self.max_distance as nat,
                    min_value,
                );
            }
            self.prune(min_value);
        }
    }

    /// Sweeps the lists: drops every list whose most recent position is
    /// below `min_value` and cuts the others at their first position below
    /// it.
    fn prune(&mut self, min_value: u32)
        requires
            key_order_ok::<KEY::KeyType>(),
        ensures
            final(self).input == old(self).input,
            final(self).key == old(self).key,
            final(self).cursor == old(self).cursor,
            final(self).limit == old(self).limit,
            final(self).max_distance == old(self).max_distance,
            final(self).lists() == pruned(old(self).lists(), min_value),
    {
        let keys = copied(self.cache.keys());
        assert(keys@.to_set() == self.cache@.dom());
        let ghost orig = self.cache@;
        let mut done: usize = 0;
        while done < keys.len()
            invariant
                key_order_ok::<KEY::KeyType>(),
                self.input == old(self).input,
                self.key == old(self).key,
                self.cursor == old(self).cursor,
                self.limit == old(self).limit,
                self.max_distance == old(self).max_distance,
                done <= keys.len(),
                forall|k: KEY::KeyType|
                    keys@.take(done as int).contains(k) ==> (#[trigger] self.cache@.contains_key(k)
                        <==> orig.contains_key(k) && orig[k].view()[0] >= min_value),
                forall|k: KEY::KeyType|
                    keys@.take(done as int).contains(k) && #[trigger] self.cache@.contains_key(k)
                        ==> self.cache@[k].view() == fresh_prefix(orig[k].view(), min_value),
                forall|k: KEY::KeyType|
                    !keys@.take(done as int).contains(k) ==> (#[trigger] self.cache@.contains_key(k)
                        <==> orig.contains_key(k)),
                forall|k: KEY::KeyType|
                    !keys@.take(done as int).contains(k) && #[trigger] self.cache@.contains_key(k)
                        ==> self.cache@[k].view() == orig[k].view(),
            decreases keys.len() - done,
        {
            let key = keys[done];
            let ghost seen = keys@.take(done as int).contains(key);
            let ghost before = self.cache@;
            let found = self.cache.remove(&key);
            match found {
                Some(mut list) => {
                    proof {
                        list.lemma_nonempty();
                        orig[key].lemma_nonempty();
                        if seen {
                            lemma_fresh_prefix(orig[key].view(), min_value);
                            assert(list.view()[0] == orig[key].view()[0]);
                            lemma_fresh_prefix_of_fresh(list.view(), min_value);
                        }
                    }
                    if list.retain(min_value) {
                        self.cache.insert(key, list);
                    }
                },
                None => {},
            }
            proof {
                assert(keys@.take(done + 1) =~= keys@.take(done as int).push(key));
                assert forall|k: KEY::KeyType| keys@.take(done + 1).contains(k) <==> k == key
                    || keys@.take(done as int).contains(k) by {
                    if keys@.take(done as int).contains(k) {
                        let i = choose|i: int|
                            0 <= i < done && keys@.take(done as int)[i] == k;
                        assert(keys@.take(done + 1)[i] == k);
                    }
                    if k == key {
                        assert(keys@.take(done + 1)[done as int] == k);
                    }
                }
            }
            done += 1;
        }
        proof {
            assert(keys@.take(done as int) =~= keys@);
            assert forall|k: KEY::KeyType| orig.contains_key(k) implies keys@.contains(k) by {
                assert(keys@.to_set().contains(k));
            }
            assert forall|k: KEY::KeyType| keys@.contains(k) implies orig.contains_key(k) by {
                assert(keys@.to_set().contains(k));
            }
            assert forall|k: KEY::KeyType| orig.contains_key(k) implies orig[k].view().len()
                > 0 by {
                orig[k].lemma_nonempty();
            }
            assert(self.lists() =~= pruned(old(self).lists(), min_value));
        }
    }
}

} // verus!
