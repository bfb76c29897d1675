//! Back-references and the probe that measures them.

use vstd::prelude::*;

verus! {

/// A back-reference: copy `len` bytes from `distance` bytes before the
/// cursor.  A length of zero stands for "no match".
#[derive(Debug, Clone, Copy, PartialEq, Eq, Structural)]
pub struct Matches {
    pub len: usize,
    pub distance: usize,
}

impl Matches {
    /// The value that stands for "no match".
    pub fn zero() -> (r: Self)
        ensures
            r == (Matches { len: 0, distance: 0 }),
    {
        Matches { len: 0, distance: 0 }
    }

    /// Whether this is "no match".
    pub fn is_zero(&self) -> (r: bool)
        ensures
            r == (self.len == 0),
    {
        self.len == 0
    }
}

impl Default for Matches {
    fn default() -> (r: Self)
        ensures
            r == (Matches { len: 0, distance: 0 }),
    {
        Matches::zero()
    }
}

/// How many elements from `current` on repeat the elements `distance`
/// places earlier, counting at most `max_len` and not past the end of
/// `data`.
pub open spec fn common_len<T>(data: Seq<T>, current: int, distance: int, max_len: nat) -> nat
    decreases max_len,
{
    if max_len == 0 || current >= data.len() || data[current] != data[current - distance] {
        0
    } else {
        1 + common_len(data, current + 1, distance, (max_len - 1) as nat)
    }
}

/// `common_len` is the largest count within the cap and the buffer for which
/// every element equals the one `distance` places before it.
pub proof fn lemma_common_len<T>(data: Seq<T>, current: int, distance: int, max_len: nat)
    requires
        0 <= current <= data.len(),
    ensures
        common_len(data, current, distance, max_len) <= max_len,
        current + common_len(data, current, distance, max_len) <= data.len(),
        forall|i: int|
            0 <= i < common_len(data, current, distance, max_len) ==> #[trigger] data[current + i]
                == data[current + i - distance],
        ({
            let n = common_len(data, current, distance, max_len);
            n < max_len && current + n < data.len() ==> data[current + n] != data[current + n
                - distance]
        }),
    decreases max_len,
{
    let n = common_len(data, current, distance, max_len);
    if n != 0 {
        lemma_common_len(data, current + 1, distance, (max_len - 1) as nat);
        assert forall|i: int| 0 <= i < n implies #[trigger] data[current + i] == data[current + i
            - distance] by {
            if i > 0 {
                assert(data[(current + 1) + (i - 1)] == data[(current + 1) + (i - 1) - distance]);
            }
        }
    }
}

/// A count of repeated elements splits: after `k` of them the rest is
/// counted from `current + k` with what is left of the cap.
pub proof fn lemma_common_len_split<T>(
    data: Seq<T>,
    current: int,
    distance: int,
    max_len: nat,
    k: nat,
)
    requires
        k <= max_len,
        current + k <= data.len(),
        forall|i: int| 0 <= i < k ==> #[trigger] data[current + i] == data[current + i - distance],
    ensures
        common_len(data, current, distance, max_len) == k + common_len(
            data,
            current + k,
            distance,
            (max_len - k) as nat,
        ),
    decreases k,
{
    if k > 0 {
        assert(data[current + 0] == data[current + 0 - distance]);
        assert forall|i: int| 0 <= i < k - 1 implies #[trigger] data[current + 1 + i] == data[current
            + 1 + i - distance] by {
            assert(data[current + (i + 1)] == data[current + (i + 1) - distance]);
        }
        lemma_common_len_split(data, current + 1, distance, (max_len - 1) as nat, (k - 1) as nat);
    }
}

/// Counts how many elements from `current` on repeat the elements
/// `distance` places earlier, up to `max_len` and the end of `data`.
pub fn matching_len<T>(data: &[T], current: usize, distance: usize, max_len: usize) -> (r:
    usize) where T: Copy + PartialEq
    requires
        vstd::laws_eq::obeys_concrete_eq::<T>(),
        current < data@.len(),
        distance != 0,
        distance <= current,
    ensures
        r == common_len(data@, current as int, distance as int, max_len as nat),
{
    let room = data.len() - current;
    let cap = if room < max_len {
        room
    } else {
        max_len
    };
    let mut len: usize = 0;
    while len < cap
        invariant
            vstd::laws_eq::obeys_concrete_eq::<T>(),
            len <= cap,
            data@.len() <= usize::MAX,
            cap <= max_len,
            cap <= data@.len() - current,
            cap == max_len || cap == data@.len() - current,
            distance <= current < data@.len(),
            forall|i: int| 0 <= i < len ==> #[trigger] data@[current + i] == data@[current + i - distance],
        decreases cap - len,
    {
        proof {
            reveal(vstd::laws_eq::obeys_concrete_eq);
        }
        if data[current + len] != data[current - distance + len] {
            proof {
                lemma_common_len_split(
                    data@,
                    current as int,
                    distance as int,
                    max_len as nat,
                    len as nat,
                );
            }
            return len;
        }
        len += 1;
    }
    proof {
        lemma_common_len_split(data@, current as int, distance as int, max_len as nat, len as nat);
    }
    len
}

} // verus!
