//! A vector whose indices stay valid: items live in fixed-size buckets that
//! are never moved in the index space, and an occupancy bitmap per bucket
//! records which slots hold an item.
use std::mem::ManuallyDrop;
use vstd::prelude::*;

verus! {

/// Number of slots in one bucket.
pub const BUCKET_SIZE: usize = 256;

/// Number of bytes in the occupancy bitmap of one bucket.
pub const USED_BYTES: usize = 32;

/// Largest number of associations a stable vector may hold, so that every
/// index `association * BUCKET_SIZE + slot` fits a 32-bit `usize`.
pub const MAX_ASSOCIATIONS: usize = 0xff_ffff;

/// Whether bit `k` of `byte` is set.
pub open spec fn bit_of(byte: u8, k: u8) -> bool {
    (byte >> k) & 1u8 == 1u8
}

proof fn lemma_mask_test(b: u8, k: u8)
    requires
        k < 8,
    ensures
        ((b & (1u8 << k)) != 0u8) == bit_of(b, k),
{
    assert(((b & (1u8 << k)) != 0u8) == ((b >> k) & 1u8 == 1u8)) by (bit_vector)
        requires
            k < 8u8,
    ;
}

proof fn lemma_set_bit(b: u8, k: u8, j: u8)
    requires
        k < 8,
        j < 8,
    ensures
        bit_of(b | (1u8 << k), j) == (j == k || bit_of(b, j)),
{
    assert((((b | (1u8 << k)) >> j) & 1u8 == 1u8) == (j == k || ((b >> j) & 1u8 == 1u8)))
        by (bit_vector)
        requires
            k < 8u8,
            j < 8u8,
    ;
}

proof fn lemma_clear_bit(b: u8, k: u8, j: u8)
    requires
        k < 8,
        j < 8,
    ensures
        bit_of(b & !(1u8 << k), j) == (j != k && bit_of(b, j)),
{
    assert((((b & !(1u8 << k)) >> j) & 1u8 == 1u8) == (j != k && ((b >> j) & 1u8 == 1u8)))
        by (bit_vector)
        requires
            k < 8u8,
            j < 8u8,
    ;
}

proof fn lemma_full_byte(b: u8)
    ensures
        (b == 0xffu8) == (bit_of(b, 0) && bit_of(b, 1) && bit_of(b, 2) && bit_of(b, 3) && bit_of(
            b,
            4,
        ) && bit_of(b, 5) && bit_of(b, 6) && bit_of(b, 7)),
{
    assert((b == 0xffu8) == (((b >> 0u8) & 1u8 == 1u8) && ((b >> 1u8) & 1u8 == 1u8) && ((b
        >> 2u8) & 1u8 == 1u8) && ((b >> 3u8) & 1u8 == 1u8) && ((b >> 4u8) & 1u8 == 1u8) && ((b
        >> 5u8) & 1u8 == 1u8) && ((b >> 6u8) & 1u8 == 1u8) && ((b >> 7u8) & 1u8 == 1u8)))
        by (bit_vector);
}

proof fn lemma_zero_byte(b: u8)
    ensures
        (b == 0u8) == (!bit_of(b, 0) && !bit_of(b, 1) && !bit_of(b, 2) && !bit_of(b, 3)
            && !bit_of(b, 4) && !bit_of(b, 5) && !bit_of(b, 6) && !bit_of(b, 7)),
{
    assert((b == 0u8) == (!((b >> 0u8) & 1u8 == 1u8) && !((b >> 1u8) & 1u8 == 1u8) && !((b
        >> 2u8) & 1u8 == 1u8) && !((b >> 3u8) & 1u8 == 1u8) && !((b >> 4u8) & 1u8 == 1u8) && !((b
        >> 5u8) & 1u8 == 1u8) && !((b >> 6u8) & 1u8 == 1u8) && !((b >> 7u8) & 1u8 == 1u8)))
        by (bit_vector);
}

/// Every bit of a byte is set exactly when the byte is `0xff`.
proof fn lemma_full_byte_all(b: u8)
    ensures
        (b == 0xffu8) == (forall|k: u8| k < 8 ==> #[trigger] bit_of(b, k)),
{
    lemma_full_byte(b);
    if b != 0xffu8 {
        assert(!bit_of(b, 0) || !bit_of(b, 1) || !bit_of(b, 2) || !bit_of(b, 3) || !bit_of(b, 4)
            || !bit_of(b, 5) || !bit_of(b, 6) || !bit_of(b, 7));
    } else {
        assert forall|k: u8| k < 8 implies #[trigger] bit_of(b, k) by {
            assert(k == 0 || k == 1 || k == 2 || k == 3 || k == 4 || k == 5 || k == 6 || k == 7);
        }
    }
}

/// No bit of a byte is set exactly when the byte is `0`.
proof fn lemma_zero_byte_all(b: u8)
    ensures
        (b == 0u8) == (forall|k: u8| k < 8 ==> !#[trigger] bit_of(b, k)),
{
    lemma_zero_byte(b);
    if b != 0u8 {
        assert(bit_of(b, 0) || bit_of(b, 1) || bit_of(b, 2) || bit_of(b, 3) || bit_of(b, 4)
            || bit_of(b, 5) || bit_of(b, 6) || bit_of(b, 7));
    } else {
        assert forall|k: u8| k < 8 implies !#[trigger] bit_of(b, k) by {
            assert(k == 0 || k == 1 || k == 2 || k == 3 || k == 4 || k == 5 || k == 6 || k == 7);
        }
    }
}

/// A bucket of `BUCKET_SIZE` slots with its occupancy bitmap.
struct Bucket<T> {
    data: Vec<Option<T>>,
    used: Vec<u8>,
}

/// Whether slot `i` is marked as used in the bitmap `used`.
spec fn slot_used(used: Seq<u8>, i: int) -> bool {
    bit_of(used[i / 8], (i % 8) as u8)
}

impl<T> Bucket<T> {
    spec fn wf(self) -> bool {
        &&& self.data@.len() == BUCKET_SIZE
        &&& self.used@.len() == USED_BYTES
        &&& forall|i: int|
            0 <= i < BUCKET_SIZE ==> (#[trigger] self.data@[i] is Some) == slot_used(self.used@, i)
    }

    spec fn full(self) -> bool {
        forall|i: int| 0 <= i < BUCKET_SIZE ==> #[trigger] self.data@[i] is Some
    }

    spec fn empty(self) -> bool {
        forall|i: int| 0 <= i < BUCKET_SIZE ==> #[trigger] self.data@[i] is None
    }

    fn new() -> (b: Self)
        ensures
            b.wf(),
            b.empty(),
    {
        let mut data: Vec<Option<T>> = Vec::new();
        let mut i: usize = 0;
        while i < BUCKET_SIZE
            invariant
                i <= BUCKET_SIZE,
                data@.len() == i,
                forall|j: int| 0 <= j < i ==> #[trigger] data@[j] is None,
            decreases BUCKET_SIZE - i,
        {
            data.push(None);
            i = i + 1;
        }
        let used: Vec<u8> = vec![0u8; USED_BYTES];
        assert forall|j: int| 0 <= j < BUCKET_SIZE implies (#[trigger] data@[j] is Some)
            == slot_used(used@, j) by {
            lemma_zero_byte_all(0u8);
            assert(!bit_of(0u8, (j % 8) as u8));
        }
        Bucket { data, used }
    }

    fn index_in_use(&self, bucket_index: usize) -> (r: bool)
        requires
            self.wf(),
        ensures
            r == (bucket_index < BUCKET_SIZE && self.data@[bucket_index as int] is Some),
    {
        let bit: u8 = 1u8 << ((bucket_index % 8) as u8);
        let used_idx = bucket_index / 8;
        if used_idx < self.used.len() {
            let used_byte = self.used[used_idx];
            proof {
                lemma_mask_test(used_byte, (bucket_index % 8) as u8);
            }
            (used_byte & bit) != 0
        } else {
            false
        }
    }
}


/// Whether `s` is the lowest free slot of `data`.
spec fn is_lowest_free<T>(data: Seq<Option<T>>, s: int) -> bool {
    &&& 0 <= s < BUCKET_SIZE
    &&& data[s] is None
    &&& forall|j: int| 0 <= j < s ==> #[trigger] data[j] is Some
}

/// The lowest free slot of `data`.
spec fn lowest_free<T>(data: Seq<Option<T>>) -> int {
    choose|s: int| is_lowest_free(data, s)
}

proof fn lemma_lowest_free_unique<T>(data: Seq<Option<T>>, s: int)
    requires
        is_lowest_free(data, s),
    ensures
        lowest_free(data) == s,
{
    let c = lowest_free(data);
    assert(is_lowest_free(data, c));
    if c < s {
        assert(data[c] is Some);
    }
    if s < c {
        assert(data[s] is Some);
    }
}

/// The occupancy of a bucket, as a bitmap and as its slots, agree byte by byte.
proof fn lemma_byte_slots<T>(b: Bucket<T>, j: int, k: u8)
    requires
        b.wf(),
        0 <= j < USED_BYTES,
        k < 8,
    ensures
        b.data@[j * 8 + k] is Some == bit_of(b.used@[j], k),
        0 <= j * 8 + k < BUCKET_SIZE,
{
    assert((j * 8 + k) / 8 == j);
    assert((j * 8 + k) % 8 == k);
}

/// A bucket is full exactly when every byte of its bitmap is `0xff`.
proof fn lemma_full_bytes<T>(b: Bucket<T>)
    requires
        b.wf(),
    ensures
        b.full() == (forall|j: int| 0 <= j < USED_BYTES ==> #[trigger] b.used@[j] == 0xffu8),
{
    if b.full() {
        assert forall|j: int| 0 <= j < USED_BYTES implies #[trigger] b.used@[j] == 0xffu8 by {
            lemma_full_byte_all(b.used@[j]);
            assert forall|k: u8| k < 8 implies #[trigger] bit_of(b.used@[j], k) by {
                lemma_byte_slots(b, j, k);
            }
        }
    }
    if forall|j: int| 0 <= j < USED_BYTES ==> #[trigger] b.used@[j] == 0xffu8 {
        assert forall|i: int| 0 <= i < BUCKET_SIZE implies #[trigger] b.data@[i] is Some by {
            let j = i / 8;
            let k = (i % 8) as u8;
            lemma_full_byte_all(b.used@[j]);
            assert(bit_of(b.used@[j], k));
        }
    }
}

/// A bucket is empty exactly when every byte of its bitmap is `0`.
proof fn lemma_empty_bytes<T>(b: Bucket<T>)
    requires
        b.wf(),
    ensures
        b.empty() == (forall|j: int| 0 <= j < USED_BYTES ==> #[trigger] b.used@[j] == 0u8),
{
    if b.empty() {
        assert forall|j: int| 0 <= j < USED_BYTES implies #[trigger] b.used@[j] == 0u8 by {
            lemma_zero_byte_all(b.used@[j]);
            assert forall|k: u8| k < 8 implies !#[trigger] bit_of(b.used@[j], k) by {
                lemma_byte_slots(b, j, k);
            }
        }
    }
    if forall|j: int| 0 <= j < USED_BYTES ==> #[trigger] b.used@[j] == 0u8 {
        assert forall|i: int| 0 <= i < BUCKET_SIZE implies #[trigger] b.data@[i] is None by {
            let j = i / 8;
            let k = (i % 8) as u8;
            lemma_zero_byte_all(b.used@[j]);
            assert(!bit_of(b.used@[j], k));
        }
    }
}

impl<T> Bucket<T> {
    /// Puts `t` into the lowest free slot `byte_idx * 8 + bit_idx`, marks it
    /// used, and tells whether the bucket is full afterwards.
    fn insert_at(&mut self, byte_idx: usize, bit_idx: u8, t: T) -> (now_full: bool)
        requires
            old(self).wf(),
            byte_idx < USED_BYTES,
            bit_idx < 8,
            is_lowest_free(old(self).data@, byte_idx * 8 + bit_idx),
        ensures
            final(self).wf(),
            final(self).data@ == old(self).data@.update(byte_idx * 8 + bit_idx, Some(t)),
            now_full == final(self).full(),
    {
        let slot = byte_idx * 8 + bit_idx as usize;
        let ghost old_used = self.used@;
        let old_byte = self.used[byte_idx];
        self.used[byte_idx] = old_byte | (1u8 << bit_idx);
        self.data[slot] = Some(t);
        proof {
            assert forall|i: int| 0 <= i < BUCKET_SIZE implies (#[trigger] self.data@[i] is Some)
                == slot_used(self.used@, i) by {
                if i / 8 == byte_idx {
                    lemma_set_bit(old_byte, bit_idx, (i % 8) as u8);
                    assert(old(self).data@[i] is Some == slot_used(old_used, i));
                } else {
                    assert(old(self).data@[i] is Some == slot_used(old_used, i));
                }
            }
            assert forall|k: int| 0 <= k < byte_idx implies #[trigger] self.used@[k] == 0xffu8 by {
                lemma_full_byte_all(self.used@[k]);
                assert forall|j: u8| j < 8 implies #[trigger] bit_of(self.used@[k], j) by {
                    lemma_byte_slots(*self, k, j);
                    assert(old(self).data@[k * 8 + j] is Some);
                }
            }
        }
        let ghost new_data = self.data@;
        assert(new_data == old(self).data@.update(slot as int, Some(t)));
        let mut k = byte_idx;
        while k < USED_BYTES
            invariant
                self.wf(),
                self.data@ == new_data,
                new_data == old(self).data@.update(byte_idx * 8 + bit_idx, Some(t)),
                byte_idx <= k <= USED_BYTES,
                forall|j: int| 0 <= j < k ==> #[trigger] self.used@[j] == 0xffu8,
            decreases USED_BYTES - k,
        {
            if self.used[k] != u8::MAX {
                proof {
                    lemma_full_bytes(*self);
                }
                return false;
            }
            k = k + 1;
        }
        proof {
            lemma_full_bytes(*self);
        }
        true
    }

    /// A bucket holding `t` in its first slot only.
    fn with_first(t: T) -> (b: Self)
        ensures
            b.wf(),
            !b.full(),
            !b.empty(),
            b.data@[0] == Some(t),
            forall|i: int| 0 < i < BUCKET_SIZE ==> #[trigger] b.data@[i] is None,
    {
        let mut bucket = Bucket::new();
        proof {
            assert(is_lowest_free(bucket.data@, 0));
        }
        let _ = bucket.insert_at(0, 0, t);
        assert(bucket.data@[0] is Some);
        assert(bucket.data@[1] is None);
        bucket
    }
}

/// Finds the lowest free slot of a bucket that is not full, as a byte of
/// the bitmap and a bit within it.
fn find_free_slot<T>(bucket: &Bucket<T>) -> (r: (usize, u8))
    requires
        bucket.wf(),
        !bucket.full(),
    ensures
        r.0 < USED_BYTES,
        r.1 < 8,
        is_lowest_free(bucket.data@, r.0 * 8 + r.1),
{
    let mut byte_idx: usize = 0;
    while byte_idx < USED_BYTES
        invariant
            bucket.wf(),
            !bucket.full(),
            byte_idx <= USED_BYTES,
            forall|j: int| 0 <= j < byte_idx * 8 ==> #[trigger] bucket.data@[j] is Some,
        decreases USED_BYTES - byte_idx,
    {
        let used_byte = bucket.used[byte_idx];
        if used_byte != u8::MAX {
            let mut bit_idx: u8 = 0;
            while bit_idx < 8
                invariant
                    bucket.wf(),
                    byte_idx < USED_BYTES,
                    used_byte == bucket.used@[byte_idx as int],
                    used_byte != 0xffu8,
                    bit_idx <= 8,
                    forall|j: int| 0 <= j < byte_idx * 8 + bit_idx ==> #[trigger] bucket.data@[j] is Some,
                decreases 8 - bit_idx,
            {
                let bit: u8 = 1u8 << bit_idx;
                proof {
                    lemma_mask_test(used_byte, bit_idx);
                    lemma_byte_slots(*bucket, byte_idx as int, bit_idx);
                }
                if used_byte & bit == 0 {
                    return (byte_idx, bit_idx);
                }
                bit_idx = bit_idx + 1;
            }
            proof {
                lemma_full_byte_all(used_byte);
                assert forall|k: u8| k < 8 implies #[trigger] bit_of(used_byte, k) by {
                    lemma_byte_slots(*bucket, byte_idx as int, k);
                    assert(bucket.data@[byte_idx * 8 + k] is Some);
                }
            }
        } else {
            proof {
                assert forall|j: int| 0 <= j < byte_idx * 8 + 8 implies #[trigger] bucket.data@[j] is Some by {
                    if j >= byte_idx * 8 {
                        lemma_full_byte_all(used_byte);
                        lemma_byte_slots(*bucket, byte_idx as int, (j - byte_idx * 8) as u8);
                    }
                }
            }
        }
        byte_idx = byte_idx + 1;
    }
    proof {
        assert(bucket.full());
    }
    (0, 0)
}

/// The state of an association between an index range and a bucket.
#[derive(Clone, Copy, PartialEq, Eq, Debug, Structural)]
pub enum AssociationState {
    /// The bucket has no free slot.
    Full,
    /// The bucket has at least one free and one used slot.
    Hollow,
    /// The index range has no bucket.
    Disabled,
}

impl AssociationState {
    /// The ASCII letter that names the state.
    pub open spec fn ascii(self) -> u8 {
        match self {
            AssociationState::Full => 70u8,
            AssociationState::Hollow => 72u8,
            AssociationState::Disabled => 68u8,
        }
    }

    /// Returns `b'F'`, `b'H'` or `b'D'` for a full, hollow or disabled association.
    pub fn get_ascci_byte(self) -> (r: u8)
        ensures
            r == self.ascii(),
    {
        match self {
            AssociationState::Full => 70u8,
            AssociationState::Hollow => 72u8,
            AssociationState::Disabled => 68u8,
        }
    }
}

/// Ties the index range `[a * BUCKET_SIZE, (a + 1) * BUCKET_SIZE)` of the
/// association at position `a` to the bucket at `bucket_idx`.
#[derive(Clone, Copy)]
struct Association {
    bucket_idx: usize,
    state: AssociationState,
}

spec fn live(a: Association) -> bool {
    a.state != AssociationState::Disabled
}

/// Whether some enabled association points at bucket `b`.
spec fn has_owner(associations: Seq<Association>, b: int) -> bool {
    exists|a: int|
        0 <= a < associations.len() && live(#[trigger] associations[a]) && associations[a].bucket_idx
            == b
}

/// Whether `a` is the first association in state `st`.
spec fn is_first_state(associations: Seq<Association>, a: int, st: AssociationState) -> bool {
    &&& 0 <= a < associations.len()
    &&& associations[a].state == st
    &&& forall|j: int| 0 <= j < a ==> (#[trigger] associations[j]).state != st
}

/// Whether some association is in state `st`.
spec fn has_state(associations: Seq<Association>, st: AssociationState) -> bool {
    exists|a: int| 0 <= a < associations.len() && (#[trigger] associations[a]).state == st
}

/// The first association in state `st`.
spec fn first_state(associations: Seq<Association>, st: AssociationState) -> int {
    choose|a: int| is_first_state(associations, a, st)
}

proof fn lemma_first_state_unique(associations: Seq<Association>, a: int, st: AssociationState)
    requires
        is_first_state(associations, a, st),
    ensures
        first_state(associations, st) == a,
        has_state(associations, st),
{
    let c = first_state(associations, st);
    assert(is_first_state(associations, c, st));
    if c < a {
        assert(associations[c].state != st);
    }
    if a < c {
        assert(associations[a].state != st);
    }
}

/// Finds the first association in state `st`, or returns their number.
fn first_with_state(associations: &Vec<Association>, st: AssociationState) -> (r: usize)
    ensures
        r <= associations@.len(),
        r < associations@.len() ==> is_first_state(associations@, r as int, st),
        r == associations@.len() ==> !has_state(associations@, st),
{
    let mut i: usize = 0;
    while i < associations.len()
        invariant
            i <= associations@.len(),
            forall|j: int| 0 <= j < i ==> (#[trigger] associations@[j]).state != st,
        decreases associations@.len() - i,
    {
        if associations[i].state == st {
            return i;
        }
        i = i + 1;
    }
    i
}

/// Returns the association at `index` unless it is missing or disabled.
fn get_valid(associations: &Vec<Association>, index: usize) -> (r: Option<&Association>)
    ensures
        match r {
            Some(a) => index < associations@.len() && *a == associations@[index as int] && live(*a),
            None => !(index < associations@.len() && live(associations@[index as int])),
        },
{
    if index < associations.len() && associations[index].state != AssociationState::Disabled {
        Some(&associations[index])
    } else {
        None
    }
}

/// A vector whose items keep their index while other items come and go.
pub struct SVec<T> {
    data: Vec<Bucket<T>>,
    association: Vec<Association>,
}

impl<T> SVec<T> {
    /// The item at index `i`, if any.
    closed spec fn slot(self, i: int) -> Option<T> {
        let a = i / (BUCKET_SIZE as int);
        if 0 <= i && a < self.association@.len() && live(self.association@[a])
            && self.association@[a].bucket_idx < self.data@.len() {
            self.data@[self.association@[a].bucket_idx as int].data@[i % (BUCKET_SIZE as int)]
        } else {
            None
        }
    }

    /// The states of the associations, in order.
    pub closed spec fn states(self) -> Seq<AssociationState> {
        self.association@.map_values(|a: Association| a.state)
    }

    /// The number of associations, that is of index ranges ever opened.
    pub closed spec fn association_count(self) -> nat {
        self.association@.len()
    }

    /// The bucket that each association names, in order; a disabled
    /// association keeps naming the bucket it named last.
    pub closed spec fn association_buckets(self) -> Seq<usize> {
        self.association@.map_values(|a: Association| a.bucket_idx)
    }

    /// What every operation keeps: each bucket's bitmap agrees with its slots,
    /// and no two enabled associations share a bucket.
    pub closed spec fn inv(self) -> bool {
        &&& forall|b: int| 0 <= b < self.data@.len() ==> (#[trigger] self.data@[b]).wf()
        &&& self.association@.len() <= MAX_ASSOCIATIONS
        &&& forall|a1: int, a2: int|
            0 <= a1 < self.association@.len() && 0 <= a2 < self.association@.len() && a1 != a2
                && live(#[trigger] self.association@[a1]) && live(#[trigger] self.association@[a2])
                ==> self.association@[a1].bucket_idx != self.association@[a2].bucket_idx
    }

    /// Well-formedness: each bucket belongs to exactly one enabled association,
    /// whose state says whether the bucket is full; enabled buckets are never empty.
    pub closed spec fn wf(self) -> bool {
        &&& self.inv()
        &&& forall|a: int|
            0 <= a < self.association@.len() && live(#[trigger] self.association@[a]) ==> {
                &&& self.association@[a].bucket_idx < self.data@.len()
                &&& (self.association@[a].state == AssociationState::Full) == self.data@[self.association@[a].bucket_idx as int].full()
                &&& !self.data@[self.association@[a].bucket_idx as int].empty()
            }
        &&& forall|b: int| 0 <= b < self.data@.len() ==> #[trigger] has_owner(self.association@, b)
    }

}

impl<T> SVec<T> {
    /// The number of buckets.
    pub closed spec fn bucket_count(self) -> nat {
        self.data@.len()
    }

    /// The association, the bucket and the slot that `push` fills: the lowest
    /// free slot of the first hollow association; else a new bucket for the
    /// first disabled association; else a new bucket for a new association.
    pub closed spec fn push_target(self) -> (int, int, int) {
        if has_state(self.association@, AssociationState::Hollow) {
            let a = first_state(self.association@, AssociationState::Hollow);
            let b = self.association@[a].bucket_idx as int;
            (a, b, lowest_free(self.data@[b].data@))
        } else if has_state(self.association@, AssociationState::Disabled) {
            (first_state(self.association@, AssociationState::Disabled), self.data@.len() as int, 0)
        } else {
            (self.association@.len() as int, self.data@.len() as int, 0)
        }
    }

    /// The index at which `push` stores its item.
    pub closed spec fn push_position(self) -> int {
        self.push_target().0 * (BUCKET_SIZE as int) + self.push_target().2
    }

    /// The index that `push` returns: the bucket, rather than the association,
    /// times the bucket size, plus the slot.
    pub closed spec fn push_index(self) -> int {
        self.push_target().1 * (BUCKET_SIZE as int) + self.push_target().2
    }

    /// The association states after `push`.
    pub closed spec fn push_states(self) -> Seq<AssociationState> {
        let a = self.push_target().0;
        let b = self.push_target().1;
        let s = self.push_target().2;
        if has_state(self.association@, AssociationState::Hollow) {
            self.states().update(
                a,
                if (forall|j: int|
                    0 <= j < BUCKET_SIZE && j != s ==> #[trigger] self.data@[b].data@[j] is Some) {
                    AssociationState::Full
                } else {
                    AssociationState::Hollow
                },
            )
        } else if has_state(self.association@, AssociationState::Disabled) {
            self.states().update(a, AssociationState::Hollow)
        } else {
            self.states().push(AssociationState::Hollow)
        }
    }
}

impl<T> SVec<T> {
    /// Whether removing the item at `i` leaves its bucket empty.
    pub closed spec fn removal_empties(self, i: int) -> bool {
        let b = self.association@[i / (BUCKET_SIZE as int)].bucket_idx as int;
        forall|j: int|
            0 <= j < BUCKET_SIZE && j != i % (BUCKET_SIZE as int) ==> #[trigger] self.data@[b].data@[j]
                is None
    }

    /// Whether removing the item at `i` strands an association: the removal
    /// empties a bucket other than the last one, the last bucket moves into its
    /// place, and a disabled association that still names the last bucket comes
    /// before the association that owns it, so the move updates the disabled one.
    pub closed spec fn removal_strands(self, i: int) -> bool {
        let last = self.data@.len() - 1;
        &&& self@.contains_key(i)
        &&& self.removal_empties(i)
        &&& self.association@[i / (BUCKET_SIZE as int)].bucket_idx != last
        &&& stale_precedes_owner(self.association@, last)
    }

    /// The association that owns the last bucket.
    pub closed spec fn last_owner(self) -> int {
        choose|o: int|
            0 <= o < self.association@.len() && live(self.association@[o])
                && self.association@[o].bucket_idx == self.data@.len() - 1
    }
}

/// The first position of `st` in `states`.
pub open spec fn first_in(states: Seq<AssociationState>, st: AssociationState) -> int {
    choose|a: int| 0 <= a < states.len() && states[a] == st && forall|j: int| 0 <= j < a ==> states[j] != st
}

/// The first position of the bucket `c` in `buckets`.
pub open spec fn first_naming(buckets: Seq<usize>, c: int) -> int {
    choose|f: int| 0 <= f < buckets.len() && buckets[f] == c && forall|j: int| 0 <= j < f ==> buckets[j] != c
}

proof fn lemma_first_in_unique(states: Seq<AssociationState>, a: int, st: AssociationState)
    requires
        0 <= a < states.len(),
        states[a] == st,
        forall|j: int| 0 <= j < a ==> states[j] != st,
    ensures
        first_in(states, st) == a,
{
    let c = first_in(states, st);
    if c < a {
        assert(states[c] != st);
    }
    if a < c {
        assert(states[a] != st);
    }
}

proof fn lemma_first_naming_unique(buckets: Seq<usize>, f: int, c: int)
    requires
        0 <= f < buckets.len(),
        buckets[f] == c,
        forall|j: int| 0 <= j < f ==> buckets[j] != c,
    ensures
        first_naming(buckets, c) == f,
{
    let g = first_naming(buckets, c);
    if g < f {
        assert(buckets[g] != c);
    }
    if f < g {
        assert(buckets[f] != c);
    }
}

/// Whether a disabled association naming bucket `c` comes before an enabled one naming it.
spec fn stale_precedes_owner(associations: Seq<Association>, c: int) -> bool {
    exists|j: int, o: int|
        0 <= j < o < associations.len() && !live(#[trigger] associations[j]) && live(
            #[trigger] associations[o],
        ) && associations[j].bucket_idx == c && associations[o].bucket_idx == c
}

/// Finds the first association naming bucket `b`, or returns their number.
fn first_with_bucket(associations: &Vec<Association>, b: usize) -> (r: usize)
    ensures
        r <= associations@.len(),
        r < associations@.len() ==> associations@[r as int].bucket_idx == b,
        forall|j: int| 0 <= j < r ==> (#[trigger] associations@[j]).bucket_idx != b,
{
    let mut i: usize = 0;
    while i < associations.len()
        invariant
            i <= associations@.len(),
            forall|j: int| 0 <= j < i ==> (#[trigger] associations@[j]).bucket_idx != b,
        decreases associations@.len() - i,
    {
        if associations[i].bucket_idx == b {
            return i;
        }
        i = i + 1;
    }
    i
}

/// The state of association `a` when the items `0..n` are packed from index 0:
/// full ranges, then a hollow one, then disabled ones.
pub open spec fn packed_state(n: nat, a: int) -> AssociationState {
    if (a + 1) * (BUCKET_SIZE as int) <= n {
        AssociationState::Full
    } else if a * (BUCKET_SIZE as int) < n {
        AssociationState::Hollow
    } else {
        AssociationState::Disabled
    }
}

/// The number of buckets that hold `n` items packed from index 0.
pub open spec fn packed_buckets(n: nat) -> int {
    (n + (BUCKET_SIZE as int) - 1) / (BUCKET_SIZE as int)
}

impl<T> SVec<T> {
    /// The vector holds exactly the indices `0..n`, each bucket sits at the
    /// position of its association, and the association states are those of
    /// `packed_state`.
    pub closed spec fn packed(self, n: nat) -> bool {
        &&& self.data@.len() == packed_buckets(n)
        &&& packed_buckets(n) <= self.association@.len()
        &&& forall|a: int| 0 <= a < packed_buckets(n) ==> #[trigger] self.association@[a].bucket_idx == a
        &&& forall|a: int|
            0 <= a < self.association@.len() ==> #[trigger] self.association@[a].state == packed_state(n, a)
        &&& forall|i: int| #[trigger] self@.contains_key(i) <==> 0 <= i < n
    }
}

/// Pushing onto a vector that packs `n` items stores the item at index `n`
/// and returns `n`.
pub proof fn lemma_push_packed<T>(v: SVec<T>, n: nat)
    requires
        v.wf(),
        v.packed(n),
    ensures
        v.push_position() == n,
        v.push_index() == n,
{
    let q: int = (n as int) / (BUCKET_SIZE as int);
    let rem: int = (n as int) % (BUCKET_SIZE as int);
    assert(n == q * 256 + rem);
    if rem != 0 {
        assert(packed_buckets(n) == q + 1);
        assert(v.association@[q].state == AssociationState::Hollow);
        assert forall|j: int| 0 <= j < q implies (#[trigger] v.association@[j]).state != AssociationState::Hollow by {
            assert(v.association@[j].state == packed_state(n, j));
        }
        lemma_first_state_unique(v.association@, q, AssociationState::Hollow);
        assert(v.association@[q].bucket_idx == q);
        assert forall|j: int| 0 <= j < rem implies #[trigger] v.data@[q].data@[j] is Some by {
            assert(v@.contains_key(q * 256 + j));
            assert((q * 256 + j) / 256 == q);
            assert((q * 256 + j) % 256 == j);
        }
        assert(!v@.contains_key(n as int));
        assert(v.data@[q].data@[rem] is None);
        lemma_lowest_free_unique(v.data@[q].data@, rem);
    } else {
        assert(packed_buckets(n) == q);
        assert forall|j: int| 0 <= j < v.association@.len() implies (#[trigger] v.association@[j]).state != AssociationState::Hollow by {
            assert(v.association@[j].state == packed_state(n, j));
        }
        if q < v.association@.len() {
            assert(v.association@[q].state == packed_state(n, q));
            assert forall|j: int| 0 <= j < q implies (#[trigger] v.association@[j]).state != AssociationState::Disabled by {
                assert(v.association@[j].state == packed_state(n, j));
            }
            lemma_first_state_unique(v.association@, q, AssociationState::Disabled);
        } else {
            assert forall|j: int| 0 <= j < v.association@.len() implies (#[trigger] v.association@[j]).state != AssociationState::Disabled by {
                assert(v.association@[j].state == packed_state(n, j));
            }
        }
    }
}

/// A well-formed vector without items holds no bucket, and every association
/// is disabled: it packs zero items.
pub proof fn lemma_empty_is_packed<T>(v: SVec<T>)
    requires
        v.wf(),
        v@.dom() == Set::<int>::empty(),
    ensures
        v.packed(0),
        v.bucket_count() == 0,
        forall|a: int| 0 <= a < v.association_count() ==> v.states()[a] == AssociationState::Disabled,
{
    if v.data@.len() > 0 {
        assert(has_owner(v.association@, 0));
        let o = choose|o: int|
            0 <= o < v.association@.len() && live(#[trigger] v.association@[o])
                && v.association@[o].bucket_idx == 0;
        assert(!v.data@[0].empty());
        let j = choose|j: int| 0 <= j < BUCKET_SIZE && !(#[trigger] v.data@[0].data@[j] is None);
        let k = o * 256 + j;
        assert(k / 256 == o && k % 256 == j);
        assert(v.slot(k) is Some);
        assert(v@.contains_key(k));
    }
    assert forall|a: int| 0 <= a < v.association@.len() implies #[trigger] v.association@[a].state
        == packed_state(0, a) by {
        if live(v.association@[a]) {
            assert(v.association@[a].bucket_idx < v.data@.len());
        }
    }
    assert forall|i: int| #[trigger] v@.contains_key(i) <==> 0 <= i < 0 by {
        if v@.contains_key(i) {
            assert(v@.dom().contains(i));
        }
    }
}

/// The characters that the ASCII bytes `bytes` stand for.
pub open spec fn ascii_chars(bytes: Seq<u8>) -> Seq<char> {
    bytes.map_values(|b: u8| b as char)
}

/// Calls `String::from_utf8_lossy` on `bytes` and takes the result as an owned
/// `String`. Claimed: bytes below 0x80 are valid UTF-8 that encodes the ASCII
/// characters of the same values, which `from_utf8_lossy` keeps unchanged.
/// Nothing is claimed of other bytes.
#[verifier::external_body]
fn string_from_ascii(bytes: &Vec<u8>) -> (s: String)
    ensures
        (forall|i: int| 0 <= i < bytes@.len() ==> #[trigger] bytes@[i] < 128u8) ==> s@ == ascii_chars(
            bytes@,
        ),
{
    String::from_utf8_lossy(bytes).into_owned()
}

/// The usage character of a slot: `|` when it holds an item, `_` when free.
pub open spec fn usage_byte(used: bool) -> u8 {
    if used {
        124u8
    } else {
        95u8
    }
}

impl<T> SVec<T> {
    /// The usage line of bucket `b`, slot by slot.
    pub closed spec fn usage_line(self, b: int) -> Seq<char> {
        ascii_chars(
            Seq::new(BUCKET_SIZE as nat, |j: int| usage_byte(self.data@[b].data@[j] is Some)),
        )
    }

    /// The states of the associations as letters: `F` for full, `H` for
    /// hollow, `D` for disabled.
    pub fn association_state(&self) -> (r: String)
        ensures
            r@ == ascii_chars(self.states().map_values(|s: AssociationState| s.ascii())),
    {
        let mut bytes: Vec<u8> = Vec::new();
        let mut i: usize = 0;
        while i < self.association.len()
            invariant
                i <= self.association@.len(),
                bytes@ == self.states().map_values(|s: AssociationState| s.ascii()).take(i as int),
            decreases self.association@.len() - i,
        {
            bytes.push(self.association[i].state.get_ascci_byte());
            i = i + 1;
            proof {
                assert(bytes@ =~= self.states().map_values(|s: AssociationState| s.ascii()).take(
                    i as int,
                ));
            }
        }
        proof {
            assert(bytes@ =~= self.states().map_values(|s: AssociationState| s.ascii()));
        }
        string_from_ascii(&bytes)
    }

    /// The number of buckets.
    pub fn buckets(&self) -> (r: usize)
        ensures
            r == self.bucket_count(),
    {
        self.data.len()
    }

    /// The number of associations.
    pub fn associations(&self) -> (r: usize)
        ensures
            r == self.association_count(),
    {
        self.association.len()
    }

    /// One line per bucket that shows which of its slots hold an item.
    pub fn bucket_usage(&self) -> (r: Vec<String>)
        requires
            self.inv(),
        ensures
            r@.len() == self.bucket_count(),
            forall|b: int| 0 <= b < r@.len() ==> (#[trigger] r@[b])@ == self.usage_line(b),
    {
        let mut lines: Vec<String> = Vec::new();
        let mut b: usize = 0;
        while b < self.data.len()
            invariant
                self.inv(),
                b <= self.data@.len(),
                lines@.len() == b,
                forall|c: int| 0 <= c < b ==> (#[trigger] lines@[c])@ == self.usage_line(c),
            decreases self.data@.len() - b,
        {
            let bucket = &self.data[b];
            proof {
                assert(bucket.wf());
            }
            let mut bytes: Vec<u8> = Vec::new();
            let mut byte_idx: usize = 0;
            while byte_idx < USED_BYTES
                invariant
                    bucket.wf(),
                    byte_idx <= USED_BYTES,
                    bytes@.len() == byte_idx * 8,
                    forall|j: int| 0 <= j < byte_idx * 8 ==> #[trigger] bytes@[j] == usage_byte(
                        bucket.data@[j] is Some,
                    ),
                decreases USED_BYTES - byte_idx,
            {
                let byte = bucket.used[byte_idx];
                let mut bit_idx: u8 = 0;
                while bit_idx < 8
                    invariant
                        bucket.wf(),
                        byte_idx < USED_BYTES,
                        byte == bucket.used@[byte_idx as int],
                        bit_idx <= 8,
                        bytes@.len() == byte_idx * 8 + bit_idx,
                        forall|j: int| 0 <= j < byte_idx * 8 + bit_idx ==> #[trigger] bytes@[j] == usage_byte(
                            bucket.data@[j] is Some,
                        ),
                    decreases 8 - bit_idx,
                {
                    proof {
                        lemma_mask_test(byte, bit_idx);
                        lemma_byte_slots(*bucket, byte_idx as int, bit_idx);
                    }
                    if byte & (1u8 << bit_idx) != 0 {
                        bytes.push(124u8);
                    } else {
                        bytes.push(95u8);
                    }
                    bit_idx = bit_idx + 1;
                }
                byte_idx = byte_idx + 1;
            }
            proof {
                assert(bytes@ =~= Seq::new(BUCKET_SIZE as nat, |j: int| usage_byte(bucket.data@[j] is Some)));
            }
            let line = string_from_ascii(&bytes);
            lines.push(line);
            b = b + 1;
        }
        lines
    }
}

impl<T> View for SVec<T> {
    type V = Map<int, T>;

    closed spec fn view(&self) -> Map<int, T> {
        Map::new(|i: int| self.slot(i) is Some, |i: int| self.slot(i)->0)
    }
}

impl<T> SVec<T> {
    /// An empty stable vector.
    pub fn new() -> (v: Self)
        ensures
            v.wf(),
            v@ == Map::<int, T>::empty(),
            v.states() == Seq::<AssociationState>::empty(),
            v.packed(0),
            v.association_count() == 0,
            v.bucket_count() == 0,
            v.inv(),
            v.association_buckets() == Seq::<usize>::empty(),
    {
        let v = Self { data: Vec::new(), association: Vec::new() };
        assert(v.association_buckets() =~= Seq::<usize>::empty());
        assert(v@ =~= Map::<int, T>::empty());
        assert(v.states() =~= Seq::<AssociationState>::empty());
        v
    }

    /// The item at `index`, if there is one.
    pub fn get(&self, index: usize) -> (r: Option<&T>)
        requires
            self.inv(),
        ensures
            match r {
                Some(x) => self@.contains_key(index as int) && *x == self@[index as int],
                None => !self@.contains_key(index as int),
            },
    {
        let association = match get_valid(&self.association, index / BUCKET_SIZE) {
            Some(a) => *a,
            None => return None,
        };
        if association.bucket_idx >= self.data.len() {
            return None;
        }
        let bucket = &self.data[association.bucket_idx];
        if !bucket.index_in_use(index % BUCKET_SIZE) {
            return None;
        }
        bucket.data[index % BUCKET_SIZE].as_ref()
    }

    /// A mutable reference to the item at `index`, if there is one.
    pub fn get_mut(&mut self, index: usize) -> (r: Option<&mut T>)
        requires
            old(self).inv(),
        ensures
            final(self).inv(),
            match r {
                Some(x) => old(self)@.contains_key(index as int) && *x == old(self)@[index as int]
                    && final(self)@ == old(self)@.insert(index as int, *final(x)),
                None => !old(self)@.contains_key(index as int) && *final(self) == *old(self),
            },
            final(self).states() == old(self).states(),
            final(self).association_count() == old(self).association_count(),
            old(self).wf() ==> final(self).wf(),
    {
        let association = match get_valid(&self.association, index / BUCKET_SIZE) {
            Some(a) => *a,
            None => return None,
        };
        if association.bucket_idx >= self.data.len() {
            return None;
        }
        if !self.data[association.bucket_idx].index_in_use(index % BUCKET_SIZE) {
            return None;
        }
        proof {
            lemma_slot_written(*self, index as int);
        }
        Some(self.slot_ref(index))
    }

    /// Stores `t` and returns `b * BUCKET_SIZE + s`, where `b` is the bucket
    /// and `s` the slot that received it.
    pub fn push(&mut self, t: T) -> (r: usize)
        requires
            old(self).wf(),
            old(self).association_count() < MAX_ASSOCIATIONS,
            old(self).bucket_count() < MAX_ASSOCIATIONS,
        ensures
            final(self).wf(),
            !old(self)@.contains_key(old(self).push_position()),
            final(self)@ == old(self)@.insert(old(self).push_position(), t),
            r == old(self).push_index(),
            final(self).states() == old(self).push_states(),
            final(self).inv(),
            final(self).bucket_count() == old(self).bucket_count() + if old(self).states().contains(AssociationState::Hollow) {
                0int
            } else {
                1int
            },
            final(self).association_buckets() == if old(self).states().contains(AssociationState::Hollow) {
                old(self).association_buckets()
            } else if old(self).states().contains(AssociationState::Disabled) {
                old(self).association_buckets().update(
                    first_in(old(self).states(), AssociationState::Disabled),
                    old(self).bucket_count() as usize,
                )
            } else {
                old(self).association_buckets().push(old(self).bucket_count() as usize)
            },
            final(self).association_count() <= old(self).association_count() + 1,
            final(self).bucket_count() <= old(self).bucket_count() + 1,
            forall|n: nat| #[trigger] old(self).packed(n) ==> final(self).packed(n + 1),
    {
        let ghost old_self = *self;
        let h = first_with_state(&self.association, AssociationState::Hollow);
        if h < self.association.len() {
            // put the item in a free slot of a hollow bucket
            let b = self.association[h].bucket_idx;
            proof {
                lemma_full_bytes(self.data@[b as int]);
            }
            let (byte_idx, bit_idx) = find_free_slot(&self.data[b]);
            let now_full = self.data[b].insert_at(byte_idx, bit_idx, t);
            if now_full {
                self.association[h].state = AssociationState::Full;
            }
            proof {
                let bb = b as int;
                assert(self.data@.len() == old_self.data@.len());
                assert(self.data@[bb].wf());
                assert(self.data@[bb].data@ == old_self.data@[bb].data@.update(byte_idx * 8 + bit_idx, Some(t)));
                assert(forall|c: int| 0 <= c < old_self.data@.len() && c != bb ==> self.data@[c] == old_self.data@[c]);
                assert(self.association@ == old_self.association@.update(
                    h as int,
                    Association {
                        bucket_idx: b,
                        state: if self.data@[bb].full() {
                            AssociationState::Full
                        } else {
                            AssociationState::Hollow
                        },
                    },
                ));
                lemma_push_hollow(old_self, *self, t, h as int, byte_idx * 8 + bit_idx);
                assert(old_self.states()[h as int] == AssociationState::Hollow);
                assert(self.association_buckets() =~= old_self.association_buckets());
            }
            return b * BUCKET_SIZE + byte_idx * 8 + bit_idx as usize;
        }
        let d = first_with_state(&self.association, AssociationState::Disabled);
        let bucket_idx = self.data.len();
        let bucket = Bucket::with_first(t);
        self.data.push(bucket);
        if d < self.association.len() {
            // give a disabled association a new bucket
            self.association[d] = Association { bucket_idx, state: AssociationState::Hollow };
        } else {
            // put the item in a new bucket of a new association
            self.association.push(Association { bucket_idx, state: AssociationState::Hollow });
        }
        proof {
            lemma_push_new_bucket(old_self, *self, t, d as int);
            assert(!old_self.states().contains(AssociationState::Hollow)) by {
                if old_self.states().contains(AssociationState::Hollow) {
                    let k = choose|k: int| 0 <= k < old_self.states().len() && old_self.states()[k] == AssociationState::Hollow;
                    assert(old_self.association@[k].state == AssociationState::Hollow);
                }
            }
            if d < old_self.association@.len() {
                assert(old_self.states()[d as int] == AssociationState::Disabled);
                assert forall|j: int| 0 <= j < d implies old_self.states()[j] != AssociationState::Disabled by {
                    assert(old_self.association@[j].state != AssociationState::Disabled);
                }
                lemma_first_in_unique(old_self.states(), d as int, AssociationState::Disabled);
                assert(self.association_buckets() =~= old_self.association_buckets().update(d as int, bucket_idx));
            } else {
                assert(!old_self.states().contains(AssociationState::Disabled)) by {
                    if old_self.states().contains(AssociationState::Disabled) {
                        let k = choose|k: int| 0 <= k < old_self.states().len() && old_self.states()[k] == AssociationState::Disabled;
                        assert(old_self.association@[k].state == AssociationState::Disabled);
                    }
                }
                assert(self.association_buckets() =~= old_self.association_buckets().push(bucket_idx));
            }
        }
        bucket_idx * BUCKET_SIZE
    }

    /// Takes the item at `index` out; a bucket that becomes empty is dropped,
    /// the last bucket takes its place, and its association is disabled. Where
    /// that strands the owner of the last bucket (`removal_strands`), the items
    /// of that bucket leave the vector and are never dropped.
    #[verifier::spinoff_prover]
    #[verifier::rlimit(60)]
    pub fn remove(&mut self, index: usize) -> (r: Option<T>)
        requires
            old(self).wf(),
        ensures
            final(self).inv(),
            match r {
                Some(x) => old(self)@.contains_key(index as int) && x == old(self)@[index as int],
                None => !old(self)@.contains_key(index as int) && *final(self) == *old(self),
            },
            r is Some && !old(self).removal_strands(index as int) ==> final(self).wf()
                && final(self)@ == old(self)@.remove(index as int),
            r is Some && old(self).removal_strands(index as int) ==> final(self)@ == old(self)@.remove(
                index as int,
            ).remove_keys(
                Set::new(|k: int| k / (BUCKET_SIZE as int) == old(self).last_owner()),
            ),
            r is Some ==> final(self).states() == old(self).states().update(
                index as int / (BUCKET_SIZE as int),
                if old(self).removal_empties(index as int) {
                    AssociationState::Disabled
                } else {
                    AssociationState::Hollow
                },
            ),
            final(self).association_count() == old(self).association_count(),
            final(self).bucket_count() <= old(self).bucket_count(),
            r is Some && old(self).removal_empties(index as int) ==> {
                &&& final(self).bucket_count() == old(self).bucket_count() - 1
                &&& final(self).association_buckets() == old(self).association_buckets().update(
                    first_naming(old(self).association_buckets(), old(self).bucket_count() - 1),
                    old(self).association_buckets()[index as int / (BUCKET_SIZE as int)],
                )
            },
            r is Some && !old(self).removal_empties(index as int) ==> {
                &&& final(self).bucket_count() == old(self).bucket_count()
                &&& final(self).association_buckets() == old(self).association_buckets()
            },
    {
        let ghost old_self = *self;
        let a = index / BUCKET_SIZE;
        let association = match get_valid(&self.association, a) {
            Some(x) => *x,
            None => return None,
        };
        if association.bucket_idx >= self.data.len() {
            return None;
        }
        let b = association.bucket_idx;
        let bucket_index = index % BUCKET_SIZE;
        let bit: u8 = 1u8 << ((bucket_index % 8) as u8);
        let used_idx = bucket_index / 8;
        if used_idx >= self.data[b].used.len() {
            return None;
        }
        let used_byte = self.data[b].used[used_idx];
        proof {
            lemma_mask_test(used_byte, (bucket_index % 8) as u8);
        }
        if (used_byte & bit) == 0 {
            proof {
                assert(old_self.data@[b as int].data@[bucket_index as int] is None);
            }
            return None;
        }
        let new_byte = used_byte & !bit;
        self.data[b].used[used_idx] = new_byte;
        let t = self.data[b].data[bucket_index].take();
        proof {
            lemma_clear_bit(used_byte, (bucket_index % 8) as u8, (bucket_index % 8) as u8);
            lemma_full_byte_all(new_byte);
        }
        self.association[a].state = if new_byte == u8::MAX {
            AssociationState::Full
        } else {
            AssociationState::Hollow
        };
        proof {
            lemma_clear_slot(old_self, *self, index as int, used_byte);
        }
        let ghost mid = *self;
        let mut k: usize = 0;
        let mut all_zero = true;
        while k < USED_BYTES
            invariant
                *self == mid,
                b < mid.data@.len(),
                mid.data@[b as int].wf(),
                k <= USED_BYTES,
                all_zero == (forall|j: int| 0 <= j < k ==> #[trigger] mid.data@[b as int].used@[j] == 0u8),
            decreases USED_BYTES - k,
        {
            if self.data[b].used[k] != 0 {
                all_zero = false;
            }
            k = k + 1;
        }
        proof {
            lemma_empty_bytes(mid.data@[b as int]);
            if all_zero {
                assert(mid.data@[b as int].empty());
            } else {
                assert(!mid.data@[b as int].empty());
            }
        }
        if all_zero {
            // bucket free -> remove bucket
            let last_idx = self.data.len() - 1;
            let asso_bucket_idx = self.association[a].bucket_idx;
            self.association[a].state = AssociationState::Disabled;
            let _ = self.data.swap_remove(asso_bucket_idx);
            let f = first_with_bucket(&self.association, last_idx);
            proof {
                lemma_owner_found(old_self, mid, *self, index as int, f as int);
            }
            self.association[f].bucket_idx = asso_bucket_idx;
            proof {
                lemma_drop_bucket(old_self, mid, *self, index as int, f as int);
                let ob = old_self.association_buckets();
                assert(ob[f as int] == last_idx);
                assert forall|j: int| 0 <= j < f implies ob[j] != last_idx by {
                    assert(old_self.association@[j].bucket_idx == mid.association@[j].bucket_idx);
                }
                lemma_first_naming_unique(ob, f as int, last_idx as int);
                assert(self.association_buckets() =~= ob.update(f as int, ob[a as int]));
            }
            if asso_bucket_idx != last_idx && self.association[f].state == AssociationState::Disabled {
                // The bucket moved into `asso_bucket_idx` is now named by
                // disabled associations only, and its owner names no bucket:
                // its items are left undropped.
                let ghost before = *self;
                let mut orphan = Bucket::new();
                std::mem::swap(&mut orphan, &mut self.data[asso_bucket_idx]);
                leak_items(orphan);
                proof {
                    lemma_clear_orphan(before, *self, asso_bucket_idx as int);
                }
            }
        } else {
            proof {
                assert(self.association_buckets() =~= old_self.association_buckets());
            }
        }
        t
    }

    /// A mutable reference to the occupied slot at `index`.
    fn slot_ref(&mut self, index: usize) -> (r: &mut T)
        requires
            old(self).inv(),
            old(self)@.contains_key(index as int),
        ensures
            *r == old(self)@[index as int],
            slot_written(*old(self), *final(self), index as int, *final(r)),
    {
        let b = self.association[index / BUCKET_SIZE].bucket_idx;
        self.data[b].data[index % BUCKET_SIZE].as_mut().unwrap()
    }
}

proof fn lemma_push_hollow<T>(old: SVec<T>, new: SVec<T>, t: T, h: int, s: int)
    requires
        old.wf(),
        is_first_state(old.association@, h, AssociationState::Hollow),
        is_lowest_free(old.data@[old.association@[h].bucket_idx as int].data@, s),
        new.data@.len() == old.data@.len(),
        ({
            let b = old.association@[h].bucket_idx as int;
            &&& new.data@[b].wf()
            &&& new.data@[b].data@ == old.data@[b].data@.update(s, Some(t))
            &&& forall|c: int| 0 <= c < old.data@.len() && c != b ==> new.data@[c] == old.data@[c]
            &&& new.association@ == old.association@.update(
                h,
                Association {
                    bucket_idx: b as usize,
                    state: if new.data@[b].full() {
                        AssociationState::Full
                    } else {
                        AssociationState::Hollow
                    },
                },
            )
        }),
    ensures
        new.wf(),
        !old@.contains_key(old.push_position()),
        new@ == old@.insert(old.push_position(), t),
        old.push_position() == h * (BUCKET_SIZE as int) + s,
        old.push_index() == old.association@[h].bucket_idx * (BUCKET_SIZE as int) + s,
        new.states() == old.push_states(),
        new.association_count() == old.association_count(),
        new.bucket_count() == old.bucket_count(),
        forall|n: nat| #[trigger] old.packed(n) ==> new.packed(n + 1),
{
    let b = old.association@[h].bucket_idx as int;
    lemma_first_state_unique(old.association@, h, AssociationState::Hollow);
    assert forall|n: nat| #[trigger] old.packed(n) implies new.packed(n + 1) by {
        lemma_push_packed(old, n);
        let q: int = (n as int) / (BUCKET_SIZE as int);
        let rem: int = (n as int) % (BUCKET_SIZE as int);
        lemma_lowest_free_unique(old.data@[b].data@, s);
        assert(h * 256 + s == n);
        assert(h == q && s == rem);
        assert(old.association@[h].state == packed_state(n, h));
        assert(rem != 0);
        assert(packed_buckets(n) == q + 1);
        assert(packed_buckets((n + 1) as nat) == q + 1);
        assert(b == h);
        assert forall|j: int| 0 <= j < BUCKET_SIZE implies (#[trigger] old.data@[b].data@[j] is Some) == (j < rem) by {
            assert((q * 256 + j) / 256 == q);
            assert((q * 256 + j) % 256 == j);
            assert(old@.contains_key(q * 256 + j) == (j < rem));
        }
        if rem == 255 {
            assert forall|j: int| 0 <= j < BUCKET_SIZE implies #[trigger] new.data@[b].data@[j] is Some by {
                if j != s {
                    assert(old.data@[b].data@[j] is Some);
                }
            }
        } else {
            assert(new.data@[b].data@[rem + 1] is None);
        }
        assert forall|a: int| 0 <= a < new.association@.len() implies #[trigger] new.association@[a].state
            == packed_state((n + 1) as nat, a) by {
            if a != h {
                assert(old.association@[a].state == packed_state(n, a));
            }
        }
        assert forall|a: int| 0 <= a < packed_buckets((n + 1) as nat) implies #[trigger] new.association@[a].bucket_idx == a by {
            assert(old.association@[a].bucket_idx == a);
        }
        assert forall|i: int| #[trigger] new@.contains_key(i) <==> 0 <= i < n + 1 by {
            assert(old@.contains_key(i) <==> 0 <= i < n);
        }
    }
    lemma_lowest_free_unique(old.data@[b].data@, s);
    let pos = h * (BUCKET_SIZE as int) + s;
    assert(pos / (BUCKET_SIZE as int) == h);
    assert(pos % (BUCKET_SIZE as int) == s);
    // the bucket is full afterwards exactly when every other slot was taken
    assert(new.data@[b].full() == (forall|j: int|
        0 <= j < BUCKET_SIZE && j != s ==> #[trigger] old.data@[b].data@[j] is Some)) by {
        if new.data@[b].full() {
            assert forall|j: int| 0 <= j < BUCKET_SIZE && j != s implies #[trigger] old.data@[b].data@[j] is Some by {
                assert(new.data@[b].data@[j] is Some);
            }
        }
        if forall|j: int| 0 <= j < BUCKET_SIZE && j != s ==> #[trigger] old.data@[b].data@[j] is Some {
            assert forall|j: int| 0 <= j < BUCKET_SIZE implies #[trigger] new.data@[b].data@[j] is Some by {
                if j != s {
                    assert(old.data@[b].data@[j] is Some);
                }
            }
        }
    }
    assert(new.states() =~= old.push_states());
    // every other enabled association keeps its bucket
    assert forall|a: int| 0 <= a < old.association@.len() && a != h && live(#[trigger] old.association@[a]) implies
        old.association@[a].bucket_idx != b by {
    }
    assert forall|k: int| #[trigger] new.slot(k) == (if k == pos { Some(t) } else { old.slot(k) }) by {
        if 0 <= k && k / (BUCKET_SIZE as int) < old.association@.len() {
            let ak = k / (BUCKET_SIZE as int);
            if ak != h && live(old.association@[ak]) {
                assert(old.association@[ak].bucket_idx != b);
            }
        }
    }
    assert(old.slot(pos) is None);
    assert(new@ =~= old@.insert(pos, t));
    assert(new.data@[b].data@[s] is Some);
    assert forall|c: int| 0 <= c < new.data@.len() implies (#[trigger] new.data@[c]).wf() by {
        if c != b {
            assert(old.data@[c].wf());
        }
    }
    assert forall|a: int|
        0 <= a < new.association@.len() && live(#[trigger] new.association@[a]) implies {
        &&& new.association@[a].bucket_idx < new.data@.len()
        &&& (new.association@[a].state == AssociationState::Full) == new.data@[new.association@[a].bucket_idx as int].full()
        &&& !new.data@[new.association@[a].bucket_idx as int].empty()
    } by {
        if a != h {
            assert(live(old.association@[a]));
        }
    }
    assert forall|c: int| 0 <= c < new.data@.len() implies #[trigger] has_owner(new.association@, c) by {
        assert(has_owner(old.association@, c));
        let o = choose|o: int|
            0 <= o < old.association@.len() && live(#[trigger] old.association@[o])
                && old.association@[o].bucket_idx == c;
        assert(live(new.association@[o]) && new.association@[o].bucket_idx == c);
    }
}

proof fn lemma_push_new_bucket<T>(old: SVec<T>, new: SVec<T>, t: T, d: int)
    requires
        old.wf(),
        old.association@.len() < MAX_ASSOCIATIONS,
        old.data@.len() < MAX_ASSOCIATIONS,
        !has_state(old.association@, AssociationState::Hollow),
        d <= old.association@.len(),
        d < old.association@.len() ==> is_first_state(old.association@, d, AssociationState::Disabled),
        d == old.association@.len() ==> !has_state(old.association@, AssociationState::Disabled),
        ({
            let n = old.data@.len() as int;
            &&& new.data@.len() == n + 1
            &&& forall|c: int| 0 <= c < n ==> new.data@[c] == old.data@[c]
            &&& new.data@[n].wf()
            &&& !new.data@[n].full()
            &&& new.data@[n].data@[0] == Some(t)
            &&& forall|i: int| 0 < i < BUCKET_SIZE ==> #[trigger] new.data@[n].data@[i] is None
            &&& new.association@ == if d < old.association@.len() {
                old.association@.update(
                    d,
                    Association { bucket_idx: n as usize, state: AssociationState::Hollow },
                )
            } else {
                old.association@.push(
                    Association { bucket_idx: n as usize, state: AssociationState::Hollow },
                )
            }
        }),
    ensures
        new.wf(),
        !old@.contains_key(old.push_position()),
        new@ == old@.insert(old.push_position(), t),
        old.push_position() == d * (BUCKET_SIZE as int),
        old.push_index() == old.data@.len() * (BUCKET_SIZE as int),
        new.states() == old.push_states(),
        new.association_count() <= old.association_count() + 1,
        new.bucket_count() == old.bucket_count() + 1,
        forall|m: nat| #[trigger] old.packed(m) ==> new.packed(m + 1),
{
    let n = old.data@.len() as int;
    if d < old.association@.len() {
        lemma_first_state_unique(old.association@, d, AssociationState::Disabled);
    }
    let pos = d * (BUCKET_SIZE as int);
    assert(pos / (BUCKET_SIZE as int) == d);
    assert(new.states() =~= old.push_states());
    assert(new.data@[n].data@[0] is Some);
    assert(new.data@[n].data@[1] is None);
    assert forall|a: int| 0 <= a < old.association@.len() && live(#[trigger] old.association@[a]) implies
        old.association@[a].bucket_idx < n && a != d by {
    }
    assert forall|k: int| #[trigger] new.slot(k) == (if k == pos { Some(t) } else { old.slot(k) }) by {
        let ak = k / (BUCKET_SIZE as int);
        if 0 <= k {
            if ak == d {
                assert(new.association@[ak].bucket_idx == n);
                if k != pos {
                    assert(0 < k % (BUCKET_SIZE as int) < BUCKET_SIZE);
                    assert(new.data@[n].data@[k % (BUCKET_SIZE as int)] is None);
                }
            } else if ak < old.association@.len() {
                assert(new.association@[ak] == old.association@[ak]);
                if live(old.association@[ak]) {
                    assert(old.association@[ak].bucket_idx < n);
                }
            }
        }
    }
    assert(old.slot(pos) is None);
    assert(new@ =~= old@.insert(pos, t));
    assert forall|c: int| 0 <= c < new.data@.len() implies (#[trigger] new.data@[c]).wf() by {
        if c != n {
            assert(old.data@[c].wf());
        }
    }
    assert forall|a: int|
        0 <= a < new.association@.len() && live(#[trigger] new.association@[a]) implies {
        &&& new.association@[a].bucket_idx < new.data@.len()
        &&& (new.association@[a].state == AssociationState::Full) == new.data@[new.association@[a].bucket_idx as int].full()
        &&& !new.data@[new.association@[a].bucket_idx as int].empty()
    } by {
        if a != d {
            assert(live(old.association@[a]));
        }
    }
    assert forall|a1: int, a2: int|
        0 <= a1 < new.association@.len() && 0 <= a2 < new.association@.len() && a1 != a2
            && live(#[trigger] new.association@[a1]) && live(#[trigger] new.association@[a2])
            implies new.association@[a1].bucket_idx != new.association@[a2].bucket_idx by {
        if a1 != d && a2 != d {
            assert(live(old.association@[a1]) && live(old.association@[a2]));
        } else if a1 != d {
            assert(live(old.association@[a1]));
        } else {
            assert(live(old.association@[a2]));
        }
    }
    assert forall|c: int| 0 <= c < new.data@.len() implies #[trigger] has_owner(new.association@, c) by {
        if c == n {
            assert(live(new.association@[d]) && new.association@[d].bucket_idx == c);
        } else {
            assert(has_owner(old.association@, c));
            let o = choose|o: int|
                0 <= o < old.association@.len() && live(#[trigger] old.association@[o])
                    && old.association@[o].bucket_idx == c;
            assert(live(new.association@[o]) && new.association@[o].bucket_idx == c);
        }
    }
    assert forall|m: nat| #[trigger] old.packed(m) implies new.packed(m + 1) by {
        lemma_new_bucket_packed(old, new, t, d, m);
    }
}

/// After clearing the slot of `i`: `mid` is `old` without the item at `i`,
/// with the association of `i` hollow.
proof fn lemma_clear_slot<T>(old: SVec<T>, mid: SVec<T>, i: int, used_byte: u8)
    requires
        old.wf(),
        old@.contains_key(i),
        ({
            let a = i / (BUCKET_SIZE as int);
            let b = old.association@[a].bucket_idx as int;
            let s = i % (BUCKET_SIZE as int);
            &&& 0 <= i
            &&& used_byte == old.data@[b].used@[s / 8]
            &&& mid.data@.len() == old.data@.len()
            &&& mid.data@[b].data@ == old.data@[b].data@.update(s, None)
            &&& mid.data@[b].used@ == old.data@[b].used@.update(
                s / 8,
                used_byte & !(1u8 << ((s % 8) as u8)),
            )
            &&& forall|c: int| 0 <= c < old.data@.len() && c != b ==> mid.data@[c] == old.data@[c]
            &&& mid.association@ == old.association@.update(
                a,
                Association { bucket_idx: b as usize, state: AssociationState::Hollow },
            )
        }),
    ensures
        mid.inv(),
        mid@ == old@.remove(i),
        mid.data@[old.association@[i / (BUCKET_SIZE as int)].bucket_idx as int].empty()
            == old.removal_empties(i),
        !old.removal_empties(i) ==> mid.wf(),
        mid.states() == old.states().update(i / (BUCKET_SIZE as int), AssociationState::Hollow),
{
    let a = i / (BUCKET_SIZE as int);
    let b = old.association@[a].bucket_idx as int;
    let s = i % (BUCKET_SIZE as int);
    assert(old.data@[b].wf());
    assert forall|j: int| 0 <= j < BUCKET_SIZE implies (#[trigger] mid.data@[b].data@[j] is Some)
        == slot_used(mid.data@[b].used@, j) by {
        if j / 8 == s / 8 {
            lemma_clear_bit(used_byte, (s % 8) as u8, (j % 8) as u8);
            assert(old.data@[b].data@[j] is Some == slot_used(old.data@[b].used@, j));
        } else {
            assert(old.data@[b].data@[j] is Some == slot_used(old.data@[b].used@, j));
        }
    }
    assert(mid.data@[b].wf());
    assert forall|c: int| 0 <= c < mid.data@.len() implies (#[trigger] mid.data@[c]).wf() by {
        if c != b {
            assert(old.data@[c].wf());
        }
    }
    assert forall|k: int| #[trigger] mid.slot(k) == (if k == i { None } else { old.slot(k) }) by {
        if 0 <= k && k / (BUCKET_SIZE as int) < old.association@.len() {
            let ak = k / (BUCKET_SIZE as int);
            if ak != a && live(old.association@[ak]) {
                assert(old.association@[ak].bucket_idx != b);
            }
        }
    }
    assert(mid@ =~= old@.remove(i));
    assert(mid.states() =~= old.states().update(a, AssociationState::Hollow));
    if mid.data@[b].empty() {
        assert forall|j: int| 0 <= j < BUCKET_SIZE && j != s implies #[trigger] old.data@[b].data@[j] is None by {
            assert(mid.data@[b].data@[j] is None);
        }
    }
    if old.removal_empties(i) {
        assert forall|j: int| 0 <= j < BUCKET_SIZE implies #[trigger] mid.data@[b].data@[j] is None by {
            if j != s {
                assert(old.data@[b].data@[j] is None);
            }
        }
    } else {
        let w = choose|j: int| 0 <= j < BUCKET_SIZE && j != s && !(#[trigger] old.data@[b].data@[j] is None);
        assert(mid.data@[b].data@[w] is Some);
        assert(mid.data@[b].data@[s] is None);
        assert(!mid.data@[b].full());
        assert forall|a2: int|
            0 <= a2 < mid.association@.len() && live(#[trigger] mid.association@[a2]) implies {
            &&& mid.association@[a2].bucket_idx < mid.data@.len()
            &&& (mid.association@[a2].state == AssociationState::Full) == mid.data@[mid.association@[a2].bucket_idx as int].full()
            &&& !mid.data@[mid.association@[a2].bucket_idx as int].empty()
        } by {
            if a2 != a {
                assert(live(old.association@[a2]));
                assert(old.association@[a2].bucket_idx != b);
            }
        }
        assert forall|c: int| 0 <= c < mid.data@.len() implies #[trigger] has_owner(mid.association@, c) by {
            assert(has_owner(old.association@, c));
            let o = choose|o: int|
                0 <= o < old.association@.len() && live(#[trigger] old.association@[o])
                    && old.association@[o].bucket_idx == c;
            assert(live(mid.association@[o]) && mid.association@[o].bucket_idx == c);
        }
    }
}

proof fn lemma_new_bucket_packed<T>(old: SVec<T>, new: SVec<T>, t: T, d: int, m: nat)
    requires
        old.wf(),
        old.packed(m),
        !has_state(old.association@, AssociationState::Hollow),
        d <= old.association@.len(),
        d < old.association@.len() ==> is_first_state(old.association@, d, AssociationState::Disabled),
        d == old.association@.len() ==> !has_state(old.association@, AssociationState::Disabled),
        old.data@.len() < MAX_ASSOCIATIONS,
        ({
            let n = old.data@.len() as int;
            &&& new.data@.len() == n + 1
            &&& new.association@ == if d < old.association@.len() {
                old.association@.update(
                    d,
                    Association { bucket_idx: n as usize, state: AssociationState::Hollow },
                )
            } else {
                old.association@.push(
                    Association { bucket_idx: n as usize, state: AssociationState::Hollow },
                )
            }
        }),
        new@ == old@.insert(d * (BUCKET_SIZE as int), t),
    ensures
        new.packed(m + 1),
{
    let q: int = (m as int) / (BUCKET_SIZE as int);
    let rem: int = (m as int) % (BUCKET_SIZE as int);
    if rem != 0 {
        assert(old.association@[q].state == packed_state(m, q));
        assert(false);
    }
    assert(packed_buckets(m) == q);
    assert(packed_buckets((m + 1) as nat) == q + 1);
    if d < old.association@.len() {
        lemma_first_state_unique(old.association@, d, AssociationState::Disabled);
        assert(old.association@[d].state == packed_state(m, d));
        if q < d {
            assert(old.association@[q].state == packed_state(m, q));
        }
        assert(d == q);
    } else {
        if q < d {
            assert(old.association@[q].state == packed_state(m, q));
        }
        assert(d == q);
    }
    assert forall|a: int| 0 <= a < new.association@.len() implies #[trigger] new.association@[a].state
        == packed_state((m + 1) as nat, a) by {
        if a != d {
            assert(old.association@[a].state == packed_state(m, a));
        }
    }
    assert forall|a: int| 0 <= a < packed_buckets((m + 1) as nat) implies #[trigger] new.association@[a].bucket_idx == a by {
        if a != d {
            assert(old.association@[a].bucket_idx == a);
        }
    }
    assert forall|i: int| #[trigger] new@.contains_key(i) <==> 0 <= i < m + 1 by {
        assert(old@.contains_key(i) <==> 0 <= i < m);
    }
}

/// The search for the association naming the last bucket finds one.
proof fn lemma_owner_found<T>(old: SVec<T>, mid: SVec<T>, cur: SVec<T>, i: int, f: int)
    requires
        old.wf(),
        old@.contains_key(i),
        old.removal_empties(i),
        mid.data@.len() == old.data@.len(),
        mid.association@ == old.association@.update(
            i / (BUCKET_SIZE as int),
            Association {
                bucket_idx: old.association@[i / (BUCKET_SIZE as int)].bucket_idx,
                state: AssociationState::Hollow,
            },
        ),
        cur.association@ == mid.association@.update(
            i / (BUCKET_SIZE as int),
            Association {
                bucket_idx: old.association@[i / (BUCKET_SIZE as int)].bucket_idx,
                state: AssociationState::Disabled,
            },
        ),
        0 <= f <= cur.association@.len(),
        f < cur.association@.len() ==> cur.association@[f].bucket_idx == old.data@.len() - 1,
        forall|j: int| 0 <= j < f ==> (#[trigger] cur.association@[j]).bucket_idx != old.data@.len() - 1,
    ensures
        f < cur.association@.len(),
{
    let last = old.data@.len() - 1;
    assert(0 <= last);
    assert(has_owner(old.association@, last));
    let o = choose|o: int|
        0 <= o < old.association@.len() && live(#[trigger] old.association@[o])
            && old.association@[o].bucket_idx == last;
    assert(cur.association@[o].bucket_idx == last);
}

/// Dropping the emptied bucket: the last bucket moves into its place and the
/// first association naming the last bucket is pointed at the moved bucket.
proof fn lemma_drop_bucket<T>(old: SVec<T>, mid: SVec<T>, new: SVec<T>, i: int, f: int)
    requires
        old.wf(),
        old@.contains_key(i),
        old.removal_empties(i),
        mid.inv(),
        mid@ == old@.remove(i),
        mid.data@.len() == old.data@.len(),
        ({
            let a = i / (BUCKET_SIZE as int);
            let b = old.association@[a].bucket_idx as int;
            let last = old.data@.len() - 1;
            let cur = mid.association@.update(
                a,
                Association { bucket_idx: b as usize, state: AssociationState::Disabled },
            );
            &&& mid.data@[b].empty()
            &&& forall|c: int| 0 <= c < old.data@.len() && c != b ==> mid.data@[c] == old.data@[c]
            &&& mid.association@ == old.association@.update(
                a,
                Association { bucket_idx: b as usize, state: AssociationState::Hollow },
            )
            &&& new.data@ == mid.data@.update(b, mid.data@.last()).drop_last()
            &&& 0 <= f < cur.len()
            &&& cur[f].bucket_idx == last
            &&& forall|j: int| 0 <= j < f ==> (#[trigger] cur[j]).bucket_idx != last
            &&& new.association@ == cur.update(
                f,
                Association { bucket_idx: b as usize, state: cur[f].state },
            )
        }),
    ensures
        new.inv(),
        !old.removal_strands(i) ==> new.wf() && new@ == mid@,
        old.removal_strands(i) ==> new@ == mid@.remove_keys(
            Set::new(|k: int| k / (BUCKET_SIZE as int) == old.last_owner()),
        ),
        new.states() == old.states().update(i / (BUCKET_SIZE as int), AssociationState::Disabled),
        new.association_count() == old.association_count(),
        new.bucket_count() == old.bucket_count() - 1,
        old.removal_strands(i) == (old.association@[i / (BUCKET_SIZE as int)].bucket_idx != old.data@.len() - 1
            && !live(new.association@[f])),
        old.removal_strands(i) ==> forall|a2: int|
            0 <= a2 < new.association@.len() && live(#[trigger] new.association@[a2])
                ==> new.association@[a2].bucket_idx != old.association@[i / (BUCKET_SIZE as int)].bucket_idx,
{
    let a = i / (BUCKET_SIZE as int);
    let b = old.association@[a].bucket_idx as int;
    let last = old.data@.len() - 1;
    let cur = mid.association@.update(
        a,
        Association { bucket_idx: b as usize, state: AssociationState::Disabled },
    );
    assert(has_owner(old.association@, last));
    let o = choose|o: int|
        0 <= o < old.association@.len() && live(#[trigger] old.association@[o])
            && old.association@[o].bucket_idx == last;
    assert(live(old.association@[o]) && old.association@[o].bucket_idx == last);
    // the owner of the last bucket is unique
    assert forall|o2: int|
        0 <= o2 < old.association@.len() && live(#[trigger] old.association@[o2])
            && old.association@[o2].bucket_idx == last implies o2 == o by {}
    assert(old.last_owner() == o);
    assert(new.states() =~= old.states().update(a, AssociationState::Disabled));
    assert forall|c: int| 0 <= c < new.data@.len() implies (#[trigger] new.data@[c]).wf() by {
        if c == b {
            assert(mid.data@[last].wf());
        } else {
            assert(mid.data@[c].wf());
        }
    }
    // enabled associations other than `a` and the owner keep their bucket, which does not move
    assert forall|a2: int|
        0 <= a2 < old.association@.len() && a2 != a && a2 != o && live(#[trigger] old.association@[a2])
            implies old.association@[a2].bucket_idx != b && old.association@[a2].bucket_idx != last
            && new.association@[a2] == old.association@[a2] by {
        assert(old.association@[a2].bucket_idx != old.association@[o].bucket_idx);
        assert(old.association@[a2].bucket_idx != old.association@[a].bucket_idx);
        if a2 == f {
            assert(cur[f].bucket_idx == last);
        }
    }
    if b == last {
        assert(o == a);
        assert(new.association@[f].bucket_idx == last);
        assert forall|k: int| #[trigger] new.slot(k) == mid.slot(k) by {
            if 0 <= k && k / (BUCKET_SIZE as int) < old.association@.len() {
                let ak = k / (BUCKET_SIZE as int);
                if ak == a {
                    assert(mid.data@[b].data@[k % (BUCKET_SIZE as int)] is None);
                } else if ak == f {
                    assert(!live(new.association@[f]) || new.association@[f] == old.association@[f]);
                }
            }
        }
        assert(!old.removal_strands(i));
    } else {
        assert(o != a);
        assert(cur[o].bucket_idx == last);
        assert(f <= o);
        if f == o {
            assert(!stale_precedes_owner(old.association@, last)) by {
                if stale_precedes_owner(old.association@, last) {
                    let (j, o2) = choose|j: int, o2: int|
                        0 <= j < o2 < old.association@.len() && !live(#[trigger] old.association@[j])
                            && live(#[trigger] old.association@[o2]) && old.association@[j].bucket_idx == last
                            && old.association@[o2].bucket_idx == last;
                    assert(o2 == o);
                    assert(cur[j].bucket_idx == last);
                }
            }
            assert(new.association@[o] == Association { bucket_idx: b as usize, state: old.association@[o].state });
            assert(live(new.association@[f]));
            assert forall|k: int| #[trigger] new.slot(k) == mid.slot(k) by {
                if 0 <= k && k / (BUCKET_SIZE as int) < old.association@.len() {
                    let ak = k / (BUCKET_SIZE as int);
                    if ak == a {
                        assert(mid.data@[b].data@[k % (BUCKET_SIZE as int)] is None);
                    }
                }
            }
        } else {
            // `f` precedes the owner: it is a disabled association that still names the last bucket
            assert(f != a);
            assert(!live(old.association@[f])) by {
                if live(old.association@[f]) {
                    assert(old.association@[f].bucket_idx == last);
                }
            }
            assert(stale_precedes_owner(old.association@, last)) by {
                assert(!live(old.association@[f]) && live(old.association@[o]));
            }
            assert(new.association@[o] == old.association@[o]);
            assert forall|k: int| #[trigger] new.slot(k) == (if k / (BUCKET_SIZE as int) == o { None } else {
                mid.slot(k)
            }) by {
                if 0 <= k && k / (BUCKET_SIZE as int) < old.association@.len() {
                    let ak = k / (BUCKET_SIZE as int);
                    if ak == a {
                        assert(mid.data@[b].data@[k % (BUCKET_SIZE as int)] is None);
                    }
                }
            }
            assert(new@ =~= mid@.remove_keys(
                Set::new(|k: int| k / (BUCKET_SIZE as int) == old.last_owner()),
            ));
            assert(!live(new.association@[f]));
            assert forall|a2: int|
                0 <= a2 < new.association@.len() && live(#[trigger] new.association@[a2])
                    implies new.association@[a2].bucket_idx != b by {
                if a2 != o && a2 != a && a2 != f {
                    assert(live(old.association@[a2]));
                }
            }
        }
    }
    if !old.removal_strands(i) {
        assert(new@ =~= mid@);
        assert forall|a2: int|
            0 <= a2 < new.association@.len() && live(#[trigger] new.association@[a2]) implies {
            &&& new.association@[a2].bucket_idx < new.data@.len()
            &&& (new.association@[a2].state == AssociationState::Full) == new.data@[new.association@[a2].bucket_idx as int].full()
            &&& !new.data@[new.association@[a2].bucket_idx as int].empty()
        } by {
            assert(a2 != a);
            assert(live(old.association@[a2]));
            if a2 == o {
                assert(new.association@[o].bucket_idx == b);
                assert(new.data@[b] == old.data@[last]);
            }
        }
        assert forall|c: int| 0 <= c < new.data@.len() implies #[trigger] has_owner(new.association@, c) by {
            if c == b {
                assert(live(new.association@[o]) && new.association@[o].bucket_idx == c);
            } else {
                assert(has_owner(old.association@, c));
                let w = choose|w: int|
                    0 <= w < old.association@.len() && live(#[trigger] old.association@[w])
                        && old.association@[w].bucket_idx == c;
                assert(w != a && w != o);
                assert(live(new.association@[w]) && new.association@[w].bucket_idx == c);
            }
        }
    }
    assert forall|a1: int, a2: int|
        0 <= a1 < new.association@.len() && 0 <= a2 < new.association@.len() && a1 != a2
            && live(#[trigger] new.association@[a1]) && live(#[trigger] new.association@[a2])
            implies new.association@[a1].bucket_idx != new.association@[a2].bucket_idx by {
        assert(a1 != a && a2 != a);
        assert(live(old.association@[a1]) && live(old.association@[a2]));
    }
}

/// Leaves the items of `bucket` undropped.
fn leak_items<T>(bucket: Bucket<T>) {
    let mut data = bucket.data;
    while data.len() > 0
        decreases data@.len(),
    {
        if let Some(Some(item)) = data.pop() {
            let _ = ManuallyDrop::new(item);
        }
    }
}

/// Replacing a bucket that no enabled association names keeps what the
/// vector holds.
proof fn lemma_clear_orphan<T>(old: SVec<T>, new: SVec<T>, b: int)
    requires
        old.inv(),
        0 <= b < old.data@.len(),
        forall|a: int| 0 <= a < old.association@.len() && live(#[trigger] old.association@[a]) ==> old.association@[a].bucket_idx != b,
        new.association@ == old.association@,
        new.data@.len() == old.data@.len(),
        new.data@[b].wf(),
        forall|c: int| 0 <= c < old.data@.len() && c != b ==> new.data@[c] == old.data@[c],
    ensures
        new.inv(),
        new@ == old@,
        new.states() == old.states(),
        new.association_buckets() == old.association_buckets(),
        new.bucket_count() == old.bucket_count(),
        new.association_count() == old.association_count(),
{
    assert forall|c: int| 0 <= c < new.data@.len() implies (#[trigger] new.data@[c]).wf() by {
        if c != b {
            assert(old.data@[c].wf());
        }
    }
    assert forall|k: int| #[trigger] new.slot(k) == old.slot(k) by {
        let a = k / (BUCKET_SIZE as int);
        if 0 <= k && a < old.association@.len() && live(old.association@[a]) {
            assert(old.association@[a].bucket_idx != b);
        }
    }
    assert(new@ =~= old@);
    assert(new.states() =~= old.states());
    assert(new.association_buckets() =~= old.association_buckets());
}

/// `new` is `old` with the occupied slot at index `i` overwritten by `v`.
spec fn slot_written<T>(old: SVec<T>, new: SVec<T>, i: int, v: T) -> bool {
    let b = old.association@[i / (BUCKET_SIZE as int)].bucket_idx as int;
    &&& new.association@ == old.association@
    &&& new.data@.len() == old.data@.len()
    &&& new.data@[b].used@ == old.data@[b].used@
    &&& new.data@[b].data@ == old.data@[b].data@.update(i % (BUCKET_SIZE as int), Some(v))
    &&& forall|c: int| 0 <= c < old.data@.len() && c != b ==> new.data@[c] == old.data@[c]
}

proof fn lemma_slot_written<T>(old: SVec<T>, i: int)
    requires
        old.inv(),
        old@.contains_key(i),
    ensures
        forall|new: SVec<T>, v: T|
            #[trigger] slot_written(old, new, i, v) ==> {
                &&& new@ == old@.insert(i, v)
                &&& new.inv()
                &&& old.wf() ==> new.wf()
                &&& new.states() == old.states()
                &&& new.association_count() == old.association_count()
            },
{
    assert forall|new: SVec<T>, v: T| #[trigger] slot_written(old, new, i, v) implies {
        &&& new@ == old@.insert(i, v)
        &&& new.inv()
        &&& old.wf() ==> new.wf()
        &&& new.states() == old.states()
        &&& new.association_count() == old.association_count()
    } by {
        let b = old.association@[i / (BUCKET_SIZE as int)].bucket_idx as int;
        assert(new.data@[b].wf());
        assert(new.inv());
        assert forall|k: int| #[trigger] new.slot(k) == (if k == i { Some(v) } else { old.slot(k) }) by {
            if k != i && 0 <= k && k / (BUCKET_SIZE as int) < old.association@.len() {
                let ak = k / (BUCKET_SIZE as int);
                let ai = i / (BUCKET_SIZE as int);
                if ak != ai && live(old.association@[ak]) {
                    assert(old.association@[ak].bucket_idx != old.association@[ai].bucket_idx);
                }
            }
        }
        assert(new@ =~= old@.insert(i, v));
        assert(new.states() =~= old.states());
        if old.wf() {
            assert forall|a: int|
                0 <= a < new.association@.len() && live(#[trigger] new.association@[a]) implies {
                &&& new.association@[a].bucket_idx < new.data@.len()
                &&& (new.association@[a].state == AssociationState::Full) == new.data@[new.association@[a].bucket_idx as int].full()
                &&& !new.data@[new.association@[a].bucket_idx as int].empty()
            } by {
                let c = new.association@[a].bucket_idx as int;
                if c == b {
                    assert forall|j: int| 0 <= j < BUCKET_SIZE implies (#[trigger] new.data@[c].data@[j] is Some)
                        == (old.data@[c].data@[j] is Some) by {}
                    if old.data@[c].full() {
                        assert forall|j: int| 0 <= j < BUCKET_SIZE implies #[trigger] new.data@[c].data@[j] is Some by {
                            assert(old.data@[c].data@[j] is Some);
                        }
                    }
                    if new.data@[c].full() {
                        assert forall|j: int| 0 <= j < BUCKET_SIZE implies #[trigger] old.data@[c].data@[j] is Some by {
                            assert(new.data@[c].data@[j] is Some);
                        }
                    }
                    if new.data@[c].empty() {
                        assert(new.data@[c].data@[i % (BUCKET_SIZE as int)] is None);
                    }
                }
            }
            assert forall|c: int| 0 <= c < new.data@.len() implies #[trigger] has_owner(
                new.association@,
                c,
            ) by {
                assert(has_owner(old.association@, c));
            }
        }
    }
}

/// There is one state for each association.
pub proof fn lemma_states_len<T>(v: SVec<T>)
    ensures
        v.states().len() == v.association_count(),
        v.association_buckets().len() == v.association_count(),
{
}

/// In a well-formed vector the state of each association says how many of
/// the indices of its range hold an item: all of them when it is full, none
/// when it is disabled, some but not all when it is hollow; and no index past
/// the ranges of the associations holds one.
pub proof fn lemma_state_meaning<T>(v: SVec<T>)
    requires
        v.wf(),
    ensures
        forall|a: int|
            0 <= a < v.association_count() ==> {
                &&& (#[trigger] v.states()[a] == AssociationState::Full) == forall|s: int|
                    0 <= s < BUCKET_SIZE ==> #[trigger] v@.contains_key(a * (BUCKET_SIZE as int) + s)
                &&& (v.states()[a] == AssociationState::Disabled) == forall|s: int|
                    0 <= s < BUCKET_SIZE ==> !#[trigger] v@.contains_key(a * (BUCKET_SIZE as int) + s)
                &&& (v.states()[a] == AssociationState::Hollow) == ((exists|s: int|
                    0 <= s < BUCKET_SIZE && #[trigger] v@.contains_key(a * (BUCKET_SIZE as int) + s)) && (exists|s: int|
                    0 <= s < BUCKET_SIZE && !#[trigger] v@.contains_key(a * (BUCKET_SIZE as int) + s)))
            },
        forall|i: int| #[trigger] v@.contains_key(i) ==> 0 <= i < v.association_count() * (BUCKET_SIZE as int),
{
    assert forall|a: int, s: int| 0 <= a < v.association_count() && 0 <= s < BUCKET_SIZE implies #[trigger] v@.contains_key(
        a * (BUCKET_SIZE as int) + s,
    ) == (live(v.association@[a]) && v.data@[v.association@[a].bucket_idx as int].data@[s] is Some) by {
        assert((a * 256 + s) / 256 == a);
        assert((a * 256 + s) % 256 == s);
        assert(v.slot(a * 256 + s) is Some == v@.contains_key(a * 256 + s));
    }
    assert forall|a: int| 0 <= a < v.association_count() implies {
        &&& (#[trigger] v.states()[a] == AssociationState::Full) == forall|s: int|
            0 <= s < BUCKET_SIZE ==> #[trigger] v@.contains_key(a * (BUCKET_SIZE as int) + s)
        &&& (v.states()[a] == AssociationState::Disabled) == forall|s: int|
            0 <= s < BUCKET_SIZE ==> !#[trigger] v@.contains_key(a * (BUCKET_SIZE as int) + s)
        &&& (v.states()[a] == AssociationState::Hollow) == ((exists|s: int|
            0 <= s < BUCKET_SIZE && #[trigger] v@.contains_key(a * (BUCKET_SIZE as int) + s)) && (exists|s: int|
            0 <= s < BUCKET_SIZE && !#[trigger] v@.contains_key(a * (BUCKET_SIZE as int) + s)))
    } by {
        let st = v.association@[a].state;
        assert(v.states()[a] == st);
        if live(v.association@[a]) {
            let bk = v.data@[v.association@[a].bucket_idx as int];
            if st == AssociationState::Full {
                assert forall|s: int| 0 <= s < BUCKET_SIZE implies #[trigger] v@.contains_key(a * (BUCKET_SIZE as int) + s) by {
                    assert(bk.data@[s] is Some);
                }
                assert(v@.contains_key(a * 256 + 0));
            } else {
                assert(!bk.full());
                let s0 = choose|s: int| 0 <= s < BUCKET_SIZE && !(bk.data@[s] is Some);
                assert(!v@.contains_key(a * 256 + s0));
                assert(!bk.empty());
                let s1 = choose|s: int| 0 <= s < BUCKET_SIZE && !(bk.data@[s] is None);
                assert(v@.contains_key(a * 256 + s1));
            }
        } else {
            assert(!v@.contains_key(a * 256 + 0));
        }
    }
    assert forall|i: int| #[trigger] v@.contains_key(i) implies 0 <= i < v.association_count() * (BUCKET_SIZE as int) by {
        assert(v.slot(i) is Some);
    }
}

/// In a well-formed vector, each association that is not disabled names a
/// bucket, and the usage line of that bucket marks slot `j` as used exactly
/// when the index `j` of the association's range holds an item.
pub proof fn lemma_usage_line_meaning<T>(v: SVec<T>, a: int)
    requires
        v.wf(),
        0 <= a < v.association_count(),
        v.states()[a] != AssociationState::Disabled,
    ensures
        0 <= v.association_buckets()[a] < v.bucket_count(),
        v.usage_line(v.association_buckets()[a] as int).len() == BUCKET_SIZE,
        forall|j: int|
            0 <= j < BUCKET_SIZE ==> #[trigger] v.usage_line(v.association_buckets()[a] as int)[j] == usage_byte(
                v@.contains_key(a * (BUCKET_SIZE as int) + j),
            ) as char,
{
    let c = v.association@[a].bucket_idx as int;
    assert(v.association_buckets()[a] == c);
    assert(v.states()[a] == v.association@[a].state);
    assert forall|j: int| 0 <= j < BUCKET_SIZE implies #[trigger] v.usage_line(c)[j] == usage_byte(
        v@.contains_key(a * (BUCKET_SIZE as int) + j),
    ) as char by {
        assert((a * 256 + j) / 256 == a);
        assert((a * 256 + j) % 256 == j);
        assert(v.slot(a * 256 + j) == v.data@[c].data@[j]);
        assert(v.slot(a * 256 + j) is Some == v@.contains_key(a * 256 + j));
    }
}

/// Every bucket of a well-formed vector is the bucket of exactly one
/// association that is not disabled.
pub proof fn lemma_bucket_owner<T>(v: SVec<T>, c: int)
    requires
        v.wf(),
        0 <= c < v.bucket_count(),
    ensures
        exists|a: int|
            0 <= a < v.association_count() && v.states()[a] != AssociationState::Disabled
                && #[trigger] v.association_buckets()[a] == c,
        forall|a1: int, a2: int|
            0 <= a1 < v.association_count() && 0 <= a2 < v.association_count() && v.states()[a1]
                != AssociationState::Disabled && v.states()[a2] != AssociationState::Disabled
                && #[trigger] v.association_buckets()[a1] == c && #[trigger] v.association_buckets()[a2] == c
                ==> a1 == a2,
{
    assert(has_owner(v.association@, c));
    let a = choose|a: int| 0 <= a < v.association@.len() && live(#[trigger] v.association@[a]) && v.association@[a].bucket_idx == c;
    assert(v.association_buckets()[a] == c && v.states()[a] == v.association@[a].state);
    assert forall|a1: int, a2: int|
        0 <= a1 < v.association_count() && 0 <= a2 < v.association_count() && v.states()[a1]
            != AssociationState::Disabled && v.states()[a2] != AssociationState::Disabled
            && #[trigger] v.association_buckets()[a1] == c && #[trigger] v.association_buckets()[a2] == c
            implies a1 == a2 by {
        assert(v.states()[a1] == v.association@[a1].state);
        assert(v.states()[a2] == v.association@[a2].state);
    }
}

/// A well-formed vector meets what reading and changing it in place ask.
pub proof fn lemma_wf_inv<T>(v: SVec<T>)
    requires
        v.wf(),
    ensures
        v.inv(),
{
}

/// An index holds an item only within the range of an association that is
/// not disabled.
pub proof fn lemma_view_in_live_range<T>(v: SVec<T>, i: int)
    ensures
        v@.contains_key(i) ==> {
            &&& 0 <= i
            &&& i / (BUCKET_SIZE as int) < v.association_count()
            &&& v.states()[i / (BUCKET_SIZE as int)] != AssociationState::Disabled
        },
{
    if v@.contains_key(i) {
        assert(v.slot(i) is Some);
    }
}

/// What `packed` says, in terms of the view, the states, the buckets that
/// the associations name and the number of buckets.
pub proof fn lemma_packed_def<T>(v: SVec<T>, n: nat)
    ensures
        v.packed(n) == {
            &&& v.bucket_count() == packed_buckets(n)
            &&& packed_buckets(n) <= v.association_count()
            &&& forall|a: int| 0 <= a < packed_buckets(n) ==> #[trigger] v.association_buckets()[a] == a
            &&& forall|a: int| 0 <= a < v.association_count() ==> #[trigger] v.states()[a] == packed_state(n, a)
            &&& forall|i: int| #[trigger] v@.contains_key(i) <==> 0 <= i < n
        },
{
    let rhs = {
        &&& v.bucket_count() == packed_buckets(n)
        &&& packed_buckets(n) <= v.association_count()
        &&& forall|a: int| 0 <= a < packed_buckets(n) ==> #[trigger] v.association_buckets()[a] == a
        &&& forall|a: int| 0 <= a < v.association_count() ==> #[trigger] v.states()[a] == packed_state(n, a)
        &&& forall|i: int| #[trigger] v@.contains_key(i) <==> 0 <= i < n
    };
    if v.packed(n) {
        assert forall|a: int| 0 <= a < packed_buckets(n) implies #[trigger] v.association_buckets()[a] == a by {
            assert(v.association@[a].bucket_idx == a);
        }
        assert forall|a: int| 0 <= a < v.association_count() implies #[trigger] v.states()[a] == packed_state(n, a) by {
            assert(v.association@[a].state == packed_state(n, a));
        }
    }
    if rhs {
        assert forall|a: int| 0 <= a < packed_buckets(n) implies #[trigger] v.association@[a].bucket_idx == a by {
            assert(v.association_buckets()[a] == a);
        }
        assert forall|a: int| 0 <= a < v.association@.len() implies #[trigger] v.association@[a].state == packed_state(n, a) by {
            assert(v.states()[a] == packed_state(n, a));
        }
    }
}

/// What `removal_empties` and `removal_strands` say of an index that holds an
/// item, in terms of the view, the states, the buckets that the associations
/// name and the number of buckets.
pub proof fn lemma_removal_def<T>(v: SVec<T>, i: int)
    requires
        v.wf(),
        v@.contains_key(i),
    ensures
        v.removal_empties(i) == forall|j: int|
            0 <= j < BUCKET_SIZE && j != i % (BUCKET_SIZE as int) ==> !#[trigger] v@.contains_key(
                (i / (BUCKET_SIZE as int)) * (BUCKET_SIZE as int) + j,
            ),
        v.removal_strands(i) == {
            let last = v.bucket_count() - 1;
            &&& v.removal_empties(i)
            &&& v.association_buckets()[i / (BUCKET_SIZE as int)] != last
            &&& exists|j: int, o: int|
                0 <= j < o < v.association_count() && v.states()[j] == AssociationState::Disabled
                    && v.states()[o] != AssociationState::Disabled && #[trigger] v.association_buckets()[j] == last
                    && #[trigger] v.association_buckets()[o] == last
        },
{
    let a = i / 256;
    assert(v.slot(i) is Some);
    let b = v.association@[a].bucket_idx as int;
    assert forall|j: int| 0 <= j < BUCKET_SIZE implies v@.contains_key(#[trigger] (a * 256 + j)) == (v.data@[b].data@[j] is Some) by {
        assert((a * 256 + j) / 256 == a);
        assert((a * 256 + j) % 256 == j);
        assert(v.slot(a * 256 + j) == v.data@[b].data@[j]);
    }
    let pub_empty = forall|j: int|
        0 <= j < BUCKET_SIZE && j != i % (BUCKET_SIZE as int) ==> !#[trigger] v@.contains_key(a * 256 + j);
    if v.removal_empties(i) {
        assert forall|j: int| 0 <= j < BUCKET_SIZE && j != i % (BUCKET_SIZE as int) implies !#[trigger] v@.contains_key(a * 256 + j) by {
            assert(v.data@[b].data@[j] is None);
        }
    }
    if pub_empty {
        assert forall|j: int| 0 <= j < BUCKET_SIZE && j != i % (BUCKET_SIZE as int) implies #[trigger] v.data@[b].data@[j] is None by {
            assert(!v@.contains_key(a * 256 + j));
        }
    }
    let last = v.bucket_count() - 1;
    let pub_strand = exists|j: int, o: int|
        0 <= j < o < v.association_count() && v.states()[j] == AssociationState::Disabled
            && v.states()[o] != AssociationState::Disabled && #[trigger] v.association_buckets()[j] == last
            && #[trigger] v.association_buckets()[o] == last;
    if stale_precedes_owner(v.association@, last) {
        let (j, o) = choose|j: int, o: int|
            0 <= j < o < v.association@.len() && !live(#[trigger] v.association@[j]) && live(
                #[trigger] v.association@[o],
            ) && v.association@[j].bucket_idx == last && v.association@[o].bucket_idx == last;
        assert(v.association_buckets()[j] == last && v.association_buckets()[o] == last);
        assert(pub_strand);
    }
    if pub_strand {
        let (j, o) = choose|j: int, o: int|
            0 <= j < o < v.association_count() && v.states()[j] == AssociationState::Disabled
                && v.states()[o] != AssociationState::Disabled && #[trigger] v.association_buckets()[j] == last
                && #[trigger] v.association_buckets()[o] == last;
        assert(!live(v.association@[j]) && live(v.association@[o]));
        assert(stale_precedes_owner(v.association@, last));
    }
}

/// The association that owns the last bucket is not disabled and names that
/// bucket.
pub proof fn lemma_last_owner_def<T>(v: SVec<T>)
    requires
        v.wf(),
        v.bucket_count() > 0,
    ensures
        0 <= v.last_owner() < v.association_count(),
        v.states()[v.last_owner()] != AssociationState::Disabled,
        v.association_buckets()[v.last_owner()] == v.bucket_count() - 1,
{
    assert(has_owner(v.association@, v.data@.len() - 1));
}

/// The lowest slot of the range of association `a` at which `m` holds no item.
pub open spec fn lowest_absent<T>(m: Map<int, T>, a: int) -> int {
    choose|s: int|
        0 <= s < BUCKET_SIZE && !#[trigger] m.contains_key(a * (BUCKET_SIZE as int) + s) && forall|j: int|
            0 <= j < s ==> #[trigger] m.contains_key(a * (BUCKET_SIZE as int) + j)
}

proof fn lemma_first_of_state(states: Seq<AssociationState>, k: int, st: AssociationState)
    requires
        0 <= k < states.len(),
        states[k] == st,
    ensures
        exists|a: int| 0 <= a < states.len() && states[a] == st && forall|j: int| 0 <= j < a ==> states[j] != st,
    decreases k,
{
    if exists|j: int| 0 <= j < k && states[j] == st {
        let j = choose|j: int| 0 <= j < k && states[j] == st;
        lemma_first_of_state(states, j, st);
    } else {
        assert(forall|j: int| 0 <= j < k ==> states[j] != st);
    }
}

proof fn lemma_first_free<T>(data: Seq<Option<T>>, k: int)
    requires
        0 <= k < BUCKET_SIZE,
        data[k] is None,
    ensures
        exists|s: int| is_lowest_free(data, s),
    decreases k,
{
    if exists|j: int| 0 <= j < k && data[j] is None {
        let j = choose|j: int| 0 <= j < k && data[j] is None;
        lemma_first_free(data, j);
    } else {
        assert(is_lowest_free(data, k));
    }
}

proof fn lemma_push_def_hollow<T>(v: SVec<T>)
    requires
        v.wf(),
        v.states().contains(AssociationState::Hollow),
        forall|x: AssociationState| v.states().contains(x) == has_state(v.association@, x),
    ensures
        ({
            let a = first_in(v.states(), AssociationState::Hollow);
            let s = lowest_absent(v@, a);
            &&& v.push_position() == a * (BUCKET_SIZE as int) + s
            &&& v.push_index() == v.association_buckets()[a] * (BUCKET_SIZE as int) + s
            &&& v.push_states() == v.states().update(
                a,
                if forall|j: int|
                    0 <= j < BUCKET_SIZE && j != s ==> #[trigger] v@.contains_key(a * (BUCKET_SIZE as int) + j) {
                    AssociationState::Full
                } else {
                    AssociationState::Hollow
                },
            )
        }),
{
    let st = v.states();
        let k = choose|k: int| 0 <= k < st.len() && st[k] == AssociationState::Hollow;
        lemma_first_of_state(st, k, AssociationState::Hollow);
        let a = choose|a: int|
            0 <= a < st.len() && st[a] == AssociationState::Hollow && forall|j: int| 0 <= j < a ==> st[j] != AssociationState::Hollow;
        lemma_first_in_unique(st, a, AssociationState::Hollow);
        assert forall|j: int| 0 <= j < a implies (#[trigger] v.association@[j]).state != AssociationState::Hollow by {
            assert(st[j] != AssociationState::Hollow);
        }
        lemma_first_state_unique(v.association@, a, AssociationState::Hollow);
        let b = v.association@[a].bucket_idx as int;
        assert(live(v.association@[a]));
        let data = v.data@[b].data@;
        assert forall|j: int| 0 <= j < BUCKET_SIZE implies v@.contains_key(#[trigger] (a * 256 + j)) == (data[j] is Some) by {
            assert((a * 256 + j) / 256 == a);
            assert((a * 256 + j) % 256 == j);
            assert(v.slot(a * 256 + j) == data[j]);
        }
        assert(!v.data@[b].full());
        let k2 = choose|k2: int| 0 <= k2 < BUCKET_SIZE && !(#[trigger] data[k2] is Some);
        lemma_first_free(data, k2);
        let s = choose|s: int| is_lowest_free(data, s);
        lemma_lowest_free_unique(data, s);
        assert(!v@.contains_key(a * 256 + s));
        assert forall|j: int| 0 <= j < s implies #[trigger] v@.contains_key(a * 256 + j) by {
            assert(data[j] is Some);
        }
        let s2 = lowest_absent(v@, a);
        assert(0 <= s2 < 256 && !v@.contains_key(a * 256 + s2));
        if s2 < s {
            assert(data[s2] is Some);
            assert(v@.contains_key(a * 256 + s2));
        }
        if s < s2 {
            assert(v@.contains_key(a * 256 + s));
        }
        assert(s2 == s);
        let full_pub = forall|j: int| 0 <= j < BUCKET_SIZE && j != s ==> #[trigger] v@.contains_key(a * 256 + j);
        let full_in = forall|j: int| 0 <= j < BUCKET_SIZE && j != s ==> #[trigger] v.data@[b].data@[j] is Some;
        if full_pub {
            assert forall|j: int| 0 <= j < BUCKET_SIZE && j != s implies #[trigger] v.data@[b].data@[j] is Some by {
                assert(v@.contains_key(a * 256 + j));
            }
        }
        if full_in {
            assert forall|j: int| 0 <= j < BUCKET_SIZE && j != s implies #[trigger] v@.contains_key(a * 256 + j) by {
                assert(data[j] is Some);
            }
        }
        assert(v.association_buckets()[a] == b);
}

/// Where `push` stores, what it returns and the states it leaves, in terms of
/// the view, the states, the buckets that the associations name and the
/// number of buckets.
pub proof fn lemma_push_def<T>(v: SVec<T>)
    requires
        v.wf(),
    ensures
        v.states().contains(AssociationState::Hollow) ==> {
            let a = first_in(v.states(), AssociationState::Hollow);
            let s = lowest_absent(v@, a);
            &&& v.push_position() == a * (BUCKET_SIZE as int) + s
            &&& v.push_index() == v.association_buckets()[a] * (BUCKET_SIZE as int) + s
            &&& v.push_states() == v.states().update(
                a,
                if forall|j: int|
                    0 <= j < BUCKET_SIZE && j != s ==> #[trigger] v@.contains_key(a * (BUCKET_SIZE as int) + j) {
                    AssociationState::Full
                } else {
                    AssociationState::Hollow
                },
            )
        },
        !v.states().contains(AssociationState::Hollow) && v.states().contains(AssociationState::Disabled) ==> {
            let d = first_in(v.states(), AssociationState::Disabled);
            &&& v.push_position() == d * (BUCKET_SIZE as int)
            &&& v.push_index() == v.bucket_count() * (BUCKET_SIZE as int)
            &&& v.push_states() == v.states().update(d, AssociationState::Hollow)
        },
        !v.states().contains(AssociationState::Hollow) && !v.states().contains(AssociationState::Disabled) ==> {
            &&& v.push_position() == v.association_count() * (BUCKET_SIZE as int)
            &&& v.push_index() == v.bucket_count() * (BUCKET_SIZE as int)
            &&& v.push_states() == v.states().push(AssociationState::Hollow)
        },
{
    let st = v.states();
    assert forall|x: AssociationState| st.contains(x) == has_state(v.association@, x) by {
        if st.contains(x) {
            let k = choose|k: int| 0 <= k < st.len() && st[k] == x;
            assert(v.association@[k].state == x);
        }
        if has_state(v.association@, x) {
            let k = choose|k: int| 0 <= k < v.association@.len() && (#[trigger] v.association@[k]).state == x;
            assert(st[k] == x);
        }
    }
    if st.contains(AssociationState::Hollow) {
        lemma_push_def_hollow(v);
    } else if st.contains(AssociationState::Disabled) {
        let k = choose|k: int| 0 <= k < st.len() && st[k] == AssociationState::Disabled;
        lemma_first_of_state(st, k, AssociationState::Disabled);
        let d = choose|d: int|
            0 <= d < st.len() && st[d] == AssociationState::Disabled && forall|j: int| 0 <= j < d ==> st[j] != AssociationState::Disabled;
        lemma_first_in_unique(st, d, AssociationState::Disabled);
        assert forall|j: int| 0 <= j < d implies (#[trigger] v.association@[j]).state != AssociationState::Disabled by {
            assert(st[j] != AssociationState::Disabled);
        }
        lemma_first_state_unique(v.association@, d, AssociationState::Disabled);
    }
}

} // verus!
