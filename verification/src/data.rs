//! Training data: keys in their order, each with its position.
use vstd::prelude::*;
use std::sync::Arc;

verus! {

/// The kinds of key that an index can be trained on.
#[derive(Clone, Copy, Debug, PartialEq, Eq, Structural)]
pub enum KeyType {
    U32,
    U64,
    U128,
    U512,
    F64,
}

/// A view of a shared array of keys: the keys from `start` up to `end`, each
/// paired with its position, which is its index in the array times the
/// view's scale.
///
/// The models see every key as a 64-bit input, whatever its kind; the
/// loaders say how a wider key is brought down to one.
pub struct RMITrainingData {
    keys: Arc<Vec<u64>>,
    start: usize,
    end: usize,
    key_type: KeyType,
    scale_num: u64,
    scale_den: u64,
}

/// The position that a view with the scale `num / den` gives to the pair at
/// `index` of the array: the index times the scale, rounded down, and the
/// largest position where that is larger.
pub open spec fn scaled_position(index: int, num: u64, den: u64) -> usize {
    let d = if den == 0 {
        1
    } else {
        den as int
    };
    if (index * num) / d > usize::MAX {
        usize::MAX
    } else if (index * num) / d < 0 {
        0
    } else {
        ((index * num) / d) as usize
    }
}

/// A later index has no earlier position.
pub proof fn lemma_scaled_position_ascends(i: int, j: int, num: u64, den: u64)
    requires
        0 <= i <= j,
    ensures
        scaled_position(i, num, den) <= scaled_position(j, num, den),
{
    let d = if den == 0 {
        1
    } else {
        den as int
    };
    assert(0 <= i * num <= j * num) by (nonlinear_arith)
        requires
            0 <= i <= j,
            num >= 0,
    ;
    vstd::arithmetic::div_mod::lemma_div_is_ordered(i * num, j * num, d);
    vstd::arithmetic::div_mod::lemma_div_pos_is_pos(i * num, d);
}

/// `Arc::clone`: a second handle on the same allocation, so that what it
/// holds is what the first holds.
#[verifier::external_body]
fn share(keys: &Arc<Vec<u64>>) -> (r: Arc<Vec<u64>>)
    ensures
        r == *keys,
{
    Arc::clone(keys)
}

impl View for RMITrainingData {
    type V = Seq<(u64, usize)>;

    closed spec fn view(&self) -> Seq<(u64, usize)> {
        Seq::new(
            if self.end >= self.start {
                (self.end - self.start) as nat
            } else {
                0
            },
            |i: int|
                (
                    (*self.keys)@[self.start + i],
                    scaled_position(self.start + i, self.scale_num, self.scale_den),
                ),
        )
    }
}

impl RMITrainingData {
    #[verifier::type_invariant]
    closed spec fn in_bounds(&self) -> bool {
        self.start <= self.end <= (*self.keys)@.len() && self.scale_den >= 1
    }

    pub closed spec fn kind(&self) -> KeyType {
        self.key_type
    }

    /// The scale of the view's positions, as a fraction.
    pub closed spec fn scale(&self) -> (u64, u64) {
        (self.scale_num, self.scale_den)
    }

    /// The keys of the view, in order.
    pub open spec fn keys_spec(&self) -> Seq<u64> {
        Seq::new(self@.len(), |i: int| self@[i].0)
    }

    /// The positions of the pairs stand in ascending order, and there are
    /// no more pairs than the machine can count.
    pub proof fn lemma_positions_ascend(self)
        ensures
            forall|i: int, j: int| 0 <= i <= j < self@.len() ==> self@[i].1 <= self@[j].1,
            self@.len() <= usize::MAX,
    {
        assert forall|i: int, j: int| 0 <= i <= j < self@.len() implies self@[i].1
            <= self@[j].1 by {
            lemma_scaled_position_ascends(
                self.start + i,
                self.start + j,
                self.scale_num,
                self.scale_den,
            );
        }
    }

    /// The position of the view's first key in the underlying array.
    pub closed spec fn first_position(&self) -> nat {
        self.start as nat
    }

    /// The index in the array of the view's first pair. Every pair holds
    /// as its position its own index in the array, times the scale.
    pub fn first_index(&self) -> (first: usize)
        ensures
            first == self.first_position(),
            first + self@.len() <= usize::MAX,
            forall|i: int|
                0 <= i < self@.len() ==> (#[trigger] self@[i]).1 == scaled_position(
                    first + i,
                    self.scale().0,
                    self.scale().1,
                ),
    {
        proof {
            use_type_invariant(self);
        }
        self.start
    }

    /// Data over 64-bit keys, with the positions `0, 1, 2, ...`.
    pub fn new(keys: Vec<u64>) -> (data: RMITrainingData)
        ensures
            data@.len() == keys@.len(),
            forall|i: int| 0 <= i < keys@.len() ==> data@[i] == (keys@[i], i as usize),
            data.kind() == KeyType::U64,
            data.first_position() == 0,
            data.scale() == (1u64, 1u64),
    {
        RMITrainingData::with_key_type(keys, KeyType::U64)
    }

    /// Data over keys of the given kind, already brought down to their
    /// 64-bit inputs.
    pub fn with_key_type(keys: Vec<u64>, key_type: KeyType) -> (data: RMITrainingData)
        ensures
            data@.len() == keys@.len(),
            forall|i: int| 0 <= i < keys@.len() ==> data@[i] == (keys@[i], i as usize),
            data.kind() == key_type,
            data.first_position() == 0,
            data.scale() == (1u64, 1u64),
    {
        let end = keys.len();
        let ghost held = keys@;
        let data = RMITrainingData {
            keys: Arc::new(keys),
            start: 0,
            end,
            key_type,
            scale_num: 1,
            scale_den: 1,
        };
        assert forall|i: int| 0 <= i < held.len() implies data@[i] == (held[i], i as usize) by {
            assert((i * 1) / 1 == i);
        }
        data
    }

    pub fn empty() -> (data: RMITrainingData)
        ensures
            data@.len() == 0,
            data.kind() == KeyType::U64,
    {
        RMITrainingData::new(Vec::new())
    }

    pub fn len(&self) -> (n: usize)
        ensures
            n == self@.len(),
    {
        proof {
            use_type_invariant(self);
        }
        self.end - self.start
    }

    pub fn key_type(&self) -> (k: KeyType)
        ensures
            k == self.kind(),
    {
        self.key_type
    }

    pub fn get(&self, idx: usize) -> (pair: Option<(u64, usize)>)
        ensures
            idx < self@.len() ==> pair == Some(self@[idx as int]),
            idx >= self@.len() ==> pair is None,
    {
        proof {
            use_type_invariant(self);
        }
        if idx >= self.end - self.start {
            return None;
        }
        let at: usize = self.start + idx;
        let n: u128 = at as u128;
        let m: u128 = self.scale_num as u128;
        assert(n * m <= 0xffff_ffff_ffff_ffff * 0xffff_ffff_ffff_ffff) by (nonlinear_arith)
            requires
                0 <= n <= 0xffff_ffff_ffff_ffff,
                0 <= m <= 0xffff_ffff_ffff_ffff,
        ;
        let scaled: u128 = (n * m) / (self.scale_den as u128);
        let position: usize = if scaled > usize::MAX as u128 {
            usize::MAX
        } else {
            scaled as usize
        };
        Some((self.keys[at], position))
    }

    /// A second view of the same keys, which shares their storage.
    pub fn soft_copy(&self) -> (copy: RMITrainingData)
        ensures
            copy@ == self@,
            copy.kind() == self.kind(),
            copy.first_position() == self.first_position(),
            copy.scale() == self.scale(),
    {
        proof {
            use_type_invariant(self);
        }
        RMITrainingData {
            keys: share(&self.keys),
            start: self.start,
            end: self.end,
            key_type: self.key_type,
            scale_num: self.scale_num,
            scale_den: self.scale_den,
        }
    }

    /// A second view of the same keys with the scale `num / den` in place of
    /// this view's: every pair keeps its key, and its position is its index
    /// in the array times the new scale. A scale with a denominator of zero
    /// is refused.
    pub fn with_scale(&self, num: u64, den: u64) -> (scaled: Option<RMITrainingData>)
        ensures
            scaled is Some <==> den >= 1,
            scaled matches Some(copy) ==> {
                &&& copy@.len() == self@.len()
                &&& copy.kind() == self.kind()
                &&& copy.first_position() == self.first_position()
                &&& copy.scale() == (num, den)
                &&& forall|i: int|
                    0 <= i < self@.len() ==> #[trigger] copy@[i] == (
                        self@[i].0,
                        scaled_position(self.first_position() + i, num, den),
                    )
            },
    {
        proof {
            use_type_invariant(self);
        }
        if den == 0 {
            return None;
        }
        Some(
            RMITrainingData {
                keys: share(&self.keys),
                start: self.start,
                end: self.end,
                key_type: self.key_type,
                scale_num: num,
                scale_den: den,
            },
        )
    }

    /// The view cut down to its pairs from `from` up to `to`: what slicing
    /// this view gives, on the same storage.
    pub fn restrict(&self, from: usize, to: usize) -> (part: Option<RMITrainingData>)
        ensures
            from <= to <= self@.len() ==> part is Some && part->0@ == self@.subrange(
                from as int,
                to as int,
            ) && part->0.kind() == self.kind(),
            !(from <= to <= self@.len()) ==> part is None,
    {
        proof {
            use_type_invariant(self);
        }
        if from > to || to > self.end - self.start {
            return None;
        }
        let part = RMITrainingData {
            keys: share(&self.keys),
            start: self.start + from,
            end: self.start + to,
            key_type: self.key_type,
            scale_num: self.scale_num,
            scale_den: self.scale_den,
        };
        assert(part@ =~= self@.subrange(from as int, to as int));
        Some(part)
    }

    /// The keys of the view, copied out in order.
    pub fn to_keys(&self) -> (keys: Vec<u64>)
        ensures
            keys@ == self.keys_spec(),
    {
        proof {
            use_type_invariant(self);
        }
        let mut keys: Vec<u64> = Vec::new();
        let mut i: usize = self.start;
        while i < self.end
            invariant
                self.start <= i <= self.end <= (*self.keys)@.len(),
                keys@.len() == i - self.start,
                forall|j: int| 0 <= j < keys@.len() ==> keys@[j] == (*self.keys)@[self.start + j],
            decreases self.end - i,
        {
            keys.push(self.keys[i]);
            i += 1;
        }
        assert(keys@ =~= self.keys_spec());
        keys
    }
}

} // verus!
