//! Collision-free interning: equal keys, and only equal keys, share a number.

use crate::alignment::{
    has_end, is_blocked, is_identity, law_anchored_alignment_is_maximal,
    law_occurrence_matching_is_complete, law_occurrence_matching_is_one_to_one, monotone,
    one_to_one, ordered_matches, unordered_matches, OrderedMatch,
};
use crate::correspondence::ranks::{is_key_matching, lemma_key_matching};
use vstd::prelude::*;
use vstd::utf8::*;

verus! {

/// Key words folded into a bucket number.
pub open spec fn bucket_of(words: Seq<usize>, buckets: int) -> int
    decreases words.len(),
{
    if words.len() == 0 || buckets <= 0 {
        0
    } else {
        (bucket_of(words.drop_last(), buckets) * 31 + words.last() % 65_521) % buckets
    }
}

/// Numbers for keys; a key keeps the number of its first occurrence.
pub struct Interner {
    entries: Vec<Vec<usize>>,
    buckets: Vec<Vec<usize>>,
}

impl View for Interner {
    type V = Seq<Seq<usize>>;

    closed spec fn view(&self) -> Seq<Seq<usize>> {
        Seq::new(self.entries@.len(), |i: int| self.entries@[i]@)
    }
}

/// No key has two numbers.
pub open spec fn distinct_keys(keys: Seq<Seq<usize>>) -> bool {
    forall|i: int, j: int|
        0 <= i < keys.len() && 0 <= j < keys.len() && #[trigger] keys[i] == #[trigger] keys[j] ==> i
            == j
}

/// Later numbers only extend earlier ones.
pub open spec fn extends(later: Seq<Seq<usize>>, earlier: Seq<Seq<usize>>) -> bool {
    earlier.len() <= later.len() && forall|i: int|
        0 <= i < earlier.len() ==> #[trigger] later[i] == earlier[i]
}

impl Interner {
    /// No key has two numbers, and every key is in its bucket.
    pub closed spec fn wf(self) -> bool {
        &&& 0 < self.buckets@.len() <= 65_536
        &&& distinct_keys(self@)
        &&& forall|b: int, k: int|
            0 <= b < self.buckets@.len() && 0 <= k < self.buckets@[b]@.len() ==> (
            #[trigger] self.buckets@[b]@[k]) < self.entries@.len()
        &&& forall|id: int|
            0 <= id < self.entries@.len() ==> self.buckets@[bucket_of(
                (#[trigger] self@[id]),
                self.buckets@.len() as int,
            )]@.contains(id as usize)
    }

    /// An empty interner sized for the expected number of keys.
    pub fn new(expected: usize) -> (interner: Interner)
        ensures
            interner.wf(),
            interner@.len() == 0,
    {
        let count: usize = if expected < 65_536 {
            expected + 1
        } else {
            65_536
        };
        let mut buckets: Vec<Vec<usize>> = Vec::new();
        let mut index: usize = 0;
        while index < count
            invariant
                index <= count,
                buckets@.len() == index,
                forall|b: int| 0 <= b < buckets@.len() ==> (#[trigger] buckets@[b])@.len() == 0,
            decreases count - index,
        {
            buckets.push(Vec::new());
            index += 1;
        }
        Interner { entries: Vec::new(), buckets }
    }

    /// Number of a key, new where the key is new.
    pub fn intern(&mut self, key: Vec<usize>) -> (id: usize)
        requires
            old(self).wf(),
        ensures
            final(self).wf(),
            id < final(self)@.len(),
            final(self)@[id as int] == key@,
            extends(final(self)@, old(self)@),
            final(self)@.len() <= usize::MAX,
            old(self)@.contains(key@) ==> final(self)@ == old(self)@,
            !old(self)@.contains(key@) ==> final(self)@ == old(self)@.push(key@) && id
                == old(self)@.len(),
    {
        let ghost earlier = self@;
        let bucket = fold_key(&key, self.buckets.len());
        let mut index: usize = 0;
        while index < self.buckets[bucket].len()
            invariant
                self.wf(),
                self@ == earlier,
                bucket < self.buckets@.len(),
                bucket == bucket_of(key@, self.buckets@.len() as int),
                index <= self.buckets@[bucket as int]@.len(),
                forall|k: int|
                    0 <= k < index ==> self@[(#[trigger] self.buckets@[bucket as int]@[k]) as int]
                        != key@,
            decreases self.buckets@[bucket as int]@.len() - index,
        {
            let id = self.buckets[bucket][index];
            assert(self.buckets@[bucket as int]@[index as int] < self.entries@.len());
            if same_words(&self.entries[id], &key) {
                assert(self.entries.len() <= usize::MAX);
                assert(earlier[id as int] == key@);
                return id;
            }
            index += 1;
        }
        let id = self.entries.len();
        proof {
            assert forall|id: int| 0 <= id < self@.len() implies self@[id] != key@ by {
                if self@[id] == key@ {
                    let list = self.buckets@[bucket as int]@;
                    assert(list.contains(id as usize));
                    let k = choose|k: int| 0 <= k < list.len() && list[k] == id as usize;
                    assert(self@[list[k] as int] != key@);
                }
            }
        }
        let ghost old_buckets = self.buckets@;
        self.entries.push(key);
        self.buckets[bucket].push(id);
        assert(self.entries.len() <= usize::MAX);
        proof {
            assert(self@ =~= earlier.push(key@));
            assert forall|i: int|
                0 <= i < self.entries@.len() implies self.buckets@[bucket_of(
                (#[trigger] self@[i]),
                self.buckets@.len() as int,
            )]@.contains(i as usize) by {
                let b = bucket_of(self@[i], self.buckets@.len() as int);
                lemma_bucket_bound(self@[i], self.buckets@.len() as int);
                if i < id {
                    assert(self@[i] == earlier[i]);
                    let list = old_buckets[b]@;
                    assert(list.contains(i as usize));
                    let k = choose|k: int| 0 <= k < list.len() && list[k] == i as usize;
                    assert(self.buckets@[b]@[k] == i as usize);
                } else {
                    let list = self.buckets@[b]@;
                    assert(list[list.len() - 1] == i as usize);
                }
            }
            assert forall|b: int, k: int|
                0 <= b < self.buckets@.len() && 0 <= k < self.buckets@[b]@.len() implies (
            #[trigger] self.buckets@[b]@[k]) < self.entries@.len() by {
                if b == bucket {
                    if k < old_buckets[b]@.len() {
                        assert(self.buckets@[b]@[k] == old_buckets[b]@[k]);
                    }
                } else {
                    assert(self.buckets@[b]@[k] == old_buckets[b]@[k]);
                }
            }
        }
        id
    }

    /// Number of a text.
    pub fn intern_text(&mut self, text: &str) -> (id: usize)
        requires
            old(self).wf(),
        ensures
            final(self).wf(),
            id < final(self)@.len(),
            final(self)@[id as int] == text_words(encode_utf8(text@)),
            extends(final(self)@, old(self)@),
            final(self)@.len() <= usize::MAX,
    {
        let bytes = text.as_bytes();
        let mut words: Vec<usize> = Vec::new();
        let mut index: usize = 0;
        while index < bytes.len()
            invariant
                index <= bytes@.len(),
                bytes@ == encode_utf8(text@),
                words@ == text_words(bytes@.take(index as int)),
            decreases bytes@.len() - index,
        {
            words.push(bytes[index] as usize);
            index += 1;
            assert(words@ =~= text_words(bytes@.take(index as int)));
        }
        assert(bytes@.take(bytes@.len() as int) =~= bytes@);
        self.intern(words)
    }
}

/// The bytes of a text as key words.
pub open spec fn text_words(bytes: Seq<u8>) -> Seq<usize> {
    Seq::new(bytes.len(), |i: int| bytes[i] as usize)
}

/// Texts are the same exactly where their key words are.
pub proof fn lemma_text_words(left: Seq<u8>, right: Seq<u8>)
    ensures
        text_words(left) == text_words(right) <==> left == right,
{
    if text_words(left) == text_words(right) {
        assert(text_words(left).len() == text_words(right).len());
        assert forall|i: int| 0 <= i < left.len() implies left[i] == right[i] by {
            assert(text_words(left)[i] == left[i] as usize);
            assert(text_words(right)[i] == right[i] as usize);
        }
        assert(left =~= right);
    }
}

proof fn lemma_bucket_bound(words: Seq<usize>, buckets: int)
    requires
        buckets > 0,
    ensures
        0 <= bucket_of(words, buckets) < buckets,
{
    if words.len() > 0 {
        assert(0 <= (bucket_of(words.drop_last(), buckets) * 31 + words.last() % 65_521) % buckets
            < buckets) by (nonlinear_arith)
            requires
                buckets > 0,
        ;
    }
}

fn fold_key(words: &Vec<usize>, buckets: usize) -> (bucket: usize)
    requires
        0 < buckets <= 65_536,
    ensures
        bucket == bucket_of(words@, buckets as int),
        bucket < buckets,
{
    let mut bucket: usize = 0;
    let mut index: usize = 0;
    while index < words.len()
        invariant
            index <= words@.len(),
            0 < buckets <= 65_536,
            bucket < buckets,
            bucket == bucket_of(words@.take(index as int), buckets as int),
        decreases words@.len() - index,
    {
        proof {
            assert(words@.take(index + 1).drop_last() =~= words@.take(index as int));
            lemma_bucket_bound(words@.take(index + 1), buckets as int);
        }
        bucket = (bucket * 31 + words[index] % 65_521) % buckets;
        index += 1;
    }
    assert(words@.take(words@.len() as int) =~= words@);
    bucket
}

fn same_words(left: &Vec<usize>, right: &Vec<usize>) -> (same: bool)
    ensures
        same == (left@ == right@),
{
    if left.len() != right.len() {
        return false;
    }
    let mut index: usize = 0;
    while index < left.len()
        invariant
            index <= left@.len(),
            left@.len() == right@.len(),
            forall|k: int| 0 <= k < index ==> left@[k] == right@[k],
        decreases left@.len() - index,
    {
        if left[index] != right[index] {
            return false;
        }
        index += 1;
    }
    assert(left@ =~= right@);
    true
}

/// Views of a list of keys.
pub open spec fn key_views(keys: Seq<Vec<usize>>) -> Seq<Seq<usize>> {
    Seq::new(keys.len(), |i: int| keys[i]@)
}

/// Numbers that agree exactly where the keys agree, within one list and across two.
pub open spec fn classify(
    before_keys: Seq<Seq<usize>>,
    after_keys: Seq<Seq<usize>>,
    before: Seq<usize>,
    after: Seq<usize>,
) -> bool {
    &&& before.len() == before_keys.len()
    &&& after.len() == after_keys.len()
    &&& forall|i: int, j: int|
        0 <= i < before.len() && 0 <= j < after.len() ==> (#[trigger] before[i]
            == #[trigger] after[j] <==> before_keys[i] == after_keys[j])
    &&& forall|i: int, j: int|
        0 <= i < before.len() && 0 <= j < before.len() ==> (#[trigger] before[i]
            == #[trigger] before[j] <==> before_keys[i] == before_keys[j])
    &&& forall|i: int, j: int|
        0 <= i < after.len() && 0 <= j < after.len() ==> (#[trigger] after[i]
            == #[trigger] after[j] <==> after_keys[i] == after_keys[j])
}

fn intern_all(interner: &mut Interner, keys: Vec<Vec<usize>>) -> (ids: Vec<usize>)
    requires
        old(interner).wf(),
    ensures
        final(interner).wf(),
        extends(final(interner)@, old(interner)@),
        ids@.len() == keys@.len(),
        forall|i: int|
            0 <= i < ids@.len() ==> (#[trigger] ids@[i]) < final(interner)@.len()
                && final(interner)@[ids@[i] as int] == keys@[i]@,
{
    let ghost views = key_views(keys@);
    let ghost start = interner@;
    let mut ids: Vec<usize> = Vec::new();
    let mut index: usize = 0;
    while index < keys.len()
        invariant
            interner.wf(),
            index <= keys@.len(),
            extends(interner@, start),
            ids@.len() == index,
            forall|i: int|
                0 <= i < ids@.len() ==> (#[trigger] ids@[i]) < interner@.len()
                    && interner@[ids@[i] as int] == keys@[i]@,
        decreases keys@.len() - index,
    {
        let ghost before_call = interner@;
        let id = interner.intern(copy_words(&keys[index]));
        proof {
            assert forall|i: int| 0 <= i < ids@.len() implies (#[trigger] ids@[i])
                < interner@.len() && interner@[ids@[i] as int] == keys@[i]@ by {
                assert(before_call[ids@[i] as int] == interner@[ids@[i] as int]);
            }
            assert forall|i: int| 0 <= i < start.len() implies #[trigger] interner@[i]
                == start[i] by {
                assert(before_call[i] == start[i]);
            }
        }
        ids.push(id);
        index += 1;
    }
    ids
}

/// Copy key words.
pub fn copy_words(words: &Vec<usize>) -> (copy: Vec<usize>)
    ensures
        copy@ == words@,
{
    let mut copy: Vec<usize> = Vec::new();
    let mut index: usize = 0;
    while index < words.len()
        invariant
            index <= words@.len(),
            copy@ == words@.take(index as int),
        decreases words@.len() - index,
    {
        copy.push(words[index]);
        index += 1;
    }
    assert(words@.take(words@.len() as int) =~= words@);
    copy
}

/// Numbers for two lists of keys.
pub fn classes(before: Vec<Vec<usize>>, after: Vec<Vec<usize>>) -> (result: (Vec<usize>, Vec<usize>))
    ensures
        classify(key_views(before@), key_views(after@), result.0@, result.1@),
{
    let expected: usize = if before.len() < 65_536 {
        before.len()
    } else {
        65_536
    };
    let mut interner = Interner::new(expected);
    let ghost before_keys = before@;
    let ghost after_keys = after@;
    let before_ids = intern_all(&mut interner, before);
    let ghost middle = interner@;
    let after_ids = intern_all(&mut interner, after);
    proof {
        assert(distinct_keys(interner@)) by {
            interner.lemma_distinct();
        }
        assert forall|i: int, j: int|
            0 <= i < before_ids@.len() && 0 <= j < after_ids@.len() implies (
        #[trigger] before_ids@[i] == #[trigger] after_ids@[j] <==> key_views(before_keys)[i]
            == key_views(after_keys)[j]) by {
            assert(middle[before_ids@[i] as int] == interner@[before_ids@[i] as int]);
        }
        assert forall|i: int, j: int|
            0 <= i < before_ids@.len() && 0 <= j < before_ids@.len() implies (
        #[trigger] before_ids@[i] == #[trigger] before_ids@[j] <==> key_views(before_keys)[i]
            == key_views(before_keys)[j]) by {
            assert(middle[before_ids@[i] as int] == interner@[before_ids@[i] as int]);
            assert(middle[before_ids@[j] as int] == interner@[before_ids@[j] as int]);
        }
    }
    (before_ids, after_ids)
}

impl Interner {
    /// The numbers of a consistent interner tell all keys apart.
    pub proof fn lemma_distinct(&self)
        requires
            self.wf(),
        ensures
            distinct_keys(self@),
    {
    }
}

/// Every edge joins equal keys.
pub open spec fn keys_agree(
    ms: Seq<OrderedMatch>,
    before: Seq<Seq<usize>>,
    after: Seq<Seq<usize>>,
) -> bool {
    forall|i: int|
        0 <= i < ms.len() ==> (#[trigger] ms[i]).before < before.len() && ms[i].after < after.len()
            && before[ms[i].before as int] == after[ms[i].after as int]
}

/// Every pair of equal keys that the edges leave out shares an end with one of them or crosses
/// one.
pub open spec fn keys_blocked(
    ms: Seq<OrderedMatch>,
    before: Seq<Seq<usize>>,
    after: Seq<Seq<usize>>,
) -> bool {
    forall|x: int, y: int|
        0 <= x < before.len() && 0 <= y < after.len() && #[trigger] before[x]
            == #[trigger] after[y] ==> is_blocked(ms, x, y)
}

/// Two equal keys are never both left over.
pub open spec fn keys_exhausted(
    ms: Seq<OrderedMatch>,
    before: Seq<Seq<usize>>,
    after: Seq<Seq<usize>>,
) -> bool {
    forall|x: int, y: int|
        0 <= x < before.len() && 0 <= y < after.len() && #[trigger] before[x]
            == #[trigger] after[y] ==> has_end(ms, x, y)
}

/// Match equal keys in order.
pub fn ordered_key_matches(before: Vec<Vec<usize>>, after: Vec<Vec<usize>>) -> (matches: Vec<
    OrderedMatch,
>)
    ensures
        keys_agree(matches@, key_views(before@), key_views(after@)),
        monotone(matches@),
        keys_blocked(matches@, key_views(before@), key_views(after@)),
        key_views(before@) == key_views(after@) ==> is_identity(matches@, before@.len()),
{
    let ghost before_keys = key_views(before@);
    let ghost after_keys = key_views(after@);
    let (left, right) = classes(before, after);
    let matches = ordered_matches(&left, &right);
    proof {
        assert(left.len() <= usize::MAX && right.len() <= usize::MAX);
        assert forall|x: int, y: int|
            0 <= x < before_keys.len() && 0 <= y < after_keys.len() && #[trigger] before_keys[x]
                == #[trigger] after_keys[y] implies is_blocked(matches@, x, y) by {
            assert(left@[x] == right@[y]);
            law_anchored_alignment_is_maximal(matches@, left@, right@, x, y);
        }
        if before_keys == after_keys {
            assert forall|i: int| 0 <= i < left@.len() implies left@[i] == right@[i] by {
                assert(before_keys[i] == after_keys[i]);
            }
            assert(left@ =~= right@);
        }
        assert forall|i: int| 0 <= i < matches@.len() implies (#[trigger] matches@[i]).before
            < before_keys.len() && matches@[i].after < after_keys.len()
            && before_keys[matches@[i].before as int] == after_keys[matches@[i].after as int] by {
            assert(left@[matches@[i].before as int] == right@[matches@[i].after as int]);
        }
    }
    matches
}

/// Match equal keys by occurrence number, in any order.
pub fn unordered_key_matches(before: Vec<Vec<usize>>, after: Vec<Vec<usize>>) -> (matches: Vec<
    OrderedMatch,
>)
    ensures
        keys_agree(matches@, key_views(before@), key_views(after@)),
        one_to_one(matches@),
        forall|i: int, j: int|
            0 <= i < j < matches@.len() ==> (#[trigger] matches@[i]).before < (
            #[trigger] matches@[j]).before,
        keys_exhausted(matches@, key_views(before@), key_views(after@)),
        is_key_matching(matches@, key_views(before@), key_views(after@)),
{
    let ghost before_keys = key_views(before@);
    let ghost after_keys = key_views(after@);
    let (left, right) = classes(before, after);
    let matches = unordered_matches(&left, &right);
    proof {
        assert(left.len() <= usize::MAX && right.len() <= usize::MAX);
        law_occurrence_matching_is_one_to_one(matches@, left@, right@);
        lemma_key_matching(matches@, before_keys, after_keys, left@, right@);
        assert forall|x: int, y: int|
            0 <= x < before_keys.len() && 0 <= y < after_keys.len() && #[trigger] before_keys[x]
                == #[trigger] after_keys[y] implies has_end(matches@, x, y) by {
            assert(left@[x] == right@[y]);
            law_occurrence_matching_is_complete(matches@, left@, right@, x, y);
        }
        assert forall|i: int| 0 <= i < matches@.len() implies (#[trigger] matches@[i]).before
            < before_keys.len() && matches@[i].after < after_keys.len()
            && before_keys[matches@[i].before as int] == after_keys[matches@[i].after as int] by {
            assert(left@[matches@[i].before as int] == right@[matches@[i].after as int]);
        }
    }
    matches
}

} // verus!
