//! A growable array stored in fixed-size chunks, with insertions that are collected
//! first and merged in when the array is finalized.

use vstd::prelude::*;
use vstd::arithmetic::div_mod::{lemma_fundamental_div_mod, lemma_mod_multiples_basic};

verus! {

/// Position `i` of an array of `size` elements lies in one of its `n` chunks of `c`
/// elements each.
proof fn lemma_chunk_of(n: int, c: int, size: int, i: int)
    requires
        c > 0,
        0 <= i < size,
        n * c >= size,
    ensures
        0 <= i / c < n,
        0 <= i % c < c,
        i == c * (i / c) + i % c,
{
    lemma_fundamental_div_mod(i, c);
    let q = i / c;
    assert(q < n) by (nonlinear_arith)
        requires
            c > 0,
            c * q <= i,
            i < n * c,
    ;
    assert(0 <= q) by (nonlinear_arith)
        requires
            c > 0,
            i >= 0,
            i == c * q + i % c,
            i % c < c,
    ;
}

/// Two positions with the same chunk and the same place in it are the same position.
proof fn lemma_chunk_place_unique(c: int, i: int, j: int)
    requires
        c > 0,
        i / c == j / c,
        i % c == j % c,
    ensures
        i == j,
{
    lemma_fundamental_div_mod(i, c);
    lemma_fundamental_div_mod(j, c);
}

/// Where the last chunk is in use, a full array has exactly `size / c` chunks, and an
/// array that is not full has room left in its last chunk.
proof fn lemma_chunk_count(n: int, c: int, size: int)
    requires
        c > 0,
        size >= 0,
        n >= 0,
        n * c >= size,
        n * c < size + c,
    ensures
        size % c == 0 ==> n == size / c,
        size % c != 0 ==> size / c < n && n * c > size,
{
    lemma_fundamental_div_mod(size, c);
    let q = size / c;
    if size % c == 0 {
        assert(n == q) by (nonlinear_arith)
            requires
                c > 0,
                size == c * q,
                n * c >= size,
                n * c < size + c,
        ;
    } else {
        assert(q < n) by (nonlinear_arith)
            requires
                c > 0,
                size == c * q + size % c,
                size % c > 0,
                n * c >= size,
        ;
        lemma_mod_multiples_basic(n, c);
    }
}

/// A value waiting to be placed in front of the element at `idx`.
struct InsertionPoint<T> {
    idx: usize,
    data: T,
}

pub struct ChunkedAllocator<T> {
    chunk_size: usize,
    size: usize,
    data: Vec<Vec<T>>,
    insertions: Vec<InsertionPoint<T>>,
}

/// The insertion points as plain pairs of index and value.
spec fn entries<T>(insertions: Seq<InsertionPoint<T>>) -> Seq<(usize, T)> {
    Seq::new(insertions.len(), |i: int| (insertions[i].idx, insertions[i].data))
}

/// Whether the pairs stand in ascending order of their index.
pub open spec fn ascending<T>(order: Seq<(usize, T)>) -> bool {
    forall|i: int, j: int| 0 <= i < j < order.len() ==> order[i].0 <= order[j].0
}

/// The elements from position `i` on, each preceded by the values of `order` that
/// name its position; values that name no remaining position come last. `order` is
/// read from its front.
pub open spec fn merge_from<T>(items: Seq<T>, order: Seq<(usize, T)>, i: int) -> Seq<T>
    decreases (if i < items.len() { items.len() - i } else { 0 }) + order.len(),
{
    if order.len() > 0 && (i >= items.len() || order[0].0 == i) {
        seq![order[0].1] + merge_from(items, order.drop_first(), i)
    } else if 0 <= i < items.len() {
        seq![items[i]] + merge_from(items, order, i + 1)
    } else {
        Seq::empty()
    }
}

/// The array with the values of `order` merged in.
pub open spec fn merged<T>(items: Seq<T>, order: Seq<(usize, T)>) -> Seq<T> {
    merge_from(items, order, 0)
}

/// The number of pairs whose index is at most `x`.
pub open spec fn count_up_to<T>(order: Seq<(usize, T)>, x: int) -> int
    decreases order.len(),
{
    if order.len() == 0 {
        0
    } else {
        (if order[0].0 <= x {
            1int
        } else {
            0
        }) + count_up_to(order.drop_first(), x)
    }
}

/// The smaller of two integers.
pub open spec fn least(a: int, b: int) -> int {
    if a <= b {
        a
    } else {
        b
    }
}

/// Where the merge stands at position `i` and the pairs that are left are in
/// ascending order and name no position before `i`: each element that is left moves
/// back by the number of pairs that name a position up to its own, and each pair
/// stands as many places behind the position it names (the end, if it names none) as
/// there are pairs before it.
pub proof fn lemma_merge_from_places<T>(items: Seq<T>, order: Seq<(usize, T)>, i: int)
    requires
        0 <= i <= items.len(),
        ascending(order),
        forall|j: int| 0 <= j < order.len() ==> (#[trigger] order[j]).0 >= i,
    ensures
        merge_from(items, order, i).len() == items.len() - i + order.len(),
        forall|x: int|
            i <= x < items.len() ==> merge_from(items, order, i)[x - i + count_up_to(order, x)]
                == #[trigger] items[x],
        forall|x: int| i <= x < items.len() ==> 0 <= #[trigger] count_up_to(order, x) <= order.len(),
        forall|j: int|
            0 <= j < order.len() ==> merge_from(items, order, i)[j + least(
                order[j].0 as int,
                items.len() as int,
            ) - i] == (#[trigger] order[j]).1,
    decreases items.len() - i + order.len(),
{
    let whole = merge_from(items, order, i);
    if order.len() > 0 && (i >= items.len() || order[0].0 == i) {
        let rest = order.drop_first();
        assert forall|j: int| 0 <= j < rest.len() implies (#[trigger] rest[j]).0 >= i by {
            assert(rest[j] == order[j + 1]);
        }
        assert(ascending(rest)) by {
            assert forall|a: int, b: int| 0 <= a < b < rest.len() implies rest[a].0 <= rest[b].0 by {
                assert(rest[a] == order[a + 1] && rest[b] == order[b + 1]);
            }
        }
        lemma_merge_from_places(items, rest, i);
        let tail = merge_from(items, rest, i);
        assert(whole == seq![order[0].1] + tail);
        assert forall|x: int| i <= x < items.len() implies whole[x - i + count_up_to(order, x)]
            == #[trigger] items[x] by {
            assert(count_up_to(order, x) == 1 + count_up_to(rest, x));
            assert(tail[x - i + count_up_to(rest, x)] == items[x]);
        }
        assert forall|x: int| i <= x < items.len() implies 0 <= #[trigger] count_up_to(order, x)
            <= order.len() by {
            assert(0 <= count_up_to(rest, x) <= rest.len());
        }
        assert forall|j: int| 0 <= j < order.len() implies whole[j + least(
            order[j].0 as int,
            items.len() as int,
        ) - i] == (#[trigger] order[j]).1 by {
            if j > 0 {
                assert(rest[j - 1] == order[j]);
                assert(tail[(j - 1) + least(rest[j - 1].0 as int, items.len() as int) - i]
                    == rest[j - 1].1);
            }
        }
    } else if i < items.len() {
        assert forall|j: int| 0 <= j < order.len() implies (#[trigger] order[j]).0 >= i + 1 by {
            assert(order[0].0 <= order[j].0);
        }
        lemma_merge_from_places(items, order, i + 1);
        let tail = merge_from(items, order, i + 1);
        assert(whole == seq![items[i]] + tail);
        lemma_count_none(order, i);
        assert forall|x: int| i <= x < items.len() implies whole[x - i + count_up_to(order, x)]
            == #[trigger] items[x] by {
            if x > i {
                assert(0 <= count_up_to(order, x) <= order.len());
                assert(tail[x - (i + 1) + count_up_to(order, x)] == items[x]);
            }
        }
        assert forall|j: int| 0 <= j < order.len() implies whole[j + least(
            order[j].0 as int,
            items.len() as int,
        ) - i] == (#[trigger] order[j]).1 by {
            assert(tail[j + least(order[j].0 as int, items.len() as int) - (i + 1)] == order[j].1);
        }
    }
}

/// No pair names a position up to `x` where every pair names a later one.
proof fn lemma_count_none<T>(order: Seq<(usize, T)>, x: int)
    requires
        forall|j: int| 0 <= j < order.len() ==> (#[trigger] order[j]).0 > x,
    ensures
        count_up_to(order, x) == 0,
    decreases order.len(),
{
    if order.len() > 0 {
        let rest = order.drop_first();
        assert forall|j: int| 0 <= j < rest.len() implies (#[trigger] rest[j]).0 > x by {
            assert(rest[j] == order[j + 1]);
        }
        lemma_count_none(rest, x);
    }
}

/// Where the merged array holds what: with the insertions in ascending order of
/// their index, element `x` stands at `x` plus the number of insertions that name a
/// position up to `x`, and the insertion at rank `j` stands `j` places behind the
/// position it names, or behind the end of the array if it names none.
pub proof fn lemma_merged_places<T>(items: Seq<T>, order: Seq<(usize, T)>)
    requires
        ascending(order),
    ensures
        merged(items, order).len() == items.len() + order.len(),
        forall|x: int|
            0 <= x < items.len() ==> merged(items, order)[x + count_up_to(order, x)]
                == #[trigger] items[x],
        forall|j: int|
            0 <= j < order.len() ==> merged(items, order)[j + least(
                order[j].0 as int,
                items.len() as int,
            )] == (#[trigger] order[j]).1,
{
    lemma_merge_from_places(items, order, 0);
}

/// Whether `copy` holds, position by position, a clone of what `source` holds.
pub open spec fn clones_of<T: Clone>(source: Seq<T>, copy: Seq<T>) -> bool {
    &&& source.len() == copy.len()
    &&& forall|k: int| 0 <= k < source.len() ==> cloned(#[trigger] source[k], copy[k])
}

/// `slice::sort_unstable_by_key` with the insertion index as the key: afterwards the
/// same insertion points stand in ascending order of their index. Which of two points
/// with the same index comes first is left open.
#[verifier::external_body]
fn sort_by_index<T>(insertions: &mut Vec<InsertionPoint<T>>)
    ensures
        entries(final(insertions)@).to_multiset() == entries(old(insertions)@).to_multiset(),
        ascending(entries(final(insertions)@)),
{
    insertions.sort_unstable_by_key(|insertion| insertion.idx);
}

impl<T> ChunkedAllocator<T> where T: Default + Clone {
    /// The number of elements per chunk.
    pub closed spec fn spec_chunk_size(&self) -> usize {
        self.chunk_size
    }

    /// The elements pushed so far, in order.
    pub closed spec fn items(&self) -> Seq<T> {
        Seq::new(
            self.size as nat,
            |i: int| self.data@[i / self.chunk_size as int]@[i % self.chunk_size as int],
        )
    }

    /// The insertions collected so far, in the order in which they were asked for.
    pub closed spec fn pending(&self) -> Seq<(usize, T)> {
        entries(self.insertions@)
    }

    /// The chunks are full-length and there are exactly as many as the elements need.
    pub closed spec fn wf(&self) -> bool {
        &&& self.size > 0 ==> self.chunk_size > 0
        &&& self.size == 0 ==> self.data@.len() == 0
        &&& self.data@.len() * self.chunk_size >= self.size
        &&& self.data@.len() * self.chunk_size < self.size + self.chunk_size || self.size == 0
        &&& forall|c: int| 0 <= c < self.data@.len() ==> (#[trigger] self.data@[c])@.len()
            == self.chunk_size
    }

    pub fn new(chunk_size: usize) -> (allocator: Self)
        ensures
            allocator.wf(),
            allocator.spec_chunk_size() == chunk_size,
            allocator.items() == Seq::<T>::empty(),
            allocator.pending() == Seq::<(usize, T)>::empty(),
    {
        let allocator = Self { chunk_size, size: 0, data: Vec::new(), insertions: Vec::new() };
        assert(allocator.items() =~= Seq::<T>::empty());
        assert(allocator.pending() =~= Seq::<(usize, T)>::empty());
        allocator
    }

    pub fn chunk_size(&self) -> (chunk_size: usize)
        ensures
            chunk_size == self.spec_chunk_size(),
    {
        self.chunk_size
    }

    /// The number of elements, not counting pending insertions.
    pub fn size(&self) -> (size: usize)
        ensures
            size == self.items().len(),
    {
        self.size
    }

    pub fn insertion_count(&self) -> (count: usize)
        ensures
            count == self.pending().len(),
    {
        self.insertions.len()
    }

    /// Whether `after` is `self` with nothing changed but the element at `index`.
    spec fn replaced_at(&self, after: Self, index: int) -> bool {
        let c = self.chunk_size as int;
        &&& after.chunk_size == self.chunk_size
        &&& after.size == self.size
        &&& after.insertions == self.insertions
        &&& after.data@ == self.data@.update(index / c, after.data@[index / c])
        &&& after.data@[index / c]@ == self.data@[index / c]@.update(
            index % c,
            after.data@[index / c]@[index % c],
        )
    }

    /// Replacing one element in its chunk replaces it in the array and keeps the
    /// chunks as they must be.
    proof fn lemma_replaced_at(&self, after: Self, index: int)
        requires
            self.wf(),
            0 <= index < self.size,
            self.replaced_at(after, index),
        ensures
            after.wf(),
            after.pending() == self.pending(),
            after.items() == self.items().update(
                index,
                after.data@[index / self.chunk_size as int]@[index % self.chunk_size as int],
            ),
    {
        let c = self.chunk_size as int;
        lemma_chunk_of(self.data@.len() as int, c, self.size as int, index);
        assert forall|i: int| 0 <= i < self.size implies #[trigger] after.items()[i]
            == self.items().update(index, after.data@[index / c]@[index % c])[i] by {
            lemma_chunk_of(self.data@.len() as int, c, self.size as int, i);
            if i != index {
                if i / c == index / c && i % c == index % c {
                    lemma_chunk_place_unique(c, i, index);
                }
            }
        }
        assert(after.items() =~= self.items().update(index, after.data@[index / c]@[index % c]));
    }

    /// The element at `index`, to read or to overwrite; `None` behind the last element.
    pub fn get(&mut self, index: usize) -> (element: Option<&mut T>)
        requires
            old(self).wf(),
        ensures
            final(self).wf(),
            final(self).spec_chunk_size() == old(self).spec_chunk_size(),
            final(self).pending() == old(self).pending(),
            index >= old(self).items().len() ==> element.is_none() && final(self).items() == old(
                self,
            ).items(),
            index < old(self).items().len() ==> {
                &&& element matches Some(e)
                &&& *e == old(self).items()[index as int]
                &&& final(self).items() == old(self).items().update(index as int, *final(e))
            },
    {
        if index >= self.size {
            return None;
        }
        let chunk_idx = index / self.chunk_size;
        let element_idx = index % self.chunk_size;
        proof {
            lemma_chunk_of(
                self.data@.len() as int,
                self.chunk_size as int,
                self.size as int,
                index as int,
            );
        }
        proof {
            let before = *self;
            assert forall|after: Self| before.replaced_at(after, index as int) implies (
            #[trigger] after.items()) == before.items().update(
                index as int,
                after.data@[index as int / self.chunk_size as int]@[index as int
                    % self.chunk_size as int],
            ) by {
                before.lemma_replaced_at(after, index as int);
            }
            assert forall|after: Self| before.replaced_at(after, index as int) implies (
            #[trigger] after.wf()) by {
                before.lemma_replaced_at(after, index as int);
            }
            assert forall|after: Self| before.replaced_at(after, index as int) implies (
            #[trigger] after.pending()) == before.pending() by {
                before.lemma_replaced_at(after, index as int);
            }
        }
        let chunk = &mut self.data[chunk_idx];
        let element = &mut chunk[element_idx];
        Some(element)
    }

    /// Appends an element, in a new chunk if the last one is full.
    pub fn push_back(&mut self, value: T)
        requires
            old(self).wf(),
            old(self).spec_chunk_size() > 0,
            old(self).items().len() < usize::MAX,
        ensures
            final(self).wf(),
            final(self).spec_chunk_size() == old(self).spec_chunk_size(),
            final(self).items() == old(self).items().push(value),
            final(self).pending() == old(self).pending(),
    {
        let ghost c = self.chunk_size as int;
        let ghost n = self.data@.len() as int;
        proof {
            if self.size > 0 {
                lemma_chunk_count(n, c, self.size as int);
            } else {
                lemma_fundamental_div_mod(0, c);
            }
        }
        if self.size % self.chunk_size == 0 {
            // Allocate a new chunk if the current chunk is full
            self.data.push(vec![T::default(); self.chunk_size]);
        }
        let chunk_idx = self.size / self.chunk_size;
        let element_idx = self.size % self.chunk_size;
        proof {
            lemma_fundamental_div_mod(self.size as int, c);
            assert(self.data@.len() * c >= self.size + 1 && self.data@.len() * c < self.size + 1
                + c) by (nonlinear_arith)
                requires
                    c > 0,
                    self.size % self.chunk_size == 0 ==> self.data@.len() == n + 1 && n
                        == self.size as int / c,
                    self.size % self.chunk_size != 0 ==> self.data@.len() == n && n * c
                        > self.size && n * c < self.size + c,
                    self.size == c * (self.size as int / c) + self.size as int % c,
            ;
        }
        let ghost chunks = self.data@;
        self.data[chunk_idx][element_idx] = value;
        self.size += 1;
        proof {
            assert forall|i: int| 0 <= i < self.size implies #[trigger] self.items()[i] == old(
                self,
            ).items().push(value)[i] by {
                lemma_chunk_of(self.data@.len() as int, c, self.size as int, i);
                if i != self.size - 1 {
                    lemma_chunk_of(n, c, old(self).size as int, i);
                    if i / c == chunk_idx && i % c == element_idx {
                        lemma_chunk_place_unique(c, i, self.size - 1);
                    }
                }
            }
            assert(self.items() =~= old(self).items().push(value));
        }
    }

    /// Notes that `value` is to stand in front of the element that is at `index` now.
    /// Insertions do not see each other: each index refers to the array as it is
    /// without any of them.
    pub fn insert(&mut self, index: usize, value: T)
        requires
            old(self).wf(),
        ensures
            final(self).wf(),
            final(self).spec_chunk_size() == old(self).spec_chunk_size(),
            final(self).items() == old(self).items(),
            final(self).pending() == old(self).pending().push((index, value)),
    {
        self.insertions.push(InsertionPoint { idx: index, data: value });
        assert(self.pending() =~= old(self).pending().push((index, value)));
        assert(self.items() =~= old(self).items());
    }

    /// Hands out the array with the pending insertions merged in, and empties the
    /// allocator. The insertions are taken in ascending order of their index; each is
    /// placed in front of the element that its index names, and those whose index
    /// names no element come last. Every value handed out is a clone of a stored one.
    pub fn finalize(&mut self) -> (result: Vec<T>)
        requires
            old(self).wf(),
            old(self).items().len() + old(self).pending().len() <= usize::MAX,
        ensures
            final(self).wf(),
            final(self).spec_chunk_size() == old(self).spec_chunk_size(),
            final(self).items() == Seq::<T>::empty(),
            final(self).pending() == Seq::<(usize, T)>::empty(),
            result@.len() == old(self).items().len() + old(self).pending().len(),
            exists|order: Seq<(usize, T)>|
                #![trigger ascending(order)]
                {
                    &&& ascending(order)
                    &&& order.to_multiset() == old(self).pending().to_multiset()
                    &&& clones_of(merged(old(self).items(), order), result@)
                },
    {
        let ghost items = self.items();
        sort_by_index(&mut self.insertions);
        let ghost order = entries(self.insertions@);
        proof {
            order.to_multiset_ensures();
            old(self).pending().to_multiset_ensures();
            assert(self.items() =~= items);
        }

        let mut result = Vec::with_capacity(self.size + self.insertions.len());

        let mut insertion_count: usize = 0;
        let mut input_count: usize = 0;
        let ghost mut acc: Seq<T> = Seq::empty();
        assert(order.subrange(0, order.len() as int) =~= order);

        // Iterate over all items in the allocator and perform all insertions
        while input_count < self.size
            invariant
                self.wf(),
                self.items() == items,
                self.size == items.len(),
                self.chunk_size == old(self).chunk_size,
                entries(self.insertions@) == order,
                insertion_count <= order.len(),
                input_count <= self.size,
                merged(items, order) == acc + merge_from(
                    items,
                    order.subrange(insertion_count as int, order.len() as int),
                    input_count as int,
                ),
                clones_of(acc, result@),
                acc.len() == insertion_count + input_count,
            decreases (self.size - input_count) + (order.len() - insertion_count),
        {
            proof {
                lemma_chunk_of(
                    self.data@.len() as int,
                    self.chunk_size as int,
                    self.size as int,
                    input_count as int,
                );
            }
            let chunk_idx = input_count / self.chunk_size;
            let element_offset = input_count % self.chunk_size;
            let chunk = &self.data[chunk_idx];
            let ghost rest = order.subrange(insertion_count as int, order.len() as int);

            // Insert any element that is supposed to be inserted at this index
            if insertion_count < self.insertions.len() && self.insertions[insertion_count].idx
                == input_count {
                let value = self.insertions[insertion_count].data.clone();
                proof {
                    assert(rest[0] == order[insertion_count as int]);
                    assert(rest.drop_first() =~= order.subrange(
                        insertion_count + 1,
                        order.len() as int,
                    ));
                    assert(acc + (seq![rest[0].1] + merge_from(
                        items,
                        rest.drop_first(),
                        input_count as int,
                    )) =~= acc.push(rest[0].1) + merge_from(
                        items,
                        rest.drop_first(),
                        input_count as int,
                    ));
                    acc = acc.push(rest[0].1);
                }
                result.push(value);
                insertion_count += 1;
            } else {
                // Copy the current element
                let value = chunk[element_offset].clone();
                proof {
                    let item = items[input_count as int];
                    assert(rest.len() > 0 ==> rest[0] == order[insertion_count as int]);
                    assert(acc + (seq![item] + merge_from(items, rest, input_count + 1))
                        =~= acc.push(item) + merge_from(items, rest, input_count + 1));
                    acc = acc.push(item);
                }
                result.push(value);
                input_count += 1;
            }
        }

        // If there are any insertions left, add them to the end
        while insertion_count < self.insertions.len()
            invariant
                self.wf(),
                self.size == items.len(),
                self.chunk_size == old(self).chunk_size,
                entries(self.insertions@) == order,
                insertion_count <= order.len(),
                input_count == self.size,
                merged(items, order) == acc + merge_from(
                    items,
                    order.subrange(insertion_count as int, order.len() as int),
                    input_count as int,
                ),
                clones_of(acc, result@),
                acc.len() == insertion_count + input_count,
            decreases order.len() - insertion_count,
        {
            let ghost rest = order.subrange(insertion_count as int, order.len() as int);
            let value = self.insertions[insertion_count].data.clone();
            proof {
                assert(rest[0] == order[insertion_count as int]);
                assert(rest.drop_first() =~= order.subrange(
                    insertion_count + 1,
                    order.len() as int,
                ));
                assert(acc + (seq![rest[0].1] + merge_from(
                    items,
                    rest.drop_first(),
                    input_count as int,
                )) =~= acc.push(rest[0].1) + merge_from(
                    items,
                    rest.drop_first(),
                    input_count as int,
                ));
                acc = acc.push(rest[0].1);
            }
            result.push(value);
            insertion_count += 1;
        }

        // Clear the allocator state
        self.data.clear();
        self.insertions.clear();
        self.size = 0;

        proof {
            assert(acc =~= merged(items, order));
            assert(self.items() =~= Seq::<T>::empty());
            assert(self.pending() =~= Seq::<(usize, T)>::empty());
            assert(ascending(order));
        }
        result
    }
}

} // verus!
