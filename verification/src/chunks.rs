use vstd::arithmetic::div_mod::{lemma_fundamental_div_mod, lemma_mod_pos_bound};
use vstd::prelude::*;

verus! {

/// The number of groups that `len` items fall into when they are taken `size`
/// at a time: `len / size`, rounded up.
pub open spec fn chunk_count(len: nat, size: nat) -> nat
    recommends
        size > 0,
{
    if len % size == 0 {
        len / size
    } else {
        len / size + 1
    }
}

/// Where group `k` ends: `size` items after its start, or at the end of the
/// items where fewer are left.
pub open spec fn chunk_end(len: nat, size: nat, k: int) -> int {
    if (k + 1) * size <= len {
        (k + 1) * size
    } else {
        len as int
    }
}

/// Group `k` of the items: those from `k * size` up to [`chunk_end`].
pub open spec fn chunk<A>(items: Seq<A>, size: nat, k: int) -> Seq<A> {
    items.subrange(k * size, chunk_end(items.len(), size, k))
}

/// The items in consecutive groups of `size`; the last group is shorter where
/// the number of items is no multiple of `size`.
pub open spec fn chunks<A>(items: Seq<A>, size: nat) -> Seq<Seq<A>>
    recommends
        size > 0,
{
    Seq::new(chunk_count(items.len(), size), |k: int| chunk(items, size, k))
}

pub(crate) proof fn lemma_mul_step(k: int, size: int)
    by (nonlinear_arith)
    ensures
        (k + 1) * size == k * size + size,
{
}

pub(crate) proof fn lemma_mul_ordered(a: int, b: int, size: int)
    by (nonlinear_arith)
    requires
        a <= b,
        0 <= size,
    ensures
        a * size <= b * size,
{
}

/// The groups reach the end of the items, and the last one is not empty.
pub proof fn lemma_chunk_count(len: nat, size: nat)
    requires
        size > 0,
    ensures
        len <= chunk_count(len, size) * size,
        chunk_count(len, size) > 0 ==> (chunk_count(len, size) - 1) * size < len,
        chunk_count(len, size) == 0 <==> len == 0,
{
    let q = len as int / size as int;
    lemma_fundamental_div_mod(len as int, size as int);
    lemma_mod_pos_bound(len as int, size as int);
    assert(size * q == q * size) by (nonlinear_arith);
    lemma_mul_step(q, size as int);
    lemma_mul_step(q - 1, size as int);
    if q < 0 {
        lemma_mul_ordered(q, -1, size as int);
    }
    if q > 0 {
        lemma_mul_ordered(1, q, size as int);
    }
}

/// A count of groups that reaches the end of the items with a last group
/// that is not empty is the number of groups.
pub proof fn lemma_chunk_count_is(len: nat, size: nat, count: nat)
    requires
        size > 0,
        len <= count * size,
        count > 0 ==> (count - 1) * size < len,
    ensures
        count == chunk_count(len, size),
{
    let c = chunk_count(len, size);
    lemma_chunk_count(len, size);
    if count < c {
        lemma_mul_ordered(count as int, c - 1, size as int);
    } else if c < count {
        lemma_mul_ordered(c as int, count - 1, size as int);
    }
}

/// Each group starts inside the items and holds between one and `size` of
/// them; every group but the last holds `size`.
pub proof fn lemma_chunk_bounds(len: nat, size: nat, k: int)
    requires
        size > 0,
        0 <= k < chunk_count(len, size),
    ensures
        0 <= k * size < len,
        (k + 1) * size == k * size + size,
        k * size < chunk_end(len, size, k) <= len,
        chunk_end(len, size, k) - k * size <= size,
        k + 1 < chunk_count(len, size) ==> chunk_end(len, size, k) == (k + 1) * size,
{
    let c = chunk_count(len, size);
    lemma_chunk_count(len, size);
    lemma_mul_step(k, size as int);
    lemma_mul_ordered(0, k, size as int);
    lemma_mul_ordered(k, c - 1, size as int);
    if k + 1 < c {
        lemma_mul_ordered(k + 1, c - 1, size as int);
    }
}

/// The groups, read one after the other, are the items: each item stands in
/// one group, once, and the order is kept. No group is empty and none is
/// longer than `size`.
pub proof fn lemma_chunks_cover<A>(items: Seq<A>, size: nat)
    requires
        size > 0,
    ensures
        chunks(items, size).flatten() == items,
        chunks(items, size).len() == chunk_count(items.len(), size),
        forall|k: int|
            0 <= k < chunks(items, size).len() ==> 1 <= (#[trigger] chunks(items, size)[k]).len()
                <= size,
        forall|k: int|
            0 <= k < chunks(items, size).len() - 1 ==> (#[trigger] chunks(items, size)[k]).len()
                == size,
{
    let count = chunk_count(items.len(), size);
    lemma_chunks_prefix(items, size, count);
    lemma_chunk_count(items.len(), size);
    assert(Seq::new(count, |k: int| chunk(items, size, k)) == chunks(items, size));
    if count > 0 {
        lemma_chunk_bounds(items.len(), size, count - 1);
    }
    assert(items.take(items.len() as int) =~= items);
    assert forall|k: int| 0 <= k < chunks(items, size).len() implies 1 <= (#[trigger] chunks(
        items,
        size,
    )[k]).len() <= size by {
        lemma_chunk_bounds(items.len(), size, k);
    }
    assert forall|k: int| 0 <= k < chunks(items, size).len() - 1 implies (#[trigger] chunks(
        items,
        size,
    )[k]).len() == size by {
        lemma_chunk_bounds(items.len(), size, k);
    }
}

proof fn lemma_chunks_prefix<A>(items: Seq<A>, size: nat, m: nat)
    requires
        size > 0,
        m <= chunk_count(items.len(), size),
    ensures
        Seq::new(m, |k: int| chunk(items, size, k)).flatten() == items.take(
            if m == 0 {
                0
            } else {
                chunk_end(items.len(), size, m - 1)
            },
        ),
    decreases m,
{
    broadcast use Seq::lemma_flatten_push;

    let built = Seq::new(m, |k: int| chunk(items, size, k));
    if m == 0 {
        assert(built =~= Seq::<Seq<A>>::empty());
        assert(built.flatten() =~= items.take(0));
    } else {
        let before = Seq::new((m - 1) as nat, |k: int| chunk(items, size, k));
        lemma_chunks_prefix(items, size, (m - 1) as nat);
        lemma_chunk_bounds(items.len(), size, m - 1);
        if m > 1 {
            lemma_chunk_bounds(items.len(), size, m - 2);
        }
        assert(built =~= before.push(chunk(items, size, m - 1)));
        assert(built.flatten() =~= items.take(chunk_end(items.len(), size, m - 1)));
    }
}

} // verus!
