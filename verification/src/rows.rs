//! Ordering of rows: sort keys and a stable sort by them.

use crate::arena::StringArena;
use crate::names::{bytes_lt, lemma_bytes_lt_total, lemma_bytes_lt_transitive};
use vstd::prelude::*;

verus! {

/// What a row is ordered by: a name, then a number, then the row's own id.
pub struct SortKey {
    pub name: Seq<u8>,
    pub number: u64,
    pub id: u64,
}

/// Whether a row with key `a` may stand before a row with key `b`.
pub open spec fn key_le(a: SortKey, b: SortKey) -> bool {
    bytes_lt(a.name, b.name) || (a.name == b.name && (a.number < b.number || (a.number == b.number
        && a.id <= b.id)))
}

/// Of two keys one may stand before the other, and where each may stand before the
/// other they are the same.
pub proof fn lemma_key_le_total(a: SortKey, b: SortKey)
    ensures
        key_le(a, b) || key_le(b, a),
        key_le(a, b) && key_le(b, a) ==> a == b,
{
    lemma_bytes_lt_total(a.name, b.name);
}

/// The order of keys is transitive.
pub proof fn lemma_key_le_transitive(a: SortKey, b: SortKey, c: SortKey)
    requires
        key_le(a, b),
        key_le(b, c),
    ensures
        key_le(a, c),
{
    lemma_bytes_lt_total(a.name, b.name);
    lemma_bytes_lt_total(b.name, c.name);
    if bytes_lt(a.name, b.name) && bytes_lt(b.name, c.name) {
        lemma_bytes_lt_transitive(a.name, b.name, c.name);
    }
}

/// Whether the rows stand in the order of their keys.
pub open spec fn sorted<T>(rows: Seq<T>, key: spec_fn(T) -> SortKey) -> bool {
    forall|i: int, j: int| 0 <= i < j < rows.len() ==> key_le(key(rows[i]), key(rows[j]))
}

/// Whether no two rows have the same key.
pub open spec fn distinct_keys<T>(rows: Seq<T>, key: spec_fn(T) -> SortKey) -> bool {
    forall|i: int, j: int| 0 <= i < j < rows.len() ==> key(rows[i]) != key(rows[j])
}

/// The sorted rows `sorted` with `x` put behind every row that may stand before it.
pub open spec fn insert_row<T>(sorted: Seq<T>, x: T, key: spec_fn(T) -> SortKey) -> Seq<T>
    decreases sorted.len(),
{
    if sorted.len() == 0 || key_le(key(sorted.last()), key(x)) {
        sorted.push(x)
    } else {
        insert_row(sorted.drop_last(), x, key).push(sorted.last())
    }
}

/// The rows in the order of their keys; rows with the same key keep their order.
///
/// The result holds the same rows ([`lemma_stable_sort`]), stands in the order of
/// the keys (the same lemma) and keeps the rows of each key as they stood to each
/// other ([`lemma_stable_sort_is_stable`]).
pub open spec fn stable_sort<T>(rows: Seq<T>, key: spec_fn(T) -> SortKey) -> Seq<T>
    decreases rows.len(),
{
    if rows.len() == 0 {
        rows
    } else {
        insert_row(stable_sort(rows.drop_last(), key), rows.last(), key)
    }
}

/// Inserting a row keeps the rows sorted and adds just that row.
pub proof fn lemma_insert_row<T>(rows: Seq<T>, x: T, key: spec_fn(T) -> SortKey)
    requires
        sorted(rows, key),
    ensures
        sorted(insert_row(rows, x, key), key),
        insert_row(rows, x, key).len() == rows.len() + 1,
        insert_row(rows, x, key).to_multiset() == rows.to_multiset().insert(x),
        forall|y: T|
            insert_row(rows, x, key).contains(y) ==> y == x || rows.contains(y),
    decreases rows.len(),
{
    broadcast use vstd::seq_lib::group_to_multiset_ensures;

    let r = insert_row(rows, x, key);
    if rows.len() == 0 || key_le(key(rows.last()), key(x)) {
        assert forall|i: int, j: int| 0 <= i < j < r.len() implies key_le(key(r[i]), key(r[j])) by {
            if j == rows.len() && i < rows.len() - 1 {
                lemma_key_le_transitive(key(rows[i]), key(rows.last()), key(x));
            }
        }
        assert forall|y: T| r.contains(y) implies y == x || rows.contains(y) by {
            let i = r.index_of(y);
            if i < rows.len() {
                assert(rows[i] == y);
            }
        }
    } else {
        let init = rows.drop_last();
        assert(sorted(init, key)) by {
            assert forall|i: int, j: int| 0 <= i < j < init.len() implies key_le(
                key(init[i]),
                key(init[j]),
            ) by {
                assert(key_le(key(rows[i]), key(rows[j])));
            }
        }
        lemma_insert_row(init, x, key);
        let ri = insert_row(init, x, key);
        assert(r == ri.push(rows.last()));
        lemma_key_le_total(key(rows.last()), key(x));
        assert forall|i: int, j: int| 0 <= i < j < r.len() implies key_le(key(r[i]), key(r[j])) by {
            if j == r.len() - 1 {
                assert(r[j] == rows.last());
                assert(r[i] == ri[i]);
                assert(ri.contains(ri[i]));
                if ri[i] == x {
                } else {
                    assert(init.contains(ri[i]));
                    let k = init.index_of(ri[i]);
                    assert(init[k] == rows[k]);
                    assert(key_le(key(rows[k]), key(rows[rows.len() - 1])));
                }
            } else {
                assert(r[i] == ri[i] && r[j] == ri[j]);
                assert(key_le(key(ri[i]), key(ri[j])));
            }
        }
        assert(rows =~= init.push(rows.last()));
        assert(r.to_multiset() =~= rows.to_multiset().insert(x));
        assert forall|y: T| r.contains(y) implies y == x || rows.contains(y) by {
            let i = r.index_of(y);
            if i < ri.len() {
                assert(ri[i] == y);
                assert(ri.contains(y));
                if y != x {
                    assert(init.contains(y));
                    let k = init.index_of(y);
                    assert(rows[k] == y);
                }
            } else {
                assert(rows[rows.len() - 1] == y);
            }
        }
    }
}

/// Sorting gives the same rows, in the order of their keys.
pub proof fn lemma_stable_sort<T>(rows: Seq<T>, key: spec_fn(T) -> SortKey)
    ensures
        sorted(stable_sort(rows, key), key),
        stable_sort(rows, key).len() == rows.len(),
        stable_sort(rows, key).to_multiset() == rows.to_multiset(),
        forall|y: T| stable_sort(rows, key).contains(y) ==> rows.contains(y),
    decreases rows.len(),
{
    broadcast use vstd::seq_lib::group_to_multiset_ensures;

    if rows.len() > 0 {
        let init = rows.drop_last();
        lemma_stable_sort(init, key);
        lemma_insert_row(stable_sort(init, key), rows.last(), key);
        assert(rows =~= init.push(rows.last()));
        let r = insert_row(stable_sort(init, key), rows.last(), key);
        assert(stable_sort(rows, key) == r);
        assert forall|y: T| r.contains(y) implies rows.contains(y) by {
            if y == rows.last() {
                assert(rows[rows.len() - 1] == y);
            } else {
                assert(stable_sort(init, key).contains(y));
                assert(init.contains(y));
                let k = init.index_of(y);
                assert(rows[k] == y);
            }
        }
    }
}

/// Whether a row has the key `k`.
pub open spec fn has_key<T>(key: spec_fn(T) -> SortKey, k: SortKey) -> spec_fn(T) -> bool {
    |r: T| key(r) == k
}

/// Inserting a row puts it behind the rows of its key and leaves the rows of
/// every other key as they stand to each other.
pub proof fn lemma_insert_row_is_stable<T>(
    rows: Seq<T>,
    x: T,
    key: spec_fn(T) -> SortKey,
    k: SortKey,
)
    ensures
        insert_row(rows, x, key).filter(has_key(key, k)) == if key(x) == k {
            rows.filter(has_key(key, k)).push(x)
        } else {
            rows.filter(has_key(key, k))
        },
    decreases rows.len(),
{
    reveal(Seq::filter);
    let p = has_key(key, k);
    if rows.len() == 0 || key_le(key(rows.last()), key(x)) {
        assert(rows.push(x).drop_last() =~= rows);
    } else {
        let init = rows.drop_last();
        lemma_insert_row_is_stable(init, x, key, k);
        let inserted = insert_row(init, x, key);
        assert(inserted.push(rows.last()).drop_last() =~= inserted);
        lemma_key_le_total(key(rows.last()), key(x));
    }
}

/// Sorting is stable: the rows of one key stand to each other as they did before.
pub proof fn lemma_stable_sort_is_stable<T>(rows: Seq<T>, key: spec_fn(T) -> SortKey, k: SortKey)
    ensures
        stable_sort(rows, key).filter(has_key(key, k)) == rows.filter(has_key(key, k)),
    decreases rows.len(),
{
    reveal(Seq::filter);
    if rows.len() > 0 {
        lemma_stable_sort_is_stable(rows.drop_last(), key, k);
        lemma_insert_row_is_stable(stable_sort(rows.drop_last(), key), rows.last(), key, k);
    }
}

/// Rows that stand in the order of their keys are left as they are.
pub proof fn lemma_sorted_stays<T>(rows: Seq<T>, key: spec_fn(T) -> SortKey)
    requires
        sorted(rows, key),
    ensures
        stable_sort(rows, key) == rows,
    decreases rows.len(),
{
    if rows.len() > 0 {
        let init = rows.drop_last();
        lemma_sorted_stays(init, key);
        if init.len() > 0 {
            assert(key_le(key(rows[init.len() - 1]), key(rows[rows.len() - 1])));
        }
        assert(init.push(rows.last()) =~= rows);
    }
}

/// Sorting twice by one key is sorting once.
pub proof fn lemma_sort_idempotent<T>(rows: Seq<T>, key: spec_fn(T) -> SortKey)
    ensures
        stable_sort(stable_sort(rows, key), key) == stable_sort(rows, key),
{
    lemma_stable_sort(rows, key);
    lemma_sorted_stays(stable_sort(rows, key), key);
}

/// Rows whose keys differ have one order only: two sorted sequences of the same
/// rows are the same sequence.
pub proof fn lemma_sorted_unique<T>(a: Seq<T>, b: Seq<T>, key: spec_fn(T) -> SortKey)
    requires
        sorted(a, key),
        sorted(b, key),
        distinct_keys(a, key),
        a.to_multiset() == b.to_multiset(),
    ensures
        a == b,
    decreases a.len(),
{
    broadcast use vstd::multiset::group_multiset_axioms;
    broadcast use vstd::seq_lib::group_to_multiset_ensures;

    vstd::seq_lib::to_multiset_len(a);
    vstd::seq_lib::to_multiset_len(b);
    assert(a.len() == b.len());
    if a.len() > 0 {
        assert(b.to_multiset().contains(a[0]));
        assert(a.to_multiset().contains(b[0]));
        let i = choose|i: int| #![trigger a.spec_index(i)] 0 <= i < a.len() && a[i] == b[0];
        let j = choose|j: int| #![trigger b.spec_index(j)] 0 <= j < b.len() && b[j] == a[0];
        if i > 0 {
            assert(key_le(key(a[0]), key(a[i])));
            if j > 0 {
                assert(key_le(key(b[0]), key(b[j])));
            }
            lemma_key_le_total(key(a[0]), key(a[i]));
            assert(false);
        }
        vstd::seq_lib::to_multiset_remove(a, 0);
        vstd::seq_lib::to_multiset_remove(b, 0);
        assert(a.remove(0) =~= a.drop_first());
        assert(b.remove(0) =~= b.drop_first());
        assert(a.drop_first().to_multiset() =~= a.to_multiset().remove(a[0]));
        assert(b.drop_first().to_multiset() =~= b.to_multiset().remove(b[0]));
        assert(sorted(a.drop_first(), key)) by {
            assert forall|p: int, q: int| 0 <= p < q < a.drop_first().len() implies key_le(
                key(a.drop_first()[p]),
                key(a.drop_first()[q]),
            ) by {
                assert(key_le(key(a[p + 1]), key(a[q + 1])));
            }
        }
        assert(sorted(b.drop_first(), key)) by {
            assert forall|p: int, q: int| 0 <= p < q < b.drop_first().len() implies key_le(
                key(b.drop_first()[p]),
                key(b.drop_first()[q]),
            ) by {
                assert(key_le(key(b[p + 1]), key(b[q + 1])));
            }
        }
        assert(distinct_keys(a.drop_first(), key)) by {
            assert forall|p: int, q: int| 0 <= p < q < a.drop_first().len() implies key(
                a.drop_first()[p],
            ) != key(a.drop_first()[q]) by {
                assert(key(a[p + 1]) != key(a[q + 1]));
            }
        }
        lemma_sorted_unique(a.drop_first(), b.drop_first(), key);
        assert(a =~= seq![a[0]] + a.drop_first());
        assert(b =~= seq![b[0]] + b.drop_first());
    }
}

/// Rows whose keys differ are sorted with keys that differ.
pub proof fn lemma_sort_keeps_distinct<T>(rows: Seq<T>, sorted_rows: Seq<T>, key: spec_fn(T) -> SortKey)
    requires
        distinct_keys(rows, key),
        sorted_rows.to_multiset() == rows.to_multiset(),
    ensures
        distinct_keys(sorted_rows, key),
{
    broadcast use vstd::multiset::group_multiset_axioms;
    broadcast use vstd::seq_lib::group_to_multiset_ensures;

    assert(rows.no_duplicates()) by {
        assert forall|i: int, j: int| 0 <= i < rows.len() && 0 <= j < rows.len() && i != j implies rows[i]
            != rows[j] by {
            if i < j {
                assert(key(rows[i]) != key(rows[j]));
            } else {
                assert(key(rows[j]) != key(rows[i]));
            }
        }
    }
    rows.lemma_multiset_has_no_duplicates();
    sorted_rows.lemma_multiset_has_no_duplicates_conv();
    assert forall|i: int, j: int| 0 <= i < j < sorted_rows.len() implies key(sorted_rows[i]) != key(
        sorted_rows[j],
    ) by {
        assert(sorted_rows[i] != sorted_rows[j]);
        assert(sorted_rows.to_multiset().contains(sorted_rows[i]));
        assert(sorted_rows.to_multiset().contains(sorted_rows[j]));
        assert(rows.contains(sorted_rows[i]));
        assert(rows.contains(sorted_rows[j]));
        let p = rows.index_of(sorted_rows[i]);
        let q = rows.index_of(sorted_rows[j]);
        if p < q {
            assert(key(rows[p]) != key(rows[q]));
        } else {
            assert(key(rows[q]) != key(rows[p]));
        }
    }
}

/// Rows whose keys under `first` differ come back to their order under `first`
/// after they were sorted by `second` in between.
pub proof fn lemma_sort_returns<T>(
    rows: Seq<T>,
    first: spec_fn(T) -> SortKey,
    second: spec_fn(T) -> SortKey,
)
    requires
        distinct_keys(rows, first),
    ensures
        stable_sort(stable_sort(stable_sort(rows, first), second), first) == stable_sort(
            rows,
            first,
        ),
{
    let a = stable_sort(rows, first);
    let b = stable_sort(a, second);
    let c = stable_sort(b, first);
    lemma_stable_sort(rows, first);
    lemma_stable_sort(a, second);
    lemma_stable_sort(b, first);
    lemma_sort_keeps_distinct(rows, a, first);
    lemma_sorted_unique(a, c, first);
}

/// Sorting the images of rows is sorting the rows, where a row and its image have
/// the same key.
pub proof fn lemma_sort_commutes<T, M>(
    rows: Seq<T>,
    image: spec_fn(T) -> M,
    key: spec_fn(T) -> SortKey,
    image_key: spec_fn(M) -> SortKey,
)
    requires
        forall|x: T| #[trigger] key(x) == image_key(image(x)),
    ensures
        stable_sort(rows, key).map_values(image) == stable_sort(rows.map_values(image), image_key),
    decreases rows.len(),
{
    if rows.len() == 0 {
        assert(rows.map_values(image) =~= Seq::<M>::empty());
        assert(stable_sort(rows, key).map_values(image) =~= Seq::<M>::empty());
    } else {
        let init = rows.drop_last();
        lemma_sort_commutes(init, image, key, image_key);
        assert(rows.map_values(image).drop_last() =~= init.map_values(image));
        assert(rows.map_values(image).last() == image(rows.last()));
        lemma_insert_commutes(stable_sort(init, key), rows.last(), image, key, image_key);
    }
}

/// Inserting the image of a row is inserting the row, where a row and its image
/// have the same key.
pub proof fn lemma_insert_commutes<T, M>(
    rows: Seq<T>,
    x: T,
    image: spec_fn(T) -> M,
    key: spec_fn(T) -> SortKey,
    image_key: spec_fn(M) -> SortKey,
)
    requires
        forall|x: T| #[trigger] key(x) == image_key(image(x)),
    ensures
        insert_row(rows, x, key).map_values(image) == insert_row(
            rows.map_values(image),
            image(x),
            image_key,
        ),
    decreases rows.len(),
{
    let images = rows.map_values(image);
    if rows.len() == 0 {
        assert(rows.push(x).map_values(image) =~= images.push(image(x)));
    } else {
        assert(images.last() == image(rows.last()));
        assert(key(rows.last()) == image_key(image(rows.last())));
        assert(key(x) == image_key(image(x)));
        if key_le(key(rows.last()), key(x)) {
            assert(rows.push(x).map_values(image) =~= images.push(image(x)));
        } else {
            lemma_insert_commutes(rows.drop_last(), x, image, key, image_key);
            assert(images.drop_last() =~= rows.drop_last().map_values(image));
            assert(insert_row(rows.drop_last(), x, key).push(rows.last()).map_values(image)
                =~= insert_row(rows.drop_last(), x, key).map_values(image).push(image(rows.last())));
        }
    }
}

/// What rows are ordered by.
#[derive(Debug, Clone, Copy, PartialEq, Eq)]
pub enum RowOrder {
    /// The row's own id.
    Id,
    /// The row's name, then its id.
    Name,
    /// Time on the CPU, most first, then the id.
    Cpu,
    /// Bytes read, most first, then the id.
    DiskRead,
    /// Bytes written, most first, then the id.
    DiskWrite,
    /// Resident memory, most first, then the id.
    Memory,
    /// The session that the row belongs to, then the id.
    Session,
}

/// A row of a table that can be ordered.
pub trait Row: Sized {
    /// What the row is ordered by under `order`, its name looked up in `strings`.
    spec fn sort_key(&self, order: RowOrder, strings: Seq<Seq<u8>>) -> SortKey;

    /// Whether the row's name is one of `strings`.
    spec fn named_in(&self, strings: Seq<Seq<u8>>) -> bool;

    /// Whether the row may stand before `other` under `order`.
    fn may_precede(&self, other: &Self, order: RowOrder, strings: &StringArena) -> (r: bool)
        requires
            self.named_in(strings@),
            other.named_in(strings@),
        ensures
            r == key_le(self.sort_key(order, strings@), other.sort_key(order, strings@)),
    ;
}

/// The function that gives each row its key under `order`.
pub open spec fn row_key<T: Row>(order: RowOrder, strings: Seq<Seq<u8>>) -> spec_fn(T) -> SortKey {
    |r: T| r.sort_key(order, strings)
}

/// Whether every row's name is one of `strings`.
pub open spec fn all_named_in<T: Row>(rows: Seq<T>, strings: Seq<Seq<u8>>) -> bool {
    forall|i: int| 0 <= i < rows.len() ==> (#[trigger] rows[i]).named_in(strings)
}

/// Two sorted sequences of rows taken together in the order of their keys; of rows
/// with the same key those of `a` come first.
pub open spec fn merged<T>(a: Seq<T>, b: Seq<T>, key: spec_fn(T) -> SortKey) -> Seq<T>
    decreases a.len() + b.len(),
{
    if b.len() == 0 {
        a
    } else if a.len() == 0 {
        b
    } else if key_le(key(a.last()), key(b.last())) {
        merged(a, b.drop_last(), key).push(b.last())
    } else {
        merged(a.drop_last(), b, key).push(a.last())
    }
}

/// Inserting a row behind a merge is merging with the row inserted in the second
/// sequence.
pub proof fn lemma_insert_into_merged<T>(a: Seq<T>, b: Seq<T>, x: T, key: spec_fn(T) -> SortKey)
    requires
        sorted(a, key),
        sorted(b, key),
    ensures
        insert_row(merged(a, b, key), x, key) == merged(a, insert_row(b, x, key), key),
    decreases a.len() + b.len(),
{
    lemma_insert_row(b, x, key);
    if a.len() == 0 {
        assert(merged(a, insert_row(b, x, key), key) == insert_row(b, x, key));
    } else {
        let a_init = a.drop_last();
        assert(sorted(a_init, key)) by {
            assert forall|i: int, j: int| 0 <= i < j < a_init.len() implies key_le(
                key(a_init[i]),
                key(a_init[j]),
            ) by {
                assert(key_le(key(a[i]), key(a[j])));
            }
        }
        lemma_key_le_total(key(a.last()), key(x));
        if b.len() == 0 {
            assert(insert_row(b, x, key) =~= seq![x]);
            assert(seq![x].drop_last() =~= b);
            assert(seq![x].last() == x);
            if key_le(key(a.last()), key(x)) {
                assert(merged(a, seq![x], key) == merged(a, b, key).push(x));
            } else {
                lemma_insert_into_merged(a_init, b, x, key);
                assert(merged(a_init, b, key) == a_init);
                assert(merged(a, seq![x], key) == merged(a_init, seq![x], key).push(a.last()));
            }
        } else {
            let b_init = b.drop_last();
            assert(sorted(b_init, key)) by {
                assert forall|i: int, j: int| 0 <= i < j < b_init.len() implies key_le(
                    key(b_init[i]),
                    key(b_init[j]),
                ) by {
                    assert(key_le(key(b[i]), key(b[j])));
                }
            }
            lemma_key_le_total(key(b.last()), key(x));
            lemma_key_le_total(key(a.last()), key(b.last()));
            if key_le(key(b.last()), key(x)) {
                let bx = b.push(x);
                assert(insert_row(b, x, key) == bx);
                assert(bx.drop_last() =~= b);
                assert(bx.last() == x);
                if key_le(key(a.last()), key(x)) {
                    assert(merged(a, bx, key) == merged(a, b, key).push(x));
                    lemma_merged_last(a, b, key);
                } else {
                    if key_le(key(a.last()), key(b.last())) {
                        lemma_key_le_transitive(key(a.last()), key(b.last()), key(x));
                    }
                    lemma_insert_into_merged(a_init, b, x, key);
                    assert(merged(a, bx, key) == merged(a_init, bx, key).push(a.last()));
                    assert(merged(a, b, key) == merged(a_init, b, key).push(a.last()));
                    let m = merged(a_init, b, key).push(a.last());
                    assert(m.drop_last() =~= merged(a_init, b, key));
                }
            } else {
                let bx_init = insert_row(b_init, x, key);
                let bx = bx_init.push(b.last());
                assert(insert_row(b, x, key) == bx);
                assert(bx.drop_last() =~= bx_init);
                assert(bx.last() == b.last());
                lemma_insert_row(b_init, x, key);
                if key_le(key(a.last()), key(b.last())) {
                    lemma_insert_into_merged(a, b_init, x, key);
                    assert(merged(a, bx, key) == merged(a, bx_init, key).push(b.last()));
                    assert(merged(a, b, key) == merged(a, b_init, key).push(b.last()));
                    let m = merged(a, b_init, key).push(b.last());
                    assert(m.drop_last() =~= merged(a, b_init, key));
                } else {
                    if key_le(key(a.last()), key(x)) {
                        lemma_key_le_transitive(key(a.last()), key(x), key(b.last()));
                    }
                    lemma_insert_into_merged(a_init, b, x, key);
                    assert(merged(a, bx, key) == merged(a_init, bx, key).push(a.last()));
                    assert(merged(a, b, key) == merged(a_init, b, key).push(a.last()));
                    let m = merged(a_init, b, key).push(a.last());
                    assert(m.drop_last() =~= merged(a_init, b, key));
                }
            }
        }
    }
}

/// A merge of sequences that are not both empty ends with the last row of one of
/// them.
pub proof fn lemma_merged_last<T>(a: Seq<T>, b: Seq<T>, key: spec_fn(T) -> SortKey)
    requires
        a.len() + b.len() > 0,
    ensures
        merged(a, b, key).len() > 0,
        (a.len() > 0 && merged(a, b, key).last() == a.last()) || (b.len() > 0 && merged(
            a,
            b,
            key,
        ).last() == b.last()),
{
}

/// Sorting two sequences one after the other is merging what sorting each gives.
pub proof fn lemma_sort_of_concat<T>(a: Seq<T>, b: Seq<T>, key: spec_fn(T) -> SortKey)
    ensures
        stable_sort(a + b, key) == merged(stable_sort(a, key), stable_sort(b, key), key),
    decreases b.len(),
{
    if b.len() == 0 {
        assert(a + b =~= a);
    } else {
        let init = b.drop_last();
        lemma_sort_of_concat(a, init, key);
        assert((a + b).drop_last() =~= a + init);
        assert((a + b).last() == b.last());
        lemma_stable_sort(a, key);
        lemma_stable_sort(init, key);
        lemma_insert_into_merged(stable_sort(a, key), stable_sort(init, key), b.last(), key);
    }
}

/// Merges two sorted vectors of rows.
fn merge<T: Row>(a: Vec<T>, b: Vec<T>, order: RowOrder, strings: &StringArena) -> (r: Vec<T>)
    requires
        all_named_in(a@, strings@),
        all_named_in(b@, strings@),
    ensures
        r@ == merged(a@, b@, row_key::<T>(order, strings@)),
        all_named_in(r@, strings@),
{
    let mut a = a;
    let mut b = b;
    let ghost key = row_key::<T>(order, strings@);
    let ghost whole = merged(a@, b@, key);
    // The rows that end the result, the last one first.
    let mut back: Vec<T> = Vec::new();
    assert(merged(a@, b@, key) + back@.reverse() =~= whole);
    while a.len() > 0 && b.len() > 0
        invariant
            key == row_key::<T>(order, strings@),
            whole == merged(a@, b@, key) + back@.reverse(),
            all_named_in(a@, strings@),
            all_named_in(b@, strings@),
            all_named_in(back@, strings@),
        decreases a@.len() + b@.len(),
    {
        let ghost a_before = a@;
        let ghost b_before = b@;
        let ghost back_before = back@;
        let from_b: bool = a[a.len() - 1].may_precede(&b[b.len() - 1], order, strings);
        proof {
            assert(key(a@.last()) == a@[a@.len() - 1].sort_key(order, strings@));
            assert(key(b@.last()) == b@[b@.len() - 1].sort_key(order, strings@));
        }
        let taken: Option<T> = if from_b {
            b.pop()
        } else {
            a.pop()
        };
        match taken {
            Some(row) => {
                back.push(row);
                proof {
                    assert(back@.reverse() =~= seq![row] + back_before.reverse());
                    assert(merged(a_before, b_before, key) == merged(a@, b@, key).push(row));
                    assert(merged(a@, b@, key).push(row) + back_before.reverse() =~= merged(
                        a@,
                        b@,
                        key,
                    ) + back@.reverse());
                    assert forall|k: int| 0 <= k < back@.len() implies (#[trigger] back@[k]).named_in(
                        strings@,
                    ) by {
                        if k < back_before.len() {
                            assert(back@[k] == back_before[k]);
                        } else if from_b {
                            assert(back@[k] == b_before[b_before.len() - 1]);
                        } else {
                            assert(back@[k] == a_before[a_before.len() - 1]);
                        }
                    }
                    assert forall|k: int| 0 <= k < a@.len() implies (#[trigger] a@[k]).named_in(
                        strings@,
                    ) by {
                        assert(a@[k] == a_before[k]);
                    }
                    assert forall|k: int| 0 <= k < b@.len() implies (#[trigger] b@[k]).named_in(
                        strings@,
                    ) by {
                        assert(b@[k] == b_before[k]);
                    }
                }
            },
            None => {},
        }
    }
    let mut out: Vec<T> = if a.len() > 0 {
        a
    } else {
        b
    };
    while back.len() > 0
        invariant
            whole == out@ + back@.reverse(),
            all_named_in(out@, strings@),
            all_named_in(back@, strings@),
        decreases back@.len(),
    {
        let ghost out_before = out@;
        let ghost back_before = back@;
        match back.pop() {
            Some(row) => {
                out.push(row);
                proof {
                    assert(back_before.reverse() =~= seq![row] + back@.reverse());
                    assert(out@ + back@.reverse() =~= out_before + back_before.reverse());
                    assert forall|k: int| 0 <= k < out@.len() implies (#[trigger] out@[k]).named_in(
                        strings@,
                    ) by {
                        if k < out_before.len() {
                            assert(out@[k] == out_before[k]);
                        } else {
                            assert(out@[k] == back_before[back_before.len() - 1]);
                        }
                    }
                    assert forall|k: int| 0 <= k < back@.len() implies (#[trigger] back@[k]).named_in(
                        strings@,
                    ) by {
                        assert(back@[k] == back_before[k]);
                    }
                }
            },
            None => {},
        }
    }
    assert(out@ + back@.reverse() =~= out@);
    out
}

/// Sorts a vector of rows by merging its sorted halves.
fn merge_sort<T: Row>(rows: Vec<T>, order: RowOrder, strings: &StringArena) -> (r: Vec<T>)
    requires
        all_named_in(rows@, strings@),
    ensures
        r@ == stable_sort(rows@, row_key::<T>(order, strings@)),
        all_named_in(r@, strings@),
    decreases rows@.len(),
{
    let ghost key = row_key::<T>(order, strings@);
    let n: usize = rows.len();
    if n < 2 {
        proof {
            lemma_sorted_stays(rows@, key);
        }
        return rows;
    }
    let mut left: Vec<T> = rows;
    let ghost all = left@;
    let right: Vec<T> = left.split_off(n / 2);
    proof {
        assert(all =~= left@ + right@);
        lemma_sort_of_concat(left@, right@, key);
        assert forall|k: int| 0 <= k < left@.len() implies (#[trigger] left@[k]).named_in(
            strings@,
        ) by {
            assert(left@[k] == all[k]);
        }
        assert forall|k: int| 0 <= k < right@.len() implies (#[trigger] right@[k]).named_in(
            strings@,
        ) by {
            assert(right@[k] == all[k + left@.len()]);
        }
    }
    let left: Vec<T> = merge_sort(left, order, strings);
    let right: Vec<T> = merge_sort(right, order, strings);
    merge(left, right, order, strings)
}

/// Sorts the rows by their keys under `order`; rows with the same key keep their
/// order.
pub fn sort_rows<T: Row>(rows: &mut Vec<T>, order: RowOrder, strings: &StringArena)
    requires
        all_named_in(old(rows)@, strings@),
    ensures
        final(rows)@ == stable_sort(old(rows)@, row_key::<T>(order, strings@)),
        all_named_in(final(rows)@, strings@),
{
    let mut unsorted: Vec<T> = Vec::new();
    std::mem::swap(rows, &mut unsorted);
    *rows = merge_sort(unsorted, order, strings);
}

} // verus!
