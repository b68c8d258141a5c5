//! The order of names, and a stable sort by name.

use vstd::prelude::*;
use vstd::utf8::*;

use crate::text::lemma_encoding_is_injective;

verus! {

/// Whether `a` comes strictly before `b`, byte by byte.
pub open spec fn bytes_before(a: Seq<u8>, b: Seq<u8>) -> bool
    decreases b.len(),
{
    if b.len() == 0 {
        false
    } else if a.len() == 0 {
        true
    } else {
        a[0] < b[0] || (a[0] == b[0] && bytes_before(a.drop_first(), b.drop_first()))
    }
}

/// Whether one name comes strictly before another: the order of their encodings.
pub open spec fn name_before(a: Seq<char>, b: Seq<char>) -> bool {
    bytes_before(encode_utf8(a), encode_utf8(b))
}

proof fn lemma_bytes_irreflexive(a: Seq<u8>)
    ensures
        !bytes_before(a, a),
    decreases a.len(),
{
    if a.len() > 0 {
        lemma_bytes_irreflexive(a.drop_first());
    }
}

proof fn lemma_bytes_transitive(a: Seq<u8>, b: Seq<u8>, c: Seq<u8>)
    requires
        bytes_before(a, b),
        bytes_before(b, c),
    ensures
        bytes_before(a, c),
    decreases b.len(),
{
    if a.len() > 0 && a[0] == b[0] && b[0] == c[0] {
        lemma_bytes_transitive(a.drop_first(), b.drop_first(), c.drop_first());
    }
}

proof fn lemma_bytes_total(a: Seq<u8>, b: Seq<u8>)
    ensures
        bytes_before(a, b) || bytes_before(b, a) || a == b,
    decreases a.len(),
{
    if a.len() == 0 || b.len() == 0 {
        if a.len() == b.len() {
            assert(a =~= b);
        }
    } else if a[0] == b[0] {
        lemma_bytes_total(a.drop_first(), b.drop_first());
        if a.drop_first() == b.drop_first() {
            assert(a =~= seq![a[0]] + a.drop_first());
            assert(b =~= seq![b[0]] + b.drop_first());
        }
    }
}

/// No name comes before itself.
pub proof fn name_order_is_irreflexive(a: Seq<char>)
    ensures
        !name_before(a, a),
{
    lemma_bytes_irreflexive(encode_utf8(a));
}

/// The order of names is transitive.
pub proof fn name_order_is_transitive(a: Seq<char>, b: Seq<char>, c: Seq<char>)
    requires
        name_before(a, b),
        name_before(b, c),
    ensures
        name_before(a, c),
{
    lemma_bytes_transitive(encode_utf8(a), encode_utf8(b), encode_utf8(c));
}

/// Of two different names one comes before the other.
pub proof fn name_order_is_total(a: Seq<char>, b: Seq<char>)
    ensures
        name_before(a, b) || name_before(b, a) || a == b,
{
    lemma_bytes_total(encode_utf8(a), encode_utf8(b));
    lemma_encoding_is_injective(a, b);
}

/// What holds of "not after" follows from the three laws above.
proof fn lemma_not_after_is_transitive(a: Seq<char>, b: Seq<char>, c: Seq<char>)
    requires
        !name_before(b, a),
        !name_before(c, b),
    ensures
        !name_before(c, a),
{
    if name_before(c, a) {
        name_order_is_total(a, b);
        if a != b {
            name_order_is_transitive(c, a, b);
        }
    }
}

/// Whether the name `a` comes strictly before `b`.
pub fn comes_before(a: &str, b: &str) -> (before: bool)
    ensures
        before == name_before(a@, b@),
{
    let x = a.as_bytes();
    let y = b.as_bytes();
    let mut i: usize = 0;
    assert(x@.skip(0) =~= x@);
    assert(y@.skip(0) =~= y@);
    while i < x.len() && i < y.len() && x[i] == y[i]
        invariant
            i <= x@.len(),
            i <= y@.len(),
            bytes_before(x@, y@) == bytes_before(x@.skip(i as int), y@.skip(i as int)),
        decreases x@.len() - i,
    {
        assert(x@.skip(i as int).drop_first() =~= x@.skip(i + 1));
        assert(y@.skip(i as int).drop_first() =~= y@.skip(i + 1));
        i += 1;
    }
    if i >= y.len() {
        false
    } else if i >= x.len() {
        true
    } else {
        x[i] < y[i]
    }
}

/// A row that is put in order by a name.
pub trait Named: Sized {
    /// The name.
    spec fn key(&self) -> Seq<char>;

    /// The name.
    fn key_text(&self) -> (text: &str)
        ensures
            text@ == self.key(),
    ;
}

/// No row stands before one whose name comes first.
pub open spec fn in_name_order<T: Named>(rows: Seq<T>) -> bool {
    forall|i: int, j: int|
        0 <= i < j < rows.len() ==> !name_before((#[trigger] rows[j]).key(), (#[trigger] rows[i]).key())
}

/// The name of each row comes before those of the rows behind it.
pub open spec fn in_strict_name_order<T: Named>(rows: Seq<T>) -> bool {
    forall|i: int, j: int|
        0 <= i < j < rows.len() ==> name_before((#[trigger] rows[i]).key(), (#[trigger] rows[j]).key())
}

/// The rows of one name, in the order in which they stand.
pub open spec fn with_key<T: Named>(rows: Seq<T>, key: Seq<char>) -> Seq<T>
    decreases rows.len(),
{
    if rows.len() == 0 {
        rows
    } else {
        let before = with_key(rows.drop_last(), key);
        if rows.last().key() == key {
            before.push(rows.last())
        } else {
            before
        }
    }
}

/// `sorted` holds the rows of `rows` in the order of their names, and rows of the same
/// name in the order that they had.
pub open spec fn is_stable_sort<T: Named>(sorted: Seq<T>, rows: Seq<T>) -> bool {
    &&& in_name_order(sorted)
    &&& sorted.len() == rows.len()
    &&& forall|key: Seq<char>| #[trigger] with_key(sorted, key) == with_key(rows, key)
}

proof fn lemma_with_key_push<T: Named>(rows: Seq<T>, row: T, key: Seq<char>)
    ensures
        with_key(rows.push(row), key) == if row.key() == key {
            with_key(rows, key).push(row)
        } else {
            with_key(rows, key)
        },
{
    assert(rows.push(row).drop_last() =~= rows);
}

proof fn lemma_with_key_add<T: Named>(a: Seq<T>, b: Seq<T>, key: Seq<char>)
    ensures
        with_key(a + b, key) == with_key(a, key) + with_key(b, key),
    decreases b.len(),
{
    if b.len() == 0 {
        assert(a + b =~= a);
        assert(with_key(a, key) + b =~= with_key(a, key));
    } else {
        assert((a + b).drop_last() =~= a + b.drop_last());
        lemma_with_key_add(a, b.drop_last(), key);
        if b.last().key() == key {
            assert(with_key(a, key) + with_key(b.drop_last(), key).push(b.last()) =~= (with_key(
                a,
                key,
            ) + with_key(b.drop_last(), key)).push(b.last()));
        }
    }
}

proof fn lemma_with_key_none<T: Named>(rows: Seq<T>, key: Seq<char>)
    requires
        forall|i: int| 0 <= i < rows.len() ==> (#[trigger] rows[i]).key() != key,
    ensures
        with_key(rows, key) == Seq::<T>::empty(),
    decreases rows.len(),
{
    if rows.len() > 0 {
        lemma_with_key_none(rows.drop_last(), key);
    } else {
        assert(rows =~= Seq::<T>::empty());
    }
}

/// A row of a sequence is among the rows of its own name.
pub proof fn lemma_with_key_contains<T: Named>(rows: Seq<T>, i: int)
    requires
        0 <= i < rows.len(),
    ensures
        with_key(rows, rows[i].key()).contains(rows[i]),
    decreases rows.len(),
{
    let key = rows[i].key();
    if i == rows.len() - 1 {
        assert(with_key(rows, key).last() == rows[i]);
    } else {
        assert(rows.drop_last()[i] == rows[i]);
        lemma_with_key_contains(rows.drop_last(), i);
        let before = with_key(rows.drop_last(), key);
        let at = choose|at: int| 0 <= at < before.len() && before[at] == rows[i];
        assert(with_key(rows, key)[at] == rows[i]);
    }
}

/// A row among the rows of one name is a row of the sequence.
pub proof fn lemma_with_key_member<T: Named>(rows: Seq<T>, key: Seq<char>, row: T)
    requires
        with_key(rows, key).contains(row),
    ensures
        rows.contains(row),
        row.key() == key,
    decreases rows.len(),
{
    if rows.len() > 0 {
        let before = with_key(rows.drop_last(), key);
        let at = choose|at: int|
            0 <= at < with_key(rows, key).len() && with_key(rows, key)[at] == row;
        if at < before.len() {
            assert(before[at] == row);
            lemma_with_key_member(rows.drop_last(), key, row);
            let k = choose|k: int| 0 <= k < rows.drop_last().len() && rows.drop_last()[k] == row;
            assert(rows[k] == row);
        } else {
            assert(rows[rows.len() - 1] == row);
        }
    }
}

/// A stable sort has the same rows.
pub proof fn lemma_stable_sort_same_rows<T: Named>(sorted: Seq<T>, rows: Seq<T>, row: T)
    requires
        is_stable_sort(sorted, rows),
    ensures
        sorted.contains(row) <==> rows.contains(row),
{
    let key = row.key();
    assert(with_key(sorted, key) == with_key(rows, key));
    if sorted.contains(row) {
        let i = choose|i: int| 0 <= i < sorted.len() && sorted[i] == row;
        lemma_with_key_contains(sorted, i);
        lemma_with_key_member(rows, key, row);
    }
    if rows.contains(row) {
        let i = choose|i: int| 0 <= i < rows.len() && rows[i] == row;
        lemma_with_key_contains(rows, i);
        lemma_with_key_member(sorted, key, row);
    }
}

proof fn lemma_with_key_len<T: Named>(rows: Seq<T>, i: int, j: int)
    requires
        0 <= i < j < rows.len(),
        rows[i].key() == rows[j].key(),
    ensures
        with_key(rows, rows[i].key()).len() >= 2,
    decreases rows.len(),
{
    let key = rows[i].key();
    if j == rows.len() - 1 {
        assert(rows.drop_last()[i] == rows[i]);
        lemma_with_key_contains(rows.drop_last(), i);
        assert(with_key(rows.drop_last(), key).len() >= 1);
    } else {
        assert(rows.drop_last()[i] == rows[i]);
        assert(rows.drop_last()[j] == rows[j]);
        lemma_with_key_len(rows.drop_last(), i, j);
    }
}

proof fn lemma_with_key_once<T: Named>(rows: Seq<T>, key: Seq<char>)
    requires
        forall|i: int, j: int|
            0 <= i < j < rows.len() ==> (#[trigger] rows[i]).key() != (#[trigger] rows[j]).key(),
    ensures
        with_key(rows, key).len() <= 1,
    decreases rows.len(),
{
    if rows.len() > 0 {
        let before = rows.drop_last();
        assert forall|i: int, j: int| 0 <= i < j < before.len() implies (#[trigger] before[i]).key()
            != (#[trigger] before[j]).key() by {
            assert(before[i] == rows[i]);
            assert(before[j] == rows[j]);
        }
        lemma_with_key_once(before, key);
        if rows.last().key() == key && with_key(before, key).len() == 1 {
            let row = with_key(before, key)[0];
            assert(with_key(before, key).contains(row));
            lemma_with_key_member(before, key, row);
            let i = choose|i: int| 0 <= i < before.len() && before[i] == row;
            assert(rows[i] == row);
            assert(rows[rows.len() - 1].key() == rows[i].key());
        }
    }
}

/// Rows of different names stand strictly in order once they are sorted.
pub proof fn lemma_sorted_strictly<T: Named>(sorted: Seq<T>, rows: Seq<T>)
    requires
        is_stable_sort(sorted, rows),
        forall|i: int, j: int|
            0 <= i < j < rows.len() ==> (#[trigger] rows[i]).key() != (#[trigger] rows[j]).key(),
    ensures
        in_strict_name_order(sorted),
{
    assert forall|i: int, j: int| 0 <= i < j < sorted.len() implies name_before(
        (#[trigger] sorted[i]).key(),
        (#[trigger] sorted[j]).key(),
    ) by {
        assert(!name_before(sorted[j].key(), sorted[i].key()));
        if sorted[i].key() == sorted[j].key() {
            lemma_with_key_len(sorted, i, j);
            lemma_with_key_once(rows, sorted[i].key());
            assert(with_key(sorted, sorted[i].key()) == with_key(rows, sorted[i].key()));
        }
        name_order_is_total(sorted[i].key(), sorted[j].key());
    }
}

/// The rows in the opposite order.
fn reversed<T>(rows: Vec<T>) -> (back: Vec<T>)
    ensures
        back@ == rows@.reverse(),
{
    let ghost all = rows@;
    let mut rows = rows;
    let mut back: Vec<T> = Vec::new();
    while rows.len() > 0
        invariant
            rows@ == all.take(rows@.len() as int),
            rows@.len() <= all.len(),
            back@ == all.skip(rows@.len() as int).reverse(),
        decreases rows@.len(),
    {
        let ghost n = rows@.len() as int;
        if let Some(row) = rows.pop() {
            back.push(row);
            assert(rows@ =~= all.take(n - 1));
            assert(back@ =~= all.skip(n - 1).reverse());
        }
    }
    assert(all.skip(0) =~= all);
    back
}

/// Two sorted runs as one; of equal names those of the left run come first.
fn merged<T: Named>(left: Vec<T>, right: Vec<T>) -> (out: Vec<T>)
    requires
        in_name_order(left@),
        in_name_order(right@),
    ensures
        is_stable_sort(out@, left@ + right@),
{
    let ghost l0 = left@;
    let ghost r0 = right@;
    let mut left = left;
    let mut right = right;
    let mut back: Vec<T> = Vec::new();
    assert forall|key: Seq<char>|
        with_key(l0, key) + with_key(r0, key) == #[trigger] with_key(left@, key) + with_key(
            right@,
            key,
        ) + with_key(back@.reverse(), key) by {
        assert(with_key(back@.reverse(), key) =~= Seq::<T>::empty());
    }
    while left.len() > 0 || right.len() > 0
        invariant
            in_name_order(left@),
            in_name_order(right@),
            in_name_order(back@.reverse()),
            l0.len() + r0.len() == left@.len() + right@.len() + back@.len(),
            forall|i: int, j: int|
                0 <= i < left@.len() && 0 <= j < back@.len() ==> !name_before(
                    (#[trigger] back@[j]).key(),
                    (#[trigger] left@[i]).key(),
                ),
            forall|i: int, j: int|
                0 <= i < right@.len() && 0 <= j < back@.len() ==> !name_before(
                    (#[trigger] back@[j]).key(),
                    (#[trigger] right@[i]).key(),
                ),
            forall|key: Seq<char>|
                with_key(l0, key) + with_key(r0, key) == #[trigger] with_key(left@, key)
                    + with_key(right@, key) + with_key(back@.reverse(), key),
        decreases left@.len() + right@.len(),
    {
        let ghost l = left@;
        let ghost r = right@;
        let ghost b = back@;
        let take_left = if left.len() == 0 {
            false
        } else if right.len() == 0 {
            true
        } else {
            comes_before(right[right.len() - 1].key_text(), left[left.len() - 1].key_text())
        };
        proof {
            lemma_last_is_greatest(l);
            lemma_last_is_greatest(r);
        }
        if take_left {
            if let Some(row) = left.pop() {
                back.push(row);
                proof {
                    lemma_push_back_keeps_order(b, row);
                    assert forall|i: int| 0 <= i < r.len() implies name_before(
                        (#[trigger] r[i]).key(),
                        row.key(),
                    ) by {
                        lemma_below_last(r, i, row.key());
                    }
                    assert forall|key: Seq<char>|
                        with_key(l0, key) + with_key(r0, key) == #[trigger] with_key(left@, key)
                            + with_key(right@, key) + with_key(back@.reverse(), key) by {
                        lemma_take_left(l, r, b, key);
                    }
                    assert forall|i: int| 0 <= i < right@.len() implies !name_before(
                        row.key(),
                        (#[trigger] right@[i]).key(),
                    ) by {
                        if name_before(row.key(), r[i].key()) {
                            name_order_is_transitive(r[i].key(), row.key(), r[i].key());
                            name_order_is_irreflexive(r[i].key());
                        }
                    }
                }
            }
        } else {
            if let Some(row) = right.pop() {
                back.push(row);
                proof {
                    lemma_push_back_keeps_order(b, row);
                    assert forall|key: Seq<char>|
                        with_key(l0, key) + with_key(r0, key) == #[trigger] with_key(left@, key)
                            + with_key(right@, key) + with_key(back@.reverse(), key) by {
                        lemma_take_right(l, r, b, key);
                    }
                    assert forall|i: int| 0 <= i < left@.len() implies !name_before(
                        row.key(),
                        (#[trigger] left@[i]).key(),
                    ) by {
                        lemma_not_after_is_transitive(l[i].key(), l.last().key(), row.key());
                    }
                }
            }
        }
    }
    let out = reversed(back);
    proof {
        assert forall|key: Seq<char>| #[trigger]
            with_key(out@, key) == with_key(l0 + r0, key) by {
            lemma_with_key_add(l0, r0, key);
            assert(with_key(left@, key) =~= Seq::<T>::empty());
            assert(with_key(right@, key) =~= Seq::<T>::empty());
            assert(with_key(left@, key) + with_key(right@, key) + with_key(out@, key) =~= with_key(
                out@,
                key,
            ));
        }
    }
    out
}

proof fn lemma_last_is_greatest<T: Named>(rows: Seq<T>)
    requires
        in_name_order(rows),
    ensures
        forall|i: int|
            0 <= i < rows.len() ==> !name_before(rows.last().key(), (#[trigger] rows[i]).key()),
{
    assert forall|i: int| 0 <= i < rows.len() implies !name_before(
        rows.last().key(),
        (#[trigger] rows[i]).key(),
    ) by {
        if i == rows.len() - 1 {
            name_order_is_irreflexive(rows[i].key());
        } else {
            assert(rows[rows.len() - 1] == rows.last());
        }
    }
}

proof fn lemma_below_last<T: Named>(rows: Seq<T>, i: int, key: Seq<char>)
    requires
        in_name_order(rows),
        0 <= i < rows.len(),
        name_before(rows.last().key(), key),
    ensures
        name_before(rows[i].key(), key),
{
    lemma_last_is_greatest(rows);
    name_order_is_total(rows[i].key(), rows.last().key());
    if rows[i].key() != rows.last().key() {
        name_order_is_transitive(rows[i].key(), rows.last().key(), key);
    }
}

/// Rows gathered back to front stay in order when one that is not after any of them joins.
proof fn lemma_push_back_keeps_order<T: Named>(back: Seq<T>, row: T)
    requires
        in_name_order(back.reverse()),
        forall|j: int| 0 <= j < back.len() ==> !name_before((#[trigger] back[j]).key(), row.key()),
    ensures
        in_name_order(back.push(row).reverse()),
{
    let after = back.push(row).reverse();
    assert(after =~= seq![row] + back.reverse());
    assert forall|i: int, j: int| 0 <= i < j < after.len() implies !name_before(
        (#[trigger] after[j]).key(),
        (#[trigger] after[i]).key(),
    ) by {
        assert(after[j] == back.reverse()[j - 1]);
        if i == 0 {
            assert(back.reverse()[j - 1] == back[back.len() - j]);
        } else {
            assert(after[i] == back.reverse()[i - 1]);
        }
    }
}

proof fn lemma_take_left<T: Named>(l: Seq<T>, r: Seq<T>, b: Seq<T>, key: Seq<char>)
    requires
        l.len() > 0,
        forall|i: int| 0 <= i < r.len() ==> name_before((#[trigger] r[i]).key(), l.last().key()),
    ensures
        with_key(l, key) + with_key(r, key) + with_key(b.reverse(), key) == with_key(
            l.drop_last(),
            key,
        ) + with_key(r, key) + with_key(b.push(l.last()).reverse(), key),
{
    let row = l.last();
    assert(b.push(row).reverse() =~= seq![row] + b.reverse());
    lemma_with_key_add(seq![row], b.reverse(), key);
    lemma_with_key_single(row, key);
    if row.key() == key {
        assert forall|i: int| 0 <= i < r.len() implies (#[trigger] r[i]).key() != key by {
            name_order_is_irreflexive(key);
        }
        lemma_with_key_none(r, key);
        assert(with_key(l, key) + with_key(r, key) + with_key(b.reverse(), key) =~= with_key(
            l.drop_last(),
            key,
        ) + with_key(r, key) + (seq![row] + with_key(b.reverse(), key)));
    } else {
        assert(Seq::<T>::empty() + with_key(b.reverse(), key) =~= with_key(b.reverse(), key));
    }
}

proof fn lemma_take_right<T: Named>(l: Seq<T>, r: Seq<T>, b: Seq<T>, key: Seq<char>)
    requires
        r.len() > 0,
    ensures
        with_key(l, key) + with_key(r, key) + with_key(b.reverse(), key) == with_key(l, key)
            + with_key(r.drop_last(), key) + with_key(b.push(r.last()).reverse(), key),
{
    let row = r.last();
    assert(b.push(row).reverse() =~= seq![row] + b.reverse());
    lemma_with_key_add(seq![row], b.reverse(), key);
    lemma_with_key_single(row, key);
    if row.key() == key {
        assert(with_key(l, key) + with_key(r, key) + with_key(b.reverse(), key) =~= with_key(
            l,
            key,
        ) + with_key(r.drop_last(), key) + (seq![row] + with_key(b.reverse(), key)));
    } else {
        assert(Seq::<T>::empty() + with_key(b.reverse(), key) =~= with_key(b.reverse(), key));
    }
}

proof fn lemma_with_key_single<T: Named>(row: T, key: Seq<char>)
    ensures
        with_key(seq![row], key) == if row.key() == key {
            seq![row]
        } else {
            Seq::empty()
        },
{
    assert(seq![row] =~= Seq::<T>::empty().push(row));
    lemma_with_key_push(Seq::<T>::empty(), row, key);
    assert(with_key(Seq::<T>::empty(), key) =~= Seq::<T>::empty());
}

/// The rows in the order of their names; rows of the same name keep their order.
pub fn sort_by_name<T: Named>(rows: Vec<T>) -> (sorted: Vec<T>)
    ensures
        is_stable_sort(sorted@, rows@),
    decreases rows@.len(),
{
    let n = rows.len();
    if n <= 1 {
        return rows;
    }
    let ghost all = rows@;
    let mut left = rows;
    let right = left.split_off(n / 2);
    let ghost l0 = left@;
    let ghost r0 = right@;
    assert(l0 + r0 =~= all);
    let left = sort_by_name(left);
    let right = sort_by_name(right);
    let out = merged(left, right);
    proof {
        assert forall|key: Seq<char>| #[trigger] with_key(out@, key) == with_key(all, key) by {
            lemma_with_key_add(l0, r0, key);
            lemma_with_key_add(left@, right@, key);
            assert(with_key(left@, key) == with_key(l0, key));
            assert(with_key(right@, key) == with_key(r0, key));
        }
    }
    out
}

} // verus!
