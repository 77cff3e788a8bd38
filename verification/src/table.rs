//! Keyed tables as mathematical sequences of `(key, value)` rows, in the
//! order in which the keys first arrived.  Everything here is specification
//! and proof: the store states its contracts over these tables.
use vstd::prelude::*;

verus! {

/// Whether some row of `table` has `key`.
pub open spec fn holds<K, V>(table: Seq<(K, V)>, key: K) -> bool {
    exists|i: int| 0 <= i < table.len() && (#[trigger] table[i]).0 == key
}

/// The position of a row with `key`, where `table` holds one.
pub open spec fn slot<K, V>(table: Seq<(K, V)>, key: K) -> int {
    choose|i: int| 0 <= i < table.len() && (#[trigger] table[i]).0 == key
}

/// The value stored under `key`, where `table` holds one.
pub open spec fn value_at<K, V>(table: Seq<(K, V)>, key: K) -> V {
    table[slot(table, key)].1
}

/// No key stands in two rows.
pub open spec fn distinct_keys<K, V>(table: Seq<(K, V)>) -> bool {
    forall|i: int, j: int|
        0 <= i < j < table.len() ==> (#[trigger] table[i]).0 != (#[trigger] table[j]).0
}

/// `table` after writing `value` under `key`: in place where the key is
/// held, in a new last row where it is not.
pub open spec fn put<K, V>(table: Seq<(K, V)>, key: K, value: V) -> Seq<(K, V)> {
    if holds(table, key) {
        table.update(slot(table, key), (key, value))
    } else {
        table.push((key, value))
    }
}

/// `table` with a row for `key`: its own where it holds one, else a new
/// last row with the value `fresh`.
pub open spec fn ensured<K, V>(table: Seq<(K, V)>, key: K, fresh: V) -> Seq<(K, V)> {
    if holds(table, key) {
        table
    } else {
        table.push((key, fresh))
    }
}

/// `table` after the `writes`, made in order.
pub open spec fn replay<K, V>(table: Seq<(K, V)>, writes: Seq<(K, V)>) -> Seq<(K, V)>
    decreases writes.len(),
{
    if writes.len() == 0 {
        table
    } else {
        put(replay(table, writes.drop_last()), writes.last().0, writes.last().1)
    }
}

/// The value that the last write under `key` carries.
pub open spec fn last_write<K, V>(writes: Seq<(K, V)>, key: K) -> V
    decreases writes.len(),
{
    if writes.len() == 0 {
        arbitrary()
    } else if writes.last().0 == key {
        writes.last().1
    } else {
        last_write(writes.drop_last(), key)
    }
}

/// The sum of `weight` over the rows of `table`.
pub open spec fn tally<K, V>(table: Seq<(K, V)>, weight: spec_fn((K, V)) -> nat) -> nat
    decreases table.len(),
{
    if table.len() == 0 {
        0
    } else {
        tally(table.drop_last(), weight) + weight(table.last())
    }
}

/// In a table of distinct keys, a row with the key is the key's slot.
pub proof fn lemma_slot_is<K, V>(table: Seq<(K, V)>, key: K, i: int)
    requires
        distinct_keys(table),
        0 <= i < table.len(),
        table[i].0 == key,
    ensures
        holds(table, key),
        slot(table, key) == i,
        value_at(table, key) == table[i].1,
{
    let s = slot(table, key);
    assert(0 <= s < table.len() && table[s].0 == key);
    if s < i {
        assert(table[s].0 != table[i].0);
    } else if i < s {
        assert(table[i].0 != table[s].0);
    }
}

/// Where a table holds a key, the key's slot is a row with that key.
pub proof fn lemma_slot_of_held<K, V>(table: Seq<(K, V)>, key: K)
    requires
        holds(table, key),
    ensures
        0 <= slot(table, key) < table.len(),
        table[slot(table, key)].0 == key,
{
}

/// What a table holds after a row is appended.
pub proof fn lemma_holds_after_push<K, V>(table: Seq<(K, V)>, row: (K, V), key: K)
    ensures
        holds(table.push(row), key) <==> holds(table, key) || row.0 == key,
{
    let grown = table.push(row);
    if holds(table, key) {
        let i = slot(table, key);
        assert(grown[i].0 == key);
    }
    if row.0 == key {
        assert(grown[table.len() as int].0 == key);
    }
    if holds(grown, key) {
        let i = slot(grown, key);
        if i < table.len() {
            assert(table[i].0 == key);
        }
    }
}

/// What a sequence of writes holds, by its last write and the rest.
pub proof fn lemma_holds_by_last<K, V>(writes: Seq<(K, V)>, key: K)
    requires
        writes.len() > 0,
    ensures
        holds(writes, key) <==> holds(writes.drop_last(), key) || writes.last().0 == key,
{
    assert(writes =~= writes.drop_last().push(writes.last()));
    lemma_holds_after_push(writes.drop_last(), writes.last(), key);
}

/// A write keeps the keys distinct, leaves the other keys as they were, and
/// is read back.
pub proof fn lemma_put<K, V>(table: Seq<(K, V)>, key: K, value: V)
    requires
        distinct_keys(table),
    ensures
        distinct_keys(put(table, key, value)),
        holds(put(table, key, value), key),
        value_at(put(table, key, value), key) == value,
        forall|other: K|
            other != key ==> (#[trigger] holds(put(table, key, value), other) <==> holds(
                table,
                other,
            )),
        forall|other: K|
            other != key && holds(table, other) ==> #[trigger] value_at(
                put(table, key, value),
                other,
            ) == value_at(table, other),
{
    let after = put(table, key, value);
    if holds(table, key) {
        let s = slot(table, key);
        assert forall|i: int, j: int| 0 <= i < j < after.len() implies (#[trigger] after[i]).0
            != (#[trigger] after[j]).0 by {
            assert(table[i].0 != table[j].0);
        }
        lemma_slot_is(after, key, s);
        assert forall|other: K| other != key implies (#[trigger] holds(after, other) <==> holds(
            table,
            other,
        )) by {
            if holds(table, other) {
                let i = slot(table, other);
                assert(after[i].0 == other);
            }
            if holds(after, other) {
                let i = slot(after, other);
                assert(table[i].0 == other);
            }
        }
        assert forall|other: K| other != key && holds(table, other) implies #[trigger] value_at(
            after,
            other,
        ) == value_at(table, other) by {
            let i = slot(table, other);
            lemma_slot_is(after, other, i);
        }
    } else {
        let n = table.len() as int;
        assert forall|i: int, j: int| 0 <= i < j < after.len() implies (#[trigger] after[i]).0
            != (#[trigger] after[j]).0 by {
            if j < n {
                assert(table[i].0 != table[j].0);
            } else {
                assert(table[i].0 != key);
            }
        }
        lemma_slot_is(after, key, n);
        assert forall|other: K| other != key implies (#[trigger] holds(after, other) <==> holds(
            table,
            other,
        )) by {
            lemma_holds_after_push(table, (key, value), other);
        }
        assert forall|other: K| other != key && holds(table, other) implies #[trigger] value_at(
            after,
            other,
        ) == value_at(table, other) by {
            let i = slot(table, other);
            lemma_slot_is(after, other, i);
        }
    }
}

/// Making sure of a row keeps the keys distinct and every row that was
/// there.
pub proof fn lemma_ensured<K, V>(table: Seq<(K, V)>, key: K, fresh: V)
    requires
        distinct_keys(table),
    ensures
        distinct_keys(ensured(table, key, fresh)),
        holds(ensured(table, key, fresh), key),
        ensured(ensured(table, key, fresh), key, fresh) == ensured(table, key, fresh),
        forall|other: K|
            other != key ==> (#[trigger] holds(ensured(table, key, fresh), other) <==> holds(
                table,
                other,
            )),
{
    let after = ensured(table, key, fresh);
    if !holds(table, key) {
        let n = table.len() as int;
        assert forall|i: int, j: int| 0 <= i < j < after.len() implies (#[trigger] after[i]).0
            != (#[trigger] after[j]).0 by {
            if j < n {
                assert(table[i].0 != table[j].0);
            } else {
                assert(table[i].0 != key);
            }
        }
        assert(after[n].0 == key);
        assert forall|other: K| other != key implies (#[trigger] holds(after, other) <==> holds(
            table,
            other,
        )) by {
            lemma_holds_after_push(table, (key, fresh), other);
        }
    }
}

/// The tally after a row is appended.
pub proof fn lemma_tally_push<K, V>(table: Seq<(K, V)>, row: (K, V), weight: spec_fn((K, V)) -> nat)
    ensures
        tally(table.push(row), weight) == tally(table, weight) + weight(row),
{
    assert(table.push(row).drop_last() =~= table);
}

/// The tally after a row is replaced.
pub proof fn lemma_tally_update<K, V>(
    table: Seq<(K, V)>,
    i: int,
    row: (K, V),
    weight: spec_fn((K, V)) -> nat,
)
    requires
        0 <= i < table.len(),
    ensures
        tally(table.update(i, row), weight) + weight(table[i]) == tally(table, weight) + weight(
            row,
        ),
    decreases table.len(),
{
    let after = table.update(i, row);
    if i == table.len() - 1 {
        assert(after.drop_last() =~= table.drop_last());
    } else {
        assert(after.drop_last() =~= table.drop_last().update(i, row));
        lemma_tally_update(table.drop_last(), i, row, weight);
    }
}

/// The tally after a write: the written row's weight comes in, and the
/// weight of the row that it replaced, if any, goes out.
pub proof fn lemma_tally_put<K, V>(
    table: Seq<(K, V)>,
    key: K,
    value: V,
    weight: spec_fn((K, V)) -> nat,
)
    ensures
        tally(put(table, key, value), weight) + (if holds(table, key) {
            weight((key, value_at(table, key)))
        } else {
            0
        }) == tally(table, weight) + weight((key, value)),
{
    if holds(table, key) {
        lemma_slot_of_held(table, key);
        lemma_tally_update(table, slot(table, key), (key, value), weight);
        assert(table[slot(table, key)] == (key, value_at(table, key)));
    } else {
        lemma_tally_push(table, (key, value), weight);
    }
}

/// A weight that is zero on every row of a table tallies to zero.
pub proof fn lemma_tally_zero<K, V>(table: Seq<(K, V)>, weight: spec_fn((K, V)) -> nat)
    requires
        forall|i: int| 0 <= i < table.len() ==> weight(#[trigger] table[i]) == 0,
    ensures
        tally(table, weight) == 0,
    decreases table.len(),
{
    if table.len() > 0 {
        let rest = table.drop_last();
        assert forall|i: int| 0 <= i < rest.len() implies weight(#[trigger] rest[i]) == 0 by {
            assert(rest[i] == table[i]);
        }
        lemma_tally_zero(rest, weight);
        assert(table.last() == table[table.len() - 1]);
    }
}

/// The tally over two tables, one after the other.
pub proof fn lemma_tally_concat<K, V>(
    first: Seq<(K, V)>,
    second: Seq<(K, V)>,
    weight: spec_fn((K, V)) -> nat,
)
    ensures
        tally(first + second, weight) == tally(first, weight) + tally(second, weight),
    decreases second.len(),
{
    if second.len() == 0 {
        assert(first + second =~= first);
    } else {
        assert((first + second).drop_last() =~= first + second.drop_last());
        lemma_tally_concat(first, second.drop_last(), weight);
    }
}

/// A weight that is one on every row of a table tallies to the number of
/// rows.
pub proof fn lemma_tally_counts<K, V>(table: Seq<(K, V)>, weight: spec_fn((K, V)) -> nat)
    requires
        forall|i: int| 0 <= i < table.len() ==> weight(#[trigger] table[i]) == 1,
    ensures
        tally(table, weight) == table.len(),
    decreases table.len(),
{
    if table.len() > 0 {
        let rest = table.drop_last();
        assert forall|i: int| 0 <= i < rest.len() implies weight(#[trigger] rest[i]) == 1 by {
            assert(rest[i] == table[i]);
        }
        lemma_tally_counts(rest, weight);
        assert(table.last() == table[table.len() - 1]);
    }
}

/// Where a tally is zero, the weight is zero on every row.
pub proof fn lemma_tally_zero_rows<K, V>(table: Seq<(K, V)>, weight: spec_fn((K, V)) -> nat)
    requires
        tally(table, weight) == 0,
    ensures
        forall|i: int| 0 <= i < table.len() ==> weight(#[trigger] table[i]) == 0,
    decreases table.len(),
{
    if table.len() > 0 {
        let rest = table.drop_last();
        lemma_tally_zero_rows(rest, weight);
        assert forall|i: int| 0 <= i < table.len() implies weight(#[trigger] table[i]) == 0 by {
            if i < rest.len() {
                assert(rest[i] == table[i]);
            } else {
                assert(table.last() == table[i]);
            }
        }
    }
}

/// Two weights that agree on every row of a table give the same tally.
pub proof fn lemma_tally_agrees<K, V>(
    table: Seq<(K, V)>,
    first: spec_fn((K, V)) -> nat,
    second: spec_fn((K, V)) -> nat,
)
    requires
        forall|i: int| 0 <= i < table.len() ==> first(#[trigger] table[i]) == second(table[i]),
    ensures
        tally(table, first) == tally(table, second),
    decreases table.len(),
{
    if table.len() > 0 {
        let rest = table.drop_last();
        assert forall|i: int| 0 <= i < rest.len() implies first(#[trigger] rest[i]) == second(
            rest[i],
        ) by {
            assert(rest[i] == table[i]);
        }
        lemma_tally_agrees(rest, first, second);
        assert(table.last() == table[table.len() - 1]);
    }
}

/// Where one weight is at most `cap` times another on every row, so are the
/// tallies.
pub proof fn lemma_tally_capped<K, V>(
    table: Seq<(K, V)>,
    weight: spec_fn((K, V)) -> nat,
    unit: spec_fn((K, V)) -> nat,
    cap: nat,
)
    requires
        forall|i: int| 0 <= i < table.len() ==> weight(#[trigger] table[i]) <= cap * unit(table[i]),
    ensures
        tally(table, weight) <= cap * tally(table, unit),
    decreases table.len(),
{
    if table.len() > 0 {
        let rest = table.drop_last();
        assert forall|i: int| 0 <= i < rest.len() implies weight(#[trigger] rest[i]) <= cap * unit(
            rest[i],
        ) by {
            assert(rest[i] == table[i]);
        }
        lemma_tally_capped(rest, weight, unit, cap);
        assert(table.last() == table[table.len() - 1]);
        let a = tally(rest, unit);
        let b = unit(table.last());
        assert(cap * (a + b) == cap * a + cap * b) by (nonlinear_arith);
    }
}

/// A tally of a weight that is at most one on every row is at most the
/// number of rows.
pub proof fn lemma_tally_of_units<K, V>(table: Seq<(K, V)>, unit: spec_fn((K, V)) -> nat)
    requires
        forall|i: int| 0 <= i < table.len() ==> unit(#[trigger] table[i]) <= 1,
    ensures
        tally(table, unit) <= table.len(),
    decreases table.len(),
{
    if table.len() > 0 {
        let rest = table.drop_last();
        assert forall|i: int| 0 <= i < rest.len() implies unit(#[trigger] rest[i]) <= 1 by {
            assert(rest[i] == table[i]);
        }
        lemma_tally_of_units(rest, unit);
        assert(table.last() == table[table.len() - 1]);
    }
}

/// One for a row whose key `other` holds, zero for any other row.
pub open spec fn shared_with<K, V>(other: Seq<(K, V)>) -> spec_fn((K, V)) -> nat {
    |row: (K, V)|
        if holds(other, row.0) {
            1nat
        } else {
            0nat
        }
}

/// One for a row with the key, zero for any other row.
pub open spec fn keyed<K, V>(key: K) -> spec_fn((K, V)) -> nat {
    |row: (K, V)|
        if row.0 == key {
            1nat
        } else {
            0nat
        }
}

/// A table of distinct keys has one row with a key that it holds, and none
/// with a key that it does not hold.
pub proof fn lemma_tally_of_key<K, V>(table: Seq<(K, V)>, key: K)
    requires
        distinct_keys(table),
    ensures
        tally(table, keyed(key)) == (if holds(table, key) {
            1nat
        } else {
            0nat
        }),
    decreases table.len(),
{
    if table.len() > 0 {
        let rest = table.drop_last();
        let n = table.len() - 1;
        assert forall|i: int, j: int| 0 <= i < j < rest.len() implies (#[trigger] rest[i]).0 != (
        #[trigger] rest[j]).0 by {
            assert(table[i].0 != table[j].0);
        }
        lemma_tally_of_key(rest, key);
        lemma_holds_by_last(table, key);
        assert(table.last() == table[n]);
        if holds(rest, key) {
            let i = slot(rest, key);
            assert(table[i].0 != table[n].0);
        }
    } else {
        if holds(table, key) {
            let i = slot(table, key);
        }
    }
}

/// The tally of a weight that is the sum of two others on every row.
pub proof fn lemma_tally_adds<K, V>(
    table: Seq<(K, V)>,
    whole: spec_fn((K, V)) -> nat,
    first: spec_fn((K, V)) -> nat,
    second: spec_fn((K, V)) -> nat,
)
    requires
        forall|i: int|
            0 <= i < table.len() ==> whole(#[trigger] table[i]) == first(table[i]) + second(
                table[i],
            ),
    ensures
        tally(table, whole) == tally(table, first) + tally(table, second),
    decreases table.len(),
{
    if table.len() > 0 {
        let rest = table.drop_last();
        assert forall|i: int| 0 <= i < rest.len() implies whole(#[trigger] rest[i]) == first(
            rest[i],
        ) + second(rest[i]) by {
            assert(rest[i] == table[i]);
        }
        lemma_tally_adds(rest, whole, first, second);
        assert(table.last() == table[table.len() - 1]);
    }
}

/// Two tables of distinct keys share as many keys one way as the other.
pub proof fn lemma_shared_keys<K, V>(first: Seq<(K, V)>, second: Seq<(K, V)>)
    requires
        distinct_keys(first),
        distinct_keys(second),
    ensures
        tally(first, shared_with(second)) == tally(second, shared_with(first)),
    decreases second.len(),
{
    if second.len() == 0 {
        assert forall|i: int| 0 <= i < first.len() implies (shared_with(second))(
            #[trigger] first[i],
        ) == 0 by {
            if holds(second, first[i].0) {
                let j = slot(second, first[i].0);
            }
        }
        lemma_tally_zero(first, shared_with(second));
    } else {
        let rest = second.drop_last();
        let n = second.len() - 1;
        let key = second.last().0;
        assert(second.last() == second[n]);
        assert forall|i: int, j: int| 0 <= i < j < rest.len() implies (#[trigger] rest[i]).0 != (
        #[trigger] rest[j]).0 by {
            assert(second[i].0 != second[j].0);
        }
        lemma_shared_keys(first, rest);
        assert(!holds(rest, key)) by {
            if holds(rest, key) {
                let j = slot(rest, key);
                assert(second[j].0 != second[n].0);
            }
        }
        assert forall|i: int| 0 <= i < first.len() implies (shared_with(second))(
            #[trigger] first[i],
        ) == (shared_with(rest))(first[i]) + (keyed(key))(first[i]) by {
            lemma_holds_by_last(second, first[i].0);
        }
        lemma_tally_adds(first, shared_with(second), shared_with(rest), keyed(key));
        lemma_tally_of_key(first, key);
    }
}

/// Under distinct keys, the last write under a key is the only one.
pub proof fn lemma_last_write_of_distinct<K, V>(writes: Seq<(K, V)>, j: int)
    requires
        distinct_keys(writes),
        0 <= j < writes.len(),
    ensures
        last_write(writes, writes[j].0) == writes[j].1,
    decreases writes.len(),
{
    let n = writes.len() - 1;
    assert(writes.last() == writes[n]);
    if j < n {
        let rest = writes.drop_last();
        assert(writes[j].0 != writes[n].0);
        assert forall|a: int, b: int| 0 <= a < b < rest.len() implies (#[trigger] rest[a]).0 != (
        #[trigger] rest[b]).0 by {
            assert(writes[a].0 != writes[b].0);
        }
        assert(rest[j] == writes[j]);
        lemma_last_write_of_distinct(rest, j);
    }
}

/// Writes under distinct keys add one row for each key that the table did
/// not hold: the tally of a weight that is one on every written row and on
/// every row that a write replaces grows by the number of new keys.
pub proof fn lemma_replay_grows<K, V>(
    table: Seq<(K, V)>,
    writes: Seq<(K, V)>,
    unit: spec_fn((K, V)) -> nat,
)
    requires
        distinct_keys(table),
        distinct_keys(writes),
        forall|j: int| 0 <= j < writes.len() ==> unit(#[trigger] writes[j]) == 1,
        forall|i: int|
            0 <= i < table.len() && holds(writes, (#[trigger] table[i]).0) ==> unit(table[i]) == 1,
    ensures
        tally(replay(table, writes), unit) + tally(writes, shared_with(table)) == tally(
            table,
            unit,
        ) + writes.len(),
    decreases writes.len(),
{
    if writes.len() > 0 {
        let rest = writes.drop_last();
        let n = writes.len() - 1;
        let key = writes.last().0;
        let value = writes.last().1;
        assert(writes.last() == writes[n]);
        assert forall|a: int, b: int| 0 <= a < b < rest.len() implies (#[trigger] rest[a]).0 != (
        #[trigger] rest[b]).0 by {
            assert(writes[a].0 != writes[b].0);
        }
        assert forall|j: int| 0 <= j < rest.len() implies unit(#[trigger] rest[j]) == 1 by {
            assert(rest[j] == writes[j]);
        }
        assert forall|i: int|
            0 <= i < table.len() && holds(rest, (#[trigger] table[i]).0) implies unit(table[i])
            == 1 by {
            lemma_holds_by_last(writes, table[i].0);
        }
        lemma_replay_grows(table, rest, unit);
        let before = replay(table, rest);
        lemma_replay(table, rest);
        assert(!holds(rest, key)) by {
            if holds(rest, key) {
                let j = slot(rest, key);
                assert(writes[j].0 != writes[n].0);
            }
        }
        lemma_tally_put(before, key, value, unit);
        if holds(table, key) {
            let i = slot(table, key);
            assert(table[i].0 == key);
            assert(holds(writes, table[i].0));
            assert(value_at(before, key) == value_at(table, key));
            assert((key, value_at(table, key)) == table[i]);
        }
    }
}

/// After the writes, the keys are distinct, every written key is held with
/// the value of its last write, and every other key is as it was.
pub proof fn lemma_replay<K, V>(table: Seq<(K, V)>, writes: Seq<(K, V)>)
    requires
        distinct_keys(table),
    ensures
        distinct_keys(replay(table, writes)),
        forall|key: K|
            holds(writes, key) ==> #[trigger] holds(replay(table, writes), key) && value_at(
                replay(table, writes),
                key,
            ) == last_write(writes, key),
        forall|key: K|
            !holds(writes, key) ==> (#[trigger] holds(replay(table, writes), key) <==> holds(
                table,
                key,
            )),
        forall|key: K|
            !holds(writes, key) && holds(table, key) ==> #[trigger] value_at(
                replay(table, writes),
                key,
            ) == value_at(table, key),
    decreases writes.len(),
{
    let after = replay(table, writes);
    if writes.len() > 0 {
        let rest = writes.drop_last();
        let before = replay(table, rest);
        let k = writes.last().0;
        let v = writes.last().1;
        lemma_replay(table, rest);
        lemma_put(before, k, v);
        assert forall|key: K| holds(writes, key) implies #[trigger] holds(after, key) && value_at(
            after,
            key,
        ) == last_write(writes, key) by {
            lemma_holds_by_last(writes, key);
        }
        assert forall|key: K| !holds(writes, key) implies (#[trigger] holds(after, key) <==> holds(
            table,
            key,
        )) by {
            lemma_holds_by_last(writes, key);
        }
        assert forall|key: K| !holds(writes, key) && holds(table, key) implies #[trigger] value_at(
            after,
            key,
        ) == value_at(table, key) by {
            lemma_holds_by_last(writes, key);
        }
    } else {
        assert forall|key: K| !holds(writes, key) by {
            if holds(writes, key) {
                let i = slot(writes, key);
            }
        }
    }
}

/// `table` with the value of each written key replaced by its last write.
pub open spec fn overlay<K, V>(table: Seq<(K, V)>, writes: Seq<(K, V)>) -> Seq<(K, V)> {
    Seq::new(
        table.len(),
        |i: int|
            (
                table[i].0,
                if holds(writes, table[i].0) {
                    last_write(writes, table[i].0)
                } else {
                    table[i].1
                },
            ),
    )
}

/// Writes under keys that the table already holds change values in place.
pub proof fn lemma_replay_in_place<K, V>(table: Seq<(K, V)>, writes: Seq<(K, V)>)
    requires
        distinct_keys(table),
        forall|j: int| 0 <= j < writes.len() ==> holds(table, (#[trigger] writes[j]).0),
    ensures
        replay(table, writes) == overlay(table, writes),
    decreases writes.len(),
{
    if writes.len() == 0 {
        assert forall|key: K| !holds(writes, key) by {
            if holds(writes, key) {
                let i = slot(writes, key);
            }
        }
        assert(overlay(table, writes) =~= table);
    } else {
        let rest = writes.drop_last();
        let k = writes.last().0;
        let v = writes.last().1;
        assert forall|j: int| 0 <= j < rest.len() implies holds(table, (#[trigger] rest[j]).0) by {
            assert(rest[j] == writes[j]);
        }
        lemma_replay_in_place(table, rest);
        let before = overlay(table, rest);
        assert(writes.last() == writes[writes.len() - 1]);
        let s = slot(table, k);
        lemma_slot_of_held(table, k);
        assert forall|i: int, j: int| 0 <= i < j < before.len() implies (#[trigger] before[i]).0
            != (#[trigger] before[j]).0 by {
            assert(table[i].0 != table[j].0);
        }
        assert(before[s].0 == k);
        lemma_slot_is(before, k, s);
        let after = put(before, k, v);
        let target = overlay(table, writes);
        assert forall|i: int| 0 <= i < table.len() implies after[i] == target[i] by {
            lemma_holds_by_last(writes, table[i].0);
            if i != s {
                if table[i].0 == k {
                    if i < s {
                        assert(table[i].0 != table[s].0);
                    } else {
                        assert(table[s].0 != table[i].0);
                    }
                }
            }
        }
        assert(after =~= target);
    }
}

/// Making the same writes a second time changes nothing.
pub proof fn lemma_replay_twice<K, V>(table: Seq<(K, V)>, writes: Seq<(K, V)>)
    requires
        distinct_keys(table),
    ensures
        replay(replay(table, writes), writes) == replay(table, writes),
{
    let once = replay(table, writes);
    lemma_replay(table, writes);
    assert forall|j: int| 0 <= j < writes.len() implies holds(once, (#[trigger] writes[j]).0) by {
        assert(holds(writes, writes[j].0));
    }
    lemma_replay_in_place(once, writes);
    let twice = overlay(once, writes);
    assert forall|i: int| 0 <= i < once.len() implies twice[i] == once[i] by {
        lemma_slot_is(once, once[i].0, i);
    }
    assert(twice =~= once);
}

/// Writes under distinct keys, none of which the table holds, append their
/// rows in order.
pub proof fn lemma_replay_of_new_keys<K, V>(table: Seq<(K, V)>, writes: Seq<(K, V)>)
    requires
        distinct_keys(writes),
        forall|j: int| 0 <= j < writes.len() ==> !holds(table, (#[trigger] writes[j]).0),
    ensures
        replay(table, writes) == table + writes,
    decreases writes.len(),
{
    if writes.len() == 0 {
        assert(table + writes =~= table);
    } else {
        let rest = writes.drop_last();
        let k = writes.last().0;
        let n = writes.len() - 1;
        assert forall|i: int, j: int| 0 <= i < j < rest.len() implies (#[trigger] rest[i]).0 != (
        #[trigger] rest[j]).0 by {
            assert(writes[i].0 != writes[j].0);
        }
        assert forall|j: int| 0 <= j < rest.len() implies !holds(table, (#[trigger] rest[j]).0) by {
            assert(rest[j] == writes[j]);
        }
        lemma_replay_of_new_keys(table, rest);
        let before = table + rest;
        assert(writes.last() == writes[n]);
        if holds(before, k) {
            let i = slot(before, k);
            if i < table.len() {
                assert(table[i].0 == k);
                assert(holds(table, writes[n].0));
            } else {
                assert(rest[i - table.len()].0 == k);
                assert(writes[i - table.len()].0 != writes[n].0);
            }
        }
        assert(before.push(writes.last()) =~= table + writes);
    }
}

} // verus!
