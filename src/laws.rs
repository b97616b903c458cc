//! Laws of the model difference.
use vstd::prelude::*;
use crate::diff_spec::{
    added, diff_empty, fields_diff, fields_diff_empty, keys_within, lemma_drop_last_keys,
    lemma_lookup_at, model_diff, updated, updated_blocks, Blocks, Changes, DiffView,
    Fields, FieldsDiff, ModelView,
};
use crate::ordered_map::{distinct_keys, has_key, index_of, insert_entry, lemma_index_of, lemma_insert_entry, lemma_lookup_insert, lookup};

verus! {

/// Keys are never repeated, in the blocks, in each block and in the root.
pub open spec fn model_wf(m: ModelView) -> bool {
    &&& distinct_keys(m.blocks)
    &&& distinct_keys(m.root)
    &&& forall|i: int| 0 <= i < m.blocks.len() ==> distinct_keys(#[trigger] m.blocks[i].1)
}

/// Two entry sequences hold the same keys with the same values, whatever
/// their order.
pub open spec fn same_entries<T>(a: Seq<(Seq<char>, T)>, b: Seq<(Seq<char>, T)>) -> bool {
    forall|k: Seq<char>|
        (#[trigger] has_key(a, k) <==> has_key(b, k)) && (has_key(a, k) ==> lookup(a, k) == lookup(b, k))
}

/// Two block sequences hold the same identifiers, and under each the same
/// fields with the same values.
pub open spec fn same_blocks(a: Blocks, b: Blocks) -> bool {
    forall|k: Seq<char>|
        (#[trigger] has_key(a, k) <==> has_key(b, k)) && (has_key(a, k) ==> same_entries(
            lookup(a, k),
            lookup(b, k),
        ))
}

proof fn lemma_added_none<T>(old: Seq<(Seq<char>, T)>, new: Seq<(Seq<char>, T)>)
    requires
        keys_within(new, old),
    ensures
        added(old, new).len() == 0,
    decreases new.len(),
{
    if new.len() > 0 {
        lemma_drop_last_keys(new);
        lemma_added_none(old, new.drop_last());
        assert(new[new.len() - 1].0 == new.last().0);
    }
}

proof fn lemma_added_empty<T>(old: Seq<(Seq<char>, T)>, new: Seq<(Seq<char>, T)>)
    requires
        added(old, new).len() == 0,
    ensures
        keys_within(new, old),
    decreases new.len(),
{
    if new.len() > 0 {
        lemma_drop_last_keys(new);
        lemma_added_empty(old, new.drop_last());
    }
}

/// `updated(old, s)` is empty when each entry of `s` is found unchanged in `old`.
proof fn lemma_updated_none<T>(old: Seq<(Seq<char>, T)>, s: Seq<(Seq<char>, T)>)
    requires
        forall|j: int| 0 <= j < s.len() && has_key(old, #[trigger] s[j].0) ==> lookup(old, s[j].0) == s[j].1,
    ensures
        updated(old, s).len() == 0,
    decreases s.len(),
{
    if s.len() > 0 {
        let t = s.drop_last();
        assert forall|j: int| 0 <= j < t.len() && has_key(old, #[trigger] t[j].0) implies lookup(old, t[j].0) == t[j].1 by {
            assert(t[j] == s[j]);
        }
        lemma_updated_none(old, t);
        assert(s.last() == s[s.len() - 1]);
    }
}

/// An empty `updated(old, s)` means each entry of `s` whose key `old` holds
/// has the same value there.
proof fn lemma_updated_empty<T>(old: Seq<(Seq<char>, T)>, s: Seq<(Seq<char>, T)>)
    requires
        updated(old, s).len() == 0,
    ensures
        forall|j: int| 0 <= j < s.len() && has_key(old, #[trigger] s[j].0) ==> lookup(old, s[j].0) == s[j].1,
    decreases s.len(),
{
    if s.len() > 0 {
        let t = s.drop_last();
        lemma_updated_empty(old, t);
        assert forall|j: int| 0 <= j < s.len() && has_key(old, #[trigger] s[j].0) implies lookup(old, s[j].0) == s[j].1 by {
            if j < t.len() {
                assert(t[j] == s[j]);
            }
        }
    }
}

proof fn lemma_fields_diff_self(a: Fields)
    requires
        distinct_keys(a),
    ensures
        fields_diff_empty(fields_diff(a, a)),
{
    lemma_added_none(a, a);
    assert forall|j: int| 0 <= j < a.len() && has_key(a, #[trigger] a[j].0) implies lookup(a, a[j].0) == a[j].1 by {
        lemma_lookup_at(a, j);
    }
    lemma_updated_none(a, a);
}

proof fn lemma_fields_diff_empty(a: Fields, b: Fields)
    requires
        distinct_keys(a),
        distinct_keys(b),
        fields_diff_empty(fields_diff(a, b)),
    ensures
        same_entries(a, b),
{
    lemma_added_empty(a, b);
    lemma_added_empty(b, a);
    lemma_updated_empty(a, b);
    assert forall|k: Seq<char>|
        (#[trigger] has_key(a, k) <==> has_key(b, k)) && (has_key(a, k) ==> lookup(a, k) == lookup(b, k)) by {
        if has_key(a, k) && has_key(b, k) {
            lemma_index_of(b, k);
            let j = index_of(b, k);
            lemma_lookup_at(b, j);
        }
    }
}

proof fn lemma_updated_blocks_none(old: Blocks, s: Blocks)
    requires
        forall|j: int| 0 <= j < s.len() && has_key(old, #[trigger] s[j].0) ==> fields_diff_empty(
            fields_diff(lookup(old, s[j].0), s[j].1),
        ),
    ensures
        updated_blocks(old, s).len() == 0,
    decreases s.len(),
{
    if s.len() > 0 {
        let t = s.drop_last();
        assert forall|j: int| 0 <= j < t.len() && has_key(old, #[trigger] t[j].0) implies fields_diff_empty(
            fields_diff(lookup(old, t[j].0), t[j].1),
        ) by {
            assert(t[j] == s[j]);
        }
        lemma_updated_blocks_none(old, t);
        assert(s.last() == s[s.len() - 1]);
    }
}

proof fn lemma_updated_blocks_empty(old: Blocks, s: Blocks)
    requires
        updated_blocks(old, s).len() == 0,
    ensures
        forall|j: int| 0 <= j < s.len() && has_key(old, #[trigger] s[j].0) ==> fields_diff_empty(
            fields_diff(lookup(old, s[j].0), s[j].1),
        ),
    decreases s.len(),
{
    if s.len() > 0 {
        let t = s.drop_last();
        lemma_updated_blocks_empty(old, t);
        assert forall|j: int| 0 <= j < s.len() && has_key(old, #[trigger] s[j].0) implies fields_diff_empty(
            fields_diff(lookup(old, s[j].0), s[j].1),
        ) by {
            if j < t.len() {
                assert(t[j] == s[j]);
            }
        }
    }
}

/// The difference of a model with itself is empty.
pub proof fn lemma_diff_self_empty(a: ModelView)
    requires
        model_wf(a),
    ensures
        diff_empty(model_diff(a, a)),
{
    lemma_added_none(a.blocks, a.blocks);
    lemma_fields_diff_self(a.root);
    assert forall|j: int| 0 <= j < a.blocks.len() && has_key(a.blocks, #[trigger] a.blocks[j].0) implies fields_diff_empty(
        fields_diff(lookup(a.blocks, a.blocks[j].0), a.blocks[j].1),
    ) by {
        lemma_lookup_at(a.blocks, j);
        lemma_fields_diff_self(a.blocks[j].1);
    }
    lemma_updated_blocks_none(a.blocks, a.blocks);
}

/// An empty difference means the two models hold the same blocks, with the
/// same fields and values, and the same root fields (order aside; the index
/// is not compared).
pub proof fn lemma_diff_empty_same(a: ModelView, b: ModelView)
    requires
        model_wf(a),
        model_wf(b),
        diff_empty(model_diff(a, b)),
    ensures
        same_blocks(a.blocks, b.blocks),
        same_entries(a.root, b.root),
{
    lemma_fields_diff_empty(a.root, b.root);
    lemma_added_empty(a.blocks, b.blocks);
    lemma_added_empty(b.blocks, a.blocks);
    lemma_updated_blocks_empty(a.blocks, b.blocks);
    assert forall|k: Seq<char>|
        (#[trigger] has_key(a.blocks, k) <==> has_key(b.blocks, k)) && (has_key(a.blocks, k) ==> same_entries(
            lookup(a.blocks, k),
            lookup(b.blocks, k),
        )) by {
        if has_key(a.blocks, k) && has_key(b.blocks, k) {
            lemma_index_of(b.blocks, k);
            lemma_index_of(a.blocks, k);
            let j = index_of(b.blocks, k);
            let i = index_of(a.blocks, k);
            lemma_lookup_at(b.blocks, j);
            lemma_fields_diff_empty(lookup(a.blocks, k), lookup(b.blocks, k));
        }
    }
}

/// `s` with each entry of `u` inserted in turn.
pub open spec fn upsert_all<T>(s: Seq<(Seq<char>, T)>, u: Seq<(Seq<char>, T)>) -> Seq<(Seq<char>, T)>
    decreases u.len(),
{
    if u.len() == 0 {
        s
    } else {
        let r = upsert_all(s, u.drop_last());
        insert_entry(r, u.last().0, u.last().1)
    }
}

/// Each value replaced by `f` of its key and value.
pub open spec fn map_entries<T, U>(s: Seq<(Seq<char>, T)>, f: spec_fn(Seq<char>, T) -> U) -> Seq<(Seq<char>, U)> {
    s.map_values(|e: (Seq<char>, T)| (e.0, f(e.0, e.1)))
}

/// The new values of changed fields.
pub open spec fn new_values(c: Changes) -> Fields {
    map_entries(c, |k: Seq<char>, v: (Seq<char>, Seq<char>)| v.1)
}

/// Field map `a` with a difference applied: added and updated fields are
/// upserted, removed fields are dropped.
pub open spec fn apply_fields(a: Fields, d: FieldsDiff) -> Fields {
    added(d.removed, upsert_all(upsert_all(a, d.added), new_values(d.updated)))
}

/// Blocks `a` with a difference applied: added blocks and updated blocks
/// (with their field differences applied) are upserted, removed blocks dropped.
pub open spec fn apply_blocks(a: Blocks, d: DiffView) -> Blocks {
    added(
        d.removed_blocks,
        upsert_all(
            upsert_all(a, d.added_blocks),
            map_entries(d.updated_blocks, |k: Seq<char>, fd: FieldsDiff| apply_fields(lookup(a, k), fd)),
        ),
    )
}

pub open spec fn apply_diff(a: ModelView, d: DiffView) -> ModelView {
    ModelView { blocks: apply_blocks(a.blocks, d), index: a.index, root: apply_fields(a.root, d.root) }
}

proof fn lemma_push_lookup<T>(s: Seq<(Seq<char>, T)>, e: (Seq<char>, T), k: Seq<char>)
    ensures
        k == e.0 ==> index_of(s.push(e), k) == s.len(),
        k != e.0 ==> index_of(s.push(e), k) == index_of(s, k),
        k != e.0 && has_key(s, k) ==> lookup(s.push(e), k) == lookup(s, k),
{
    assert(s.push(e).drop_last() =~= s);
    lemma_index_of(s, k);
}

/// Keys, values and distinctness of `added(old, new)`.
proof fn lemma_added_lookup<T>(old: Seq<(Seq<char>, T)>, new: Seq<(Seq<char>, T)>)
    requires
        distinct_keys(new),
    ensures
        distinct_keys(added(old, new)),
        forall|k: Seq<char>| #[trigger] has_key(added(old, new), k) <==> (has_key(new, k) && !has_key(old, k)),
        forall|k: Seq<char>| #[trigger] has_key(added(old, new), k) ==> lookup(added(old, new), k) == lookup(new, k),
    decreases new.len(),
{
    if new.len() > 0 {
        let t = new.drop_last();
        let e = new.last();
        let rest = added(old, t);
        assert(distinct_keys(t)) by {
            assert forall|i: int, j: int| 0 <= i < t.len() && 0 <= j < t.len() && i != j implies #[trigger] t[i].0 != #[trigger] t[j].0 by {
                assert(t[i] == new[i] && t[j] == new[j]);
            }
        }
        lemma_added_lookup(old, t);
        lemma_drop_last_keys(new);
        assert(!has_key(t, e.0)) by {
            if has_key(t, e.0) {
                let i = choose|i: int| 0 <= i < t.len() && #[trigger] t[i].0 == e.0;
                assert(new[i].0 == new[new.len() - 1].0);
            }
        }
        lemma_lookup_at(new, new.len() - 1);
        assert forall|k: Seq<char>| k != e.0 && has_key(t, k) implies lookup(new, k) == lookup(t, k) by {
            assert(new == t.push(e));
            lemma_push_lookup(t, e, k);
        }
        assert forall|k: Seq<char>| #[trigger] has_key(added(old, new), k) <==> (has_key(new, k) && !has_key(old, k)) by {
            crate::diff_spec::lemma_push_keys(rest, e);
            assert(has_key(new, k) == (has_key(t, k) || k == e.0));
            assert(has_key(rest, k) == (has_key(t, k) && !has_key(old, k)));
            if has_key(old, e.0) {
                assert(added(old, new) == rest);
            } else {
                assert(added(old, new) == rest.push(e));
                assert(has_key(rest.push(e), k) == (has_key(rest, k) || k == e.0));
            }
        }
        if !has_key(old, e.0) {
            assert(added(old, new) == rest.push(e));
            crate::diff_spec::lemma_push_keys(rest, e);
            assert forall|k: Seq<char>| #[trigger] has_key(added(old, new), k) implies lookup(added(old, new), k) == lookup(new, k) by {
                lemma_push_lookup(rest, e, k);
            }
            assert forall|i: int, j: int|
                0 <= i < rest.push(e).len() && 0 <= j < rest.push(e).len() && i != j implies #[trigger] rest.push(e)[i].0
                    != #[trigger] rest.push(e)[j].0 by {
                if i < rest.len() && j < rest.len() {
                } else if i < rest.len() {
                    assert(has_key(rest, rest[i].0));
                } else if j < rest.len() {
                    assert(has_key(rest, rest[j].0));
                }
            }
        }
    }
}

/// Keys, values and distinctness of `updated(old, new)`.
proof fn lemma_updated_lookup<T>(old: Seq<(Seq<char>, T)>, new: Seq<(Seq<char>, T)>)
    requires
        distinct_keys(new),
    ensures
        distinct_keys(updated(old, new)),
        forall|k: Seq<char>| #[trigger] has_key(updated(old, new), k) <==> (has_key(new, k) && has_key(old, k)
            && lookup(old, k) != lookup(new, k)),
        forall|k: Seq<char>| #[trigger] has_key(updated(old, new), k) ==> lookup(updated(old, new), k) == (
            lookup(old, k),
            lookup(new, k),
        ),
    decreases new.len(),
{
    if new.len() > 0 {
        let t = new.drop_last();
        let e = new.last();
        let rest = updated(old, t);
        let pe = (e.0, (lookup(old, e.0), e.1));
        assert(distinct_keys(t)) by {
            assert forall|i: int, j: int| 0 <= i < t.len() && 0 <= j < t.len() && i != j implies #[trigger] t[i].0 != #[trigger] t[j].0 by {
                assert(t[i] == new[i] && t[j] == new[j]);
            }
        }
        lemma_updated_lookup(old, t);
        lemma_drop_last_keys(new);
        assert(!has_key(t, e.0)) by {
            if has_key(t, e.0) {
                let i = choose|i: int| 0 <= i < t.len() && #[trigger] t[i].0 == e.0;
                assert(new[i].0 == new[new.len() - 1].0);
            }
        }
        lemma_lookup_at(new, new.len() - 1);
        assert forall|k: Seq<char>| k != e.0 && has_key(t, k) implies lookup(new, k) == lookup(t, k) by {
            assert(new == t.push(e));
            lemma_push_lookup(t, e, k);
        }
        assert forall|k: Seq<char>| #[trigger] has_key(updated(old, new), k) <==> (has_key(new, k) && has_key(old, k)
            && lookup(old, k) != lookup(new, k)) by {
            crate::diff_spec::lemma_push_keys(rest, pe);
            assert(has_key(new, k) == (has_key(t, k) || k == e.0));
            assert(has_key(rest, k) == (has_key(t, k) && has_key(old, k) && lookup(old, k) != lookup(t, k)));
            if k != e.0 && has_key(t, k) {
                assert(lookup(new, k) == lookup(t, k));
            }
            if has_key(old, e.0) && lookup(old, e.0) != e.1 {
                assert(updated(old, new) == rest.push(pe));
                assert(has_key(rest.push(pe), k) == (has_key(rest, k) || k == e.0));
            } else {
                assert(updated(old, new) == rest);
            }
        }
        if has_key(old, e.0) && lookup(old, e.0) != e.1 {
            assert(updated(old, new) == rest.push(pe));
            crate::diff_spec::lemma_push_keys(rest, pe);
            assert forall|k: Seq<char>| #[trigger] has_key(updated(old, new), k) implies lookup(updated(old, new), k) == (
                lookup(old, k),
                lookup(new, k),
            ) by {
                lemma_push_lookup(rest, pe, k);
            }
            assert forall|i: int, j: int|
                0 <= i < rest.push(pe).len() && 0 <= j < rest.push(pe).len() && i != j implies #[trigger] rest.push(pe)[i].0
                    != #[trigger] rest.push(pe)[j].0 by {
                if i < rest.len() && j < rest.len() {
                } else if i < rest.len() {
                    assert(has_key(rest, rest[i].0));
                } else if j < rest.len() {
                    assert(has_key(rest, rest[j].0));
                }
            }
        }
    }
}

proof fn lemma_prefix_distinct<T>(s: Seq<(Seq<char>, T)>)
    requires
        distinct_keys(s),
        s.len() > 0,
    ensures
        distinct_keys(s.drop_last()),
        !has_key(s.drop_last(), s.last().0),
{
    let t = s.drop_last();
    assert forall|i: int, j: int| 0 <= i < t.len() && 0 <= j < t.len() && i != j implies #[trigger] t[i].0 != #[trigger] t[j].0 by {
        assert(t[i] == s[i] && t[j] == s[j]);
    }
    if has_key(t, s.last().0) {
        let i = choose|i: int| 0 <= i < t.len() && #[trigger] t[i].0 == s.last().0;
        assert(s[i].0 == s[s.len() - 1].0);
    }
}

/// Keys, values and distinctness after a run of insertions.
proof fn lemma_upsert_all<T>(s: Seq<(Seq<char>, T)>, u: Seq<(Seq<char>, T)>)
    requires
        distinct_keys(s),
        distinct_keys(u),
    ensures
        distinct_keys(upsert_all(s, u)),
        forall|k: Seq<char>| #[trigger] has_key(upsert_all(s, u), k) <==> (has_key(s, k) || has_key(u, k)),
        forall|k: Seq<char>| #[trigger] has_key(upsert_all(s, u), k) ==> lookup(upsert_all(s, u), k) == (if has_key(u, k) {
            lookup(u, k)
        } else {
            lookup(s, k)
        }),
    decreases u.len(),
{
    if u.len() > 0 {
        let t = u.drop_last();
        let e = u.last();
        lemma_prefix_distinct(u);
        lemma_upsert_all(s, t);
        let r = upsert_all(s, t);
        lemma_insert_entry(r, e.0, e.1);
        lemma_drop_last_keys(u);
        lemma_lookup_at(u, u.len() - 1);
        assert forall|k: Seq<char>| #[trigger] has_key(upsert_all(s, u), k) <==> (has_key(s, k) || has_key(u, k)) by {
            lemma_lookup_insert(r, e.0, e.1, k);
            assert(has_key(u, k) == (has_key(t, k) || k == e.0));
        }
        assert forall|k: Seq<char>| #[trigger] has_key(upsert_all(s, u), k) implies lookup(upsert_all(s, u), k) == (if has_key(u, k) {
            lookup(u, k)
        } else {
            lookup(s, k)
        }) by {
            lemma_lookup_insert(r, e.0, e.1, k);
            assert(has_key(u, k) == (has_key(t, k) || k == e.0));
            assert(u == t.push(e));
            lemma_push_lookup(t, e, k);
        }
    }
}

/// Keys, values and distinctness after a change of values.
proof fn lemma_map_entries<T, U>(s: Seq<(Seq<char>, T)>, f: spec_fn(Seq<char>, T) -> U)
    requires
        distinct_keys(s),
    ensures
        distinct_keys(map_entries(s, f)),
        forall|k: Seq<char>| #[trigger] has_key(map_entries(s, f), k) <==> has_key(s, k),
        forall|k: Seq<char>| #[trigger] has_key(map_entries(s, f), k) ==> lookup(map_entries(s, f), k) == f(k, lookup(s, k)),
    decreases s.len(),
{
    let m = map_entries(s, f);
    assert forall|i: int, j: int| 0 <= i < m.len() && 0 <= j < m.len() && i != j implies #[trigger] m[i].0 != #[trigger] m[j].0 by {
        assert(m[i].0 == s[i].0 && m[j].0 == s[j].0);
    }
    assert forall|k: Seq<char>| #[trigger] has_key(m, k) <==> has_key(s, k) by {
        if has_key(s, k) {
            let i = choose|i: int| 0 <= i < s.len() && #[trigger] s[i].0 == k;
            assert(m[i].0 == k);
        }
        if has_key(m, k) {
            let i = choose|i: int| 0 <= i < m.len() && #[trigger] m[i].0 == k;
            assert(s[i].0 == k);
        }
    }
    assert forall|k: Seq<char>| #[trigger] has_key(m, k) implies lookup(m, k) == f(k, lookup(s, k)) by {
        lemma_index_of(s, k);
        let i = index_of(s, k);
        lemma_lookup_at(m, i);
        assert(m[i].0 == k);
    }
}

/// Keys, values and distinctness of `updated_blocks(old, new)`.
proof fn lemma_updated_blocks_lookup(old: Blocks, new: Blocks)
    requires
        distinct_keys(new),
    ensures
        distinct_keys(updated_blocks(old, new)),
        forall|k: Seq<char>| #[trigger] has_key(updated_blocks(old, new), k) <==> (has_key(new, k) && has_key(old, k)
            && !fields_diff_empty(fields_diff(lookup(old, k), lookup(new, k)))),
        forall|k: Seq<char>| #[trigger] has_key(updated_blocks(old, new), k) ==> lookup(updated_blocks(old, new), k)
            == fields_diff(lookup(old, k), lookup(new, k)),
    decreases new.len(),
{
    if new.len() > 0 {
        let t = new.drop_last();
        let e = new.last();
        let rest = updated_blocks(old, t);
        let pe = (e.0, fields_diff(lookup(old, e.0), e.1));
        lemma_prefix_distinct(new);
        lemma_updated_blocks_lookup(old, t);
        lemma_drop_last_keys(new);
        lemma_lookup_at(new, new.len() - 1);
        assert forall|k: Seq<char>| k != e.0 && has_key(t, k) implies lookup(new, k) == lookup(t, k) by {
            assert(new == t.push(e));
            lemma_push_lookup(t, e, k);
        }
        assert forall|k: Seq<char>| #[trigger] has_key(updated_blocks(old, new), k) <==> (has_key(new, k) && has_key(old, k)
            && !fields_diff_empty(fields_diff(lookup(old, k), lookup(new, k)))) by {
            crate::diff_spec::lemma_push_keys(rest, pe);
            assert(has_key(new, k) == (has_key(t, k) || k == e.0));
            if k != e.0 && has_key(t, k) {
                assert(lookup(new, k) == lookup(t, k));
            }
            if has_key(old, e.0) && !fields_diff_empty(fields_diff(lookup(old, e.0), e.1)) {
                assert(updated_blocks(old, new) == rest.push(pe));
                let p = rest.push(pe);
                if has_key(p, k) {
                    let i = choose|i: int| 0 <= i < p.len() && #[trigger] p[i].0 == k;
                    if i < rest.len() {
                        assert(rest[i].0 == k);
                    } else {
                        assert(p[i] == pe);
                    }
                }
                assert(p[rest.len() as int] == pe);
                if has_key(rest, k) {
                    let i = choose|i: int| 0 <= i < rest.len() && #[trigger] rest[i].0 == k;
                    assert(p[i].0 == k);
                }
                assert(has_key(p, k) == (has_key(rest, k) || k == e.0));
            } else {
                assert(updated_blocks(old, new) == rest);
            }
        }
        if has_key(old, e.0) && !fields_diff_empty(fields_diff(lookup(old, e.0), e.1)) {
            assert(updated_blocks(old, new) == rest.push(pe));
            crate::diff_spec::lemma_push_keys(rest, pe);
            assert forall|k: Seq<char>| #[trigger] has_key(updated_blocks(old, new), k) implies lookup(updated_blocks(old, new), k)
                == fields_diff(lookup(old, k), lookup(new, k)) by {
                lemma_push_lookup(rest, pe, k);
            }
            assert forall|i: int, j: int|
                0 <= i < rest.push(pe).len() && 0 <= j < rest.push(pe).len() && i != j implies #[trigger] rest.push(pe)[i].0
                    != #[trigger] rest.push(pe)[j].0 by {
                if i < rest.len() && j < rest.len() {
                } else if i < rest.len() {
                    assert(has_key(rest, rest[i].0));
                } else if j < rest.len() {
                    assert(has_key(rest, rest[j].0));
                }
            }
        }
    }
}

/// Applying the difference from `a` to `b` to the fields `a` gives the
/// fields of `b`.
pub proof fn lemma_apply_fields(a: Fields, b: Fields)
    requires
        distinct_keys(a),
        distinct_keys(b),
    ensures
        same_entries(apply_fields(a, fields_diff(a, b)), b),
        distinct_keys(apply_fields(a, fields_diff(a, b))),
{
    let d = fields_diff(a, b);
    lemma_added_lookup(a, b);
    lemma_added_lookup(b, a);
    lemma_updated_lookup(a, b);
    let nv = new_values(d.updated);
    lemma_map_entries(d.updated, |k: Seq<char>, v: (Seq<char>, Seq<char>)| v.1);
    let u1 = upsert_all(a, d.added);
    lemma_upsert_all(a, d.added);
    let u2 = upsert_all(u1, nv);
    lemma_upsert_all(u1, nv);
    lemma_added_lookup(d.removed, u2);
    let r = apply_fields(a, d);
    assert forall|k: Seq<char>| (#[trigger] has_key(r, k) <==> has_key(b, k)) && (has_key(r, k) ==> lookup(r, k) == lookup(b, k)) by {
        if has_key(a, k) && has_key(b, k) {
            lemma_index_of(a, k);
        }
    }
}

/// Applying the difference from model `a` to model `b` to `a` gives the
/// blocks and root fields of `b` (order aside).
pub proof fn lemma_apply_diff(a: ModelView, b: ModelView)
    requires
        model_wf(a),
        model_wf(b),
    ensures
        same_blocks(apply_diff(a, model_diff(a, b)).blocks, b.blocks),
        same_entries(apply_diff(a, model_diff(a, b)).root, b.root),
{
    lemma_apply_fields(a.root, b.root);
    let d = model_diff(a, b);
    lemma_added_lookup(a.blocks, b.blocks);
    lemma_added_lookup(b.blocks, a.blocks);
    lemma_updated_blocks_lookup(a.blocks, b.blocks);
    let f = |k: Seq<char>, fd: FieldsDiff| apply_fields(lookup(a.blocks, k), fd);
    let pv = map_entries(d.updated_blocks, f);
    lemma_map_entries(d.updated_blocks, f);
    let u1 = upsert_all(a.blocks, d.added_blocks);
    lemma_upsert_all(a.blocks, d.added_blocks);
    let u2 = upsert_all(u1, pv);
    lemma_upsert_all(u1, pv);
    lemma_added_lookup(d.removed_blocks, u2);
    let r = apply_blocks(a.blocks, d);
    assert forall|k: Seq<char>| (#[trigger] has_key(r, k) <==> has_key(b.blocks, k)) && (has_key(r, k) ==> same_entries(
        lookup(r, k),
        lookup(b.blocks, k),
    )) by {
        if has_key(b.blocks, k) {
            lemma_index_of(b.blocks, k);
            lemma_index_of(a.blocks, k);
            let fb = lookup(b.blocks, k);
            assert(distinct_keys(fb));
            if has_key(a.blocks, k) {
                let fa = lookup(a.blocks, k);
                assert(distinct_keys(fa));
                if fields_diff_empty(fields_diff(fa, fb)) {
                    lemma_fields_diff_empty(fa, fb);
                } else {
                    lemma_apply_fields(fa, fb);
                }
            }
        }
    }
}

} // verus!
