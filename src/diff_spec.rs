//! The mathematical meaning of a model difference, over entry sequences.
use vstd::prelude::*;
use crate::ordered_map::{distinct_keys, has_key, index_of, lemma_index_of, lookup};

verus! {

/// Fields of a block: keys with the texts of their values, in order.
pub type Fields = Seq<(Seq<char>, Seq<char>)>;

/// Blocks of a model: identifiers with their fields, in order.
pub type Blocks = Seq<(Seq<char>, Fields)>;

/// Changed fields: key, old value, new value.
pub type Changes = Seq<(Seq<char>, (Seq<char>, Seq<char>))>;

/// Entries of `new` whose key `old` lacks, in the order of `new`.
pub open spec fn added<T>(old: Seq<(Seq<char>, T)>, new: Seq<(Seq<char>, T)>) -> Seq<(Seq<char>, T)>
    decreases new.len(),
{
    if new.len() == 0 {
        Seq::empty()
    } else {
        let rest = added(old, new.drop_last());
        if has_key(old, new.last().0) {
            rest
        } else {
            rest.push(new.last())
        }
    }
}

/// Entries of `new` whose key `old` holds with another value, each with the
/// old value and the new one, in the order of `new`.
pub open spec fn updated<T>(old: Seq<(Seq<char>, T)>, new: Seq<(Seq<char>, T)>) -> Seq<(Seq<char>, (T, T))>
    decreases new.len(),
{
    if new.len() == 0 {
        Seq::empty()
    } else {
        let rest = updated(old, new.drop_last());
        let e = new.last();
        if has_key(old, e.0) && lookup(old, e.0) != e.1 {
            rest.push((e.0, (lookup(old, e.0), e.1)))
        } else {
            rest
        }
    }
}

/// The difference between two field maps.
pub struct FieldsDiff {
    pub added: Fields,
    pub removed: Fields,
    pub updated: Changes,
}

pub open spec fn fields_diff(old: Fields, new: Fields) -> FieldsDiff {
    FieldsDiff { added: added(old, new), removed: added(new, old), updated: updated(old, new) }
}

pub open spec fn fields_diff_empty(d: FieldsDiff) -> bool {
    d.added.len() == 0 && d.removed.len() == 0 && d.updated.len() == 0
}

/// Blocks present on both sides whose fields differ, each with the
/// difference of its fields, in the order of `new`.
pub open spec fn updated_blocks(old: Blocks, new: Blocks) -> Seq<(Seq<char>, FieldsDiff)>
    decreases new.len(),
{
    if new.len() == 0 {
        Seq::empty()
    } else {
        let rest = updated_blocks(old, new.drop_last());
        let e = new.last();
        if has_key(old, e.0) && !fields_diff_empty(fields_diff(lookup(old, e.0), e.1)) {
            rest.push((e.0, fields_diff(lookup(old, e.0), e.1)))
        } else {
            rest
        }
    }
}

/// A model as the difference computation sees it.
pub struct ModelView {
    pub blocks: Blocks,
    pub index: Seq<(Seq<char>, Seq<String>)>,
    pub root: Fields,
}

/// The difference between two models.
pub struct DiffView {
    pub added_blocks: Blocks,
    pub removed_blocks: Blocks,
    pub updated_blocks: Seq<(Seq<char>, FieldsDiff)>,
    pub root: FieldsDiff,
}

pub open spec fn model_diff(old: ModelView, new: ModelView) -> DiffView {
    DiffView {
        added_blocks: added(old.blocks, new.blocks),
        removed_blocks: added(new.blocks, old.blocks),
        updated_blocks: updated_blocks(old.blocks, new.blocks),
        root: fields_diff(old.root, new.root),
    }
}

pub open spec fn diff_empty(d: DiffView) -> bool {
    d.added_blocks.len() == 0 && d.removed_blocks.len() == 0 && d.updated_blocks.len() == 0
        && fields_diff_empty(d.root)
}

/// Keys of `r` all occur in `s`.
pub open spec fn keys_within<T, U>(r: Seq<(Seq<char>, T)>, s: Seq<(Seq<char>, U)>) -> bool {
    forall|k: Seq<char>| has_key(r, k) ==> has_key(s, k)
}

pub proof fn lemma_prefix_step<T>(s: Seq<(Seq<char>, T)>, i: int)
    requires
        0 <= i < s.len(),
    ensures
        s.take(i + 1).drop_last() == s.take(i),
        s.take(i + 1).last() == s[i],
        s.take(i + 1).len() == i + 1,
{
    assert(s.take(i + 1).drop_last() =~= s.take(i));
}

pub proof fn lemma_push_keys<T>(r: Seq<(Seq<char>, T)>, e: (Seq<char>, T))
    ensures
        forall|k: Seq<char>| has_key(r.push(e), k) <==> (has_key(r, k) || k == e.0),
{
    let p = r.push(e);
    assert forall|k: Seq<char>| has_key(p, k) <==> (has_key(r, k) || k == e.0) by {
        if has_key(r, k) {
            let j = choose|j: int| 0 <= j < r.len() && #[trigger] r[j].0 == k;
            assert(p[j].0 == k);
        }
        if k == e.0 {
            assert(p[r.len() as int].0 == k);
        }
        if has_key(p, k) {
            let j = choose|j: int| 0 <= j < p.len() && #[trigger] p[j].0 == k;
            if j < r.len() {
                assert(r[j].0 == k);
            }
        }
    }
}

pub proof fn lemma_drop_last_keys<T>(s: Seq<(Seq<char>, T)>)
    requires
        s.len() > 0,
    ensures
        forall|k: Seq<char>| has_key(s, k) <==> (has_key(s.drop_last(), k) || k == s.last().0),
{
    lemma_push_keys(s.drop_last(), s.last());
    assert(s.drop_last().push(s.last()) =~= s);
}

pub proof fn lemma_added_keys<T>(old: Seq<(Seq<char>, T)>, new: Seq<(Seq<char>, T)>)
    ensures
        keys_within(added(old, new), new),
        forall|k: Seq<char>| has_key(added(old, new), k) ==> !has_key(old, k),
    decreases new.len(),
{
    if new.len() > 0 {
        lemma_added_keys(old, new.drop_last());
        lemma_drop_last_keys(new);
        lemma_push_keys(added(old, new.drop_last()), new.last());
    }
}

pub proof fn lemma_updated_keys<T>(old: Seq<(Seq<char>, T)>, new: Seq<(Seq<char>, T)>)
    ensures
        keys_within(updated(old, new), new),
    decreases new.len(),
{
    if new.len() > 0 {
        let e = new.last();
        lemma_updated_keys(old, new.drop_last());
        lemma_drop_last_keys(new);
        lemma_push_keys(updated(old, new.drop_last()), (e.0, (lookup(old, e.0), e.1)));
    }
}

pub proof fn lemma_updated_blocks_keys(old: Blocks, new: Blocks)
    ensures
        keys_within(updated_blocks(old, new), new),
    decreases new.len(),
{
    if new.len() > 0 {
        let e = new.last();
        lemma_updated_blocks_keys(old, new.drop_last());
        lemma_drop_last_keys(new);
        lemma_push_keys(updated_blocks(old, new.drop_last()), (e.0, fields_diff(lookup(old, e.0), e.1)));
    }
}

/// Within entries of distinct keys, the key at position `i` is not among the
/// entries before it.
pub proof fn lemma_fresh_in_prefix<T>(s: Seq<(Seq<char>, T)>, i: int)
    requires
        distinct_keys(s),
        0 <= i < s.len(),
    ensures
        !has_key(s.take(i), s[i].0),
{
    if has_key(s.take(i), s[i].0) {
        let j = choose|j: int| 0 <= j < s.take(i).len() && #[trigger] s.take(i)[j].0 == s[i].0;
        assert(s[j].0 == s[i].0);
    }
}

pub proof fn lemma_lookup_at<T>(s: Seq<(Seq<char>, T)>, i: int)
    requires
        distinct_keys(s),
        0 <= i < s.len(),
    ensures
        has_key(s, s[i].0),
        index_of(s, s[i].0) == i,
        lookup(s, s[i].0) == s[i].1,
{
    lemma_index_of(s, s[i].0);
}

} // verus!
