//! The model representation shared by all nodes, and the difference between
//! two models.
use vstd::prelude::*;
use crate::diff_spec::{
    added, diff_empty, fields_diff, lemma_added_keys, lemma_fresh_in_prefix, lemma_prefix_step,
    lemma_updated_blocks_keys, lemma_updated_keys, model_diff, updated, updated_blocks, DiffView,
    Blocks, Fields, FieldsDiff, ModelView,
};
use crate::ordered_map::{distinct_keys, has_key, ExactView, OrderedMap, lookup};
use crate::value::Value;
use vstd::string::*;

verus! {

/// A keyed record of a model: field names with their values, in order.
pub type Block = OrderedMap<Value>;

#[derive(Debug)]
pub enum ModelError {
    /// The named block type is not in the index, or its expansion does not end.
    BlockTypeNotFound(String),
    /// No block has the given identifier, or none matches the criteria.
    BlockNotFound(String),
    /// A model file could not be read or written.
    FileError(String),
}

/// A model: root fields, blocks by identifier, and an index from type names to
/// block identifiers or further type names.
pub struct Model {
    pub blocks: OrderedMap<Block>,
    pub index: OrderedMap<Vec<String>>,
    pub root: Block,
}

impl View for Model {
    type V = ModelView;

    open spec fn view(&self) -> ModelView {
        ModelView { blocks: self.blocks@, index: self.index@, root: self.root@ }
    }
}

/// A field whose value changed.
#[derive(Debug)]
pub struct ValueDiff {
    pub old_value: Value,
    pub new_value: Value,
}

impl View for ValueDiff {
    type V = (Seq<char>, Seq<char>);

    open spec fn view(&self) -> (Seq<char>, Seq<char>) {
        (self.old_value@, self.new_value@)
    }
}

/// The difference between the fields of two blocks (or two roots).
pub struct BlockDiff {
    pub added_fields: Block,
    pub removed_fields: Block,
    pub updated_fields: OrderedMap<ValueDiff>,
}

impl View for BlockDiff {
    type V = FieldsDiff;

    open spec fn view(&self) -> FieldsDiff {
        FieldsDiff {
            added: self.added_fields@,
            removed: self.removed_fields@,
            updated: self.updated_fields@,
        }
    }
}

/// The difference between two models.
pub struct ModelDiff {
    pub added_blocks: OrderedMap<Block>,
    pub removed_blocks: OrderedMap<Block>,
    pub updated_blocks: OrderedMap<BlockDiff>,
    pub root: BlockDiff,
}

impl View for ModelDiff {
    type V = DiffView;

    open spec fn view(&self) -> DiffView {
        DiffView {
            added_blocks: self.added_blocks@,
            removed_blocks: self.removed_blocks@,
            updated_blocks: self.updated_blocks@,
            root: self.root@,
        }
    }
}

impl ExactView for ValueDiff {
    fn view_eq(&self, other: &Self) -> (r: bool) {
        self.old_value.view_eq(&other.old_value) && self.new_value.view_eq(&other.new_value)
    }

    fn copy_exact(&self) -> (r: Self) {
        ValueDiff { old_value: self.old_value.copy_exact(), new_value: self.new_value.copy_exact() }
    }
}

impl ExactView for BlockDiff {
    fn view_eq(&self, other: &Self) -> (r: bool) {
        self.added_fields.view_eq(&other.added_fields) && self.removed_fields.view_eq(
            &other.removed_fields,
        ) && self.updated_fields.view_eq(&other.updated_fields)
    }

    fn copy_exact(&self) -> (r: Self) {
        BlockDiff {
            added_fields: self.added_fields.copy_exact(),
            removed_fields: self.removed_fields.copy_exact(),
            updated_fields: self.updated_fields.copy_exact(),
        }
    }
}

impl PartialEq for ValueDiff {
    fn eq(&self, other: &Self) -> (r: bool) {
        self.view_eq(other)
    }
}

impl vstd::std_specs::cmp::PartialEqSpecImpl for ValueDiff {
    open spec fn obeys_eq_spec() -> bool {
        true
    }

    open spec fn eq_spec(&self, other: &Self) -> bool {
        self@ == other@
    }
}

impl PartialEq for BlockDiff {
    fn eq(&self, other: &Self) -> (r: bool) {
        self.view_eq(other)
    }
}

impl vstd::std_specs::cmp::PartialEqSpecImpl for BlockDiff {
    open spec fn obeys_eq_spec() -> bool {
        true
    }

    open spec fn eq_spec(&self, other: &Self) -> bool {
        self@ == other@
    }
}

impl PartialEq for ModelDiff {
    fn eq(&self, other: &Self) -> (r: bool) {
        self.added_blocks.view_eq(&other.added_blocks) && self.removed_blocks.view_eq(
            &other.removed_blocks,
        ) && self.updated_blocks.view_eq(&other.updated_blocks) && self.root.view_eq(
            &other.root,
        )
    }
}

impl vstd::std_specs::cmp::PartialEqSpecImpl for ModelDiff {
    open spec fn obeys_eq_spec() -> bool {
        true
    }

    open spec fn eq_spec(&self, other: &Self) -> bool {
        self@ == other@
    }
}

fn copy_strings(v: &Vec<String>) -> (r: Vec<String>)
    ensures
        r@ == v@,
{
    let mut r: Vec<String> = Vec::new();
    let mut i: usize = 0;
    while i < v.len()
        invariant
            i <= v@.len(),
            r@ == v@.take(i as int),
        decreases v@.len() - i,
    {
        r.push(v[i].clone());
        assert(r@ =~= v@.take(i + 1));
        i = i + 1;
    }
    assert(v@.take(v@.len() as int) =~= v@);
    r
}

fn copy_index(index: &OrderedMap<Vec<String>>) -> (r: OrderedMap<Vec<String>>)
    ensures
        r@ == index@,
{
    let n = index.len();
    let mut r = OrderedMap::new();
    let mut i: usize = 0;
    while i < n
        invariant
            n == index@.len(),
            distinct_keys(index@),
            i <= n,
            r@ == index@.take(i as int),
        decreases n - i,
    {
        let (k, v) = index.get_index(i);
        proof {
            crate::diff_spec::lemma_fresh_in_prefix(index@, i as int);
        }
        r.insert(k.clone(), copy_strings(v));
        assert(r@ =~= index@.take(i + 1));
        i = i + 1;
    }
    assert(index@.take(n as int) =~= index@);
    r
}

impl Clone for Model {
    fn clone(&self) -> (r: Self)
        ensures
            r@ == self@,
    {
        Model { blocks: self.blocks.copy_exact(), index: copy_index(&self.index), root: self.root.copy_exact() }
    }
}

impl ModelDiff {
    /// True when the two models compared had the same blocks and root.
    pub fn is_empty(&self) -> (r: bool)
        ensures
            r == diff_empty(self@),
    {
        self.added_blocks.is_empty() && self.removed_blocks.is_empty()
            && self.updated_blocks.is_empty() && self.root.added_fields.is_empty()
            && self.root.removed_fields.is_empty() && self.root.updated_fields.is_empty()
    }
}

/// Entries of `new` whose key `old` lacks, in the order of `new`.
fn added_entries<V: ExactView>(old: &OrderedMap<V>, new: &OrderedMap<V>) -> (r: OrderedMap<V>)
    ensures
        r@ == added(old@, new@),
{
    let n = new.len();
    let mut r = OrderedMap::new();
    let mut i: usize = 0;
    while i < n
        invariant
            n == new@.len(),
            distinct_keys(new@),
            i <= n,
            r@ == added(old@, new@.take(i as int)),
        decreases n - i,
    {
        let (k, v) = new.get_index(i);
        proof {
            lemma_prefix_step(new@, i as int);
        }
        if !old.contains_key(k) {
            proof {
                lemma_added_keys(old@, new@.take(i as int));
                lemma_fresh_in_prefix(new@, i as int);
            }
            r.insert(k.clone(), v.copy_exact());
        }
        i = i + 1;
    }
    assert(new@.take(n as int) =~= new@);
    r
}

/// Fields present on both sides whose values differ.
fn updated_fields(old: &Block, new: &Block) -> (r: OrderedMap<ValueDiff>)
    ensures
        r@ == updated(old@, new@),
{
    let n = new.len();
    let mut r = OrderedMap::new();
    let mut i: usize = 0;
    while i < n
        invariant
            n == new@.len(),
            distinct_keys(new@),
            i <= n,
            r@ == updated(old@, new@.take(i as int)),
        decreases n - i,
    {
        let (k, v) = new.get_index(i);
        proof {
            lemma_prefix_step(new@, i as int);
        }
        match old.get(k) {
            Some(ov) => {
                if !ov.view_eq(v) {
                    proof {
                        lemma_updated_keys(old@, new@.take(i as int));
                        lemma_fresh_in_prefix(new@, i as int);
                    }
                    r.insert(k.clone(), ValueDiff { old_value: ov.clone(), new_value: v.clone() });
                }
            },
            None => {},
        }
        i = i + 1;
    }
    assert(new@.take(n as int) =~= new@);
    r
}

/// The difference between two field maps.
fn fields_difference(old: &Block, new: &Block) -> (r: BlockDiff)
    ensures
        r@ == fields_diff(old@, new@),
{
    BlockDiff {
        added_fields: added_entries(old, new),
        removed_fields: added_entries(new, old),
        updated_fields: updated_fields(old, new),
    }
}

/// Blocks present on both sides whose fields differ.
fn updated_block_entries(old: &OrderedMap<Block>, new: &OrderedMap<Block>) -> (r: OrderedMap<
    BlockDiff,
>)
    ensures
        r@ == updated_blocks(old@, new@),
{
    let n = new.len();
    let mut r = OrderedMap::new();
    let mut i: usize = 0;
    while i < n
        invariant
            n == new@.len(),
            distinct_keys(new@),
            i <= n,
            r@ == updated_blocks(old@, new@.take(i as int)),
        decreases n - i,
    {
        let (k, v) = new.get_index(i);
        proof {
            lemma_prefix_step(new@, i as int);
        }
        match old.get(k) {
            Some(ob) => {
                let d = fields_difference(ob, v);
                if !(d.added_fields.is_empty() && d.removed_fields.is_empty()
                    && d.updated_fields.is_empty()) {
                    proof {
                        lemma_updated_blocks_keys(old@, new@.take(i as int));
                        lemma_fresh_in_prefix(new@, i as int);
                    }
                    r.insert(k.clone(), d);
                }
            },
            None => {},
        }
        i = i + 1;
    }
    assert(new@.take(n as int) =~= new@);
    r
}

/// Whether block `b` has every field of `criteria` with the same value.
fn block_meets(b: &Block, criteria: &Block) -> (r: bool)
    ensures
        r == meets(b@, criteria@),
{
    let m = criteria.len();
    let mut k: usize = 0;
    while k < m
        invariant
            m == criteria@.len(),
            k <= m,
            forall|j: int| 0 <= j < k ==> has_key(b@, #[trigger] criteria@[j].0) && lookup(b@, criteria@[j].0) == criteria@[j].1,
        decreases m - k,
    {
        let (ck, cv) = criteria.get_index(k);
        match b.get(ck) {
            Some(v) => {
                if !v.view_eq(cv) {
                    return false;
                }
            },
            None => {
                return false;
            },
        }
        k = k + 1;
    }
    true
}

impl Model {
    pub fn new() -> (r: Model)
        ensures
            r@.blocks.len() == 0,
            r@.index.len() == 0,
            r@.root.len() == 0,
    {
        Model { blocks: OrderedMap::new(), index: OrderedMap::new(), root: OrderedMap::new() }
    }

    /// The difference from this model to `new`: blocks added, removed and
    /// updated, and the change of the root fields. The index is not compared.
    pub fn diff(&self, new: &Model) -> (r: ModelDiff)
        ensures
            r@ == model_diff(self@, new@),
    {
        ModelDiff {
            added_blocks: added_entries(&self.blocks, &new.blocks),
            removed_blocks: added_entries(&new.blocks, &self.blocks),
            updated_blocks: updated_block_entries(&self.blocks, &new.blocks),
            root: fields_difference(&self.root, &new.root),
        }
    }
}

/// The identifiers of blocks of type `t`, found by expanding the index:
/// an entry names a block or a further type. Types nested deeper than
/// `depth` count as not found; `None` when a type is missing.
pub open spec fn ids_of_type(m: ModelView, t: Seq<char>, depth: nat) -> Option<Seq<Seq<char>>>
    decreases depth, 0nat,
{
    if depth == 0 || !has_key(m.index, t) {
        None
    } else {
        expand_entries(m, lookup(m.index, t), (depth - 1) as nat)
    }
}

/// The identifiers that a list of index entries expands to, in order.
pub open spec fn expand_entries(m: ModelView, entries: Seq<String>, depth: nat) -> Option<Seq<Seq<char>>>
    decreases depth, entries.len() + 1,
{
    if entries.len() == 0 {
        Some(Seq::empty())
    } else {
        let id = entries.last()@;
        match expand_entries(m, entries.drop_last(), depth) {
            None => None,
            Some(prev) => if has_key(m.blocks, id) {
                Some(prev.push(id))
            } else {
                match ids_of_type(m, id, depth) {
                    None => None,
                    Some(more) => Some(prev + more),
                }
            },
        }
    }
}

/// Blocks whose field `key` holds `value`, in block order.
pub open spec fn blocks_where(blocks: Blocks, key: Seq<char>, value: Seq<char>) -> Seq<Fields>
    decreases blocks.len(),
{
    if blocks.len() == 0 {
        Seq::empty()
    } else {
        let rest = blocks_where(blocks.drop_last(), key, value);
        let b = blocks.last().1;
        if has_key(b, key) && lookup(b, key) == value {
            rest.push(b)
        } else {
            rest
        }
    }
}

/// Every criterion is a field of `b` with the same value.
pub open spec fn meets(b: Fields, criteria: Fields) -> bool {
    forall|j: int| 0 <= j < criteria.len() ==> has_key(b, #[trigger] criteria[j].0) && lookup(b, criteria[j].0) == criteria[j].1
}

pub open spec fn strings_of(v: Seq<String>) -> Seq<Seq<char>> {
    v.map_values(|s: String| s@)
}

impl Model {
    /// The block with identifier `block_id`.
    pub fn block_by_id(&self, block_id: &str) -> (r: Result<&Block, ModelError>)
        ensures
            has_key(self@.blocks, block_id@) ==> (r matches Ok(b) && b@ == lookup(self@.blocks, block_id@)),
            !has_key(self@.blocks, block_id@) ==> (r matches Err(ModelError::BlockNotFound(s)) && s@ == block_id@),
    {
        match self.blocks.get(block_id) {
            Some(b) => Ok(b),
            None => Err(ModelError::BlockNotFound(String::from_str(block_id))),
        }
    }

    /// The block with identifier `block_id`, to change in place.
    pub fn block_by_id_mut(&mut self, block_id: &str) -> (r: Result<&mut Block, ModelError>)
        ensures
            has_key(old(self)@.blocks, block_id@) ==> (r matches Ok(b) && b@ == lookup(old(self)@.blocks, block_id@)
                && final(self)@ == (ModelView {
                blocks: old(self)@.blocks.update(
                    crate::ordered_map::index_of(old(self)@.blocks, block_id@),
                    (block_id@, final(b)@),
                ),
                ..old(self)@
            })),
            !has_key(old(self)@.blocks, block_id@) ==> (r matches Err(ModelError::BlockNotFound(s)) && s@ == block_id@
                && final(self)@ == old(self)@),
    {
        match self.blocks.get_mut(block_id) {
            Some(b) => Ok(b),
            None => Err(ModelError::BlockNotFound(String::from_str(block_id))),
        }
    }

    /// Blocks whose field `block_key` equals `block_value`, in block order.
    pub fn filter_blocks(&self, block_key: &str, block_value: &Value) -> (r: Result<Vec<&Block>, ModelError>)
        ensures
            r matches Ok(v) && v@.map_values(|b: &Block| b@) == blocks_where(self@.blocks, block_key@, block_value@),
    {
        let n = self.blocks.len();
        let mut out: Vec<&Block> = Vec::new();
        let mut i: usize = 0;
        while i < n
            invariant
                n == self@.blocks.len(),
                i <= n,
                out@.map_values(|b: &Block| b@) == blocks_where(self@.blocks.take(i as int), block_key@, block_value@),
            decreases n - i,
        {
            let (_, b) = self.blocks.get_index(i);
            proof {
                lemma_prefix_step(self@.blocks, i as int);
            }
            match b.get(block_key) {
                Some(v) => {
                    if v.view_eq(block_value) {
                        let ghost before = out@;
                        out.push(b);
                        assert(out@.map_values(|b: &Block| b@) =~= before.map_values(|b: &Block| b@).push(b@));
                    }
                },
                None => {},
            }
            i = i + 1;
        }
        assert(self@.blocks.take(n as int) =~= self@.blocks);
        Ok(out)
    }

    /// The first block, in block order, that has every field of `criteria`
    /// with the same value.
    pub fn get_first_block_where(&self, criteria: &Block) -> (r: Result<&Block, ModelError>)
        ensures
            match r {
                Ok(b) => exists|i: int|
                    0 <= i < self@.blocks.len() && b@ == #[trigger] self@.blocks[i].1 && meets(b@, criteria@) && forall|j: int|
                        0 <= j < i ==> !meets(#[trigger] self@.blocks[j].1, criteria@),
                Err(e) => e is BlockNotFound && forall|j: int|
                    0 <= j < self@.blocks.len() ==> !meets(#[trigger] self@.blocks[j].1, criteria@),
            },
    {
        let n = self.blocks.len();
        let mut i: usize = 0;
        while i < n
            invariant
                n == self@.blocks.len(),
                i <= n,
                forall|j: int| 0 <= j < i ==> !meets(#[trigger] self@.blocks[j].1, criteria@),
            decreases n - i,
        {
            let (_, b) = self.blocks.get_index(i);
            if block_meets(b, criteria) {
                return Ok(b);
            }
            i = i + 1;
        }
        Err(ModelError::BlockNotFound(String::from_str("No Blocks matching filter criteria were found.")))
    }

    /// The first block, in block order, that has every field of `criteria`
    /// with the same value, to change in place.
    pub fn get_first_block_where_mut(&mut self, criteria: &Block) -> (r: Result<&mut Block, ModelError>)
        ensures
            match r {
                Ok(b) => exists|i: int|
                    0 <= i < old(self)@.blocks.len() && b@ == #[trigger] old(self)@.blocks[i].1 && meets(b@, criteria@)
                        && (forall|j: int| 0 <= j < i ==> !meets(#[trigger] old(self)@.blocks[j].1, criteria@))
                        && final(self)@ == (ModelView {
                        blocks: old(self)@.blocks.update(i, (old(self)@.blocks[i].0, final(b)@)),
                        ..old(self)@
                    }),
                Err(e) => e is BlockNotFound && final(self)@ == old(self)@ && forall|j: int|
                    0 <= j < old(self)@.blocks.len() ==> !meets(#[trigger] old(self)@.blocks[j].1, criteria@),
            },
    {
        let n = self.blocks.len();
        let mut i: usize = 0;
        while i < n
            invariant
                n == self@.blocks.len(),
                self@ == old(self)@,
                distinct_keys(self@.blocks),
                i <= n,
                forall|j: int| 0 <= j < i ==> !meets(#[trigger] self@.blocks[j].1, criteria@),
            decreases n - i,
        {
            let (k, b) = self.blocks.get_index(i);
            if block_meets(b, criteria) {
                let id = k.clone();
                proof {
                    crate::diff_spec::lemma_lookup_at(self@.blocks, i as int);
                }
                let found = self.blocks.get_mut(id.as_str());
                return match found {
                    Some(b) => Ok(b),
                    None => Err(ModelError::BlockNotFound(String::from_str("No Blocks matching filter criteria were found."))),
                };
            }
            i = i + 1;
        }
        Err(ModelError::BlockNotFound(String::from_str("No Blocks matching filter criteria were found.")))
    }

    fn expand(&self, entries: &Vec<String>, depth: usize) -> (r: Result<Vec<String>, ModelError>)
        ensures
            match expand_entries(self@, entries@, depth as nat) {
                Some(ids) => r matches Ok(v) && strings_of(v@) == ids,
                None => r matches Err(ModelError::BlockTypeNotFound(_)),
            },
        decreases depth, entries@.len() + 1,
    {
        let mut out: Vec<String> = Vec::new();
        let mut i: usize = 0;
        while i < entries.len()
            invariant
                i <= entries@.len(),
                expand_entries(self@, entries@.take(i as int), depth as nat) == Some(strings_of(out@)),
            decreases entries@.len() - i,
        {
            let ghost before = out@;
            let id = &entries[i];
            assert(entries@.take(i + 1).drop_last() =~= entries@.take(i as int));
            assert(entries@.take(i + 1).last() == entries@[i as int]);
            if self.blocks.contains_key(id) {
                out.push(id.clone());
                assert(strings_of(out@) =~= strings_of(before).push(id@));
            } else {
                match self.ids_of_type_at(id, depth) {
                    Ok(more) => {
                        let mut j: usize = 0;
                        while j < more.len()
                            invariant
                                j <= more@.len(),
                                strings_of(out@) == strings_of(before) + strings_of(more@).take(j as int),
                            decreases more@.len() - j,
                        {
                            let ghost b2 = out@;
                            out.push(more[j].clone());
                            assert(strings_of(out@) =~= strings_of(b2).push(more@[j as int]@));
                            assert(strings_of(more@).take(j + 1) =~= strings_of(more@).take(j as int).push(more@[j as int]@));
                            j = j + 1;
                        }
                        assert(strings_of(more@).take(more@.len() as int) =~= strings_of(more@));
                    },
                    Err(e) => {
                        proof {
                            lemma_expand_none(self@, entries@, i as int, depth as nat);
                        }
                        return Err(e);
                    },
                }
            }
            i = i + 1;
        }
        assert(entries@.take(entries@.len() as int) =~= entries@);
        Ok(out)
    }

    fn ids_of_type_at(&self, block_type: &str, depth: usize) -> (r: Result<Vec<String>, ModelError>)
        ensures
            match ids_of_type(self@, block_type@, depth as nat) {
                Some(ids) => r matches Ok(v) && strings_of(v@) == ids,
                None => r matches Err(ModelError::BlockTypeNotFound(_)),
            },
        decreases depth, 0nat,
    {
        if depth == 0 {
            return Err(ModelError::BlockTypeNotFound(String::from_str(block_type)));
        }
        match self.index.get(block_type) {
            Some(entries) => self.expand(entries, depth - 1),
            None => Err(ModelError::BlockTypeNotFound(String::from_str(block_type))),
        }
    }

    /// The identifiers of the blocks of type `block_type`, expanding nested
    /// types in index order. Fails when a type met on the way is not in the
    /// index, or when the nesting is deeper than the number of types, which
    /// only a cycle of types can cause.
    pub fn block_ids_of_type(&self, block_type: &str) -> (r: Result<Vec<String>, ModelError>)
        ensures
            match ids_of_type(self@, block_type@, self@.index.len()) {
                Some(ids) => r matches Ok(v) && strings_of(v@) == ids,
                None => r matches Err(ModelError::BlockTypeNotFound(_)),
            },
    {
        let n = self.index.len();
        self.ids_of_type_at(block_type, n)
    }
}

/// A failed entry makes the whole list fail.
pub proof fn lemma_expand_none(m: ModelView, entries: Seq<String>, i: int, depth: nat)
    requires
        0 <= i < entries.len(),
        expand_entries(m, entries.take(i + 1), depth) is None,
    ensures
        expand_entries(m, entries, depth) is None,
    decreases entries.len() - i,
{
    if i + 1 < entries.len() {
        assert(entries.take(i + 2).drop_last() =~= entries.take(i + 1));
        lemma_expand_none(m, entries, i + 1, depth);
    } else {
        assert(entries.take(i + 1) =~= entries);
    }
}

} // verus!
