//! Validation of declared translations and the translation graph they form.
use vstd::prelude::*;
use vstd::string::*;
use crate::ordered_map::{distinct_keys, has_key, insert_entry, OrderedMap, lemma_index_of, lookup};
use crate::round::{edges_known, lemma_register_edges};

verus! {

/// A node as the engine's validation sees it: the instance it is (two
/// handles to one node share it), its identifier and its model file.
pub struct NodeRef {
    pub instance: usize,
    pub identifier: String,
    pub sedaroml_filename: String,
}

pub struct NodeView {
    pub instance: nat,
    pub identifier: Seq<char>,
    pub filename: Seq<char>,
}

impl View for NodeRef {
    type V = NodeView;

    open spec fn view(&self) -> NodeView {
        NodeView {
            instance: self.instance as nat,
            identifier: self.identifier@,
            filename: self.sedaroml_filename@,
        }
    }
}

/// The two ends of a declared translation.
pub struct TranslationEnds {
    pub from: NodeRef,
    pub to: NodeRef,
}

/// One outgoing edge of a node: the neighbor, the declared translation it
/// comes from, and whether that translation runs forward or in reverse.
pub struct Hop {
    pub to: String,
    pub translation: usize,
    pub forward: bool,
}

pub struct HopView {
    pub to: Seq<char>,
    pub translation: nat,
    pub forward: bool,
}

impl View for Hop {
    type V = HopView;

    open spec fn view(&self) -> HopView {
        HopView { to: self.to@, translation: self.translation as nat, forward: self.forward }
    }
}

/// The outgoing edges of one node, in registration order.
pub struct Hops {
    pub list: Vec<Hop>,
}

impl View for Hops {
    type V = Seq<HopView>;

    open spec fn view(&self) -> Seq<HopView> {
        self.list@.map_values(|h: Hop| h@)
    }
}

/// Why a set of translations was rejected.
#[derive(Debug)]
pub enum ValidationError {
    /// A translation's two ends are one node.
    SameInstance(String, String),
    /// A translation's two ends carry one identifier.
    SameIdentifier(String, String),
    /// An identifier names two different nodes.
    DuplicateIdentifier(String),
    /// A model file belongs to two different nodes.
    DuplicateFilename(String),
    /// Two translations join the same two nodes.
    DuplicatePair(String, String),
}

pub enum Rejection {
    SameInstance(Seq<char>, Seq<char>),
    SameIdentifier(Seq<char>, Seq<char>),
    DuplicateIdentifier(Seq<char>),
    DuplicateFilename(Seq<char>),
    DuplicatePair(Seq<char>, Seq<char>),
}

impl View for ValidationError {
    type V = Rejection;

    open spec fn view(&self) -> Rejection {
        match self {
            ValidationError::SameInstance(a, b) => Rejection::SameInstance(a@, b@),
            ValidationError::SameIdentifier(a, b) => Rejection::SameIdentifier(a@, b@),
            ValidationError::DuplicateIdentifier(a) => Rejection::DuplicateIdentifier(a@),
            ValidationError::DuplicateFilename(a) => Rejection::DuplicateFilename(a@),
            ValidationError::DuplicatePair(a, b) => Rejection::DuplicatePair(a@, b@),
        }
    }
}

/// The state of validation after a prefix of the translations.
pub struct Registry {
    pub nodes: Seq<NodeView>,
    pub filenames: Seq<Seq<char>>,
    pub pairs: Seq<(Seq<char>, Seq<char>)>,
    pub hops: Seq<(Seq<char>, Seq<HopView>)>,
}

pub open spec fn empty_registry() -> Registry {
    Registry { nodes: Seq::empty(), filenames: Seq::empty(), pairs: Seq::empty(), hops: Seq::empty() }
}

/// Whether a node with identifier `id` is registered.
pub open spec fn known(nodes: Seq<NodeView>, id: Seq<char>) -> bool {
    exists|i: int| 0 <= i < nodes.len() && #[trigger] nodes[i].identifier == id
}

/// Whether identifier `id` is registered for an instance other than `inst`.
pub open spec fn bound_elsewhere(nodes: Seq<NodeView>, id: Seq<char>, inst: nat) -> bool {
    exists|i: int| 0 <= i < nodes.len() && #[trigger] nodes[i].identifier == id && nodes[i].instance != inst
}

pub open spec fn add_node(nodes: Seq<NodeView>, n: NodeView) -> Seq<NodeView> {
    if known(nodes, n.identifier) {
        nodes
    } else {
        nodes.push(n)
    }
}

pub open spec fn has_pair(pairs: Seq<(Seq<char>, Seq<char>)>, a: Seq<char>, b: Seq<char>) -> bool {
    exists|i: int| 0 <= i < pairs.len() && (#[trigger] pairs[i] == (a, b) || pairs[i] == (b, a))
}

/// The edge list of node `id` with `h` appended.
pub open spec fn add_hop(hops: Seq<(Seq<char>, Seq<HopView>)>, id: Seq<char>, h: HopView) -> Seq<(Seq<char>, Seq<HopView>)> {
    if has_key(hops, id) {
        insert_entry(hops, id, lookup(hops, id).push(h))
    } else {
        insert_entry(hops, id, seq![h])
    }
}

/// Registers translation number `t` from `f` to `g`, or says which rule it breaks.
pub open spec fn register(reg: Registry, f: NodeView, g: NodeView, t: nat) -> Result<Registry, Rejection> {
    if f.instance == g.instance {
        Err(Rejection::SameInstance(f.identifier, g.identifier))
    } else if f.identifier == g.identifier {
        Err(Rejection::SameIdentifier(f.identifier, g.identifier))
    } else if bound_elsewhere(reg.nodes, f.identifier, f.instance) {
        Err(Rejection::DuplicateIdentifier(f.identifier))
    } else if bound_elsewhere(reg.nodes, g.identifier, g.instance) {
        Err(Rejection::DuplicateIdentifier(g.identifier))
    } else if !known(reg.nodes, f.identifier) && reg.filenames.contains(f.filename) {
        Err(Rejection::DuplicateFilename(f.filename))
    } else if !known(reg.nodes, g.identifier) && reg.filenames.push(f.filename).contains(g.filename) {
        Err(Rejection::DuplicateFilename(g.filename))
    } else if has_pair(reg.pairs, f.identifier, g.identifier) {
        Err(Rejection::DuplicatePair(f.identifier, g.identifier))
    } else {
        Ok(Registry {
            nodes: add_node(add_node(reg.nodes, f), g),
            filenames: reg.filenames.push(f.filename).push(g.filename),
            pairs: reg.pairs.push((f.identifier, g.identifier)),
            hops: add_hop(
                add_hop(reg.hops, f.identifier, HopView { to: g.identifier, translation: t, forward: true }),
                g.identifier,
                HopView { to: f.identifier, translation: t, forward: false },
            ),
        })
    }
}

/// Validation of the translations in declaration order: the first rule broken
/// decides the error.
pub open spec fn validate_spec(ts: Seq<(NodeView, NodeView)>) -> Result<Registry, Rejection>
    decreases ts.len(),
{
    if ts.len() == 0 {
        Ok(empty_registry())
    } else {
        match validate_spec(ts.drop_last()) {
            Err(e) => Err(e),
            Ok(reg) => register(reg, ts.last().0, ts.last().1, (ts.len() - 1) as nat),
        }
    }
}

pub open spec fn ends_view(ts: Seq<TranslationEnds>) -> Seq<(NodeView, NodeView)> {
    ts.map_values(|t: TranslationEnds| (t.from@, t.to@))
}

pub open spec fn nodes_view(ns: Seq<NodeRef>) -> Seq<NodeView> {
    ns.map_values(|n: NodeRef| n@)
}

/// The translation graph: every node once, in order of first declaration,
/// and the outgoing edges of each.
pub struct TranslationGraph {
    pub nodes: Vec<NodeRef>,
    pub hops: OrderedMap<Hops>,
}

fn copy_node(n: &NodeRef) -> (r: NodeRef)
    ensures
        r@ == n@,
{
    NodeRef {
        instance: n.instance,
        identifier: n.identifier.clone(),
        sedaroml_filename: n.sedaroml_filename.clone(),
    }
}

/// The position of the node with identifier `id`, if registered.
fn find_node(nodes: &Vec<NodeRef>, id: &String) -> (r: Option<usize>)
    ensures
        match r {
            Some(i) => i < nodes@.len() && nodes@[i as int]@.identifier == id@ && known(nodes_view(nodes@), id@),
            None => !known(nodes_view(nodes@), id@),
        },
{
    let mut i: usize = 0;
    while i < nodes.len()
        invariant
            i <= nodes@.len(),
            forall|j: int| 0 <= j < i ==> nodes@[j]@.identifier != id@,
        decreases nodes@.len() - i,
    {
        if nodes[i].identifier == *id {
            assert(nodes_view(nodes@)[i as int].identifier == id@);
            return Some(i);
        }
        i = i + 1;
    }
    proof {
        if known(nodes_view(nodes@), id@) {
            let j = choose|j: int| 0 <= j < nodes_view(nodes@).len() && #[trigger] nodes_view(nodes@)[j].identifier == id@;
            assert(nodes@[j]@.identifier == id@);
        }
    }
    None
}

pub open spec fn strings_view(v: Seq<String>) -> Seq<Seq<char>> {
    v.map_values(|s: String| s@)
}

pub open spec fn pairs_view(v: Seq<(String, String)>) -> Seq<(Seq<char>, Seq<char>)> {
    v.map_values(|p: (String, String)| (p.0@, p.1@))
}

/// Identifiers of registered nodes are pairwise distinct.
pub open spec fn distinct_identifiers(nodes: Seq<NodeView>) -> bool {
    forall|i: int, j: int|
        0 <= i < nodes.len() && 0 <= j < nodes.len() && i != j ==> #[trigger] nodes[i].identifier
            != #[trigger] nodes[j].identifier
}

pub fn contains_string(v: &Vec<String>, s: &String) -> (r: bool)
    ensures
        r == strings_view(v@).contains(s@),
{
    let mut i: usize = 0;
    while i < v.len()
        invariant
            i <= v@.len(),
            forall|j: int| 0 <= j < i ==> v@[j]@ != s@,
        decreases v@.len() - i,
    {
        if v[i] == *s {
            assert(strings_view(v@)[i as int] == s@);
            return true;
        }
        i = i + 1;
    }
    proof {
        if strings_view(v@).contains(s@) {
            let j = choose|j: int| 0 <= j < strings_view(v@).len() && strings_view(v@)[j] == s@;
            assert(v@[j]@ == s@);
        }
    }
    false
}

fn contains_pair(v: &Vec<(String, String)>, a: &String, b: &String) -> (r: bool)
    ensures
        r == has_pair(pairs_view(v@), a@, b@),
{
    let mut i: usize = 0;
    while i < v.len()
        invariant
            i <= v@.len(),
            forall|j: int| 0 <= j < i ==> #[trigger] pairs_view(v@)[j] != (a@, b@) && pairs_view(v@)[j] != (b@, a@),
        decreases v@.len() - i,
    {
        let (x, y) = &v[i];
        if (*x == *a && *y == *b) || (*x == *b && *y == *a) {
            assert(pairs_view(v@)[i as int] == (a@, b@) || pairs_view(v@)[i as int] == (b@, a@));
            return true;
        }
        i = i + 1;
    }
    false
}

fn copy_hops(h: &Hops) -> (r: Hops)
    ensures
        r@ == h@,
{
    let mut list: Vec<Hop> = Vec::new();
    let mut i: usize = 0;
    while i < h.list.len()
        invariant
            i <= h.list@.len(),
            list@.len() == i,
            forall|j: int| 0 <= j < i ==> #[trigger] list@[j]@ == h.list@[j]@,
        decreases h.list@.len() - i,
    {
        let x = &h.list[i];
        list.push(Hop { to: x.to.clone(), translation: x.translation, forward: x.forward });
        i = i + 1;
    }
    let r = Hops { list };
    assert(r@ =~= h@);
    r
}

/// Appends edge `h` to the edges of node `id`.
fn push_hop(hops: &mut OrderedMap<Hops>, id: &String, h: Hop)
    ensures
        final(hops)@ == add_hop(old(hops)@, id@, h@),
{
    proof {
        lemma_index_of(hops@, id@);
    }
    let mut list = match hops.get(id) {
        Some(existing) => copy_hops(existing),
        None => Hops { list: Vec::new() },
    };
    let ghost before = list@;
    list.list.push(h);
    assert(list@ =~= before.push(h@));
    assert(!has_key(old(hops)@, id@) ==> before.push(h@) =~= seq![h@]);
    hops.insert(id.clone(), list);
}

/// Adds `n` unless a node with its identifier is registered.
fn push_node(nodes: &mut Vec<NodeRef>, n: &NodeRef)
    requires
        distinct_identifiers(nodes_view(old(nodes)@)),
    ensures
        nodes_view(final(nodes)@) == add_node(nodes_view(old(nodes)@), n@),
        distinct_identifiers(nodes_view(final(nodes)@)),
{
    match find_node(nodes, &n.identifier) {
        Some(i) => {
            assert(nodes_view(nodes@)[i as int].identifier == n@.identifier);
        },
        None => {
            nodes.push(copy_node(n));
            assert(nodes_view(nodes@) =~= nodes_view(old(nodes)@).push(n@));
        },
    }
}

/// Whether identifier `id` is registered for a node other than `inst`.
fn is_bound_elsewhere(nodes: &Vec<NodeRef>, id: &String, inst: usize) -> (r: bool)
    requires
        distinct_identifiers(nodes_view(nodes@)),
    ensures
        r == bound_elsewhere(nodes_view(nodes@), id@, inst as nat),
{
    match find_node(nodes, id) {
        Some(i) => {
            let r = nodes[i].instance != inst;
            proof {
                let nv = nodes_view(nodes@);
                assert(nv[i as int].identifier == id@);
                if bound_elsewhere(nv, id@, inst as nat) {
                    let j = choose|j: int| 0 <= j < nv.len() && #[trigger] nv[j].identifier == id@ && nv[j].instance != inst;
                    assert(j == i);
                }
            }
            r
        },
        None => false,
    }
}

pub open spec fn registry_of(
    nodes: Seq<NodeRef>,
    filenames: Seq<String>,
    pairs: Seq<(String, String)>,
    hops: Seq<(Seq<char>, Seq<HopView>)>,
) -> Registry {
    Registry {
        nodes: nodes_view(nodes),
        filenames: strings_view(filenames),
        pairs: pairs_view(pairs),
        hops,
    }
}

pub proof fn lemma_validate_step(ts: Seq<(NodeView, NodeView)>, i: int)
    requires
        0 <= i < ts.len(),
    ensures
        validate_spec(ts.take(i + 1)) == (match validate_spec(ts.take(i)) {
            Err(e) => Err(e),
            Ok(reg) => register(reg, ts[i].0, ts[i].1, i as nat),
        }),
{
    assert(ts.take(i + 1).drop_last() =~= ts.take(i));
}

/// Once a prefix is rejected, every longer prefix is rejected the same way.
pub proof fn lemma_rejection_sticks(ts: Seq<(NodeView, NodeView)>, k: int, m: int)
    requires
        0 <= k <= m <= ts.len(),
        validate_spec(ts.take(k)) is Err,
    ensures
        validate_spec(ts.take(m)) == validate_spec(ts.take(k)),
    decreases m - k,
{
    if m > k {
        lemma_rejection_sticks(ts, k, m - 1);
        lemma_validate_step(ts, m - 1);
    }
}

impl TranslationGraph {
    /// Validates the declared pairs in order and builds the graph: a pair
    /// `f`, `g` gives `f` the forward edge to `g` and `g` the reverse edge
    /// to `f`. The first rule broken rejects the whole set.
    pub fn validate(ts: &Vec<TranslationEnds>) -> (r: Result<TranslationGraph, ValidationError>)
        ensures
            match validate_spec(ends_view(ts@)) {
                Ok(reg) => r matches Ok(g) && nodes_view(g.nodes@) == reg.nodes && g.hops@ == reg.hops,
                Err(e) => r matches Err(err) && err@ == e,
            },
            r matches Ok(g) ==> g.wf(),
    {
        let ghost tv = ends_view(ts@);
        let mut nodes: Vec<NodeRef> = Vec::new();
        let mut filenames: Vec<String> = Vec::new();
        let mut pairs: Vec<(String, String)> = Vec::new();
        let mut hops: OrderedMap<Hops> = OrderedMap::new();
        assert(nodes_view(nodes@) =~= Seq::<NodeView>::empty());
        assert(strings_view(filenames@) =~= Seq::<Seq<char>>::empty());
        assert(pairs_view(pairs@) =~= Seq::<(Seq<char>, Seq<char>)>::empty());
        assert(tv.take(0) =~= Seq::<(NodeView, NodeView)>::empty());
        let mut i: usize = 0;
        while i < ts.len()
            invariant
                tv == ends_view(ts@),
                i <= ts@.len(),
                validate_spec(tv.take(i as int)) == Ok::<Registry, Rejection>(
                    registry_of(nodes@, filenames@, pairs@, hops@),
                ),
                distinct_identifiers(nodes_view(nodes@)),
                distinct_keys(hops@),
                edges_known(nodes_view(nodes@), hops@),
            decreases ts@.len() - i,
        {
            proof {
                lemma_validate_step(tv, i as int);
                assert(tv.take(tv.len() as int) =~= tv);
                if validate_spec(tv.take(i + 1)) is Err {
                    lemma_rejection_sticks(tv, i + 1, tv.len() as int);
                }
            }
            let ghost reg = registry_of(nodes@, filenames@, pairs@, hops@);
            let f = &ts[i].from;
            let g = &ts[i].to;
            assert(tv[i as int] == (f@, g@));
            if f.instance == g.instance {
                return Err(ValidationError::SameInstance(f.identifier.clone(), g.identifier.clone()));
            }
            if f.identifier == g.identifier {
                return Err(ValidationError::SameIdentifier(f.identifier.clone(), g.identifier.clone()));
            }
            if is_bound_elsewhere(&nodes, &f.identifier, f.instance) {
                return Err(ValidationError::DuplicateIdentifier(f.identifier.clone()));
            }
            if is_bound_elsewhere(&nodes, &g.identifier, g.instance) {
                return Err(ValidationError::DuplicateIdentifier(g.identifier.clone()));
            }
            let f_new = find_node(&nodes, &f.identifier).is_none();
            if f_new && contains_string(&filenames, &f.sedaroml_filename) {
                return Err(ValidationError::DuplicateFilename(f.sedaroml_filename.clone()));
            }
            let ghost files0 = filenames@;
            filenames.push(f.sedaroml_filename.clone());
            assert(strings_view(filenames@) =~= strings_view(files0).push(f@.filename));
            let g_new = find_node(&nodes, &g.identifier).is_none();
            if g_new && contains_string(&filenames, &g.sedaroml_filename) {
                assert(!known(reg.nodes, g@.identifier) && reg.filenames.push(f@.filename).contains(g@.filename));
                assert(register(reg, f@, g@, i as nat) == Err::<Registry, Rejection>(Rejection::DuplicateFilename(g@.filename)));
                return Err(ValidationError::DuplicateFilename(g.sedaroml_filename.clone()));
            }
            filenames.push(g.sedaroml_filename.clone());
            assert(strings_view(filenames@) =~= strings_view(files0).push(f@.filename).push(g@.filename));
            push_node(&mut nodes, f);
            push_node(&mut nodes, g);
            if contains_pair(&pairs, &f.identifier, &g.identifier) {
                assert(has_pair(reg.pairs, f@.identifier, g@.identifier));
                assert(register(reg, f@, g@, i as nat) == Err::<Registry, Rejection>(Rejection::DuplicatePair(f@.identifier, g@.identifier)));
                return Err(ValidationError::DuplicatePair(f.identifier.clone(), g.identifier.clone()));
            }
            let ghost pairs0 = pairs@;
            pairs.push((f.identifier.clone(), g.identifier.clone()));
            assert(pairs_view(pairs@) =~= pairs_view(pairs0).push((f@.identifier, g@.identifier)));
            push_hop(&mut hops, &f.identifier, Hop { to: g.identifier.clone(), translation: i, forward: true });
            push_hop(&mut hops, &g.identifier, Hop { to: f.identifier.clone(), translation: i, forward: false });
            assert(register(reg, f@, g@, i as nat) == Ok::<Registry, Rejection>(registry_of(nodes@, filenames@, pairs@, hops@)));
            proof {
                lemma_register_edges(reg, f@, g@, i as nat);
            }
            i = i + 1;
        }
        assert(tv.take(ts@.len() as int) =~= tv);
        Ok(TranslationGraph { nodes, hops })
    }
}

/// The text `a` followed by `x` and `b`.
pub open spec fn framed(a: Seq<char>, x: Seq<char>, b: Seq<char>) -> Seq<char> {
    a + x + b
}

fn frame(a: &str, x: &String, b: &str) -> (r: String)
    ensures
        r@ == framed(a@, x@, b@),
{
    let mut r = String::from_str(a);
    r.append(x.as_str());
    r.append(b);
    r
}

pub open spec fn message_spec(e: Rejection) -> Seq<char> {
    match e {
        Rejection::SameInstance(a, b) => framed(
            "Translation `from` and `to` models must be different: Offending model identifiers: `"@,
            a,
            "` & `"@,
        ) + b + "`"@,
        Rejection::SameIdentifier(a, b) => framed(
            "Translation `from` and `to` models must have different identifiers: `"@,
            a,
            "` == `"@,
        ) + b + "`"@,
        Rejection::DuplicateIdentifier(a) => framed("Duplicate model identifier detected: `"@, a, "`"@),
        Rejection::DuplicateFilename(a) => framed("Duplicate filename detected: `"@, a, "`"@),
        Rejection::DuplicatePair(a, b) => framed(
            "Duplicate translation pair detected: From: `"@,
            a,
            "`, To: `"@,
        ) + b + "`"@,
    }
}

impl ValidationError {
    /// The sentence that reports this error.
    pub fn message(&self) -> (r: String)
        ensures
            r@ == message_spec(self@),
    {
        match self {
            ValidationError::SameInstance(a, b) => {
                let mut r = frame(
                    "Translation `from` and `to` models must be different: Offending model identifiers: `",
                    a,
                    "` & `",
                );
                r.append(b.as_str());
                r.append("`");
                r
            },
            ValidationError::SameIdentifier(a, b) => {
                let mut r = frame(
                    "Translation `from` and `to` models must have different identifiers: `",
                    a,
                    "` == `",
                );
                r.append(b.as_str());
                r.append("`");
                r
            },
            ValidationError::DuplicateIdentifier(a) => frame("Duplicate model identifier detected: `", a, "`"),
            ValidationError::DuplicateFilename(a) => frame("Duplicate filename detected: `", a, "`"),
            ValidationError::DuplicatePair(a, b) => {
                let mut r = frame("Duplicate translation pair detected: From: `", a, "`, To: `");
                r.append(b.as_str());
                r.append("`");
                r
            },
        }
    }
}

/// One end of translation `i`: its source when `src`, else its destination.
pub open spec fn end_of(ts: Seq<(NodeView, NodeView)>, i: int, src: bool) -> NodeView {
    if src {
        ts[i].0
    } else {
        ts[i].1
    }
}

/// An instance is one node: every mention of it carries the same identifier
/// and model file.
pub open spec fn instances_consistent(ts: Seq<(NodeView, NodeView)>) -> bool {
    forall|i: int, a: bool, j: int, b: bool|
        0 <= i < ts.len() && 0 <= j < ts.len() && #[trigger] end_of(ts, i, a).instance == #[trigger] end_of(ts, j, b).instance
            ==> end_of(ts, i, a) == end_of(ts, j, b)
}

/// The rules of a translation set: no translation joins a node to itself,
/// by instance or by identifier; an identifier names one node; nodes with
/// different identifiers have different model files; no two translations
/// join the same two nodes.
pub open spec fn valid_translations(ts: Seq<(NodeView, NodeView)>) -> bool {
    &&& forall|i: int| 0 <= i < ts.len() ==> #[trigger] ts[i].0.instance != ts[i].1.instance
    &&& forall|i: int| 0 <= i < ts.len() ==> #[trigger] ts[i].0.identifier != ts[i].1.identifier
    &&& forall|i: int, a: bool, j: int, b: bool|
        0 <= i < ts.len() && 0 <= j < ts.len() && #[trigger] end_of(ts, i, a).identifier == #[trigger] end_of(ts, j, b).identifier
            ==> end_of(ts, i, a).instance == end_of(ts, j, b).instance
    &&& forall|i: int, a: bool, j: int, b: bool|
        0 <= i < ts.len() && 0 <= j < ts.len() && #[trigger] end_of(ts, i, a).identifier != #[trigger] end_of(ts, j, b).identifier
            ==> end_of(ts, i, a).filename != end_of(ts, j, b).filename
    &&& forall|i: int, j: int|
        0 <= i < j < ts.len() ==> !(#[trigger] ts[i].0.identifier == #[trigger] ts[j].0.identifier && ts[i].1.identifier == ts[j].1.identifier)
            && !(ts[i].0.identifier == ts[j].1.identifier && ts[i].1.identifier == ts[j].0.identifier)
}

/// The registry after a prefix of `ts`: every end seen is registered under
/// its identifier with its instance, every registered node's file is
/// recorded, every recorded file belongs to a registered node, registered
/// nodes with different identifiers have different files, and every pair
/// seen is recorded.
pub open spec fn registry_tracks(reg: Registry, ts: Seq<(NodeView, NodeView)>, k: int) -> bool {
    &&& distinct_identifiers(reg.nodes)
    &&& forall|i: int, a: bool| 0 <= i < k ==> #[trigger] registered(reg.nodes, end_of(ts, i, a))
    &&& forall|x: int| 0 <= x < reg.nodes.len() ==> reg.filenames.contains(#[trigger] reg.nodes[x].filename)
    &&& forall|f: Seq<char>| #[trigger] reg.filenames.contains(f) ==> exists|x: int| 0 <= x < reg.nodes.len() && #[trigger] reg.nodes[x].filename == f
    &&& forall|x: int, y: int|
        0 <= x < reg.nodes.len() && 0 <= y < reg.nodes.len() && x != y ==> #[trigger] reg.nodes[x].filename != #[trigger] reg.nodes[y].filename
    &&& forall|i: int| 0 <= i < k ==> has_pair(reg.pairs, #[trigger] ts[i].0.identifier, ts[i].1.identifier)
}

/// Node `n` is registered: some registered node is `n` itself.
pub open spec fn registered(nodes: Seq<NodeView>, n: NodeView) -> bool {
    exists|x: int| 0 <= x < nodes.len() && #[trigger] nodes[x] == n
}

/// Every registered node is an end seen in the first `k` translations.
pub open spec fn registry_from(reg: Registry, ts: Seq<(NodeView, NodeView)>, k: int) -> bool {
    forall|x: int| 0 <= x < reg.nodes.len() ==> exists|i: int, a: bool| 0 <= i < k && #[trigger] reg.nodes[x] == end_of(ts, i, a)
}

proof fn lemma_add_node(nodes: Seq<NodeView>, n: NodeView)
    requires
        distinct_identifiers(nodes),
    ensures
        distinct_identifiers(add_node(nodes, n)),
        known(add_node(nodes, n), n.identifier),
        forall|x: int| 0 <= x < nodes.len() ==> #[trigger] add_node(nodes, n)[x] == nodes[x],
        add_node(nodes, n).len() == nodes.len() || (add_node(nodes, n).len() == nodes.len() + 1
            && add_node(nodes, n)[nodes.len() as int] == n && !known(nodes, n.identifier)),
        known(nodes, n.identifier) ==> add_node(nodes, n) == nodes,
{
    if !known(nodes, n.identifier) {
        let r = nodes.push(n);
        assert(r[nodes.len() as int].identifier == n.identifier);
        assert forall|x: int, y: int| 0 <= x < r.len() && 0 <= y < r.len() && x != y implies #[trigger] r[x].identifier
            != #[trigger] r[y].identifier by {
            if x < nodes.len() && y == nodes.len() {
                assert(nodes[x].identifier == r[x].identifier);
            }
            if y < nodes.len() && x == nodes.len() {
                assert(nodes[y].identifier == r[y].identifier);
            }
        }
    }
}

/// What a successful registration of translation `k` keeps true.
proof fn lemma_register_tracks(reg: Registry, ts: Seq<(NodeView, NodeView)>, k: int)
    requires
        0 <= k < ts.len(),
        instances_consistent(ts),
        registry_tracks(reg, ts, k),
        registry_from(reg, ts, k),
        register(reg, ts[k].0, ts[k].1, k as nat) is Ok,
    ensures
        registry_tracks(register(reg, ts[k].0, ts[k].1, k as nat)->Ok_0, ts, k + 1),
        registry_from(register(reg, ts[k].0, ts[k].1, k as nat)->Ok_0, ts, k + 1),
{
    let f = ts[k].0;
    let g = ts[k].1;
    let new = register(reg, f, g, k as nat)->Ok_0;
    let n1 = add_node(reg.nodes, f);
    let n2 = add_node(n1, g);
    let files = reg.filenames.push(f.filename).push(g.filename);
    assert(end_of(ts, k, true) == f && end_of(ts, k, false) == g);
    lemma_add_node(reg.nodes, f);
    lemma_add_node(n1, g);
    assert(new.nodes == n2);
    // a known identifier is registered with the same node
    assert forall|n: NodeView| (n == f || n == g) implies registered(n2, n) by {
        if known(reg.nodes, n.identifier) {
            let x = choose|x: int| 0 <= x < reg.nodes.len() && #[trigger] reg.nodes[x].identifier == n.identifier;
            assert(!bound_elsewhere(reg.nodes, n.identifier, n.instance));
            assert(reg.nodes[x].instance == n.instance);
            let (i, a) = choose|i: int, a: bool| 0 <= i < k && #[trigger] reg.nodes[x] == end_of(ts, i, a);
            assert(end_of(ts, k, n == f) == n);
            assert(end_of(ts, i, a) == end_of(ts, k, n == f));
            assert(n2[x] == reg.nodes[x]);
        } else if n == f {
            assert(n1[reg.nodes.len() as int] == f);
            assert(n2[reg.nodes.len() as int] == f);
        } else {
            if known(n1, g.identifier) {
                let x = choose|x: int| 0 <= x < n1.len() && #[trigger] n1[x].identifier == g.identifier;
                assert(x == reg.nodes.len());
                assert(n1[x] == f);
            }
            assert(n2[n1.len() as int] == g);
        }
    }
    assert forall|i: int, a: bool| 0 <= i < k + 1 implies #[trigger] registered(n2, end_of(ts, i, a)) by {
        if i < k {
            assert(registered(reg.nodes, end_of(ts, i, a)));
            let x = choose|x: int| 0 <= x < reg.nodes.len() && #[trigger] reg.nodes[x] == end_of(ts, i, a);
            assert(n1[x] == reg.nodes[x]);
            assert(n2[x] == n1[x]);
        } else {
            assert(end_of(ts, i, a) == f || end_of(ts, i, a) == g);
        }
    }
    assert forall|x: int| 0 <= x < n2.len() implies files.contains(#[trigger] n2[x].filename) by {
        if x < reg.nodes.len() {
            assert(n2[x] == reg.nodes[x]);
            let y = choose|y: int| 0 <= y < reg.filenames.len() && reg.filenames[y] == reg.nodes[x].filename;
            assert(files[y] == reg.filenames[y]);
        } else if x < n1.len() {
            assert(n2[x] == f);
            assert(files[reg.filenames.len() as int] == f.filename);
        } else {
            assert(n2[x] == g);
            assert(files[reg.filenames.len() as int + 1] == g.filename);
        }
    }
    assert forall|fl: Seq<char>| #[trigger] files.contains(fl) implies exists|x: int| 0 <= x < n2.len() && #[trigger] n2[x].filename == fl by {
        let y = choose|y: int| 0 <= y < files.len() && files[y] == fl;
        if y < reg.filenames.len() {
            assert(reg.filenames[y] == fl);
            assert(reg.filenames.contains(fl));
            let x = choose|x: int| 0 <= x < reg.nodes.len() && #[trigger] reg.nodes[x].filename == fl;
            assert(n2[x] == reg.nodes[x]);
        } else {
            let n = if y == reg.filenames.len() { f } else { g };
            assert(registered(n2, n));
            let x = choose|x: int| 0 <= x < n2.len() && #[trigger] n2[x] == n;
            assert(n2[x].filename == fl);
        }
    }
    assert forall|x: int, y: int| 0 <= x < n2.len() && 0 <= y < n2.len() && x != y implies #[trigger] n2[x].filename
        != #[trigger] n2[y].filename by {
        let old_len = reg.nodes.len() as int;
        if x >= old_len || y >= old_len {
            // a node added now has a file no other node has
            let (p, q) = if x >= old_len { (x, y) } else { (y, x) };
            if p < n1.len() {
                assert(n2[p] == f);
                assert(!known(reg.nodes, f.identifier));
                assert(!reg.filenames.contains(f.filename));
                if q < old_len {
                    assert(n2[q] == reg.nodes[q]);
                    assert(reg.filenames.contains(reg.nodes[q].filename));
                } else {
                    assert(n2[q] == g);
                    assert(!known(n1, g.identifier));
                    assert(!known(reg.nodes, g.identifier)) by {
                        if known(reg.nodes, g.identifier) {
                            let z = choose|z: int| 0 <= z < reg.nodes.len() && #[trigger] reg.nodes[z].identifier == g.identifier;
                            assert(n1[z] == reg.nodes[z]);
                        }
                    }
                    assert(reg.filenames.push(f.filename)[reg.filenames.len() as int] == f.filename);
                }
            } else {
                assert(n2[p] == g);
                assert(!known(n1, g.identifier));
                assert(!known(reg.nodes, g.identifier)) by {
                    if known(reg.nodes, g.identifier) {
                        let z = choose|z: int| 0 <= z < reg.nodes.len() && #[trigger] reg.nodes[z].identifier == g.identifier;
                        assert(n1[z] == reg.nodes[z]);
                    }
                }
                assert(!reg.filenames.push(f.filename).contains(g.filename));
                if q < old_len {
                    assert(n2[q] == reg.nodes[q]);
                    assert(reg.filenames.contains(reg.nodes[q].filename));
                    let w = choose|w: int| 0 <= w < reg.filenames.len() && reg.filenames[w] == reg.nodes[q].filename;
                    assert(reg.filenames.push(f.filename)[w] == reg.filenames[w]);
                } else {
                    assert(n2[q] == f);
                    assert(reg.filenames.push(f.filename)[reg.filenames.len() as int] == f.filename);
                }
            }
        } else {
            assert(n2[x] == reg.nodes[x] && n2[y] == reg.nodes[y]);
        }
    }
    assert forall|i: int| 0 <= i < k + 1 implies has_pair(new.pairs, #[trigger] ts[i].0.identifier, ts[i].1.identifier) by {
        if i < k {
            let z = choose|z: int| 0 <= z < reg.pairs.len() && (#[trigger] reg.pairs[z] == (ts[i].0.identifier, ts[i].1.identifier)
                || reg.pairs[z] == (ts[i].1.identifier, ts[i].0.identifier));
            assert(new.pairs[z] == reg.pairs[z]);
        } else {
            assert(new.pairs[reg.pairs.len() as int] == (f.identifier, g.identifier));
        }
    }
    assert forall|x: int| 0 <= x < n2.len() implies exists|i: int, a: bool| 0 <= i < k + 1 && #[trigger] n2[x] == end_of(ts, i, a) by {
        if x < reg.nodes.len() {
            assert(n2[x] == reg.nodes[x]);
            let (i, a) = choose|i: int, a: bool| 0 <= i < k && #[trigger] reg.nodes[x] == end_of(ts, i, a);
            assert(n2[x] == end_of(ts, i, a));
        } else if x < n1.len() {
            assert(n2[x] == end_of(ts, k, true));
        } else {
            assert(n2[x] == end_of(ts, k, false));
        }
    }
}

proof fn lemma_valid_prefix(ts: Seq<(NodeView, NodeView)>, k: int)
    requires
        instances_consistent(ts),
        0 <= k <= ts.len(),
        validate_spec(ts.take(k)) is Ok,
    ensures
        registry_tracks(validate_spec(ts.take(k))->Ok_0, ts, k),
        registry_from(validate_spec(ts.take(k))->Ok_0, ts, k),
        forall|i: int| 0 <= i < k ==> #[trigger] ts[i].0.instance != ts[i].1.instance && ts[i].0.identifier != ts[i].1.identifier,
        forall|i: int, j: int|
            0 <= i < j < k ==> !(#[trigger] ts[i].0.identifier == #[trigger] ts[j].0.identifier && ts[i].1.identifier == ts[j].1.identifier)
                && !(ts[i].0.identifier == ts[j].1.identifier && ts[i].1.identifier == ts[j].0.identifier),
    decreases k,
{
    if k == 0 {
        assert(ts.take(0) =~= Seq::<(NodeView, NodeView)>::empty());
        assert(distinct_identifiers(empty_registry().nodes));
    } else {
        lemma_validate_step(ts, k - 1);
        if validate_spec(ts.take(k - 1)) is Err {
            lemma_rejection_sticks(ts, k - 1, k);
        }
        lemma_valid_prefix(ts, k - 1);
        let reg = validate_spec(ts.take(k - 1))->Ok_0;
        lemma_register_tracks(reg, ts, k - 1);
        let f = ts[k - 1].0;
        let g = ts[k - 1].1;
        assert(register(reg, f, g, (k - 1) as nat) is Ok);
        assert(f.instance != g.instance && f.identifier != g.identifier);
        assert forall|i: int| 0 <= i < k implies #[trigger] ts[i].0.instance != ts[i].1.instance && ts[i].0.identifier
            != ts[i].1.identifier by {
            if i < k - 1 {
                assert(ts[i].0.instance != ts[i].1.instance && ts[i].0.identifier != ts[i].1.identifier);
            } else {
                assert(ts[i] == (f, g));
            }
        }
        assert forall|i: int, j: int|
            0 <= i < j < k implies !(#[trigger] ts[i].0.identifier == #[trigger] ts[j].0.identifier && ts[i].1.identifier
                == ts[j].1.identifier) && !(ts[i].0.identifier == ts[j].1.identifier && ts[i].1.identifier == ts[j].0.identifier) by {
            if j == k - 1 {
                assert(!has_pair(reg.pairs, f.identifier, g.identifier));
                assert(has_pair(reg.pairs, ts[i].0.identifier, ts[i].1.identifier));
                let z = choose|z: int| 0 <= z < reg.pairs.len() && (#[trigger] reg.pairs[z] == (ts[i].0.identifier, ts[i].1.identifier)
                    || reg.pairs[z] == (ts[i].1.identifier, ts[i].0.identifier));
            }
        }
    }
}

/// A set of translations that validation accepts keeps every rule: no
/// translation joins a node to itself (by instance or by identifier), an
/// identifier names one node, nodes with different identifiers have
/// different model files, and no two translations join the same two nodes.
pub proof fn lemma_validation_rules(ts: Seq<(NodeView, NodeView)>)
    requires
        instances_consistent(ts),
        validate_spec(ts) is Ok,
    ensures
        valid_translations(ts),
{
    assert(ts.take(ts.len() as int) =~= ts);
    lemma_valid_prefix(ts, ts.len() as int);
    let reg = validate_spec(ts)->Ok_0;
    assert forall|i: int| 0 <= i < ts.len() implies #[trigger] ts[i].0.instance != ts[i].1.instance by {
        assert(ts[i].0.instance != ts[i].1.instance && ts[i].0.identifier != ts[i].1.identifier);
    }
    assert forall|i: int| 0 <= i < ts.len() implies #[trigger] ts[i].0.identifier != ts[i].1.identifier by {
        assert(ts[i].0.instance != ts[i].1.instance && ts[i].0.identifier != ts[i].1.identifier);
    }
    assert forall|i: int, a: bool, j: int, b: bool|
        0 <= i < ts.len() && 0 <= j < ts.len() && #[trigger] end_of(ts, i, a).identifier == #[trigger] end_of(ts, j, b).identifier
            implies end_of(ts, i, a).instance == end_of(ts, j, b).instance by {
        assert(registered(reg.nodes, end_of(ts, i, a)));
        assert(registered(reg.nodes, end_of(ts, j, b)));
        let x = choose|x: int| 0 <= x < reg.nodes.len() && #[trigger] reg.nodes[x] == end_of(ts, i, a);
        let y = choose|y: int| 0 <= y < reg.nodes.len() && #[trigger] reg.nodes[y] == end_of(ts, j, b);
        assert(reg.nodes[x].identifier == reg.nodes[y].identifier);
    }
    assert forall|i: int, a: bool, j: int, b: bool|
        0 <= i < ts.len() && 0 <= j < ts.len() && #[trigger] end_of(ts, i, a).identifier != #[trigger] end_of(ts, j, b).identifier
            implies end_of(ts, i, a).filename != end_of(ts, j, b).filename by {
        assert(registered(reg.nodes, end_of(ts, i, a)));
        assert(registered(reg.nodes, end_of(ts, j, b)));
        let x = choose|x: int| 0 <= x < reg.nodes.len() && #[trigger] reg.nodes[x] == end_of(ts, i, a);
        let y = choose|y: int| 0 <= y < reg.nodes.len() && #[trigger] reg.nodes[y] == end_of(ts, j, b);
        assert(x != y);
        assert(reg.nodes[x].filename != reg.nodes[y].filename);
    }
}

/// Some end of the first `i` translations carries identifier `id`.
pub open spec fn seen_identifier(ts: Seq<(NodeView, NodeView)>, i: int, id: Seq<char>) -> bool {
    exists|j: int, a: bool| 0 <= j < i && #[trigger] end_of(ts, j, a).identifier == id
}

/// The first translation that breaks a rule decides the outcome, and the
/// error names that rule: translation `i` is the first rejected, and its
/// error is the first of these that applies: one node at both ends; one
/// identifier at both ends; an end whose identifier an earlier translation
/// gave another node; a source end seen for the first time whose model file
/// an earlier node uses (the destination's identifier being bound to no
/// other node). The first clause covers the remaining cases, down to a pair
/// of nodes already joined, through `register`.
pub proof fn lemma_first_violation(ts: Seq<(NodeView, NodeView)>, i: int)
    requires
        instances_consistent(ts),
        0 <= i < ts.len(),
        validate_spec(ts.take(i)) is Ok,
        register(validate_spec(ts.take(i))->Ok_0, ts[i].0, ts[i].1, i as nat) is Err,
    ensures
        validate_spec(ts) == register(validate_spec(ts.take(i))->Ok_0, ts[i].0, ts[i].1, i as nat),
        ts[i].0.instance == ts[i].1.instance ==> validate_spec(ts) == Err::<Registry, Rejection>(
            Rejection::SameInstance(ts[i].0.identifier, ts[i].1.identifier),
        ),
        ts[i].0.instance != ts[i].1.instance && ts[i].0.identifier == ts[i].1.identifier ==> validate_spec(ts)
            == Err::<Registry, Rejection>(Rejection::SameIdentifier(ts[i].0.identifier, ts[i].1.identifier)),
        ts[i].0.instance != ts[i].1.instance && ts[i].0.identifier != ts[i].1.identifier && (exists|j: int, a: bool|
            0 <= j < i && #[trigger] end_of(ts, j, a).identifier == ts[i].0.identifier && end_of(ts, j, a).instance
                != ts[i].0.instance) ==> validate_spec(ts) == Err::<Registry, Rejection>(
            Rejection::DuplicateIdentifier(ts[i].0.identifier),
        ),
        ts[i].0.instance != ts[i].1.instance && ts[i].0.identifier != ts[i].1.identifier && !seen_identifier(ts, i, ts[i].0.identifier)
            && !(exists|j: int, a: bool| 0 <= j < i && #[trigger] end_of(ts, j, a).identifier == ts[i].1.identifier
                && end_of(ts, j, a).instance != ts[i].1.instance)
            && (exists|j: int, a: bool| 0 <= j < i && #[trigger] end_of(ts, j, a).filename == ts[i].0.filename)
            ==> validate_spec(ts) == Err::<Registry, Rejection>(Rejection::DuplicateFilename(ts[i].0.filename)),
{
    assert(ts.take(ts.len() as int) =~= ts);
    lemma_validate_step(ts, i);
    lemma_rejection_sticks(ts, i + 1, ts.len() as int);
    lemma_valid_prefix(ts, i);
    let reg = validate_spec(ts.take(i))->Ok_0;
    let f = ts[i].0;
    if exists|j: int, a: bool| 0 <= j < i && #[trigger] end_of(ts, j, a).identifier == f.identifier && end_of(ts, j, a).instance
        != f.instance {
        let (j, a) = choose|j: int, a: bool| 0 <= j < i && #[trigger] end_of(ts, j, a).identifier == f.identifier
            && end_of(ts, j, a).instance != f.instance;
        assert(registered(reg.nodes, end_of(ts, j, a)));
        let x = choose|x: int| 0 <= x < reg.nodes.len() && #[trigger] reg.nodes[x] == end_of(ts, j, a);
        assert(bound_elsewhere(reg.nodes, f.identifier, f.instance));
    }
    if !seen_identifier(ts, i, f.identifier) {
        if known(reg.nodes, f.identifier) {
            let x = choose|x: int| 0 <= x < reg.nodes.len() && #[trigger] reg.nodes[x].identifier == f.identifier;
            let (j, a) = choose|j: int, a: bool| 0 <= j < i && #[trigger] reg.nodes[x] == end_of(ts, j, a);
            assert(end_of(ts, j, a).identifier == f.identifier);
        }
        if exists|j: int, a: bool| 0 <= j < i && #[trigger] end_of(ts, j, a).filename == f.filename {
            let (j, a) = choose|j: int, a: bool| 0 <= j < i && #[trigger] end_of(ts, j, a).filename == f.filename;
            assert(registered(reg.nodes, end_of(ts, j, a)));
            let x = choose|x: int| 0 <= x < reg.nodes.len() && #[trigger] reg.nodes[x] == end_of(ts, j, a);
            assert(reg.filenames.contains(reg.nodes[x].filename));
            let g = ts[i].1;
            if bound_elsewhere(reg.nodes, g.identifier, g.instance) {
                let y = choose|y: int| 0 <= y < reg.nodes.len() && #[trigger] reg.nodes[y].identifier == g.identifier
                    && reg.nodes[y].instance != g.instance;
                let (j2, a2) = choose|j2: int, a2: bool| 0 <= j2 < i && #[trigger] reg.nodes[y] == end_of(ts, j2, a2);
                assert(end_of(ts, j2, a2).identifier == g.identifier && end_of(ts, j2, a2).instance != g.instance);
            }
        }
    }
}

} // verus!
