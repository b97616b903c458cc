//! What the reference nodes decide: names of their files and endpoints, the
//! patch a remote service receives for a difference, and the models a
//! co-simulation node keeps.
use vstd::prelude::*;
use vstd::string::*;
use crate::model::{Block, Model, ModelDiff};
use crate::ordered_map::{has_key, lemma_index_of, OrderedMap, ExactView, lookup};
use crate::value::Value;

verus! {

/// The credential sent to a remote modeling service.
pub enum SedaroCredentials {
    ApiKey(String),
    AuthHandle(String),
}

impl SedaroCredentials {
    /// The authentication header: its name and its value.
    pub fn auth_header(&self) -> (r: (String, String))
        ensures
            self is ApiKey ==> r.0@ == "X_API_KEY"@ && r.1@ == self->ApiKey_0@,
            self is AuthHandle ==> r.0@ == "X_AUTH_HANDLE"@ && r.1@ == self->AuthHandle_0@,
    {
        match self {
            SedaroCredentials::ApiKey(k) => (String::from_str("X_API_KEY"), k.clone()),
            SedaroCredentials::AuthHandle(h) => (String::from_str("X_AUTH_HANDLE"), h.clone()),
        }
    }
}

/// Which simulation job a co-simulation node attaches to.
pub enum SimulationJobId {
    /// The job with this identifier.
    Id(String),
    /// The latest job of this scenario.
    LatestForScenario(String),
}

impl SimulationJobId {
    /// The identifier that names the node's model file.
    pub fn job_iden(&self) -> (r: String)
        ensures
            self is Id ==> r@ == self->Id_0@,
            self is LatestForScenario ==> r@ == self->LatestForScenario_0@,
    {
        match self {
            SimulationJobId::Id(id) => id.clone(),
            SimulationJobId::LatestForScenario(id) => id.clone(),
        }
    }

    /// The endpoint that reports the job's status.
    pub fn status_url(&self, host_url: &String) -> (r: String)
        ensures
            self is Id ==> r@ == host_url@ + "/simulations/jobs/"@ + self->Id_0@,
            self is LatestForScenario ==> r@ == host_url@ + "/simulations/branches/"@
                + self->LatestForScenario_0@ + "/control?latest"@,
    {
        match self {
            SimulationJobId::Id(id) => {
                let mut r = host_url.clone();
                r.append("/simulations/jobs/");
                r.append(id.as_str());
                r
            },
            SimulationJobId::LatestForScenario(id) => {
                let mut r = host_url.clone();
                r.append("/simulations/branches/");
                r.append(id.as_str());
                r.append("/control?latest");
                r
            },
        }
    }
}

/// The date a remote model was last modified, as last seen.
pub struct RemoteMetadata {
    pub date_modified: String,
}

/// `s` without its double quotes.
pub open spec fn unquoted(s: Seq<char>) -> Seq<char>
    decreases s.len(),
{
    if s.len() == 0 {
        s
    } else if s.last() == '"' {
        unquoted(s.drop_last())
    } else {
        unquoted(s.drop_last()).push(s.last())
    }
}

/// Relies on `str::replace`: every double quote is replaced by nothing.
#[verifier::external_body]
fn drop_quotes(s: &str) -> (r: String)
    ensures
        r@ == unquoted(s@),
{
    s.replace('"', "")
}

impl RemoteMetadata {
    /// Metadata as read from its file: quotes inside the date are dropped.
    pub fn from_stored(date_modified: &str) -> (r: RemoteMetadata)
        ensures
            r.date_modified@ == unquoted(date_modified@),
    {
        RemoteMetadata { date_modified: drop_quotes(date_modified) }
    }

    /// Whether the remote model changed since the stored date.
    pub fn is_stale(&self, fetched_date: &String) -> (r: bool)
        ensures
            r == (self.date_modified@ != fetched_date@),
    {
        self.date_modified != *fetched_date
    }
}

/// The model file of a remote branch.
pub fn sedaro_model_filename(branch_id: &String) -> (r: String)
    ensures
        r@ == branch_id@ + ".json"@,
{
    let mut r = branch_id.clone();
    r.append(".json");
    r
}

/// The metadata file kept beside a remote branch's model file.
pub fn metadata_filename(branch_id: &String) -> (r: String)
    ensures
        r@ == branch_id@ + ".metadata.json"@,
{
    let mut r = branch_id.clone();
    r.append(".metadata.json");
    r
}

/// The endpoint of a remote branch.
pub fn branch_url(host_url: &String, branch_id: &String) -> (r: String)
    ensures
        r@ == host_url@ + "/models/branches/"@ + branch_id@,
{
    let mut r = host_url.clone();
    r.append("/models/branches/");
    r.append(branch_id.as_str());
    r
}

/// The model file generated from a spreadsheet.
pub fn excel_model_filename(excel_filename: &String) -> (r: String)
    ensures
        r@ == excel_filename@ + ".json"@,
{
    let mut r = excel_filename.clone();
    r.append(".json");
    r
}

/// The model file of a co-simulation node.
pub fn cosim_model_filename(job_iden: &String, agent_id: &String, external_state_id: &String) -> (r: String)
    ensures
        r@ == job_iden@ + "_"@ + agent_id@ + "_"@ + external_state_id@ + ".json"@,
{
    let mut r = job_iden.clone();
    r.append("_");
    r.append(agent_id.as_str());
    r.append("_");
    r.append(external_state_id.as_str());
    r.append(".json");
    r
}

/// The endpoint of a co-simulation node's external state in a running job.
pub fn cosim_url(host_url: &String, job_id: &String, agent_id: &String, external_state_id: &String) -> (r: String)
    ensures
        r@ == host_url@ + "/simulations/jobs/"@ + job_id@ + "/externals/"@ + agent_id@ + "/"@
            + external_state_id@,
{
    let mut r = host_url.clone();
    r.append("/simulations/jobs/");
    r.append(job_id.as_str());
    r.append("/externals/");
    r.append(agent_id.as_str());
    r.append("/");
    r.append(external_state_id.as_str());
    r
}

/// A co-simulation node attaches only to a job whose status is `RUNNING`.
pub fn job_is_running(status: &str) -> (r: bool)
    ensures
        r == (status@ == "RUNNING"@),
{
    String::from_str(status) == String::from_str("RUNNING")
}

/// The body of a patch request to a remote service.
pub struct TemplatePatch {
    /// The root fields that changed, with their new values.
    pub root: Block,
    /// Updated blocks as they now stand, then added blocks.
    pub blocks: Vec<Block>,
    /// Identifiers of removed blocks.
    pub delete: Vec<String>,
}

/// Whether a remote service must be read again after a patch: it assigns
/// its own identifiers to added blocks.
pub fn needs_refetch(diff: &ModelDiff) -> (r: bool)
    ensures
        r == (diff@.added_blocks.len() > 0),
{
    diff.added_blocks.len() > 0
}

impl TemplatePatch {
    /// The patch that brings a remote service from the old model to `model`,
    /// given the difference `diff` between them: updated blocks as they
    /// stand in `model` and added blocks are upserted, removed blocks are
    /// deleted, and changed root fields take their new values.
    pub fn for_diff(model: &Model, diff: &ModelDiff) -> (r: TemplatePatch)
        requires
            forall|i: int| 0 <= i < diff@.updated_blocks.len() ==> has_key(model@.blocks, #[trigger] diff@.updated_blocks[i].0),
        ensures
            r.root@ == diff@.root.updated.map_values(|e: (Seq<char>, (Seq<char>, Seq<char>))| (e.0, e.1.1)),
            r.blocks@.len() == diff@.updated_blocks.len() + diff@.added_blocks.len(),
            forall|i: int| 0 <= i < diff@.updated_blocks.len() ==> #[trigger] r.blocks@[i]@ == lookup(model@.blocks, diff@.updated_blocks[i].0),
            forall|i: int| 0 <= i < diff@.added_blocks.len() ==> #[trigger] r.blocks@[diff@.updated_blocks.len() + i]@ == diff@.added_blocks[i].1,
            r.delete@.map_values(|s: String| s@) == diff@.removed_blocks.map_values(|e: (Seq<char>, Seq<(Seq<char>, Seq<char>)>)| e.0),
    {
        let ghost upd = diff@.root.updated;
        let mut root: Block = OrderedMap::new();
        let n = diff.root.updated_fields.len();
        let mut i: usize = 0;
        while i < n
            invariant
                n == upd.len(),
                upd == diff@.root.updated,
                crate::ordered_map::distinct_keys(upd),
                i <= n,
                root@ == upd.take(i as int).map_values(|e: (Seq<char>, (Seq<char>, Seq<char>))| (e.0, e.1.1)),
            decreases n - i,
        {
            let (k, vd) = diff.root.updated_fields.get_index(i);
            proof {
                crate::diff_spec::lemma_fresh_in_prefix(upd, i as int);
                if has_key(root@, k@) {
                    let j = choose|j: int| 0 <= j < root@.len() && #[trigger] root@[j].0 == k@;
                    assert(upd.take(i as int)[j].0 == k@);
                    assert(has_key(upd.take(i as int), k@));
                }
            }
            root.insert(k.clone(), vd.new_value.clone());
            assert(root@ =~= upd.take(i + 1).map_values(|e: (Seq<char>, (Seq<char>, Seq<char>))| (e.0, e.1.1)));
            i = i + 1;
        }
        assert(upd.take(n as int) =~= upd);
        let mut blocks: Vec<Block> = Vec::new();
        let nu = diff.updated_blocks.len();
        let mut j: usize = 0;
        while j < nu
            invariant
                nu == diff@.updated_blocks.len(),
                forall|i: int| 0 <= i < diff@.updated_blocks.len() ==> has_key(model@.blocks, #[trigger] diff@.updated_blocks[i].0),
                j <= nu,
                blocks@.len() == j,
                forall|i: int| 0 <= i < j ==> #[trigger] blocks@[i]@ == lookup(model@.blocks, diff@.updated_blocks[i].0),
            decreases nu - j,
        {
            let (id, _) = diff.updated_blocks.get_index(j);
            assert(has_key(model@.blocks, diff@.updated_blocks[j as int].0));
            proof {
                lemma_index_of(model@.blocks, id@);
            }
            let b = model.blocks.get(id).unwrap();
            blocks.push(b.copy_exact());
            j = j + 1;
        }
        let na = diff.added_blocks.len();
        let mut j: usize = 0;
        while j < na
            invariant
                nu == diff@.updated_blocks.len(),
                na == diff@.added_blocks.len(),
                j <= na,
                blocks@.len() == nu + j,
                forall|i: int| 0 <= i < nu ==> #[trigger] blocks@[i]@ == lookup(model@.blocks, diff@.updated_blocks[i].0),
                forall|i: int| 0 <= i < j ==> #[trigger] blocks@[nu + i]@ == diff@.added_blocks[i].1,
            decreases na - j,
        {
            let (_, b) = diff.added_blocks.get_index(j);
            blocks.push(b.copy_exact());
            j = j + 1;
        }
        let mut delete: Vec<String> = Vec::new();
        let nr = diff.removed_blocks.len();
        let mut j: usize = 0;
        while j < nr
            invariant
                nr == diff@.removed_blocks.len(),
                j <= nr,
                delete@.len() == j,
                forall|i: int| 0 <= i < j ==> #[trigger] delete@[i]@ == diff@.removed_blocks[i].0,
            decreases nr - j,
        {
            let (id, _) = diff.removed_blocks.get_index(j);
            delete.push(id.clone());
            j = j + 1;
        }
        assert(delete@.map_values(|s: String| s@) =~= diff@.removed_blocks.map_values(
            |e: (Seq<char>, Seq<(Seq<char>, Seq<char>)>)| e.0,
        ));
        TemplatePatch { root, blocks, delete }
    }
}

/// The value a co-simulation node sends on: the new value of the root field
/// `produced_value`, when the difference changed it.
pub fn produced_value(diff: &ModelDiff) -> (r: Option<Value>)
    ensures
        has_key(diff@.root.updated, "produced_value"@) ==> (r matches Some(v) && v@ == lookup(
            diff@.root.updated,
            "produced_value"@,
        ).1),
        !has_key(diff@.root.updated, "produced_value"@) ==> r is None,
{
    match diff.root.updated_fields.get("produced_value") {
        Some(vd) => Some(vd.new_value.clone()),
        None => None,
    }
}

/// The model of a co-simulation node: no blocks, no index, and the root
/// fields `consumed_value` (as read from the simulation) and
/// `produced_value`.
pub fn cosim_model(consumed: Value, produced: Value) -> (r: Model)
    ensures
        r@.blocks.len() == 0,
        r@.index.len() == 0,
        r@.root == seq![("consumed_value"@, consumed@), ("produced_value"@, produced@)],
{
    let mut m = Model::new();
    proof {
        reveal_strlit("consumed_value");
        reveal_strlit("produced_value");
    }
    m.root.insert(String::from_str("consumed_value"), consumed);
    assert(m@.root =~= seq![("consumed_value"@, consumed@)]);
    m.root.insert(String::from_str("produced_value"), produced);
    assert(!has_key(seq![("consumed_value"@, consumed@)], "produced_value"@)) by {
        assert("consumed_value"@ != "produced_value"@) by {
            assert("consumed_value"@[0] != "produced_value"@[0]);
        }
    }
    assert(m@.root =~= seq![("consumed_value"@, consumed@), ("produced_value"@, produced@)]);
    m
}

/// Top-level keys of a model file that are not root fields.
pub open spec fn reserved_key(k: Seq<char>) -> bool {
    k == "_blockNames"@ || k == "_quantityKinds"@ || k == "_relationships"@ || k == "_supers"@
        || k == "_abstractBlockTypes"@ || k == "blocks"@ || k == "index"@ || k == "migrated"@
        || k == "issues"@
}

fn is_key(k: &String, name: &str) -> (r: bool)
    ensures
        r == (k@ == name@),
{
    *k == String::from_str(name)
}

fn is_reserved(k: &String) -> (r: bool)
    ensures
        r == reserved_key(k@),
{
    is_key(k, "_blockNames") || is_key(k, "_quantityKinds") || is_key(k, "_relationships") || is_key(
        k,
        "_supers",
    ) || is_key(k, "_abstractBlockTypes") || is_key(k, "blocks") || is_key(k, "index") || is_key(
        k,
        "migrated",
    ) || is_key(k, "issues")
}

/// Fields `s` without the reserved keys, in order.
pub open spec fn without_reserved(s: Seq<(Seq<char>, Seq<char>)>) -> Seq<(Seq<char>, Seq<char>)>
    decreases s.len(),
{
    if s.len() == 0 {
        s
    } else if reserved_key(s.last().0) {
        without_reserved(s.drop_last())
    } else {
        without_reserved(s.drop_last()).push(s.last())
    }
}

proof fn lemma_without_reserved_keys(s: Seq<(Seq<char>, Seq<char>)>)
    ensures
        crate::diff_spec::keys_within(without_reserved(s), s),
    decreases s.len(),
{
    if s.len() > 0 {
        lemma_without_reserved_keys(s.drop_last());
        crate::diff_spec::lemma_drop_last_keys(s);
        crate::diff_spec::lemma_push_keys(without_reserved(s.drop_last()), s.last());
    }
}

/// The root fields as loaded: every reserved key is dropped, the rest keep
/// their order.
pub fn strip_reserved(root: &Block) -> (r: Block)
    ensures
        r@ == without_reserved(root@),
{
    let n = root.len();
    let mut out: Block = OrderedMap::new();
    let mut i: usize = 0;
    while i < n
        invariant
            n == root@.len(),
            crate::ordered_map::distinct_keys(root@),
            i <= n,
            out@ == without_reserved(root@.take(i as int)),
        decreases n - i,
    {
        let (k, v) = root.get_index(i);
        proof {
            crate::diff_spec::lemma_prefix_step(root@, i as int);
            lemma_without_reserved_keys(root@.take(i as int));
            crate::diff_spec::lemma_fresh_in_prefix(root@, i as int);
        }
        if !is_reserved(k) {
            out.insert(k.clone(), v.clone());
        }
        i = i + 1;
    }
    assert(root@.take(n as int) =~= root@);
    out
}

} // verus!
