//! Breadth-first scheduling of the pushes of one request.

use vstd::prelude::*;

use crate::resolve::{
    copy_link, links_model, resolve, resolve_spec, Content, ContentModel, Failure, Link,
    LinkModel, NodeModel, ResolveError, ResolvedNode, Value, ValueModel,
};
use crate::schema::Schema;
use crate::selection::{selection_for, Selection};

verus! {

/// What a resource of the type `type_id` gives, where `target` is the
/// resource at hand: nothing where there is none, else the resource resolved
/// against its type's own selection.
pub open spec fn resource_spec(schema: Schema, type_id: Seq<char>, target: Option<ValueModel>) -> Result<
    Option<NodeModel>,
    Failure,
> {
    match target {
        None => Ok(None),
        Some(v) => match selection_for(schema, type_id) {
            None => Err(Failure::NoSelection(type_id)),
            Some(sel) => match resolve_spec(v, sel) {
                Ok(n) => Ok(Some(n)),
                Err(e) => Err(e),
            },
        },
    }
}

/// What a deferred link gives once its fetch has answered `fetched`: a link
/// that holds its resource needs no fetch and resolves what it holds.
pub open spec fn fetched_spec(schema: Schema, link: LinkModel, fetched: Option<ValueModel>) -> Result<
    Option<NodeModel>,
    Failure,
> {
    match link.held {
        Some(v) => resource_spec(schema, link.type_id, Some(*v)),
        None => resource_spec(schema, link.type_id, fetched),
    }
}

pub open spec fn option_model(o: Option<Value>) -> Option<ValueModel> {
    match o {
        Some(v) => Some(v@),
        None => None,
    }
}

pub open spec fn fetched_model(s: Seq<Option<Value>>) -> Seq<Option<ValueModel>> {
    s.map_values(|o: Option<Value>| option_model(o))
}

fn resolve_target(schema: &Schema, type_id: &String, target: Option<&Value>) -> (r: Result<
    Option<ResolvedNode>,
    ResolveError,
>)
    requires
        schema.wf(),
    ensures
        ({
            let t = match target {
                Some(v) => Some(v@),
                None => None,
            };
            &&& r matches Ok(None) ==> resource_spec(*schema, type_id@, t) == Ok::<
                Option<NodeModel>,
                Failure,
            >(None)
            &&& r matches Ok(Some(n)) ==> resource_spec(*schema, type_id@, t) == Ok::<
                Option<NodeModel>,
                Failure,
            >(Some(n@))
            &&& r matches Err(e) ==> resource_spec(*schema, type_id@, t) == Err::<
                Option<NodeModel>,
                Failure,
            >(e@)
        }),
{
    match target {
        None => Ok(None),
        Some(v) => match Selection::resource(type_id, schema) {
            None => Err(ResolveError::NoSelection(type_id.clone())),
            Some(sel) => match resolve(v, &sel) {
                Ok(n) => Ok(Some(n)),
                Err(e) => Err(e),
            },
        },
    }
}

/// Resolves a fetched resource of the type `type_id` against that type's own
/// selection; a resource that was not found gives `None`.
pub fn resolve_resource(schema: &Schema, type_id: &String, fetched: &Option<Value>) -> (r: Result<
    Option<ResolvedNode>,
    ResolveError,
>)
    requires
        schema.wf(),
    ensures
        r matches Ok(None) ==> resource_spec(*schema, type_id@, option_model(*fetched)) == Ok::<
            Option<NodeModel>,
            Failure,
        >(None),
        r matches Ok(Some(n)) ==> resource_spec(*schema, type_id@, option_model(*fetched))
            == Ok::<Option<NodeModel>, Failure>(Some(n@)),
        r matches Err(e) ==> resource_spec(*schema, type_id@, option_model(*fetched)) == Err::<
            Option<NodeModel>,
            Failure,
        >(e@),
{
    match fetched {
        Some(v) => resolve_target(schema, type_id, Some(v)),
        None => resolve_target(schema, type_id, None),
    }
}

/// Resolves the resource a deferred link points at: the one it holds, else
/// the one its fetch answered.
fn resolve_deferred(schema: &Schema, link: &Link, fetched: &Option<Value>) -> (r: Result<
    Option<ResolvedNode>,
    ResolveError,
>)
    requires
        schema.wf(),
    ensures
        r matches Ok(None) ==> fetched_spec(*schema, link@, option_model(*fetched)) == Ok::<
            Option<NodeModel>,
            Failure,
        >(None),
        r matches Ok(Some(n)) ==> fetched_spec(*schema, link@, option_model(*fetched)) == Ok::<
            Option<NodeModel>,
            Failure,
        >(Some(n@)),
        r matches Err(e) ==> fetched_spec(*schema, link@, option_model(*fetched)) == Err::<
            Option<NodeModel>,
            Failure,
        >(e@),
{
    match &link.held {
        Some(b) => resolve_target(schema, &link.type_id, Some(&**b)),
        None => resolve_resource(schema, &link.type_id, fetched),
    }
}

/// The first `n` branches of a layer, in order: a pushed unit (address,
/// content and number of deferred links) for each resource found, and the
/// deferred links of all of them one after another.
pub open spec fn layer_spec(
    schema: Schema,
    layer: Seq<LinkModel>,
    fetched: Seq<Option<ValueModel>>,
    n: nat,
) -> Result<(Seq<(Seq<char>, ContentModel, nat)>, Seq<LinkModel>), Failure>
    decreases n,
{
    if n == 0 || n > layer.len() || n > fetched.len() {
        Ok((Seq::empty(), Seq::empty()))
    } else {
        match layer_spec(schema, layer, fetched, (n - 1) as nat) {
            Err(e) => Err(e),
            Ok(prev) => match fetched_spec(schema, layer[n - 1], fetched[n - 1]) {
                Err(e) => Err(e),
                Ok(None) => Ok(prev),
                Ok(Some(node)) => Ok(
                    (
                        prev.0.push((layer[n - 1].address, node.content, node.deferred.len())),
                        prev.1 + node.deferred,
                    ),
                ),
            },
        }
    }
}

/// The links of `raw` whose address is neither in `seen` nor earlier in
/// `raw`, with `seen` extended by their addresses.
pub open spec fn dedupe(seen: Seq<Seq<char>>, raw: Seq<LinkModel>) -> (
    Seq<LinkModel>,
    Seq<Seq<char>>,
)
    decreases raw.len(),
{
    if raw.len() == 0 {
        (Seq::empty(), seen)
    } else {
        let prev = dedupe(seen, raw.drop_last());
        if prev.1.contains(raw.last().address) {
            prev
        } else {
            (prev.0.push(raw.last()), prev.1.push(raw.last().address))
        }
    }
}

/// A resolved resource handed to the transport: its address, its content,
/// and how many links it deferred.
#[derive(Debug, PartialEq)]
pub struct PushUnit {
    pub address: String,
    pub content: Content,
    pub pending: usize,
}

impl View for PushUnit {
    type V = (Seq<char>, ContentModel, nat);

    open spec fn view(&self) -> (Seq<char>, ContentModel, nat) {
        (self.address@, self.content@, self.pending as nat)
    }
}

pub open spec fn units_model(units: Seq<PushUnit>) -> Seq<(Seq<char>, ContentModel, nat)> {
    units.map_values(|u: PushUnit| u@)
}

pub open spec fn strings_model(s: Seq<String>) -> Seq<Seq<char>> {
    s.map_values(|x: String| x@)
}

proof fn lemma_layer_spec_err(
    schema: Schema,
    layer: Seq<LinkModel>,
    fetched: Seq<Option<ValueModel>>,
    n: nat,
    m: nat,
)
    requires
        n <= m <= layer.len(),
        m <= fetched.len(),
        layer_spec(schema, layer, fetched, n) is Err,
    ensures
        layer_spec(schema, layer, fetched, m) == layer_spec(schema, layer, fetched, n),
    decreases m,
{
    if m > n {
        lemma_layer_spec_err(schema, layer, fetched, n, (m - 1) as nat);
    }
}

fn contains_address(seen: &Vec<String>, a: &String) -> (r: bool)
    ensures
        r == strings_model(seen@).contains(a@),
{
    let mut i: usize = 0;
    while i < seen.len()
        invariant
            i <= seen@.len(),
            forall|k: int| 0 <= k < i ==> seen@[k]@ != a@,
        decreases seen@.len() - i,
    {
        if seen[i].eq(a) {
            assert(strings_model(seen@)[i as int] == a@);
            return true;
        }
        i = i + 1;
    }
    proof {
        if strings_model(seen@).contains(a@) {
            let k = choose|k: int|
                0 <= k < strings_model(seen@).len() && strings_model(seen@)[k] == a@;
            assert(seen@[k]@ == a@);
        }
    }
    false
}

fn copy_strings(s: &Vec<String>) -> (r: Vec<String>)
    ensures
        r@ == s@,
{
    let mut r: Vec<String> = Vec::new();
    let mut i: usize = 0;
    while i < s.len()
        invariant
            i <= s@.len(),
            r@ == s@.take(i as int),
        decreases s@.len() - i,
    {
        r.push(s[i].clone());
        assert(r@ =~= s@.take(i + 1));
        i = i + 1;
    }
    assert(s@.take(i as int) =~= s@);
    r
}

fn dedupe_links(seen: &Vec<String>, raw: &Vec<Link>) -> (r: (Vec<Link>, Vec<String>))
    ensures
        links_model(r.0@) == dedupe(strings_model(seen@), links_model(raw@)).0,
        strings_model(r.1@) == dedupe(strings_model(seen@), links_model(raw@)).1,
{
    let ghost seen0 = strings_model(seen@);
    let mut seen = copy_strings(seen);
    let mut kept: Vec<Link> = Vec::new();
    let mut j: usize = 0;
    assert(links_model(raw@).take(0) =~= Seq::<LinkModel>::empty());
    assert(links_model(kept@) =~= Seq::<LinkModel>::empty());
    while j < raw.len()
        invariant
            j <= raw@.len(),
            links_model(kept@) == dedupe(seen0, links_model(raw@).take(j as int)).0,
            strings_model(seen@) == dedupe(seen0, links_model(raw@).take(j as int)).1,
        decreases raw@.len() - j,
    {
        let ghost pre = links_model(raw@).take(j as int);
        let ghost next = links_model(raw@).take(j + 1);
        proof {
            assert(next.drop_last() =~= pre);
            assert(next.last() == raw@[j as int]@);
        }
        if !contains_address(&seen, &raw[j].address) {
            let ghost old_kept = kept@;
            let ghost old_seen = seen@;
            kept.push(copy_link(&raw[j]));
            seen.push(raw[j].address.clone());
            proof {
                assert(links_model(kept@) =~= links_model(old_kept).push(raw@[j as int]@));
                assert(strings_model(seen@) =~= strings_model(old_seen).push(raw@[j as int].address@));
            }
        }
        j = j + 1;
    }
    assert(links_model(raw@).take(j as int) =~= links_model(raw@));
    (kept, seen)
}

/// Drives the pushes of one request, breadth first: each layer holds the
/// links still to be resolved; once the ones that do not hold their resource
/// are fetched, the resources are resolved in order, and the links these
/// defer, less the addresses already scheduled in this request, form the
/// next layer.
pub struct PushScheduler {
    layer: Vec<Link>,
    seen: Vec<String>,
}

impl PushScheduler {
    /// The links of the current layer.
    pub closed spec fn layer_view(&self) -> Seq<LinkModel> {
        links_model(self.layer@)
    }

    /// The addresses scheduled so far in this request.
    pub closed spec fn seen_view(&self) -> Seq<Seq<char>> {
        strings_model(self.seen@)
    }

    /// The scheduler of a request whose primary resource, at `root_address`,
    /// resolved to `root`: its first layer is the root's deferred links, each
    /// address once and the root's own left out.
    pub fn new(root_address: &String, root: &ResolvedNode) -> (r: PushScheduler)
        ensures
            r.layer_view() == dedupe(seq![root_address@], root@.deferred).0,
            r.seen_view() == dedupe(seq![root_address@], root@.deferred).1,
    {
        let mut seen: Vec<String> = Vec::new();
        seen.push(root_address.clone());
        assert(strings_model(seen@) =~= seq![root_address@]);
        let (layer, seen) = dedupe_links(&seen, &root.deferred);
        PushScheduler { layer, seen }
    }

    /// The links of the current layer, in order; those that hold their
    /// resource need no fetch.
    pub fn requests(&self) -> (r: &Vec<Link>)
        ensures
            links_model(r@) == self.layer_view(),
    {
        &self.layer
    }

    /// Whether no link is left to resolve.
    pub fn is_done(&self) -> (r: bool)
        ensures
            r == (self.layer_view().len() == 0),
    {
        self.layer.len() == 0
    }

    /// Takes what the fetches of the current layer answered, in the order of
    /// `requests` (what is given for a link that holds its resource is not
    /// read), and gives the units to push, in that order; the links they
    /// defer become the next layer.
    pub fn advance(&mut self, schema: &Schema, fetched: &Vec<Option<Value>>) -> (r: Result<
        Vec<PushUnit>,
        ResolveError,
    >)
        requires
            schema.wf(),
            fetched@.len() == old(self).layer_view().len(),
        ensures
            r is Ok <==> layer_spec(*schema, old(self).layer_view(), fetched_model(fetched@), fetched@.len()) is Ok,
            r matches Err(e) ==> layer_spec(*schema, old(self).layer_view(), fetched_model(fetched@), fetched@.len())
                == Err::<(Seq<(Seq<char>, ContentModel, nat)>, Seq<LinkModel>), Failure>(e@)
                && *final(self) == *old(self),
            r matches Ok(units) ==> {
                let out = layer_spec(*schema, old(self).layer_view(), fetched_model(fetched@), fetched@.len())->Ok_0;
                &&& units_model(units@) == out.0
                &&& final(self).layer_view() == dedupe(old(self).seen_view(), out.1).0
                &&& final(self).seen_view() == dedupe(old(self).seen_view(), out.1).1
            },
    {
        let ghost layer = self.layer_view();
        let mut units: Vec<PushUnit> = Vec::new();
        let mut raw: Vec<Link> = Vec::new();
        let n = self.layer.len();
        let mut i: usize = 0;
        assert(units_model(units@) =~= Seq::<(Seq<char>, ContentModel, nat)>::empty());
        assert(links_model(raw@) =~= Seq::<LinkModel>::empty());
        while i < n
            invariant
                schema.wf(),
                n == self.layer@.len(),
                n == fetched@.len(),
                layer == self.layer_view(),
                *self == *old(self),
                i <= n,
                layer_spec(*schema, layer, fetched_model(fetched@), i as nat) is Ok,
                units_model(units@) == layer_spec(*schema, layer, fetched_model(fetched@), i as nat)->Ok_0.0,
                links_model(raw@) == layer_spec(*schema, layer, fetched_model(fetched@), i as nat)->Ok_0.1,
            decreases n - i,
        {
            let ghost prev = layer_spec(*schema, layer, fetched_model(fetched@), i as nat)->Ok_0;
            proof {
                assert(layer[i as int] == self.layer@[i as int]@);
                assert(fetched_model(fetched@)[i as int] == option_model(fetched@[i as int]));
            }
            match resolve_deferred(schema, &self.layer[i], &fetched[i]) {
                Err(e) => {
                    proof {
                        lemma_layer_spec_err(
                            *schema,
                            layer,
                            fetched_model(fetched@),
                            (i + 1) as nat,
                            n as nat,
                        );
                    }
                    return Err(e);
                },
                Ok(None) => {},
                Ok(Some(node)) => {
                    let ResolvedNode { content, deferred } = node;
                    let mut deferred = deferred;
                    let ghost node_links = deferred@;
                    let ghost old_units = units@;
                    let ghost old_raw = raw@;
                    let pending = deferred.len();
                    let address = self.layer[i].address.clone();
                    units.push(PushUnit { address, content, pending });
                    raw.append(&mut deferred);
                    proof {
                        assert(units_model(units@) =~= units_model(old_units).push(
                            (layer[i as int].address, content@, pending as nat),
                        ));
                        assert(links_model(raw@) =~= links_model(old_raw) + links_model(node_links));
                        assert(links_model(node_links).len() == pending);
                    }
                },
            }
            i = i + 1;
        }
        let (next, seen) = dedupe_links(&self.seen, &raw);
        self.layer = next;
        self.seen = seen;
        Ok(units)
    }
}

proof fn lemma_pruned_prefix(
    schema: Schema,
    layer: Seq<LinkModel>,
    fetched: Seq<Option<ValueModel>>,
    i: int,
    n: nat,
)
    requires
        layer.len() == fetched.len(),
        0 <= i < layer.len(),
        fetched[i] is None,
        layer[i].held is None,
        n <= layer.len(),
    ensures
        n <= i ==> layer_spec(schema, layer, fetched, n) == layer_spec(
            schema,
            layer.remove(i),
            fetched.remove(i),
            n,
        ),
        n > i ==> layer_spec(schema, layer, fetched, n) == layer_spec(
            schema,
            layer.remove(i),
            fetched.remove(i),
            (n - 1) as nat,
        ),
    decreases n,
{
    if n > 0 {
        lemma_pruned_prefix(schema, layer, fetched, i, (n - 1) as nat);
        if n > i + 1 {
            assert(layer.remove(i)[n - 2] == layer[n - 1]);
            assert(fetched.remove(i)[n - 2] == fetched[n - 1]);
        } else if n <= i {
            assert(layer.remove(i)[n - 1] == layer[n - 1]);
            assert(fetched.remove(i)[n - 1] == fetched[n - 1]);
        }
    }
}

/// A link whose fetch found nothing adds no pushed unit and no deferred link
/// to its layer, and every other branch of the layer gives what it would
/// give without it.
pub proof fn lemma_not_found_pruned(
    schema: Schema,
    layer: Seq<LinkModel>,
    fetched: Seq<Option<ValueModel>>,
    i: int,
)
    requires
        layer.len() == fetched.len(),
        0 <= i < layer.len(),
        fetched[i] is None,
        layer[i].held is None,
    ensures
        layer_spec(schema, layer, fetched, layer.len()) == layer_spec(
            schema,
            layer.remove(i),
            fetched.remove(i),
            (layer.len() - 1) as nat,
        ),
{
    lemma_pruned_prefix(schema, layer, fetched, i, layer.len());
}

} // verus!
