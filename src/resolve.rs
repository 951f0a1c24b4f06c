//! Resolution of a value against its selection into content and deferred
//! links.

use vstd::prelude::*;

use crate::selection::{Selection, SelectionModel};

verus! {

/// A link to a resource: its type, its stable address, and the resource
/// itself where it is already held, so that no fetch is needed.
#[derive(Debug, PartialEq)]
pub struct Link {
    pub type_id: String,
    pub address: String,
    pub held: Option<Box<Value>>,
}

/// A named field of an object value.
#[derive(Debug, PartialEq)]
pub struct FieldValue {
    pub name: String,
    pub value: Value,
}

/// A live value of some registered type.
#[derive(Debug, PartialEq)]
pub enum Value {
    Str(String),
    Int(i64),
    Bool(bool),
    Object(Vec<FieldValue>),
    List(Vec<Value>),
    Link(Link),
}

/// `Link` with its strings taken as character sequences.
pub struct LinkModel {
    pub type_id: Seq<char>,
    pub address: Seq<char>,
    pub held: Option<Box<ValueModel>>,
}

/// `Value` with its strings taken as character sequences.
pub enum ValueModel {
    Str(Seq<char>),
    Int(i64),
    Bool(bool),
    Object(Seq<(Seq<char>, ValueModel)>),
    List(Seq<ValueModel>),
    Link(LinkModel),
}

pub open spec fn value_model(v: Value) -> ValueModel
    decreases v,
{
    match v {
        Value::Str(s) => ValueModel::Str(s@),
        Value::Int(n) => ValueModel::Int(n),
        Value::Bool(b) => ValueModel::Bool(b),
        Value::Object(fields) => ValueModel::Object(
            Seq::new(
                fields@.len(),
                |i: int|
                    if 0 <= i < fields@.len() {
                        (fields@[i].name@, value_model(fields@[i].value))
                    } else {
                        (Seq::empty(), ValueModel::Int(0))
                    },
            ),
        ),
        Value::List(items) => ValueModel::List(
            Seq::new(
                items@.len(),
                |i: int|
                    if 0 <= i < items@.len() {
                        value_model(items@[i])
                    } else {
                        ValueModel::Int(0)
                    },
            ),
        ),
        Value::Link(l) => ValueModel::Link(
            LinkModel {
                type_id: l.type_id@,
                address: l.address@,
                held: match l.held {
                    Some(b) => Some(Box::new(value_model(*b))),
                    None => None,
                },
            },
        ),
    }
}

impl View for Value {
    type V = ValueModel;

    open spec fn view(&self) -> ValueModel {
        value_model(*self)
    }
}

impl View for Link {
    type V = LinkModel;

    open spec fn view(&self) -> LinkModel {
        value_model(Value::Link(*self))->Link_0
    }
}

pub open spec fn links_model(links: Seq<Link>) -> Seq<LinkModel> {
    links.map_values(|l: Link| l@)
}

/// A named entry of object content.
#[derive(Debug, PartialEq)]
pub struct ContentField {
    pub key: String,
    pub content: Content,
}

/// Output content: a structured value, ready to be serialized.
#[derive(Debug, PartialEq)]
pub enum Content {
    Null,
    Bool(bool),
    Int(i64),
    Str(String),
    Array(Vec<Content>),
    Object(Vec<ContentField>),
}

/// `Content` with its strings taken as character sequences.
pub enum ContentModel {
    Null,
    Bool(bool),
    Int(i64),
    Str(Seq<char>),
    Array(Seq<ContentModel>),
    Object(Seq<(Seq<char>, ContentModel)>),
}

pub open spec fn content_model(c: Content) -> ContentModel
    decreases c,
{
    match c {
        Content::Null => ContentModel::Null,
        Content::Bool(b) => ContentModel::Bool(b),
        Content::Int(n) => ContentModel::Int(n),
        Content::Str(s) => ContentModel::Str(s@),
        Content::Array(items) => ContentModel::Array(
            Seq::new(
                items@.len(),
                |i: int|
                    if 0 <= i < items@.len() {
                        content_model(items@[i])
                    } else {
                        ContentModel::Null
                    },
            ),
        ),
        Content::Object(fields) => ContentModel::Object(
            Seq::new(
                fields@.len(),
                |i: int|
                    if 0 <= i < fields@.len() {
                        (fields@[i].key@, content_model(fields@[i].content))
                    } else {
                        (Seq::empty(), ContentModel::Null)
                    },
            ),
        ),
    }
}

impl View for Content {
    type V = ContentModel;

    open spec fn view(&self) -> ContentModel {
        content_model(*self)
    }
}

/// A resolved value: its content, and the links it touched, each still to be
/// fetched and resolved.
#[derive(Debug, PartialEq)]
pub struct ResolvedNode {
    pub content: Content,
    pub deferred: Vec<Link>,
}

/// `ResolvedNode` as content and deferred links.
pub struct NodeModel {
    pub content: ContentModel,
    pub deferred: Seq<LinkModel>,
}

impl View for ResolvedNode {
    type V = NodeModel;

    open spec fn view(&self) -> NodeModel {
        NodeModel { content: self.content@, deferred: links_model(self.deferred@) }
    }
}

/// Why a value cannot be resolved.
#[derive(Debug, Clone, PartialEq)]
pub enum ResolveError {
    /// The value lacks a field that its selection names.
    MissingField(String),
    /// No selection can be built for the linked type.
    NoSelection(String),
}

/// `ResolveError` with its strings taken as character sequences.
pub enum Failure {
    MissingField(Seq<char>),
    NoSelection(Seq<char>),
}

impl View for ResolveError {
    type V = Failure;

    open spec fn view(&self) -> Failure {
        match self {
            ResolveError::MissingField(n) => Failure::MissingField(n@),
            ResolveError::NoSelection(n) => Failure::NoSelection(n@),
        }
    }
}

pub open spec fn null_node() -> NodeModel {
    NodeModel { content: ContentModel::Null, deferred: Seq::empty() }
}

/// The index of the last field of the value named `name`, or -1.
pub open spec fn value_field_index(fields: Seq<(Seq<char>, ValueModel)>, name: Seq<char>) -> int
    decreases fields.len(),
{
    if fields.len() == 0 {
        -1
    } else if fields.last().0 == name {
        fields.len() - 1
    } else {
        value_field_index(fields.drop_last(), name)
    }
}

proof fn lemma_value_field_index(fields: Seq<(Seq<char>, ValueModel)>, name: Seq<char>)
    ensures
        -1 <= value_field_index(fields, name) < fields.len(),
    decreases fields.len(),
{
    if fields.len() > 0 {
        lemma_value_field_index(fields.drop_last(), name);
    }
}

/// Resolves `v` against `s`: scalars give their own content; an object gives
/// its selected fields in selection order; a list gives its items in order;
/// a link gives its address and defers the linked resource. A value whose
/// shape does not match its selection gives null.
pub open spec fn resolve_spec(v: ValueModel, s: SelectionModel) -> Result<NodeModel, Failure>
    decreases v, 0nat,
{
    match s {
        SelectionModel::Scalar => match v {
            ValueModel::Str(x) => Ok(NodeModel { content: ContentModel::Str(x), deferred: Seq::empty() }),
            ValueModel::Int(n) => Ok(NodeModel { content: ContentModel::Int(n), deferred: Seq::empty() }),
            ValueModel::Bool(b) => Ok(NodeModel { content: ContentModel::Bool(b), deferred: Seq::empty() }),
            _ => Ok(null_node()),
        },
        SelectionModel::Object(sfs) => match v {
            ValueModel::Object(vf) => match fields_resolve(vf, sfs, sfs.len()) {
                Ok(r) => Ok(NodeModel { content: ContentModel::Object(r.0), deferred: r.1 }),
                Err(e) => Err(e),
            },
            _ => Ok(null_node()),
        },
        SelectionModel::List(_, item) => match v {
            ValueModel::List(items) => match items_resolve(items, *item, items.len()) {
                Ok(r) => Ok(NodeModel { content: ContentModel::Array(r.0), deferred: r.1 }),
                Err(e) => Err(e),
            },
            _ => Ok(null_node()),
        },
        SelectionModel::Link => match v {
            ValueModel::Link(l) => Ok(
                NodeModel { content: ContentModel::Str(l.address), deferred: seq![l] },
            ),
            _ => Ok(null_node()),
        },
    }
}

/// The first `n` selected fields of an object value, resolved in order: their
/// names with their content, and their deferred links one after another.
pub open spec fn fields_resolve(
    vf: Seq<(Seq<char>, ValueModel)>,
    sfs: Seq<(Seq<char>, SelectionModel)>,
    n: nat,
) -> Result<(Seq<(Seq<char>, ContentModel)>, Seq<LinkModel>), Failure>
    decreases vf, n + 1,
{
    if n == 0 || n > sfs.len() {
        Ok((Seq::empty(), Seq::empty()))
    } else {
        match fields_resolve(vf, sfs, (n - 1) as nat) {
            Err(e) => Err(e),
            Ok(prev) => {
                let k = value_field_index(vf, sfs[n - 1].0);
                if 0 <= k < vf.len() {
                    match resolve_spec(vf[k].1, sfs[n - 1].1) {
                        Err(e) => Err(e),
                        Ok(node) => Ok(
                            (prev.0.push((sfs[n - 1].0, node.content)), prev.1 + node.deferred),
                        ),
                    }
                } else {
                    Err(Failure::MissingField(sfs[n - 1].0))
                }
            },
        }
    }
}

/// The first `n` items of a list value, resolved in order: their content, and
/// their deferred links one after another.
pub open spec fn items_resolve(items: Seq<ValueModel>, s: SelectionModel, n: nat) -> Result<
    (Seq<ContentModel>, Seq<LinkModel>),
    Failure,
>
    decreases items, n + 1,
{
    if n == 0 || n > items.len() {
        Ok((Seq::empty(), Seq::empty()))
    } else {
        match items_resolve(items, s, (n - 1) as nat) {
            Err(e) => Err(e),
            Ok(prev) => match resolve_spec(items[n - 1], s) {
                Err(e) => Err(e),
                Ok(node) => Ok((prev.0.push(node.content), prev.1 + node.deferred)),
            },
        }
    }
}

proof fn lemma_fields_resolve_err(
    vf: Seq<(Seq<char>, ValueModel)>,
    sfs: Seq<(Seq<char>, SelectionModel)>,
    n: nat,
    m: nat,
)
    requires
        n <= m <= sfs.len(),
        fields_resolve(vf, sfs, n) is Err,
    ensures
        fields_resolve(vf, sfs, m) == fields_resolve(vf, sfs, n),
    decreases m,
{
    if m > n {
        lemma_fields_resolve_err(vf, sfs, n, (m - 1) as nat);
    }
}

proof fn lemma_items_resolve_err(items: Seq<ValueModel>, s: SelectionModel, n: nat, m: nat)
    requires
        n <= m <= items.len(),
        items_resolve(items, s, n) is Err,
    ensures
        items_resolve(items, s, m) == items_resolve(items, s, n),
    decreases m,
{
    if m > n {
        lemma_items_resolve_err(items, s, n, (m - 1) as nat);
    }
}

/// The index of the last field of the value named `name`, if any.
fn find_value_field(
    fields: &Vec<FieldValue>,
    name: &String,
    Ghost(fm): Ghost<Seq<(Seq<char>, ValueModel)>>,
) -> (r: Option<usize>)
    requires
        fm.len() == fields@.len(),
        forall|i: int| 0 <= i < fm.len() ==> #[trigger] fm[i].0 == fields@[i].name@,
    ensures
        r is None <==> value_field_index(fm, name@) == -1,
        r matches Some(k) ==> k == value_field_index(fm, name@) && k < fields@.len(),
{
    proof {
        lemma_value_field_index(fm, name@);
    }
    let mut i: usize = fields.len();
    assert(fm.take(i as int) =~= fm);
    while i > 0
        invariant
            i <= fields@.len(),
            fm.len() == fields@.len(),
            forall|j: int| 0 <= j < fm.len() ==> #[trigger] fm[j].0 == fields@[j].name@,
            value_field_index(fm, name@) == value_field_index(fm.take(i as int), name@),
        decreases i,
    {
        let ghost pre = fm.take(i as int);
        assert(pre.last().0 == fields@[i - 1].name@);
        if fields[i - 1].name.eq(name) {
            return Some(i - 1);
        }
        assert(pre.drop_last() =~= fm.take(i - 1));
        i = i - 1;
    }
    assert(fm.take(0) =~= Seq::<(Seq<char>, ValueModel)>::empty());
    None
}

/// A copy of a value.
pub fn copy_value(v: &Value) -> (r: Value)
    ensures
        r@ == v@,
    decreases v,
{
    match v {
        Value::Str(s) => Value::Str(s.clone()),
        Value::Int(n) => Value::Int(*n),
        Value::Bool(b) => Value::Bool(*b),
        Value::Object(fields) => {
            let ghost fm = v@->Object_0;
            let mut out: Vec<FieldValue> = Vec::new();
            let mut i: usize = 0;
            while i < fields.len()
                invariant
                    *v == Value::Object(*fields),
                    fm == v@->Object_0,
                    fm.len() == fields@.len(),
                    forall|q: int|
                        0 <= q < fields@.len() ==> #[trigger] fm[q] == (
                            fields@[q].name@,
                            fields@[q].value@,
                        ),
                    i <= fields@.len(),
                    out@.len() == i,
                    forall|j: int|
                        0 <= j < i ==> (#[trigger] out@[j]).name@ == fields@[j].name@
                            && out@[j].value@ == fields@[j].value@,
                decreases fields@.len() - i,
            {
                let value = copy_value(&fields[i].value);
                out.push(FieldValue { name: fields[i].name.clone(), value });
                i = i + 1;
            }
            let r = Value::Object(out);
            assert(r@->Object_0 =~= v@->Object_0);
            r
        },
        Value::List(items) => {
            let ghost vm = v@->List_0;
            let mut out: Vec<Value> = Vec::new();
            let mut i: usize = 0;
            while i < items.len()
                invariant
                    *v == Value::List(*items),
                    vm == v@->List_0,
                    vm.len() == items@.len(),
                    forall|q: int| 0 <= q < items@.len() ==> #[trigger] vm[q] == items@[q]@,
                    i <= items@.len(),
                    out@.len() == i,
                    forall|j: int| 0 <= j < i ==> (#[trigger] out@[j])@ == items@[j]@,
                decreases items@.len() - i,
            {
                out.push(copy_value(&items[i]));
                i = i + 1;
            }
            let r = Value::List(out);
            assert(r@->List_0 =~= v@->List_0);
            r
        },
        Value::Link(l) => {
            let held = match &l.held {
                Some(b) => Some(Box::new(copy_value(b))),
                None => None,
            };
            Value::Link(Link { type_id: l.type_id.clone(), address: l.address.clone(), held })
        },
    }
}

/// A copy of a link.
pub fn copy_link(l: &Link) -> (r: Link)
    ensures
        r@ == l@,
{
    let held = match &l.held {
        Some(b) => Some(Box::new(copy_value(b))),
        None => None,
    };
    Link { type_id: l.type_id.clone(), address: l.address.clone(), held }
}

fn null_resolved() -> (r: ResolvedNode)
    ensures
        r@ == null_node(),
{
    let r = ResolvedNode { content: Content::Null, deferred: Vec::new() };
    assert(links_model(r.deferred@) =~= Seq::<LinkModel>::empty());
    r
}

fn leaf(content: Content) -> (r: ResolvedNode)
    ensures
        r@ == (NodeModel { content: content@, deferred: Seq::empty() }),
{
    let r = ResolvedNode { content, deferred: Vec::new() };
    assert(links_model(r.deferred@) =~= Seq::<LinkModel>::empty());
    r
}

/// Resolves a value against its selection into content and deferred links.
/// Fails only where an object value lacks a field that the selection names.
pub fn resolve(v: &Value, s: &Selection) -> (r: Result<ResolvedNode, ResolveError>)
    ensures
        r matches Ok(n) ==> resolve_spec(v@, s@) == Ok::<NodeModel, Failure>(n@),
        r matches Err(e) ==> resolve_spec(v@, s@) == Err::<NodeModel, Failure>(e@),
    decreases v,
{
    match s {
        Selection::Scalar => match v {
            Value::Str(x) => Ok(leaf(Content::Str(x.clone()))),
            Value::Int(n) => Ok(leaf(Content::Int(*n))),
            Value::Bool(b) => Ok(leaf(Content::Bool(*b))),
            _ => Ok(null_resolved()),
        },
        Selection::Link => match v {
            Value::Link(l) => {
                let mut deferred: Vec<Link> = Vec::new();
                deferred.push(copy_link(l));
                let r = ResolvedNode { content: Content::Str(l.address.clone()), deferred };
                assert(links_model(r.deferred@) =~= seq![l@]);
                Ok(r)
            },
            _ => Ok(null_resolved()),
        },
        Selection::Object(sfs) => match v {
            Value::Object(vf) => {
                let ghost sm = s@->Object_0;
                let ghost fm = v@->Object_0;
                let mut entries: Vec<ContentField> = Vec::new();
                let mut deferred: Vec<Link> = Vec::new();
                let mut j: usize = 0;
                while j < sfs.len()
                    invariant
                        sm == s@->Object_0,
                        fm == v@->Object_0,
                        *s == Selection::Object(*sfs),
                        *v == Value::Object(*vf),
                        sm.len() == sfs@.len(),
                        forall|q: int|
                            0 <= q < sfs@.len() ==> #[trigger] sm[q] == (
                                sfs@[q].name@,
                                sfs@[q].selection@,
                            ),
                        fm.len() == vf@.len(),
                        forall|q: int|
                            0 <= q < vf@.len() ==> #[trigger] fm[q] == (
                                vf@[q].name@,
                                vf@[q].value@,
                            ),
                        j <= sfs@.len(),
                        fields_resolve(fm, sm, j as nat) is Ok,
                        entries@.len() == j,
                        forall|q: int|
                            0 <= q < j ==> (#[trigger] entries@[q].key@, entries@[q].content@)
                                == (fields_resolve(fm, sm, j as nat)->Ok_0).0[q],
                        (fields_resolve(fm, sm, j as nat)->Ok_0).0.len() == j,
                        links_model(deferred@) == (fields_resolve(fm, sm, j as nat)->Ok_0).1,
                    decreases sfs@.len() - j,
                {
                    let ghost prev = fields_resolve(fm, sm, j as nat)->Ok_0;
                    let k = match find_value_field(vf, &sfs[j].name, Ghost(fm)) {
                        Some(k) => k,
                        None => {
                            proof {
                                lemma_value_field_index(fm, sm[j as int].0);
                                lemma_fields_resolve_err(fm, sm, (j + 1) as nat, sm.len());
                            }
                            return Err(ResolveError::MissingField(sfs[j].name.clone()));
                        },
                    };
                    let mut node = match resolve(&vf[k].value, &sfs[j].selection) {
                        Ok(node) => node,
                        Err(e) => {
                            proof {
                                lemma_fields_resolve_err(fm, sm, (j + 1) as nat, sm.len());
                            }
                            return Err(e);
                        },
                    };
                    let ghost node_links = node.deferred@;
                    entries.push(ContentField { key: sfs[j].name.clone(), content: node.content });
                    deferred.append(&mut node.deferred);
                    proof {
                        let cur = fields_resolve(fm, sm, (j + 1) as nat)->Ok_0;
                        assert(links_model(deferred@) =~= prev.1 + links_model(node_links));
                        assert forall|q: int|
                            0 <= q < j + 1 implies (#[trigger] entries@[q].key@, entries@[q].content@)
                            == cur.0[q] by {
                            if q < j {
                                assert(cur.0[q] == prev.0[q]);
                            }
                        }
                    }
                    j = j + 1;
                }
                let r = ResolvedNode { content: Content::Object(entries), deferred };
                proof {
                    let fr = fields_resolve(fm, sm, j as nat)->Ok_0;
                    assert(r.content@->Object_0 =~= fr.0);
                }
                Ok(r)
            },
            _ => Ok(null_resolved()),
        },
        Selection::List(_, item) => match v {
            Value::List(items) => {
                let ghost im = item@;
                let ghost vm = v@->List_0;
                let mut contents: Vec<Content> = Vec::new();
                let mut deferred: Vec<Link> = Vec::new();
                let mut j: usize = 0;
                while j < items.len()
                    invariant
                        im == (**item)@,
                        s@ == SelectionModel::List(s@->List_0, Box::new(im)),
                        *v == Value::List(*items),
                        vm == v@->List_0,
                        vm.len() == items@.len(),
                        forall|q: int| 0 <= q < items@.len() ==> #[trigger] vm[q] == items@[q]@,
                        j <= items@.len(),
                        items_resolve(vm, im, j as nat) is Ok,
                        contents@.len() == j,
                        forall|q: int|
                            0 <= q < j ==> (#[trigger] contents@[q])@ == (items_resolve(
                                vm,
                                im,
                                j as nat,
                            )->Ok_0).0[q],
                        (items_resolve(vm, im, j as nat)->Ok_0).0.len() == j,
                        links_model(deferred@) == (items_resolve(vm, im, j as nat)->Ok_0).1,
                    decreases items@.len() - j,
                {
                    let ghost prev = items_resolve(vm, im, j as nat)->Ok_0;
                    let mut node = match resolve(&items[j], item) {
                        Ok(node) => node,
                        Err(e) => {
                            proof {
                                lemma_items_resolve_err(vm, im, (j + 1) as nat, vm.len());
                            }
                            return Err(e);
                        },
                    };
                    let ghost node_links = node.deferred@;
                    contents.push(node.content);
                    deferred.append(&mut node.deferred);
                    proof {
                        let cur = items_resolve(vm, im, (j + 1) as nat)->Ok_0;
                        assert(links_model(deferred@) =~= prev.1 + links_model(node_links));
                        assert forall|q: int| 0 <= q < j + 1 implies (#[trigger] contents@[q])@ == cur.0[q] by {
                            if q < j {
                                assert(cur.0[q] == prev.0[q]);
                            }
                        }
                    }
                    j = j + 1;
                }
                let r = ResolvedNode { content: Content::Array(contents), deferred };
                proof {
                    let ir = items_resolve(vm, im, j as nat)->Ok_0;
                    assert(r.content@->Array_0 =~= ir.0);
                }
                Ok(r)
            },
            _ => Ok(null_resolved()),
        },
    }
}

/// Entry `i` of an object's content is the field that the selection names
/// there, with the content of the value's field of that name.
pub open spec fn entry_matches(
    vf: Seq<(Seq<char>, ValueModel)>,
    sfs: Seq<(Seq<char>, SelectionModel)>,
    entries: Seq<(Seq<char>, ContentModel)>,
    i: int,
) -> bool {
    let k = value_field_index(vf, sfs[i].0);
    &&& 0 <= k < vf.len()
    &&& resolve_spec(vf[k].1, sfs[i].1) is Ok
    &&& entries[i] == (sfs[i].0, resolve_spec(vf[k].1, sfs[i].1)->Ok_0.content)
}

proof fn lemma_fields_resolve_order(
    vf: Seq<(Seq<char>, ValueModel)>,
    sfs: Seq<(Seq<char>, SelectionModel)>,
    n: nat,
)
    requires
        n <= sfs.len(),
        fields_resolve(vf, sfs, n) is Ok,
    ensures
        fields_resolve(vf, sfs, n)->Ok_0.0.len() == n,
        forall|i: int|
            0 <= i < n ==> #[trigger] entry_matches(vf, sfs, fields_resolve(vf, sfs, n)->Ok_0.0, i),
    decreases n,
{
    if n > 0 {
        lemma_fields_resolve_order(vf, sfs, (n - 1) as nat);
        lemma_value_field_index(vf, sfs[n - 1].0);
        let prev = fields_resolve(vf, sfs, (n - 1) as nat)->Ok_0.0;
        let cur = fields_resolve(vf, sfs, n)->Ok_0.0;
        assert forall|i: int| 0 <= i < n implies #[trigger] entry_matches(vf, sfs, cur, i) by {
            if i < n - 1 {
                assert(entry_matches(vf, sfs, prev, i));
                assert(cur[i] == prev[i]);
            }
        }
    }
}

/// Resolving an object gives one entry per selected field, keyed and ordered
/// as the selection's fields are, whatever order the fields are declared or
/// held in by the value; each entry holds the content of that field.
pub proof fn lemma_field_order(
    vf: Seq<(Seq<char>, ValueModel)>,
    sfs: Seq<(Seq<char>, SelectionModel)>,
)
    requires
        resolve_spec(ValueModel::Object(vf), SelectionModel::Object(sfs)) is Ok,
    ensures
        resolve_spec(ValueModel::Object(vf), SelectionModel::Object(sfs))->Ok_0.content matches ContentModel::Object(
            entries,
        ) && entries.len() == sfs.len() && forall|i: int|
            0 <= i < sfs.len() ==> #[trigger] entry_matches(vf, sfs, entries, i),
{
    lemma_fields_resolve_order(vf, sfs, sfs.len());
}

proof fn lemma_items_resolve_order(items: Seq<ValueModel>, s: SelectionModel, n: nat)
    requires
        n <= items.len(),
        items_resolve(items, s, n) is Ok,
    ensures
        items_resolve(items, s, n)->Ok_0.0.len() == n,
        forall|i: int|
            0 <= i < n ==> resolve_spec(items[i], s) is Ok && (#[trigger] items_resolve(
                items,
                s,
                n,
            )->Ok_0.0[i]) == resolve_spec(items[i], s)->Ok_0.content,
    decreases n,
{
    if n > 0 {
        lemma_items_resolve_order(items, s, (n - 1) as nat);
        let prev = items_resolve(items, s, (n - 1) as nat)->Ok_0;
        let cur = items_resolve(items, s, n)->Ok_0;
        assert forall|i: int| 0 <= i < n - 1 implies cur.0[i] == prev.0[i] by {}
    }
}

/// Resolving a list gives the content of each item in the order of the
/// input, whatever order the items are resolved in.
pub proof fn lemma_list_order(
    items: Seq<ValueModel>,
    mode: crate::selection::ListItem,
    s: SelectionModel,
)
    requires
        resolve_spec(ValueModel::List(items), SelectionModel::List(mode, Box::new(s))) is Ok,
    ensures
        resolve_spec(ValueModel::List(items), SelectionModel::List(mode, Box::new(s)))->Ok_0.content matches ContentModel::Array(
            contents,
        ) && contents.len() == items.len() && forall|i: int|
            0 <= i < items.len() ==> (#[trigger] contents[i]) == resolve_spec(items[i], s)->Ok_0.content,
{
    lemma_items_resolve_order(items, s, items.len());
}

/// A link resolves to its address, with itself as its only deferred entry.
pub proof fn lemma_link_resolves(l: LinkModel)
    ensures
        resolve_spec(ValueModel::Link(l), SelectionModel::Link) == Ok::<NodeModel, Failure>(
            NodeModel { content: ContentModel::Str(l.address), deferred: seq![l] },
        ),
{
}

} // verus!
