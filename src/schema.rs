//! The type registry: cycle-safe registration of every type reachable from a
//! root, and the routes of resource types.

use vstd::prelude::*;
use vstd::set_lib::{lemma_len_subset, lemma_set_subset_finite};

use vstd::seq_lib::seq_to_set_is_finite;
use vstd::string::StrSliceExecFns;

use route_recognizer::{Params, Router};

use crate::router::{add_route, match_route, new_router, route_match, router_routes};
use crate::catalog::{
    catalog_valid, check_ref, covers, pattern_ascii, decl_index, declares_resource, fields_covered, is_declared,
    lemma_decl_index, lemma_ref_ids_has_own, pattern_of, ref_ids, shape_fields, type_id_of,
    Catalog, FieldDecl, SchemaError, Shape, TypeDecl, TypeRef,
};

verus! {

/// A field of an object type: its output name and the id of its type.
#[derive(Debug, Clone, PartialEq)]
pub struct FieldMetadata {
    pub name: String,
    pub field_type: String,
}

/// What the registry knows of a type.
#[derive(Debug, PartialEq)]
pub enum TypeMetadata {
    Scalar,
    Object { fields: Vec<FieldMetadata> },
    List { item_type: String },
    Resource { item_type: String },
}

/// `TypeMetadata` with its strings taken as character sequences.
pub enum MetaModel {
    Scalar,
    Object(Seq<(Seq<char>, Seq<char>)>),
    List(Seq<char>),
    Resource(Seq<char>),
}

impl View for FieldMetadata {
    type V = (Seq<char>, Seq<char>);

    open spec fn view(&self) -> (Seq<char>, Seq<char>) {
        (self.name@, self.field_type@)
    }
}

impl View for TypeMetadata {
    type V = MetaModel;

    open spec fn view(&self) -> MetaModel {
        match self {
            TypeMetadata::Scalar => MetaModel::Scalar,
            TypeMetadata::Object { fields } => MetaModel::Object(fields_model(fields@)),
            TypeMetadata::List { item_type } => MetaModel::List(item_type@),
            TypeMetadata::Resource { item_type } => MetaModel::Resource(item_type@),
        }
    }
}

/// Field metadata with its strings taken as character sequences.
pub open spec fn fields_model(fields: Seq<FieldMetadata>) -> Seq<(Seq<char>, Seq<char>)> {
    fields.map_values(|f: FieldMetadata| f@)
}

/// The fields that a declaration gives an object, with their types' ids.
pub open spec fn declared_fields(fields: Seq<FieldDecl>) -> Seq<(Seq<char>, Seq<char>)> {
    fields.map_values(|f: FieldDecl| (f.name@, type_id_of(f.field_type)))
}

/// The metadata that the declarations give the type `t`.
pub open spec fn expected_metadata(decls: Seq<TypeDecl>, t: TypeRef) -> MetaModel {
    match t {
        TypeRef::Named(n) => {
            let i = decl_index(decls, n@);
            if 0 <= i {
                match decls[i].shape {
                    Shape::Object(fields) => MetaModel::Object(declared_fields(fields@)),
                    Shape::Scalar => MetaModel::Scalar,
                }
            } else {
                MetaModel::Scalar
            }
        },
        TypeRef::List(item) => MetaModel::List(type_id_of(*item)),
        TypeRef::Link(n) => MetaModel::Resource(n@),
    }
}

/// Every id that the metadata refers to is in `ids`.
pub open spec fn refs_within(m: MetaModel, ids: Set<Seq<char>>) -> bool {
    match m {
        MetaModel::Scalar => true,
        MetaModel::Object(fields) => forall|i: int|
            0 <= i < fields.len() ==> ids.contains(#[trigger] fields[i].1),
        MetaModel::List(item) => ids.contains(item),
        MetaModel::Resource(item) => ids.contains(item),
    }
}

/// Every id referred to anywhere in the registry has an entry.
pub open spec fn registry_closed(reg: Map<Seq<char>, MetaModel>) -> bool {
    forall|k: Seq<char>| reg.contains_key(k) ==> refs_within(#[trigger] reg[k], reg.dom())
}

/// Every entry holds the metadata that the declarations give some type of
/// that id: no placeholder is left.
pub open spec fn registry_complete(decls: Seq<TypeDecl>, reg: Map<Seq<char>, MetaModel>) -> bool {
    forall|k: Seq<char>|
        reg.contains_key(k) ==> exists|t: TypeRef|
            type_id_of(t) == k && covers(decls, t) && #[trigger] reg[k] == expected_metadata(
                decls,
                t,
            )
}

/// The fields of the type registered under `id`: an object's own, and for a
/// list or a resource those of its item type, followed through wrappers with
/// shorter ids.
pub open spec fn fields_of_id(reg: Map<Seq<char>, MetaModel>, id: Seq<char>) -> Option<
    Seq<(Seq<char>, Seq<char>)>,
>
    decreases id.len(),
{
    if !reg.contains_key(id) {
        None
    } else {
        match reg[id] {
            MetaModel::Object(fields) => Some(fields),
            MetaModel::List(item) => if item.len() < id.len() {
                fields_of_id(reg, item)
            } else {
                None
            },
            MetaModel::Resource(item) => if item.len() < id.len() {
                fields_of_id(reg, item)
            } else {
                None
            },
            MetaModel::Scalar => None,
        }
    }
}

/// The fields of a type with metadata `m`: its own for an object, those of
/// its item type for a list or a resource, none for a scalar.
pub open spec fn fields_of(reg: Map<Seq<char>, MetaModel>, m: MetaModel) -> Option<
    Seq<(Seq<char>, Seq<char>)>,
> {
    match m {
        MetaModel::Object(fields) => Some(fields),
        MetaModel::List(item) => fields_of_id(reg, item),
        MetaModel::Resource(item) => fields_of_id(reg, item),
        MetaModel::Scalar => None,
    }
}

/// The item id of every list or resource entry is shorter than its own id.
pub open spec fn wrappers_shrink(reg: Map<Seq<char>, MetaModel>) -> bool {
    forall|k: Seq<char>| #[trigger]
        reg.contains_key(k) ==> match reg[k] {
            MetaModel::List(item) => item.len() < k.len(),
            MetaModel::Resource(item) => item.len() < k.len(),
            _ => true,
        }
}

impl TypeMetadata {
    /// A field of the given name whose type is `t`, registered with `t`.
    pub fn new_field(schema: &mut Schema, name: String, t: &TypeRef) -> (r: Result<
        FieldMetadata,
        SchemaError,
    >)
        requires
            old(schema).wf(),
        ensures
            r is Ok <==> covers(old(schema).decls(), *t),
            r is Err ==> *final(schema) == *old(schema),
            r matches Ok(f) ==> f.name@ == name@ && registered(
                *old(schema),
                *t,
                *final(schema),
                f.field_type@,
            ),
    {
        match schema.register_type(t) {
            Ok(field_type) => Ok(FieldMetadata { name, field_type }),
            Err(e) => Err(e),
        }
    }

    /// The metadata of an object with the given fields, in their order.
    pub fn new_object(fields: &[FieldMetadata]) -> (r: TypeMetadata)
        ensures
            r@ == MetaModel::Object(fields_model(fields@)),
    {
        let mut out: Vec<FieldMetadata> = Vec::new();
        let mut i: usize = 0;
        while i < fields.len()
            invariant
                i <= fields@.len(),
                out@.len() == i,
                fields_model(out@) == fields_model(fields@.take(i as int)),
            decreases fields@.len() - i,
        {
            let ghost before = out@;
            out.push(FieldMetadata { name: fields[i].name.clone(), field_type: fields[i].field_type.clone() });
            assert forall|k: int| 0 <= k < i + 1 implies fields_model(out@)[k] == fields_model(
                fields@.take(i + 1),
            )[k] by {
                if k < i {
                    assert(fields_model(before)[k] == fields_model(fields@.take(i as int))[k]);
                    assert(out@[k] == before[k]);
                }
            }
            assert(fields_model(out@) =~= fields_model(fields@.take(i + 1)));
            i = i + 1;
        }
        assert(fields@.take(i as int) =~= fields@);
        TypeMetadata::Object { fields: out }
    }

    /// The fields of this type: its own for an object, those of its item
    /// type for a list or a resource, none for a scalar.
    pub fn fields<'a>(&'a self, schema: &'a Schema) -> (r: Option<&'a Vec<FieldMetadata>>)
        requires
            schema.wf(),
        ensures
            r is None <==> fields_of(schema.registry(), self@) is None,
            r matches Some(v) ==> fields_of(schema.registry(), self@) == Some(fields_model(v@)),
    {
        let mut id: &String = match self {
            TypeMetadata::Object { fields } => {
                return Some(fields);
            },
            TypeMetadata::Scalar => {
                return None;
            },
            TypeMetadata::List { item_type } => item_type,
            TypeMetadata::Resource { item_type } => item_type,
        };
        loop
            invariant
                schema.wf(),
                fields_of(schema.registry(), self@) == fields_of_id(schema.registry(), id@),
            decreases id@.len(),
        {
            match schema.lookup(id) {
                None => {
                    return None;
                },
                Some(TypeMetadata::Object { fields }) => {
                    return Some(fields);
                },
                Some(TypeMetadata::Scalar) => {
                    return None;
                },
                Some(TypeMetadata::List { item_type }) | Some(
                    TypeMetadata::Resource { item_type },
                ) => {
                    if item_type.as_str().unicode_len() < id.as_str().unicode_len() {
                        id = item_type;
                    } else {
                        return None;
                    }
                },
            }
        }
    }
}

/// One registry entry.
pub struct TypeEntry {
    pub id: String,
    pub metadata: TypeMetadata,
}

/// The binding of a resource type to the path pattern it is served under.
#[derive(Debug, Clone, PartialEq)]
pub struct ResourceRoute {
    pub name: String,
    pub path_pattern: String,
}

/// The registry that a list of entries holds.
pub open spec fn entries_map(s: Seq<TypeEntry>) -> Map<Seq<char>, MetaModel>
    decreases s.len(),
{
    if s.len() == 0 {
        Map::empty()
    } else {
        entries_map(s.drop_last()).insert(s.last().id@, s.last().metadata@)
    }
}

/// No two entries share an id.
pub open spec fn ids_unique(s: Seq<TypeEntry>) -> bool {
    forall|i: int, j: int| 0 <= i < s.len() && 0 <= j < s.len() && i != j ==> s[i].id@ != s[j].id@
}

proof fn lemma_entries_map(s: Seq<TypeEntry>)
    requires
        ids_unique(s),
    ensures
        forall|i: int| 0 <= i < s.len() ==> entries_map(s).contains_key(#[trigger] s[i].id@)
            && entries_map(s)[s[i].id@] == s[i].metadata@,
        forall|k: Seq<char>|
            entries_map(s).contains_key(k) ==> exists|i: int| 0 <= i < s.len() && s[i].id@ == k,
        entries_map(s).dom().len() == s.len(),
        entries_map(s).dom().finite(),
    decreases s.len(),
{
    if s.len() > 0 {
        let p = s.drop_last();
        assert(ids_unique(p));
        lemma_entries_map(p);
        assert(!entries_map(p).contains_key(s.last().id@)) by {
            if entries_map(p).contains_key(s.last().id@) {
                let i = choose|i: int| 0 <= i < p.len() && p[i].id@ == s.last().id@;
                assert(s[i].id@ == s[s.len() - 1].id@);
            }
        }
        assert forall|i: int| 0 <= i < s.len() implies entries_map(s).contains_key(#[trigger] s[i].id@)
            && entries_map(s)[s[i].id@] == s[i].metadata@ by {
            if i < s.len() - 1 {
                assert(s[i] == p[i]);
            }
        }
        assert forall|k: Seq<char>| entries_map(s).contains_key(k) implies exists|i: int|
            0 <= i < s.len() && s[i].id@ == k by {
            if k != s.last().id@ {
                let i = choose|i: int| 0 <= i < p.len() && p[i].id@ == k;
                assert(s[i] == p[i]);
            } else {
                assert(s[s.len() - 1].id@ == k);
            }
        }
    }
}

proof fn lemma_entries_map_update(s: Seq<TypeEntry>, i: int, e: TypeEntry)
    requires
        ids_unique(s),
        0 <= i < s.len(),
        e.id@ == s[i].id@,
    ensures
        entries_map(s.update(i, e)) == entries_map(s).insert(e.id@, e.metadata@),
        ids_unique(s.update(i, e)),
    decreases s.len(),
{
    let u = s.update(i, e);
    if i == s.len() - 1 {
        assert(u.drop_last() =~= s.drop_last());
        lemma_entries_map(s);
        assert(entries_map(s).insert(e.id@, e.metadata@) =~= entries_map(s.drop_last()).insert(
            e.id@,
            e.metadata@,
        ));
    } else {
        assert(u.drop_last() =~= s.drop_last().update(i, e));
        lemma_entries_map_update(s.drop_last(), i, e);
        assert(s.last().id@ != e.id@);
        assert(entries_map(u) =~= entries_map(s).insert(e.id@, e.metadata@));
    }
}

/// The ids of the field types in `fs` and of every type nested in them.
pub open spec fn field_ids(fs: Seq<FieldDecl>) -> Seq<Seq<char>>
    decreases fs.len(),
{
    if fs.len() == 0 {
        Seq::empty()
    } else {
        field_ids(fs.drop_last()) + ref_ids(fs.last().field_type)
    }
}

/// The id a declaration names, and those of its field types.
pub open spec fn decl_ids(d: TypeDecl) -> Seq<Seq<char>> {
    seq![d.name@] + field_ids(shape_fields(d.shape))
}

/// The ids that the declarations name anywhere.
pub open spec fn catalog_ids(decls: Seq<TypeDecl>) -> Seq<Seq<char>>
    decreases decls.len(),
{
    if decls.len() == 0 {
        Seq::empty()
    } else {
        catalog_ids(decls.drop_last()) + decl_ids(decls.last())
    }
}

/// Every id that registering `t` can come to.
pub open spec fn universe(decls: Seq<TypeDecl>, t: TypeRef) -> Set<Seq<char>> {
    (catalog_ids(decls) + ref_ids(t)).to_set()
}

/// How many reachable ids are not registered yet.
pub open spec fn unregistered(decls: Seq<TypeDecl>, t: TypeRef, dom: Set<Seq<char>>) -> nat {
    universe(decls, t).difference(dom).len()
}

proof fn lemma_field_ids(fs: Seq<FieldDecl>, j: int, x: Seq<char>)
    requires
        0 <= j < fs.len(),
        ref_ids(fs[j].field_type).contains(x),
    ensures
        field_ids(fs).contains(x),
    decreases fs.len(),
{
    let r = ref_ids(fs[j].field_type);
    let k = choose|k: int| 0 <= k < r.len() && r[k] == x;
    if j == fs.len() - 1 {
        assert(field_ids(fs)[field_ids(fs.drop_last()).len() + k] == x);
    } else {
        assert(fs.drop_last()[j] == fs[j]);
        lemma_field_ids(fs.drop_last(), j, x);
        let p = field_ids(fs.drop_last());
        let m = choose|m: int| 0 <= m < p.len() && p[m] == x;
        assert(field_ids(fs)[m] == x);
    }
}

proof fn lemma_catalog_ids(decls: Seq<TypeDecl>, i: int, x: Seq<char>)
    requires
        0 <= i < decls.len(),
        decl_ids(decls[i]).contains(x),
    ensures
        catalog_ids(decls).contains(x),
    decreases decls.len(),
{
    let r = decl_ids(decls[i]);
    let k = choose|k: int| 0 <= k < r.len() && r[k] == x;
    if i == decls.len() - 1 {
        assert(catalog_ids(decls)[catalog_ids(decls.drop_last()).len() + k] == x);
    } else {
        assert(decls.drop_last()[i] == decls[i]);
        lemma_catalog_ids(decls.drop_last(), i, x);
        let p = catalog_ids(decls.drop_last());
        let m = choose|m: int| 0 <= m < p.len() && p[m] == x;
        assert(catalog_ids(decls)[m] == x);
    }
}

proof fn lemma_concat_contains(a: Seq<Seq<char>>, b: Seq<Seq<char>>, x: Seq<char>)
    ensures
        (a + b).contains(x) <==> a.contains(x) || b.contains(x),
{
    if (a + b).contains(x) {
        let k = choose|k: int| 0 <= k < (a + b).len() && (a + b)[k] == x;
        if k >= a.len() {
            assert(b[k - a.len()] == x);
        }
    }
    if a.contains(x) {
        let k = choose|k: int| 0 <= k < a.len() && a[k] == x;
        assert((a + b)[k] == x);
    }
    if b.contains(x) {
        let k = choose|k: int| 0 <= k < b.len() && b[k] == x;
        assert((a + b)[a.len() + k] == x);
    }
}

/// The universe of a field type of a declared object lies within the
/// universe of any type.
proof fn lemma_field_universe(decls: Seq<TypeDecl>, i: int, j: int, t: TypeRef)
    requires
        0 <= i < decls.len(),
        decls[i].shape is Object,
        0 <= j < shape_fields(decls[i].shape).len(),
    ensures
        universe(decls, shape_fields(decls[i].shape)[j].field_type).subset_of(universe(decls, t)),
{
    let fields = shape_fields(decls[i].shape);
    let ft = fields[j].field_type;
    assert forall|x: Seq<char>| universe(decls, ft).contains(x) implies universe(
        decls,
        t,
    ).contains(x) by {
        lemma_concat_contains(catalog_ids(decls), ref_ids(ft), x);
        lemma_concat_contains(catalog_ids(decls), ref_ids(t), x);
        if ref_ids(ft).contains(x) {
            lemma_field_ids(fields, j, x);
            lemma_concat_contains(seq![decls[i].name@], field_ids(fields), x);
            lemma_catalog_ids(decls, i, x);
        }
    }
}

proof fn lemma_fewer_unregistered(
    a: Set<Seq<char>>,
    a2: Set<Seq<char>>,
    b: Set<Seq<char>>,
    b2: Set<Seq<char>>,
    x: Seq<char>,
)
    requires
        a.finite(),
        a2.subset_of(a),
        b.subset_of(b2),
        a.contains(x),
        !b.contains(x),
        b2.contains(x),
    ensures
        a2.difference(b2).len() < a.difference(b).len(),
{
    let d = a.difference(b);
    lemma_set_subset_finite(a, d);
    assert(a2.difference(b2).subset_of(d.remove(x)));
    lemma_len_subset(a2.difference(b2), d.remove(x));
}

/// A copy of a list of field declarations.
fn copy_fields(fs: &Vec<FieldDecl>) -> (r: Vec<FieldDecl>)
    ensures
        r@ == fs@,
{
    let mut r: Vec<FieldDecl> = Vec::new();
    let mut j: usize = 0;
    while j < fs.len()
        invariant
            j <= fs@.len(),
            r@ == fs@.take(j as int),
        decreases fs@.len() - j,
    {
        r.push(FieldDecl { name: fs[j].name.clone(), field_type: fs[j].field_type.copy() });
        assert(r@ =~= fs@.take(j + 1));
        j = j + 1;
    }
    assert(fs@.take(j as int) =~= fs@);
    r
}

/// The field `j` of the declaration `i` is covered.
pub open spec fn fields_covered_at(decls: Seq<TypeDecl>, i: int, j: int) -> bool {
    covers(decls, shape_fields(decls[i].shape)[j].field_type)
}

/// A route binds a declared resource to the pattern it declares.
pub open spec fn route_declared(decls: Seq<TypeDecl>, r: ResourceRoute) -> bool {
    is_declared(decls, r.name@) && pattern_of(decls[decl_index(decls, r.name@)]) == Some(
        r.path_pattern@,
    )
}

/// Routes have distinct patterns, each the one its resource declares.
pub open spec fn routes_ok(decls: Seq<TypeDecl>, routes: Seq<ResourceRoute>) -> bool {
    &&& forall|i: int, j: int|
        0 <= i < routes.len() && 0 <= j < routes.len() && i != j
            ==> routes[i].path_pattern@ != routes[j].path_pattern@
    &&& forall|i: int| 0 <= i < routes.len() ==> #[trigger] route_declared(decls, routes[i])
}

/// The path pattern a resource declaration gives.
pub open spec fn declared_pattern(decls: Seq<TypeDecl>, name: Seq<char>) -> Seq<char> {
    match decls[decl_index(decls, name)].path_pattern {
        Some(p) => p@,
        None => Seq::empty(),
    }
}

/// The routes after binding `name` to `pattern`: unchanged where that binding
/// is already there, else with it appended.
pub open spec fn with_route(
    routes: Seq<(Seq<char>, Seq<char>)>,
    name: Seq<char>,
    pattern: Seq<char>,
) -> Seq<(Seq<char>, Seq<char>)> {
    if routes.contains((name, pattern)) {
        routes
    } else {
        routes.push((name, pattern))
    }
}

/// The entry `k` was registered for `t`, refers only to registered ids, and
/// holds a placeholder while `pending`, else the declared metadata of `t`.
pub open spec fn entry_ok(
    decls: Seq<TypeDecl>,
    reg: Map<Seq<char>, MetaModel>,
    t: TypeRef,
    k: Seq<char>,
    pending: bool,
) -> bool {
    &&& type_id_of(t) == k
    &&& covers(decls, t)
    &&& refs_within(reg[k], reg.dom())
    &&& if pending {
        reg[k] == MetaModel::Scalar
    } else {
        reg[k] == expected_metadata(decls, t)
    }
}

/// What holds after registering `t` into `before` gave `after` and the id
/// `id`.
pub open spec fn registered(before: Schema, t: TypeRef, after: Schema, id: Seq<char>) -> bool {
    &&& after.wf()
    &&& id == type_id_of(t)
    &&& after.registry().contains_key(id)
    &&& after.decls() == before.decls()
    &&& before.registry().contains_key(id) ==> after == before
    &&& forall|k: Seq<char>| #[trigger]
        before.registry().contains_key(k) ==> after.registry().contains_key(k)
            && after.registry()[k] == before.registry()[k]
    &&& forall|q: int|
        0 <= q < before.routes_view().len() ==> after.routes_view().contains(
            #[trigger] before.routes_view()[q],
        )
    &&& registry_closed(after.registry())
    &&& registry_complete(after.decls(), after.registry())
}

/// Registering the same type twice leaves the schema as the first
/// registration left it, and gives the same id both times.
pub proof fn lemma_register_idempotent(
    s0: Schema,
    s1: Schema,
    s2: Schema,
    t: TypeRef,
    id1: Seq<char>,
    id2: Seq<char>,
)
    requires
        registered(s0, t, s1, id1),
        registered(s1, t, s2, id2),
    ensures
        s2 == s1,
        id2 == id1,
{
}

/// Routes as (path pattern, type id), from routes as (type id, path pattern).
pub open spec fn pattern_table(routes: Seq<(Seq<char>, Seq<char>)>) -> Seq<(Seq<char>, Seq<char>)> {
    routes.map_values(|r: (Seq<char>, Seq<char>)| (r.1, r.0))
}

/// The type registry of an application, with the routes of its resources.
pub struct Schema {
    catalog: Catalog,
    types: Vec<TypeEntry>,
    routes: Vec<ResourceRoute>,
    router: Router<String>,
    origins: Ghost<Map<Seq<char>, TypeRef>>,
}

impl Schema {
    /// Each registered id with its metadata.
    pub closed spec fn registry(&self) -> Map<Seq<char>, MetaModel> {
        entries_map(self.types@)
    }

    /// The declarations the schema was built from.
    pub closed spec fn decls(&self) -> Seq<TypeDecl> {
        self.catalog.decls@
    }

    /// The resource routes, as (type id, path pattern).
    pub closed spec fn routes_view(&self) -> Seq<(Seq<char>, Seq<char>)> {
        self.routes@.map_values(|r: ResourceRoute| (r.name@, r.path_pattern@))
    }

    /// How many types are registered.
    pub closed spec fn type_count(&self) -> nat {
        self.types@.len()
    }

    /// The invariant, where the ids in `pending` still hold a placeholder.
    closed spec fn inv(&self, pending: Set<Seq<char>>) -> bool {
        &&& ids_unique(self.types@)
        &&& catalog_valid(self.catalog.decls@)
        &&& self.origins@.dom() == self.registry().dom()
        &&& pending.subset_of(self.registry().dom())
        &&& forall|k: Seq<char>| #[trigger]
            self.registry().contains_key(k) ==> entry_ok(
                self.catalog.decls@,
                self.registry(),
                self.origins@[k],
                k,
                pending.contains(k),
            )
        &&& routes_ok(self.catalog.decls@, self.routes@)
        &&& router_routes(self.router) == pattern_table(self.routes_view())
    }

    /// Registration has completed: every entry holds its real metadata.
    pub closed spec fn wf(&self) -> bool {
        self.inv(Set::empty())
    }

    /// A well-formed schema has an entry for every id it refers to, no
    /// placeholder left, and one entry per registered type.
    pub proof fn lemma_wf(&self)
        requires
            self.wf(),
        ensures
            registry_closed(self.registry()),
            registry_complete(self.decls(), self.registry()),
            catalog_valid(self.decls()),
            self.registry().dom().finite(),
            self.registry().dom().len() == self.type_count(),
            wrappers_shrink(self.registry()),
    {
        lemma_entries_map(self.types@);
        assert forall|k: Seq<char>| #[trigger] self.registry().contains_key(k) implies match self.registry()[k] {
            MetaModel::List(item) => item.len() < k.len(),
            MetaModel::Resource(item) => item.len() < k.len(),
            _ => true,
        } by {
            assert(entry_ok(self.catalog.decls@, self.registry(), self.origins@[k], k, false));
        }
        assert forall|k: Seq<char>| self.registry().contains_key(k) implies exists|t: TypeRef|
            type_id_of(t) == k && covers(self.decls(), t) && #[trigger] self.registry()[k]
                == expected_metadata(self.decls(), t) by {
            assert(entry_ok(self.catalog.decls@, self.registry(), self.origins@[k], k, false));
        }
        assert forall|k: Seq<char>| #[trigger]
            self.registry().contains_key(k) implies refs_within(
            self.registry()[k],
            self.registry().dom(),
        ) by {
            assert(entry_ok(self.catalog.decls@, self.registry(), self.origins@[k], k, false));
        }
    }

    /// The position of the entry registered under `id`, if any.
    fn find_type(&self, id: &String) -> (r: Option<usize>)
        requires
            ids_unique(self.types@),
        ensures
            r is None <==> !self.registry().contains_key(id@),
            r matches Some(i) ==> i < self.types@.len() && self.types@[i as int].id@ == id@
                && self.registry()[id@] == self.types@[i as int].metadata@,
    {
        proof {
            lemma_entries_map(self.types@);
        }
        let mut i: usize = 0;
        while i < self.types.len()
            invariant
                ids_unique(self.types@),
                forall|k: Seq<char>|
                    self.registry().contains_key(k) ==> exists|i: int|
                        0 <= i < self.types@.len() && self.types@[i].id@ == k,
                i <= self.types@.len(),
                forall|k: int| 0 <= k < i ==> self.types@[k].id@ != id@,
            decreases self.types@.len() - i,
        {
            if self.types[i].id.eq(id) {
                proof {
                    lemma_entries_map(self.types@);
                }
                return Some(i);
            }
            i = i + 1;
        }
        None
    }

    /// Builds the schema of an application whose root is the resource type
    /// `root`: checks the declarations, then registers the root and binds its
    /// route.
    pub fn new(catalog: Catalog, root: &String) -> (r: Result<Schema, SchemaError>)
        ensures
            r is Ok <==> catalog_valid(catalog.decls@) && declares_resource(catalog.decls@, root@),
            r matches Ok(s) ==> {
                &&& s.wf()
                &&& s.decls() == catalog.decls@
                &&& s.registry().contains_key(root@)
                &&& s.routes_view().contains((root@, declared_pattern(catalog.decls@, root@)))
                &&& registry_closed(s.registry())
                &&& registry_complete(s.decls(), s.registry())
            },
    {
        let checked = catalog.check();
        if let Err(e) = checked {
            return Err(e);
        }
        let i = match catalog.find(root) {
            Some(i) => i,
            None => {
                return Err(SchemaError::UnknownType(root.clone()));
            },
        };
        if catalog.decls[i].path_pattern.is_none() {
            return Err(SchemaError::NotAResource(root.clone()));
        }
        let mut schema = Schema {
            catalog,
            types: Vec::new(),
            routes: Vec::new(),
            router: new_router(),
            origins: Ghost(Map::empty()),
        };
        proof {
            assert(pattern_table(schema.routes_view()) =~= Seq::<(Seq<char>, Seq<char>)>::empty());
            assert(schema.registry() == Map::<Seq<char>, MetaModel>::empty());
            assert(schema.origins@.dom() =~= schema.registry().dom());
        }
        let root_type = TypeRef::Named(root.clone());
        schema.register_rec(&root_type, Ghost(Set::empty()));
        schema.bind_route(root, Ghost(Set::empty()));
        proof {
            schema.lemma_wf();
            let p = declared_pattern(schema.catalog.decls@, root@);
            if !schema.routes_view().contains((root@, p)) {
                assert(schema.routes_view().last() == (root@, p));
            }
        }
        Ok(schema)
    }

    /// Registers `t`, and every type it reaches, under their ids.
    pub fn register_type(&mut self, t: &TypeRef) -> (r: Result<String, SchemaError>)
        requires
            old(self).wf(),
        ensures
            r is Ok <==> covers(old(self).decls(), *t),
            r is Err ==> *final(self) == *old(self),
            r matches Ok(id) ==> registered(*old(self), *t, *final(self), id@),
    {
        let c = check_ref(&self.catalog.decls, t);
        if let Err(e) = c {
            return Err(e);
        }
        let id = self.register_rec(t, Ghost(Set::empty()));
        proof {
            self.lemma_wf();
        }
        Ok(id)
    }

    /// Binds the resource type `name` to the path pattern it declares.
    pub fn register_resource(&mut self, name: &String) -> (r: Result<(), SchemaError>)
        requires
            old(self).wf(),
        ensures
            final(self).wf(),
            final(self).registry() == old(self).registry(),
            final(self).decls() == old(self).decls(),
            r matches Err(SchemaError::UnknownType(n)) <==> !is_declared(old(self).decls(), name@),
            r matches Err(SchemaError::NotAResource(n)) <==> is_declared(old(self).decls(), name@)
                && !declares_resource(old(self).decls(), name@),
            r is Ok <==> declares_resource(old(self).decls(), name@),
            r is Ok ==> final(self).routes_view() == with_route(
                old(self).routes_view(),
                name@,
                declared_pattern(old(self).decls(), name@),
            ),
            r is Err ==> *final(self) == *old(self),
    {
        let i = match self.catalog.find(name) {
            Some(i) => i,
            None => {
                return Err(SchemaError::UnknownType(name.clone()));
            },
        };
        if self.catalog.decls[i].path_pattern.is_none() {
            return Err(SchemaError::NotAResource(name.clone()));
        }
        self.bind_route(name, Ghost(Set::empty()));
        Ok(())
    }

    /// The metadata registered under `id`.
    pub fn type_metadata(&self, id: &String) -> (r: &TypeMetadata)
        requires
            self.wf(),
            self.registry().contains_key(id@),
        ensures
            r@ == self.registry()[id@],
    {
        match self.find_type(id) {
            Some(i) => &self.types[i].metadata,
            None => &self.types[0].metadata,
        }
    }

    /// The metadata registered under `id`, if any.
    pub fn lookup(&self, id: &String) -> (r: Option<&TypeMetadata>)
        requires
            self.wf(),
        ensures
            r is None <==> !self.registry().contains_key(id@),
            r matches Some(m) ==> m@ == self.registry()[id@],
    {
        match self.find_type(id) {
            Some(i) => Some(&self.types[i].metadata),
            None => None,
        }
    }

    /// The number of registered types.
    pub fn len(&self) -> (r: usize)
        ensures
            r == self.type_count(),
    {
        self.types.len()
    }

    /// The resource type and the path parameters of the route that `path`
    /// matches, if one does.
    pub fn recognize(&self, path: &String) -> (r: Option<(String, Params)>)
        requires
            self.wf(),
        ensures
            r matches Some(x) ==> route_match(pattern_table(self.routes_view()), path@) == Some(
                x.0@,
            ),
            r is None ==> route_match(pattern_table(self.routes_view()), path@) is None,
    {
        match_route(&self.router, path.as_str())
    }

    /// The resource routes: each resource type with its path pattern.
    pub fn routes(&self) -> (r: &Vec<ResourceRoute>)
        ensures
            r@.map_values(|x: ResourceRoute| (x.name@, x.path_pattern@)) == self.routes_view(),
    {
        &self.routes
    }

    /// Registers `t` and every type it reaches. An id that is already
    /// present, placeholder or not, is returned as it is; a new one first gets
    /// a placeholder, then its real metadata once the types it refers to are
    /// registered.
    fn register_rec(&mut self, t: &TypeRef, Ghost(pending): Ghost<Set<Seq<char>>>) -> (r: String)
        requires
            old(self).inv(pending),
            covers(old(self).catalog.decls@, *t),
        ensures
            final(self).inv(pending),
            r@ == type_id_of(*t),
            final(self).registry().contains_key(r@),
            final(self).catalog == old(self).catalog,
            old(self).registry().contains_key(r@) ==> *final(self) == *old(self),
            old(self).registry().dom().subset_of(final(self).registry().dom()),
            forall|k: Seq<char>| #[trigger]
                old(self).registry().contains_key(k) ==> final(self).registry()[k]
                    == old(self).registry()[k] && final(self).origins@[k] == old(self).origins@[k],
            final(self).types@.len() >= old(self).types@.len(),
            forall|i: int|
                0 <= i < old(self).types@.len() ==> final(self).types@[i].id@ == old(
                    self,
                ).types@[i].id@,
            forall|i: int|
                0 <= i < old(self).routes_view().len() ==> final(self).routes_view().contains(
                    #[trigger] old(self).routes_view()[i],
                ),
        decreases unregistered(old(self).catalog.decls@, *t, old(self).registry().dom()),
    {
        let ghost decls = self.catalog.decls@;
        let ghost dom0 = self.registry().dom();
        let id = t.type_id();
        if self.find_type(&id).is_some() {
            return id;
        }
        let ghost pend2 = pending.insert(id@);
        let ghost prev = *self;
        let idx = self.types.len();
        proof {
            lemma_entries_map(self.types@);
        }
        self.types.push(TypeEntry { id: id.clone(), metadata: TypeMetadata::Scalar });
        self.origins = Ghost(self.origins@.insert(id@, *t));
        let ghost pushed = *self;
        proof {
            assert(self.types@.drop_last() =~= prev.types@);
            assert(self.registry() == prev.registry().insert(id@, MetaModel::Scalar));
            assert forall|i: int, j: int|
                0 <= i < self.types@.len() && 0 <= j < self.types@.len() && i != j implies self.types@[i].id@
                != self.types@[j].id@ by {
                if i < idx && j < idx {
                    assert(prev.types@[i] == self.types@[i] && prev.types@[j] == self.types@[j]);
                } else if i < idx {
                    assert(prev.types@[i] == self.types@[i]);
                    assert(prev.registry().contains_key(prev.types@[i].id@));
                } else if j < idx {
                    assert(prev.types@[j] == self.types@[j]);
                    assert(prev.registry().contains_key(prev.types@[j].id@));
                }
            }
            assert(self.origins@.dom() =~= self.registry().dom());
            assert forall|k: Seq<char>| #[trigger]
                self.registry().contains_key(k) implies entry_ok(
                decls,
                self.registry(),
                self.origins@[k],
                k,
                pend2.contains(k),
            ) by {
                if k != id@ {
                    assert(prev.registry().contains_key(k));
                    assert(entry_ok(decls, prev.registry(), prev.origins@[k], k, pending.contains(k)));
                }
            }
            seq_to_set_is_finite(catalog_ids(decls) + ref_ids(*t));
            lemma_ref_ids_has_own(*t);
            lemma_concat_contains(catalog_ids(decls), ref_ids(*t), id@);
        }
        let metadata = match t {
            TypeRef::Named(n) => {
                let i = match self.catalog.find(n) {
                    Some(i) => i,
                    None => {
                        return id;
                    },
                };
                let fields = match &self.catalog.decls[i].shape {
                    Shape::Scalar => None,
                    Shape::Object(fs) => Some(copy_fields(fs)),
                };
                match fields {
                    None => TypeMetadata::Scalar,
                    Some(fs) => {
                        let mut out: Vec<FieldMetadata> = Vec::new();
                        let mut j: usize = 0;
                        while j < fs.len()
                            invariant
                                self.inv(pend2),
                                self.catalog == old(self).catalog,
                                self.catalog.decls@ == decls,
                                i == decl_index(decls, n@),
                                0 <= i < decls.len(),
                                decls[i as int].shape is Object,
                                fs@ == shape_fields(decls[i as int].shape),
                                *t == TypeRef::Named(*n),
                                id@ == type_id_of(*t),
                                universe(decls, *t).finite(),
                                universe(decls, *t).contains(id@),
                                !dom0.contains(id@),
                                dom0 == old(self).registry().dom(),
                                self.registry().contains_key(id@),
                                self.registry()[id@] == MetaModel::Scalar,
                                self.origins@[id@] == *t,
                                idx == old(self).types@.len(),
                                self.types@.len() > idx,
                                self.types@[idx as int].id@ == id@,
                                dom0.subset_of(self.registry().dom()),
                                forall|k: Seq<char>| #[trigger]
                                    pushed.registry().contains_key(k) ==> self.registry().contains_key(k)
                                        && self.registry()[k] == pushed.registry()[k]
                                        && self.origins@[k] == pushed.origins@[k],
                                forall|q: int|
                                    0 <= q < old(self).types@.len() ==> self.types@[q].id@ == old(
                                        self,
                                    ).types@[q].id@,
                                forall|q: int|
                                    0 <= q < pushed.routes_view().len()
                                        ==> self.routes_view().contains(
                                        #[trigger] pushed.routes_view()[q],
                                    ),
                                j <= fs@.len(),
                                out@.len() == j,
                                forall|q: int|
                                    0 <= q < j ==> (#[trigger] out@[q])@ == (
                                        fs@[q].name@,
                                        type_id_of(fs@[q].field_type),
                                    ) && self.registry().contains_key(out@[q].field_type@),
                            decreases fs@.len() - j,
                        {
                            proof {
                                assert(fields_covered(decls, decls[i as int].shape));
                                assert(fields_covered_at(decls, i as int, j as int));
                                lemma_field_universe(decls, i as int, j as int, *t);
                                lemma_fewer_unregistered(
                                    universe(decls, *t),
                                    universe(decls, fs@[j as int].field_type),
                                    dom0,
                                    self.registry().dom(),
                                    id@,
                                );
                                assert(unregistered(decls, fs@[j as int].field_type, self.registry().dom())
                                    < unregistered(decls, *t, dom0));
                            }
                            let ghost before = *self;
                            let ft = self.register_rec(&fs[j].field_type, Ghost(pend2));
                            proof {
                                assert forall|q: int|
                                    0 <= q < pushed.routes_view().len() implies self.routes_view().contains(
                                    #[trigger] pushed.routes_view()[q],
                                ) by {
                                    let x = pushed.routes_view()[q];
                                    let w = choose|w: int| 0 <= w < before.routes_view().len() && before.routes_view()[w] == x;
                                    assert(self.routes_view().contains(before.routes_view()[w]));
                                }
                                assert forall|k: Seq<char>| #[trigger]
                                    pushed.registry().contains_key(k) implies self.registry().contains_key(k)
                                        && self.registry()[k] == pushed.registry()[k]
                                        && self.origins@[k] == pushed.origins@[k] by {
                                    assert(before.registry().contains_key(k));
                                }
                            }
                            out.push(FieldMetadata { name: fs[j].name.clone(), field_type: ft });
                            j = j + 1;
                        }
                        proof {
                            assert(fields_model(out@) =~= declared_fields(fs@));
                        }
                        TypeMetadata::Object { fields: out }
                    },
                }
            },
            TypeRef::List(item) => {
                proof {
                    assert forall|x: Seq<char>| universe(decls, **item).contains(x) implies universe(
                        decls,
                        *t,
                    ).contains(x) by {
                        lemma_concat_contains(catalog_ids(decls), ref_ids(**item), x);
                        lemma_concat_contains(catalog_ids(decls), ref_ids(*t), x);
                        if ref_ids(**item).contains(x) {
                            let q = choose|q: int|
                                0 <= q < ref_ids(**item).len() && ref_ids(**item)[q] == x;
                            assert(ref_ids(*t)[q] == x);
                        }
                    }
                    lemma_fewer_unregistered(
                        universe(decls, *t),
                        universe(decls, **item),
                        dom0,
                        self.registry().dom(),
                        id@,
                    );
                }
                let item_type = self.register_rec(item, Ghost(pend2));
                proof {
                    assert forall|q: int|
                        0 <= q < pushed.routes_view().len() implies self.routes_view().contains(
                        #[trigger] pushed.routes_view()[q],
                    ) by {
                    }
                }
                TypeMetadata::List { item_type }
            },
            TypeRef::Link(n) => {
                self.bind_route(n, Ghost(pend2));
                let ghost bound = *self;
                proof {
                    assert forall|q: int|
                        0 <= q < pushed.routes_view().len() implies bound.routes_view().contains(
                        #[trigger] pushed.routes_view()[q],
                    ) by {
                        let x = pushed.routes_view()[q];
                        if !pushed.routes_view().contains((n@, declared_pattern(decls, n@))) {
                            assert(bound.routes_view()[q] == x);
                        }
                    }
                }
                let target = TypeRef::Named(n.clone());
                proof {
                    assert forall|x: Seq<char>| universe(decls, target).contains(x) implies universe(
                        decls,
                        *t,
                    ).contains(x) by {
                        lemma_concat_contains(catalog_ids(decls), ref_ids(target), x);
                        lemma_concat_contains(catalog_ids(decls), ref_ids(*t), x);
                        if ref_ids(target).contains(x) {
                            assert(ref_ids(*t)[0] == x);
                        }
                    }
                    lemma_fewer_unregistered(
                        universe(decls, *t),
                        universe(decls, target),
                        dom0,
                        self.registry().dom(),
                        id@,
                    );
                }
                let item_type = self.register_rec(&target, Ghost(pend2));
                proof {
                    assert forall|q: int|
                        0 <= q < pushed.routes_view().len() implies self.routes_view().contains(
                        #[trigger] pushed.routes_view()[q],
                    ) by {
                        let x = pushed.routes_view()[q];
                        let w = choose|w: int|
                            0 <= w < bound.routes_view().len() && bound.routes_view()[w] == x;
                        assert(self.routes_view().contains(bound.routes_view()[w]));
                    }
                }
                TypeMetadata::Resource { item_type }
            },
        };
        let ghost mid = *self;
        proof {
            assert(mid.catalog == old(self).catalog);
            assert forall|k: Seq<char>| #[trigger]
                pushed.registry().contains_key(k) implies mid.registry().contains_key(k)
                    && mid.registry()[k] == pushed.registry()[k]
                    && mid.origins@[k] == pushed.origins@[k] by {
            }
            assert forall|q: int|
                0 <= q < pushed.routes_view().len() implies mid.routes_view().contains(
                #[trigger] pushed.routes_view()[q],
            ) by {
            }
        }
        let entry = TypeEntry { id: id.clone(), metadata };
        proof {
            lemma_entries_map_update(self.types@, idx as int, entry);
        }
        self.types.set(idx, entry);
        proof {
            assert(self.registry() == mid.registry().insert(id@, metadata@));
            assert(mid.registry().insert(id@, metadata@).dom() =~= mid.registry().dom());
            assert forall|k: Seq<char>| #[trigger]
                self.registry().contains_key(k) implies entry_ok(
                decls,
                self.registry(),
                self.origins@[k],
                k,
                pending.contains(k),
            ) by {
                assert(mid.registry().contains_key(k));
                assert(entry_ok(decls, mid.registry(), mid.origins@[k], k, pend2.contains(k)));
                if k == id@ {
                    assert(!pending.contains(k));
                    assert(self.origins@[k] == *t);
                    assert(self.registry()[k] == metadata@);
                    assert(metadata@ == expected_metadata(decls, *t));
                    assert(refs_within(metadata@, self.registry().dom()));
                }
            }
            assert forall|k: Seq<char>| #[trigger]
                old(self).registry().contains_key(k) implies self.registry()[k]
                    == old(self).registry()[k] && self.origins@[k] == old(self).origins@[k] by {
                assert(pushed.registry().contains_key(k));
                assert(mid.registry().contains_key(k));
            }
            assert forall|q: int|
                0 <= q < old(self).routes_view().len() implies self.routes_view().contains(
                #[trigger] old(self).routes_view()[q],
            ) by {
                assert(pushed.routes_view()[q] == old(self).routes_view()[q]);
                assert(mid.routes_view().contains(pushed.routes_view()[q]));
            }
        }
        id
    }

    /// Binds the resource type `name` to its declared path pattern.
    fn bind_route(&mut self, name: &String, Ghost(pending): Ghost<Set<Seq<char>>>)
        requires
            old(self).inv(pending),
            declares_resource(old(self).catalog.decls@, name@),
        ensures
            final(self).inv(pending),
            final(self).types == old(self).types,
            final(self).catalog == old(self).catalog,
            final(self).origins == old(self).origins,
            final(self).routes_view() == with_route(
                old(self).routes_view(),
                name@,
                declared_pattern(old(self).catalog.decls@, name@),
            ),
    {
        let ghost decls = self.catalog.decls@;
        let i = match self.catalog.find(name) {
            Some(i) => i,
            None => {
                return ;
            },
        };
        let p = match &self.catalog.decls[i].path_pattern {
            Some(p) => p.clone(),
            None => {
                return ;
            },
        };
        proof {
            lemma_decl_index(decls, name@);
        }
        let mut j: usize = 0;
        while j < self.routes.len()
            invariant
                self.inv(pending),
                self.catalog.decls@ == decls,
                i == decl_index(decls, name@),
                0 <= i < decls.len(),
                decls[i as int].name@ == name@,
                pattern_of(decls[i as int]) == Some(p@),
                p@ == declared_pattern(decls, name@),
                j <= self.routes@.len(),
                forall|k: int| 0 <= k < j ==> self.routes@[k].path_pattern@ != p@,
            decreases self.routes@.len() - j,
        {
            if self.routes[j].path_pattern.eq(&p) {
                proof {
                    let r = self.routes@[j as int];
                    assert(route_declared(decls, r));
                    lemma_decl_index(decls, r.name@);
                    let i2 = decl_index(decls, r.name@);
                    assert(pattern_of(decls[i2]) == pattern_of(decls[i as int]));
                    assert(i2 == i);
                    assert(self.routes_view()[j as int] == (name@, p@));
                }
                return ;
            }
            j = j + 1;
        }
        let ghost before = self.routes@;
        proof {
            assert(pattern_ascii(decls[i as int]));
        }
        add_route(&mut self.router, p.as_str(), name.clone());
        self.routes.push(ResourceRoute { name: name.clone(), path_pattern: p });
        proof {
            assert forall|k: int| 0 <= k < self.routes@.len() implies #[trigger] route_declared(
                decls,
                self.routes@[k],
            ) by {
                if k < before.len() {
                    assert(self.routes@[k] == before[k]);
                }
            }
            assert(!old(self).routes_view().contains((name@, p@))) by {
                if old(self).routes_view().contains((name@, p@)) {
                    let k = choose|k: int|
                        0 <= k < old(self).routes_view().len() && old(self).routes_view()[k] == (
                        name@,
                        p@,
                    );
                    assert(before[k].path_pattern@ == p@);
                }
            }
            assert(self.routes_view() =~= old(self).routes_view().push((name@, p@)));
            assert(pattern_table(self.routes_view()) =~= pattern_table(old(self).routes_view()).push(
                (p@, name@),
            ));
        }
    }
}

} // verus!
