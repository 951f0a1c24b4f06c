//! Selections: per type, which fields are resolved inline and where a
//! resource boundary stops resolution.

use vstd::prelude::*;

use crate::schema::{fields_model, MetaModel, Schema, TypeMetadata};

verus! {

/// Which items of a list a selection takes.
#[derive(Clone, Copy, Debug, PartialEq, Eq)]
pub enum ListItem {
    All,
    Index(u32),
}

/// A named field of an object selection.
#[derive(Debug, PartialEq)]
pub struct ObjectField {
    pub name: String,
    pub selection: Selection,
}

/// What of a value is resolved inline; `Link` is a resource boundary, where
/// resolution stops and the linked resource is deferred.
#[derive(Debug, PartialEq)]
pub enum Selection {
    Link,
    Scalar,
    Object(Vec<ObjectField>),
    List(ListItem, Box<Selection>),
}

/// `Selection` with its names taken as character sequences.
pub enum SelectionModel {
    Link,
    Scalar,
    Object(Seq<(Seq<char>, SelectionModel)>),
    List(ListItem, Box<SelectionModel>),
}

pub open spec fn selection_model(s: Selection) -> SelectionModel
    decreases s,
{
    match s {
        Selection::Link => SelectionModel::Link,
        Selection::Scalar => SelectionModel::Scalar,
        Selection::Object(fields) => SelectionModel::Object(
            Seq::new(
                fields@.len(),
                |i: int|
                    if 0 <= i < fields@.len() {
                        (fields@[i].name@, selection_model(fields@[i].selection))
                    } else {
                        (Seq::empty(), SelectionModel::Scalar)
                    },
            ),
        ),
        Selection::List(item, inner) => SelectionModel::List(
            item,
            Box::new(selection_model(*inner)),
        ),
    }
}

impl View for Selection {
    type V = SelectionModel;

    open spec fn view(&self) -> SelectionModel {
        selection_model(*self)
    }
}

/// The selection of the type `id`, built from the registry through at most
/// `depth` nested levels; `None` where `id` is not registered or the types
/// nest deeper without passing a resource boundary.
pub open spec fn build_spec(reg: Map<Seq<char>, MetaModel>, id: Seq<char>, depth: nat) -> Option<
    SelectionModel,
>
    decreases depth, 0nat,
{
    if depth == 0 || !reg.contains_key(id) {
        None
    } else {
        match reg[id] {
            MetaModel::Scalar => Some(SelectionModel::Scalar),
            MetaModel::Resource(_) => Some(SelectionModel::Link),
            MetaModel::List(item) => match build_spec(reg, item, (depth - 1) as nat) {
                Some(s) => Some(SelectionModel::List(ListItem::All, Box::new(s))),
                None => None,
            },
            MetaModel::Object(fields) => match fields_spec(reg, fields, (depth - 1) as nat) {
                Some(s) => Some(SelectionModel::Object(s)),
                None => None,
            },
        }
    }
}

/// The selections of the given fields, in their order, each built through
/// at most `depth` levels; `None` where one of them cannot be built.
pub open spec fn fields_spec(
    reg: Map<Seq<char>, MetaModel>,
    fields: Seq<(Seq<char>, Seq<char>)>,
    depth: nat,
) -> Option<Seq<(Seq<char>, SelectionModel)>>
    decreases depth, fields.len() + 1,
{
    if fields.len() == 0 {
        Some(Seq::empty())
    } else {
        match fields_spec(reg, fields.drop_last(), depth) {
            None => None,
            Some(prev) => match build_spec(reg, fields.last().1, depth) {
                None => None,
                Some(s) => Some(prev.push((fields.last().0, s))),
            },
        }
    }
}

/// Built field selections keep the fields' names and order.
pub proof fn lemma_fields_spec(
    reg: Map<Seq<char>, MetaModel>,
    fields: Seq<(Seq<char>, Seq<char>)>,
    depth: nat,
)
    requires
        fields_spec(reg, fields, depth) is Some,
    ensures
        fields_spec(reg, fields, depth)->0.len() == fields.len(),
        forall|i: int|
            0 <= i < fields.len() ==> fields_spec(reg, fields, depth)->0[i].0 == fields[i].0
                && build_spec(reg, #[trigger] fields[i].1, depth) == Some(
                fields_spec(reg, fields, depth)->0[i].1,
            ),
    decreases fields.len(),
{
    if fields.len() > 0 {
        lemma_fields_spec(reg, fields.drop_last(), depth);
        assert forall|i: int| 0 <= i < fields.len() - 1 implies fields.drop_last()[i] == fields[i] by {}
    }
}

proof fn lemma_fields_spec_prefix(
    reg: Map<Seq<char>, MetaModel>,
    fields: Seq<(Seq<char>, Seq<char>)>,
    k: int,
    depth: nat,
)
    requires
        0 <= k <= fields.len(),
        fields_spec(reg, fields.take(k), depth) is None,
    ensures
        fields_spec(reg, fields, depth) is None,
    decreases fields.len(),
{
    if k == fields.len() {
        assert(fields.take(k) =~= fields);
    } else {
        assert(fields.drop_last().take(k) =~= fields.take(k));
        lemma_fields_spec_prefix(reg, fields.drop_last(), k, depth);
    }
}

/// The selection built for the type `id` of a schema. The depth bound is the
/// number of registered types, which no chain of distinct types nested
/// without a resource boundary exceeds.
pub open spec fn selection_for(schema: Schema, id: Seq<char>) -> Option<SelectionModel> {
    build_spec(schema.registry(), id, schema.type_count())
}

fn build(schema: &Schema, id: &String, depth: usize) -> (r: Option<Selection>)
    requires
        schema.wf(),
    ensures
        r is None <==> build_spec(schema.registry(), id@, depth as nat) is None,
        r matches Some(s) ==> build_spec(schema.registry(), id@, depth as nat) == Some(s@),
    decreases depth,
{
    if depth == 0 {
        return None;
    }
    let metadata = match schema.lookup(id) {
        Some(m) => m,
        None => {
            return None;
        },
    };
    let ghost reg = schema.registry();
    let ghost d1 = (depth - 1) as nat;
    match metadata {
        TypeMetadata::Scalar => Some(Selection::Scalar),
        TypeMetadata::Resource { .. } => Some(Selection::Link),
        TypeMetadata::List { item_type } => match build(schema, item_type, depth - 1) {
            Some(s) => Some(Selection::List(ListItem::All, Box::new(s))),
            None => None,
        },
        TypeMetadata::Object { fields } => {
            let ghost fm = fields_model(fields@);
            let mut out: Vec<ObjectField> = Vec::new();
            let mut j: usize = 0;
            assert(fm.take(0) =~= Seq::<(Seq<char>, Seq<char>)>::empty());
            while j < fields.len()
                invariant
                    schema.wf(),
                    reg == schema.registry(),
                    depth >= 1,
                    d1 == depth - 1,
                    fm == fields_model(fields@),
                    reg.contains_key(id@),
                    reg[id@] == MetaModel::Object(fm),
                    j <= fields@.len(),
                    out@.len() == j,
                    fields_spec(reg, fm.take(j as int), d1) is Some,
                    fields_spec(reg, fm.take(j as int), d1)->0.len() == j,
                    forall|q: int|
                        0 <= q < j ==> fields_spec(reg, fm.take(j as int), d1)->0[q] == (
                            (#[trigger] out@[q]).name@,
                            out@[q].selection@,
                        ),
                decreases fields@.len() - j,
            {
                let ghost prev = fields_spec(reg, fm.take(j as int), d1)->0;
                proof {
                    assert(fm.take(j + 1).drop_last() =~= fm.take(j as int));
                    assert(fm.take(j + 1).last() == fm[j as int]);
                }
                match build(schema, &fields[j].field_type, depth - 1) {
                    None => {
                        proof {
                            assert(fm[j as int].1 == fields@[j as int].field_type@);
                            assert(fields_spec(reg, fm.take(j + 1), d1) is None);
                            lemma_fields_spec_prefix(reg, fm, j + 1, d1);
                            assert(reg.contains_key(id@));
                            assert(reg[id@] == MetaModel::Object(fm));
                            assert(build_spec(reg, id@, depth as nat) is None);
                        }
                        return None;
                    },
                    Some(s) => {
                        out.push(ObjectField { name: fields[j].name.clone(), selection: s });
                        proof {
                            assert forall|q: int|
                                0 <= q < j + 1 implies fields_spec(reg, fm.take(j + 1), d1)->0[q] == (
                                    (#[trigger] out@[q]).name@,
                                    out@[q].selection@,
                                ) by {
                                if q < j {
                                    assert(prev[q] == fields_spec(reg, fm.take(j + 1), d1)->0[q]);
                                }
                            }
                        }
                    },
                }
                j = j + 1;
            }
            let r = Selection::Object(out);
            proof {
                assert(fm.take(j as int) =~= fm);
                let m = r@->Object_0;
                assert(m =~= fields_spec(reg, fm, d1)->0);
            }
            Some(r)
        },
    }
}

impl Selection {
    /// The selection of the type `type_id`: scalars as they are, objects field
    /// by field in declared order, lists through their item type, and a
    /// resource as a link, without entering its fields. `None` where the type
    /// is not registered or nests within itself without a resource boundary.
    pub fn resource(type_id: &String, schema: &Schema) -> (r: Option<Selection>)
        requires
            schema.wf(),
        ensures
            r is None <==> selection_for(*schema, type_id@) is None,
            r matches Some(s) ==> selection_for(*schema, type_id@) == Some(s@),
    {
        build(schema, type_id, schema.len())
    }
}

/// A field whose type is a resource is a link boundary in the selection of
/// its object: the selection does not enter the resource's own fields.
pub proof fn lemma_link_boundary(reg: Map<Seq<char>, MetaModel>, id: Seq<char>, depth: nat, j: int)
    requires
        reg.contains_key(id),
        reg[id] is Object,
        0 <= j < reg[id]->Object_0.len(),
        reg.contains_key(reg[id]->Object_0[j].1),
        reg[reg[id]->Object_0[j].1] is Resource,
        build_spec(reg, id, depth) is Some,
    ensures
        build_spec(reg, id, depth)->0 matches SelectionModel::Object(fields) && fields.len()
            == reg[id]->Object_0.len() && fields[j] == (
            reg[id]->Object_0[j].0,
            SelectionModel::Link,
        ),
{
    let fields = reg[id]->Object_0;
    lemma_fields_spec(reg, fields, (depth - 1) as nat);
}

} // verus!
