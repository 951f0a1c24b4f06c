//! The declarations an application makes of its types, checked before its
//! schema is built.

use vstd::prelude::*;
use vstd::string::{StringExecFns, StringExecFnsIsAscii};
use vstd::utf8::is_ascii_chars;

verus! {

/// How a field names its type: a declared scalar or object type, a list of
/// some type, or a link to a declared resource type.
#[derive(Debug, PartialEq)]
pub enum TypeRef {
    Named(String),
    List(Box<TypeRef>),
    Link(String),
}

/// The id of a list of the type `item`.
pub open spec fn list_id(item: Seq<char>) -> Seq<char> {
    seq!['['] + item + seq![']']
}

/// What a link's id starts with.
pub open spec fn link_prefix() -> Seq<char> {
    seq!['R', 'e', 's', 'o', 'u', 'r', 'c', 'e', ':']
}

/// The id of a link to the resource type `target`.
pub open spec fn link_id(target: Seq<char>) -> Seq<char> {
    link_prefix() + target
}

/// The registry key of a type: its own name, `[item]` for a list, and
/// `Resource:target` for a link.
pub open spec fn type_id_of(t: TypeRef) -> Seq<char>
    decreases t,
{
    match t {
        TypeRef::Named(n) => n@,
        TypeRef::List(item) => list_id(type_id_of(*item)),
        TypeRef::Link(n) => link_id(n@),
    }
}

/// The ids of `t` and of every type nested in it.
pub open spec fn ref_ids(t: TypeRef) -> Seq<Seq<char>>
    decreases t,
{
    match t {
        TypeRef::Named(n) => seq![n@],
        TypeRef::List(item) => ref_ids(*item).push(type_id_of(t)),
        TypeRef::Link(n) => seq![n@, link_id(n@)],
    }
}

/// A type's own id is among its ids.
pub proof fn lemma_ref_ids_has_own(t: TypeRef)
    ensures
        ref_ids(t).contains(type_id_of(t)),
{
    match t {
        TypeRef::Named(n) => {
            assert(ref_ids(t)[0] == type_id_of(t));
        },
        TypeRef::List(item) => {
            assert(ref_ids(t).last() == type_id_of(t));
        },
        TypeRef::Link(n) => {
            assert(ref_ids(t)[1] == type_id_of(t));
        },
    }
}

impl TypeRef {
    /// The registry key of this type.
    pub fn type_id(&self) -> (r: String)
        ensures
            r@ == type_id_of(*self),
        decreases self,
    {
        match self {
            TypeRef::Named(n) => n.clone(),
            TypeRef::List(item) => {
                let inner = item.type_id();
                let mut s = String::from_str("[");
                s.append(inner.as_str());
                s.append("]");
                proof {
                    reveal_strlit("[");
                    reveal_strlit("]");
                }
                s
            },
            TypeRef::Link(n) => {
                let mut s = String::from_str("Resource:");
                s.append(n.as_str());
                proof {
                    reveal_strlit("Resource:");
                }
                s
            },
        }
    }

    /// A copy of this type reference.
    pub fn copy(&self) -> (r: TypeRef)
        ensures
            r == *self,
        decreases self,
    {
        match self {
            TypeRef::Named(n) => TypeRef::Named(n.clone()),
            TypeRef::List(item) => TypeRef::List(Box::new((**item).copy())),
            TypeRef::Link(n) => TypeRef::Link(n.clone()),
        }
    }
}

/// One declared field of an object type.
#[derive(Debug, PartialEq)]
pub struct FieldDecl {
    pub name: String,
    pub field_type: TypeRef,
}

/// The shape a declared type has.
#[derive(Debug, PartialEq)]
pub enum Shape {
    Scalar,
    Object(Vec<FieldDecl>),
}

/// An application type: its id, its shape and, for an addressable resource,
/// the path pattern under which it is served.
#[derive(Debug, PartialEq)]
pub struct TypeDecl {
    pub name: String,
    pub shape: Shape,
    pub path_pattern: Option<String>,
}

/// The fields an object shape declares; none for a scalar.
pub open spec fn shape_fields(shape: Shape) -> Seq<FieldDecl> {
    match shape {
        Shape::Scalar => Seq::empty(),
        Shape::Object(fields) => fields@,
    }
}

/// The index of the last declaration named `name`, or -1.
pub open spec fn decl_index(decls: Seq<TypeDecl>, name: Seq<char>) -> int
    decreases decls.len(),
{
    if decls.len() == 0 {
        -1
    } else if decls.last().name@ == name {
        decls.len() - 1
    } else {
        decl_index(decls.drop_last(), name)
    }
}

/// `decl_index` finds a declaration of that name, or there is none.
pub proof fn lemma_decl_index(decls: Seq<TypeDecl>, name: Seq<char>)
    ensures
        -1 <= decl_index(decls, name) < decls.len(),
        decl_index(decls, name) >= 0 ==> decls[decl_index(decls, name)].name@ == name,
        decl_index(decls, name) == -1 ==> forall|i: int|
            0 <= i < decls.len() ==> decls[i].name@ != name,
    decreases decls.len(),
{
    if decls.len() > 0 {
        lemma_decl_index(decls.drop_last(), name);
        if decls.last().name@ != name {
            assert forall|i: int| 0 <= i < decls.len() - 1 implies decls[i] == decls.drop_last()[i] by {}
        }
    }
}

/// Some declaration has this name.
pub open spec fn is_declared(decls: Seq<TypeDecl>, name: Seq<char>) -> bool {
    decl_index(decls, name) >= 0
}

/// The declaration of this name gives a path pattern.
pub open spec fn declares_resource(decls: Seq<TypeDecl>, name: Seq<char>) -> bool {
    is_declared(decls, name) && decls[decl_index(decls, name)].path_pattern is Some
}

/// Every type that `t` names is declared, and every link targets a resource.
pub open spec fn covers(decls: Seq<TypeDecl>, t: TypeRef) -> bool
    decreases t,
{
    match t {
        TypeRef::Named(n) => is_declared(decls, n@),
        TypeRef::List(item) => covers(decls, *item),
        TypeRef::Link(n) => declares_resource(decls, n@),
    }
}

/// The path pattern of a declaration, as characters.
pub open spec fn pattern_of(d: TypeDecl) -> Option<Seq<char>> {
    match d.path_pattern {
        Some(p) => Some(p@),
        None => None,
    }
}

/// Every field type of an object shape is covered.
pub open spec fn fields_covered(decls: Seq<TypeDecl>, shape: Shape) -> bool {
    match shape {
        Shape::Scalar => true,
        Shape::Object(fields) => forall|j: int|
            0 <= j < fields@.len() ==> #[trigger] covers(decls, fields@[j].field_type),
    }
}

/// A declared path pattern is ASCII text.
pub open spec fn pattern_ascii(d: TypeDecl) -> bool {
    match d.path_pattern {
        Some(p) => is_ascii_chars(p@),
        None => true,
    }
}

/// Every field type of every object is covered, every path pattern is ASCII
/// text, and no two declarations share a path pattern.
pub open spec fn catalog_valid(decls: Seq<TypeDecl>) -> bool {
    &&& forall|i: int| 0 <= i < decls.len() ==> #[trigger] pattern_ascii(decls[i])
    &&& forall|i: int| 0 <= i < decls.len() ==> #[trigger] fields_covered(decls, decls[i].shape)
    &&& forall|i: int, j: int|
        0 <= i < decls.len() && 0 <= j < decls.len() && i != j && pattern_of(decls[i]) is Some
            ==> pattern_of(decls[i]) != pattern_of(decls[j])
}

/// Checks that every type `t` names is declared and every link targets a
/// resource.
pub fn check_ref(decls: &Vec<TypeDecl>, t: &TypeRef) -> (r: Result<(), SchemaError>)
    ensures
        r is Ok <==> covers(decls@, *t),
    decreases t,
{
    match t {
        TypeRef::Named(n) => {
            if find_decl(decls, n).is_none() {
                return Err(SchemaError::UnknownType(n.clone()));
            }
            Ok(())
        },
        TypeRef::List(item) => check_ref(decls, item),
        TypeRef::Link(n) => match find_decl(decls, n) {
            None => Err(SchemaError::UnknownType(n.clone())),
            Some(i) => {
                if decls[i].path_pattern.is_none() {
                    return Err(SchemaError::NotAResource(n.clone()));
                }
                Ok(())
            },
        },
    }
}

/// The index of the last declaration named `name`, if there is one.
pub fn find_decl(decls: &Vec<TypeDecl>, name: &String) -> (r: Option<usize>)
    ensures
        r is None <==> !is_declared(decls@, name@),
        r matches Some(i) ==> i == decl_index(decls@, name@) && i < decls@.len()
            && decls@[i as int].name@ == name@,
{
    proof {
        lemma_decl_index(decls@, name@);
    }
    let mut i: usize = decls.len();
    assert(decls@.take(i as int) =~= decls@);
    while i > 0
        invariant
            i <= decls@.len(),
            decl_index(decls@, name@) == decl_index(decls@.take(i as int), name@),
        decreases i,
    {
        let ghost pre = decls@.take(i as int);
        if decls[i - 1].name.eq(name) {
            return Some(i - 1);
        }
        assert(pre.drop_last() =~= decls@.take(i - 1));
        i = i - 1;
    }
    assert(decls@.take(0) =~= Seq::<TypeDecl>::empty());
    None
}

/// Whether two optional patterns are equal.
fn same_pattern(a: &Option<String>, b: &Option<String>) -> (r: bool)
    ensures
        r == (a matches Some(x) && b matches Some(y) && x@ == y@),
{
    match (a, b) {
        (Some(x), Some(y)) => x.eq(y),
        _ => false,
    }
}

/// Why a schema cannot be built.
#[derive(Debug, Clone, PartialEq)]
pub enum SchemaError {
    UnknownType(String),
    NotAResource(String),
    RouteConflict(String),
    InvalidPattern(String),
}

/// The declarations an application makes before its schema is built.
#[derive(Debug, PartialEq)]
pub struct Catalog {
    pub decls: Vec<TypeDecl>,
}

impl Catalog {
    /// A catalog that declares the built-in scalar `String`.
    pub fn new() -> (r: Catalog)
        ensures
            r.decls@.len() == 1,
            r.decls@[0].name@ == seq!['S', 't', 'r', 'i', 'n', 'g'],
            r.decls@[0].shape is Scalar,
            r.decls@[0].path_pattern is None,
    {
        let name = String::from_str("String");
        proof {
            reveal_strlit("String");
        }
        let mut decls: Vec<TypeDecl> = Vec::new();
        decls.push(TypeDecl { name, shape: Shape::Scalar, path_pattern: None });
        Catalog { decls }
    }

    /// Appends a declaration.
    pub fn declare(&mut self, decl: TypeDecl)
        ensures
            final(self).decls@ == old(self).decls@.push(decl),
    {
        self.decls.push(decl);
    }

    /// The index of the last declaration named `name`, if there is one.
    pub fn find(&self, name: &String) -> (r: Option<usize>)
        ensures
            r is None <==> !is_declared(self.decls@, name@),
            r matches Some(i) ==> i == decl_index(self.decls@, name@) && i < self.decls@.len()
                && self.decls@[i as int].name@ == name@,
    {
        find_decl(&self.decls, name)
    }

    /// Checks that the declarations can be registered: every field type is
    /// declared, every link targets a resource, and no path pattern is
    /// declared twice.
    pub fn check(&self) -> (r: Result<(), SchemaError>)
        ensures
            r is Ok <==> catalog_valid(self.decls@),
    {
        let n = self.decls.len();
        let mut i: usize = 0;
        while i < n
            invariant
                n == self.decls@.len(),
                i <= n,
                forall|k: int| 0 <= k < i ==> #[trigger] fields_covered(self.decls@, self.decls@[k].shape),
            decreases n - i,
        {
            match &self.decls[i].shape {
                Shape::Scalar => {},
                Shape::Object(fields) => {
                    let mut j: usize = 0;
                    while j < fields.len()
                        invariant
                            n == self.decls@.len(),
                            i < n,
                            self.decls@[i as int].shape == Shape::Object(*fields),
                            j <= fields@.len(),
                            forall|k: int| 0 <= k < j ==> #[trigger] covers(self.decls@, fields@[k].field_type),
                        decreases fields@.len() - j,
                    {
                        let c = check_ref(&self.decls, &fields[j].field_type);
                        if c.is_err() {
                            assert(!fields_covered(self.decls@, self.decls@[i as int].shape));
                            return c;
                        }
                        j = j + 1;
                    }
                },
            }
            i = i + 1;
        }
        let mut k: usize = 0;
        while k < n
            invariant
                n == self.decls@.len(),
                k <= n,
                forall|x: int| 0 <= x < n ==> #[trigger] fields_covered(self.decls@, self.decls@[x].shape),
                forall|x: int| 0 <= x < k ==> #[trigger] pattern_ascii(self.decls@[x]),
            decreases n - k,
        {
            if let Some(p) = &self.decls[k].path_pattern {
                if !p.is_ascii() {
                    assert(!pattern_ascii(self.decls@[k as int]));
                    return Err(SchemaError::InvalidPattern(p.clone()));
                }
            }
            k = k + 1;
        }
        let mut a: usize = 0;
        while a < n
            invariant
                n == self.decls@.len(),
                forall|x: int| 0 <= x < n ==> #[trigger] pattern_ascii(self.decls@[x]),
                a <= n,
                forall|k: int| 0 <= k < n ==> #[trigger] fields_covered(self.decls@, self.decls@[k].shape),
                forall|x: int, y: int|
                    0 <= x < a && 0 <= y < n && x != y && pattern_of(self.decls@[x]) is Some
                        ==> pattern_of(self.decls@[x]) != pattern_of(self.decls@[y]),
            decreases n - a,
        {
            let mut b: usize = 0;
            while b < n
                invariant
                    n == self.decls@.len(),
                    a < n,
                    b <= n,
                    forall|x: int, y: int|
                        0 <= x < a && 0 <= y < n && x != y && pattern_of(self.decls@[x]) is Some
                            ==> pattern_of(self.decls@[x]) != pattern_of(self.decls@[y]),
                    forall|y: int|
                        0 <= y < b && a != y && pattern_of(self.decls@[a as int]) is Some
                            ==> pattern_of(self.decls@[a as int]) != pattern_of(self.decls@[y]),
                decreases n - b,
            {
                if a != b && same_pattern(&self.decls[a].path_pattern, &self.decls[b].path_pattern) {
                    let p = match &self.decls[a].path_pattern {
                        Some(p) => p.clone(),
                        None => String::new(),
                    };
                    return Err(SchemaError::RouteConflict(p));
                }
                b = b + 1;
            }
            a = a + 1;
        }
        Ok(())
    }
}

} // verus!
