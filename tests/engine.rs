use rest_rs::catalog::{Catalog, FieldDecl, SchemaError, Shape, TypeDecl, TypeRef};
use rest_rs::push::{resolve_resource, PushScheduler};
use rest_rs::request::{dispatch, link_params, Dispatch};
use rest_rs::resolve::{copy_value, resolve, Content, ContentField, FieldValue, Link, ResolveError, Value};
use rest_rs::schema::{Schema, TypeMetadata};
use rest_rs::selection::{ListItem, ObjectField, Selection};

fn s(x: &str) -> String {
    x.to_string()
}

fn named(x: &str) -> TypeRef {
    TypeRef::Named(s(x))
}

fn field(name: &str, t: TypeRef) -> FieldDecl {
    FieldDecl { name: s(name), field_type: t }
}

fn object(name: &str, fields: Vec<FieldDecl>, pattern: Option<&str>) -> TypeDecl {
    TypeDecl { name: s(name), shape: Shape::Object(fields), path_pattern: pattern.map(s) }
}

fn books_catalog(recursive: bool) -> Catalog {
    let mut catalog = Catalog::new();
    catalog.declare(object(
        "Root",
        vec![field("field_str", named("String")), field("field_link", TypeRef::Link(s("Book")))],
        Some("/"),
    ));
    let mut book_fields = vec![field("field_str", named("String"))];
    if recursive {
        book_fields.push(field("field_recursive", TypeRef::Link(s("Book"))));
    }
    catalog.declare(object("Book", book_fields, Some("/books/:id")));
    catalog
}

fn book_link(id: &str) -> Link {
    Link { type_id: s("Book"), address: format!("/books/{}", id), held: None }
}

fn root_value() -> Value {
    Value::Object(vec![
        FieldValue { name: s("field_str"), value: Value::Str(s("I'm Root !")) },
        FieldValue { name: s("field_link"), value: Value::Link(book_link("book-123")) },
    ])
}

fn book_value() -> Value {
    Value::Object(vec![FieldValue { name: s("field_str"), value: Value::Str(s("I'm a book !")) }])
}

fn fetch_book(link: &Link) -> Option<Value> {
    if link.address == "/books/book-123" {
        Some(book_value())
    } else {
        None
    }
}

fn entry(key: &str, content: Content) -> ContentField {
    ContentField { key: s(key), content }
}

#[test]
fn end_to_end_books() {
    let schema = Schema::new(books_catalog(false), &s("Root")).unwrap();
    let root = resolve_resource(&schema, &s("Root"), &Some(root_value())).unwrap().unwrap();
    assert_eq!(
        root.content,
        Content::Object(vec![
            entry("field_str", Content::Str(s("I'm Root !"))),
            entry("field_link", Content::Str(s("/books/book-123"))),
        ])
    );
    let mut scheduler = PushScheduler::new(&s("/"), &root);
    let mut pushed = Vec::new();
    while !scheduler.is_done() {
        let fetched: Vec<Option<Value>> = scheduler.requests().iter().map(fetch_book).collect();
        pushed.extend(scheduler.advance(&schema, &fetched).unwrap());
    }
    assert_eq!(pushed.len(), 1);
    assert_eq!(pushed[0].content, Content::Object(vec![entry("field_str", Content::Str(s("I'm a book !")))]));
    assert_eq!(pushed[0].pending, 0);
}

#[test]
fn root_not_found() {
    let schema = Schema::new(books_catalog(false), &s("Root")).unwrap();
    let r = resolve_resource(&schema, &s("Book"), &fetch_book(&book_link("book-999")));
    assert_eq!(r, Ok(None));
}

#[test]
fn link_target_not_found_pushes_nothing() {
    let schema = Schema::new(books_catalog(false), &s("Root")).unwrap();
    let root_value = Value::Object(vec![
        FieldValue { name: s("field_str"), value: Value::Str(s("I'm Root !")) },
        FieldValue { name: s("field_link"), value: Value::Link(book_link("book-999")) },
    ]);
    let root = resolve_resource(&schema, &s("Root"), &Some(root_value)).unwrap().unwrap();
    assert_eq!(
        root.content,
        Content::Object(vec![
            entry("field_str", Content::Str(s("I'm Root !"))),
            entry("field_link", Content::Str(s("/books/book-999"))),
        ])
    );
    let mut scheduler = PushScheduler::new(&s("/"), &root);
    assert_eq!(scheduler.requests().len(), 1);
    let fetched: Vec<Option<Value>> = scheduler.requests().iter().map(fetch_book).collect();
    let units = scheduler.advance(&schema, &fetched).unwrap();
    assert!(units.is_empty());
    assert!(scheduler.is_done());
}

#[test]
fn not_found_sibling_is_pruned_alone() {
    let schema = Schema::new(books_catalog(false), &s("Root")).unwrap();
    let list = Value::List(vec![
        Value::Link(book_link("book-123")),
        Value::Link(book_link("book-999")),
        Value::Link(book_link("book-124")),
    ]);
    let selection = Selection::List(ListItem::All, Box::new(Selection::Link));
    let node = resolve(&list, &selection).unwrap();
    assert_eq!(node.deferred.len(), 3);
    let mut scheduler = PushScheduler::new(&s("/"), &node);
    let fetched = vec![
        Some(book_value()),
        None,
        Some(Value::Object(vec![FieldValue { name: s("field_str"), value: Value::Str(s("other")) }])),
    ];
    let units = scheduler.advance(&schema, &fetched).unwrap();
    assert_eq!(units.len(), 2);
    assert_eq!(units[0].content, Content::Object(vec![entry("field_str", Content::Str(s("I'm a book !")))]));
    assert_eq!(units[1].content, Content::Object(vec![entry("field_str", Content::Str(s("other")))]));
}

#[test]
fn registering_twice_changes_nothing() {
    let mut schema = Schema::new(books_catalog(false), &s("Root")).unwrap();
    let n = schema.len();
    let first = schema.register_type(&named("Book")).unwrap();
    let second = schema.register_type(&named("Book")).unwrap();
    assert_eq!(first, s("Book"));
    assert_eq!(second, first);
    assert_eq!(schema.len(), n);
    let list = schema.register_type(&TypeRef::List(Box::new(named("Book")))).unwrap();
    assert_eq!(list, s("[Book]"));
    assert_eq!(schema.len(), n + 1);
    let again = schema.register_type(&TypeRef::List(Box::new(named("Book")))).unwrap();
    assert_eq!(again, list);
    assert_eq!(schema.len(), n + 1);
}

#[test]
fn self_linking_type_registers_completely() {
    let schema = Schema::new(books_catalog(true), &s("Book")).unwrap();
    match schema.type_metadata(&s("Book")) {
        TypeMetadata::Object { fields } => {
            assert_eq!(fields.len(), 2);
            assert_eq!(fields[0].name, "field_str");
            assert_eq!(fields[0].field_type, "String");
            assert_eq!(fields[1].name, "field_recursive");
            assert_eq!(fields[1].field_type, "Resource:Book");
        },
        other => panic!("unexpected metadata {:?}", other),
    }
    assert_eq!(
        schema.type_metadata(&s("Resource:Book")),
        &TypeMetadata::Resource { item_type: s("Book") }
    );
    assert_eq!(schema.type_metadata(&s("String")), &TypeMetadata::Scalar);
    assert_eq!(schema.len(), 3);
    assert_eq!(schema.routes().len(), 1);
    assert_eq!(schema.routes()[0].name, "Book");
    assert_eq!(schema.routes()[0].path_pattern, "/books/:id");
}

#[test]
fn self_nesting_object_registers_but_has_no_selection() {
    let mut catalog = Catalog::new();
    catalog.declare(object(
        "Tree",
        vec![field("label", named("String")), field("children", TypeRef::List(Box::new(named("Tree"))))],
        Some("/trees/:id"),
    ));
    let schema = Schema::new(catalog, &s("Tree")).unwrap();
    match schema.type_metadata(&s("Tree")) {
        TypeMetadata::Object { fields } => {
            assert_eq!(fields.len(), 2);
            assert_eq!(fields[1].field_type, "[Tree]");
        },
        other => panic!("unexpected metadata {:?}", other),
    }
    assert_eq!(schema.type_metadata(&s("[Tree]")), &TypeMetadata::List { item_type: s("Tree") });
    assert!(Selection::resource(&s("Tree"), &schema).is_none());
}

#[test]
fn resource_field_is_a_link_boundary() {
    let schema = Schema::new(books_catalog(true), &s("Root")).unwrap();
    let selection = Selection::resource(&s("Root"), &schema).unwrap();
    assert_eq!(
        selection,
        Selection::Object(vec![
            ObjectField { name: s("field_str"), selection: Selection::Scalar },
            ObjectField { name: s("field_link"), selection: Selection::Link },
        ])
    );
    let node = resolve(&Value::Link(book_link("book-123")), &Selection::Link).unwrap();
    assert_eq!(node.content, Content::Str(s("/books/book-123")));
    assert_eq!(node.deferred, vec![book_link("book-123")]);
}

#[test]
fn object_content_follows_field_order() {
    let value = Value::Object(vec![
        FieldValue { name: s("c"), value: Value::Int(3) },
        FieldValue { name: s("b"), value: Value::Bool(true) },
        FieldValue { name: s("a"), value: Value::Str(s("x")) },
    ]);
    let selection = Selection::Object(vec![
        ObjectField { name: s("a"), selection: Selection::Scalar },
        ObjectField { name: s("b"), selection: Selection::Scalar },
        ObjectField { name: s("c"), selection: Selection::Scalar },
    ]);
    let node = resolve(&value, &selection).unwrap();
    assert_eq!(
        node.content,
        Content::Object(vec![
            entry("a", Content::Str(s("x"))),
            entry("b", Content::Bool(true)),
            entry("c", Content::Int(3)),
        ])
    );
    assert!(node.deferred.is_empty());
}

#[test]
fn list_content_follows_input_order() {
    let value = Value::List((1..=5).map(|i| Value::Int(i)).collect());
    let selection = Selection::List(ListItem::All, Box::new(Selection::Scalar));
    let node = resolve(&value, &selection).unwrap();
    assert_eq!(node.content, Content::Array((1..=5).map(|i| Content::Int(i)).collect()));
}

#[test]
fn deferred_links_concatenate_in_order() {
    let value = Value::Object(vec![
        FieldValue { name: s("first"), value: Value::List(vec![Value::Link(book_link("1")), Value::Link(book_link("2"))]) },
        FieldValue { name: s("second"), value: Value::Link(book_link("3")) },
    ]);
    let selection = Selection::Object(vec![
        ObjectField { name: s("first"), selection: Selection::List(ListItem::All, Box::new(Selection::Link)) },
        ObjectField { name: s("second"), selection: Selection::Link },
    ]);
    let node = resolve(&value, &selection).unwrap();
    assert_eq!(node.deferred, vec![book_link("1"), book_link("2"), book_link("3")]);
}

#[test]
fn mismatched_selection_gives_null() {
    let node = resolve(&Value::Str(s("x")), &Selection::Link).unwrap();
    assert_eq!(node.content, Content::Null);
    assert!(node.deferred.is_empty());
    let node = resolve(&Value::Int(1), &Selection::Object(vec![])).unwrap();
    assert_eq!(node.content, Content::Null);
}

#[test]
fn missing_field_is_an_error() {
    let selection = Selection::Object(vec![ObjectField { name: s("absent"), selection: Selection::Scalar }]);
    let r = resolve(&book_value(), &selection);
    assert_eq!(r, Err(ResolveError::MissingField(s("absent"))));
}

fn self_linking_book() -> Value {
    Value::Object(vec![
        FieldValue { name: s("field_str"), value: Value::Str(s("I'm a book !")) },
        FieldValue { name: s("field_recursive"), value: Value::Link(book_link("book-123")) },
    ])
}

#[test]
fn linked_addresses_are_pushed_once() {
    let schema = Schema::new(books_catalog(true), &s("Root")).unwrap();
    let root = resolve_resource(&schema, &s("Root"), &Some(root_value())).unwrap().unwrap();
    let mut scheduler = PushScheduler::new(&s("/"), &root);
    let mut pushed = Vec::new();
    while !scheduler.is_done() && pushed.len() < 10 {
        let fetched: Vec<Option<Value>> =
            scheduler.requests().iter().map(|_| Some(self_linking_book())).collect();
        pushed.extend(scheduler.advance(&schema, &fetched).unwrap());
    }
    assert_eq!(pushed.len(), 1);
    assert_eq!(pushed[0].pending, 1);
    assert!(scheduler.is_done());
}

#[test]
fn type_ids_of_wrappers() {
    assert_eq!(TypeRef::List(Box::new(named("Book"))).type_id(), "[Book]");
    assert_eq!(TypeRef::Link(s("Book")).type_id(), "Resource:Book");
    assert_eq!(TypeRef::List(Box::new(TypeRef::Link(s("Book")))).type_id(), "[Resource:Book]");
}

#[test]
fn catalog_errors() {
    let mut catalog = Catalog::new();
    catalog.declare(object("Root", vec![field("x", named("Missing"))], Some("/")));
    assert_eq!(catalog.check(), Err(SchemaError::UnknownType(s("Missing"))));
    assert!(matches!(Schema::new(catalog, &s("Root")), Err(SchemaError::UnknownType(_))));

    let mut catalog = Catalog::new();
    catalog.declare(object("Root", vec![field("x", TypeRef::Link(s("String")))], Some("/")));
    assert_eq!(catalog.check(), Err(SchemaError::NotAResource(s("String"))));

    let mut catalog = Catalog::new();
    catalog.declare(object("Root", vec![], Some("/")));
    catalog.declare(object("Other", vec![], Some("/")));
    assert_eq!(catalog.check(), Err(SchemaError::RouteConflict(s("/"))));

    let catalog = books_catalog(false);
    assert!(matches!(Schema::new(catalog, &s("String")), Err(SchemaError::NotAResource(_))));
    let catalog = books_catalog(false);
    assert!(matches!(Schema::new(catalog, &s("Nope")), Err(SchemaError::UnknownType(_))));
}

#[test]
fn register_resource_binds_once() {
    let mut schema = Schema::new(books_catalog(false), &s("Root")).unwrap();
    assert_eq!(schema.routes().len(), 2);
    assert_eq!(schema.register_resource(&s("Book")), Ok(()));
    assert_eq!(schema.routes().len(), 2);
    assert_eq!(schema.register_resource(&s("String")), Err(SchemaError::NotAResource(s("String"))));
    assert_eq!(schema.register_resource(&s("Nope")), Err(SchemaError::UnknownType(s("Nope"))));
}

#[test]
fn fields_pass_through_lists_and_resources() {
    let mut schema = Schema::new(books_catalog(false), &s("Root")).unwrap();
    let list = schema.register_type(&TypeRef::List(Box::new(TypeRef::Link(s("Book"))))).unwrap();
    assert_eq!(list, s("[Resource:Book]"));
    let book_fields = schema.type_metadata(&s("Book")).fields(&schema).unwrap();
    assert_eq!(book_fields.len(), 1);
    assert_eq!(book_fields[0].name, "field_str");
    let through_list = schema.type_metadata(&list).fields(&schema).unwrap();
    assert_eq!(through_list, book_fields);
    let through_link = schema.type_metadata(&s("Resource:Book")).fields(&schema).unwrap();
    assert_eq!(through_link, book_fields);
    assert!(schema.type_metadata(&s("String")).fields(&schema).is_none());
}

#[test]
fn field_and_object_builders() {
    let mut schema = Schema::new(books_catalog(false), &s("Root")).unwrap();
    let f = TypeMetadata::new_field(&mut schema, s("books"), &TypeRef::List(Box::new(named("Book")))).unwrap();
    assert_eq!(f.name, "books");
    assert_eq!(f.field_type, "[Book]");
    assert_eq!(schema.type_metadata(&s("[Book]")), &TypeMetadata::List { item_type: s("Book") });
    let g = TypeMetadata::new_field(&mut schema, s("title"), &named("String")).unwrap();
    let object = TypeMetadata::new_object(&[f.clone(), g.clone()]);
    assert_eq!(object, TypeMetadata::Object { fields: vec![f, g] });
    assert_eq!(
        TypeMetadata::new_field(&mut schema, s("x"), &named("Unknown")),
        Err(SchemaError::UnknownType(s("Unknown")))
    );
}

#[test]
fn routes_are_recognized() {
    let schema = Schema::new(books_catalog(false), &s("Root")).unwrap();
    let (type_id, params) = schema.recognize(&s("/books/book-123")).unwrap();
    assert_eq!(type_id, "Book");
    assert_eq!(params.find("id"), Some("book-123"));
    let (type_id, params) = schema.recognize(&s("/")).unwrap();
    assert_eq!(type_id, "Root");
    assert_eq!(params.iter().count(), 0);
    assert!(schema.recognize(&s("/authors/1")).is_none());

    assert!(matches!(dispatch(&schema, true, &s("/nowhere")), Dispatch::NotFound));
    assert!(matches!(dispatch(&schema, false, &s("/books/1")), Dispatch::MethodNotAllowed));
    match dispatch(&schema, true, &s("/books/1")) {
        Dispatch::Fetch { type_id, params } => {
            assert_eq!(type_id, "Book");
            assert_eq!(params.find("id"), Some("1"));
        },
        _ => panic!("a GET on a book is fetched"),
    }

    let params = link_params(&schema, &book_link("book-9")).unwrap();
    assert_eq!(params.find("id"), Some("book-9"));
    assert!(link_params(&schema, &Link { type_id: s("Root"), address: s("/books/1"), held: None }).is_none());
    assert!(link_params(&schema, &Link { type_id: s("Book"), address: s("/shelves/1"), held: None }).is_none());
}

#[test]
fn non_ascii_patterns_are_refused() {
    let mut catalog = Catalog::new();
    catalog.declare(object("Root", vec![], Some("/é")));
    assert_eq!(catalog.check(), Err(SchemaError::InvalidPattern(s("/é"))));
}

#[test]
fn unselectable_type_is_an_error() {
    let mut catalog = Catalog::new();
    catalog.declare(object(
        "Tree",
        vec![field("children", TypeRef::List(Box::new(named("Tree"))))],
        Some("/trees/:id"),
    ));
    let schema = Schema::new(catalog, &s("Tree")).unwrap();
    let tree = Value::Object(vec![FieldValue { name: s("children"), value: Value::List(vec![]) }]);
    assert_eq!(resolve_resource(&schema, &s("Tree"), &Some(tree)), Err(ResolveError::NoSelection(s("Tree"))));
    assert_eq!(resolve_resource(&schema, &s("Tree"), &None), Ok(None));
}

#[test]
fn held_resource_is_pushed_without_fetch() {
    let schema = Schema::new(books_catalog(false), &s("Root")).unwrap();
    let held = Link { type_id: s("Book"), address: s("/books/held"), held: Some(Box::new(book_value())) };
    let root_value = Value::Object(vec![
        FieldValue { name: s("field_str"), value: Value::Str(s("I'm Root !")) },
        FieldValue { name: s("field_link"), value: Value::Link(held) },
    ]);
    let root = resolve_resource(&schema, &s("Root"), &Some(root_value)).unwrap().unwrap();
    assert_eq!(
        root.content,
        Content::Object(vec![
            entry("field_str", Content::Str(s("I'm Root !"))),
            entry("field_link", Content::Str(s("/books/held"))),
        ])
    );
    assert_eq!(root.deferred.len(), 1);
    assert_eq!(root.deferred[0].held, Some(Box::new(book_value())));
    let mut scheduler = PushScheduler::new(&s("/"), &root);
    let units = scheduler.advance(&schema, &vec![None]).unwrap();
    assert_eq!(units.len(), 1);
    assert_eq!(units[0].address, "/books/held");
    assert_eq!(units[0].content, Content::Object(vec![entry("field_str", Content::Str(s("I'm a book !")))]));
    assert!(scheduler.is_done());
}

#[test]
fn copies_are_equal() {
    use_copy(&root_value());
    use_copy(&Value::List(vec![Value::Int(1), Value::Bool(false), Value::Link(book_link("x"))]));
}

fn use_copy(v: &Value) {
    assert_eq!(&copy_value(v), v);
}
