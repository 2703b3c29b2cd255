use aromatic::sqlgen::{
    find_models_files, from_rust_type, generate_migrations, struct_to_sql_table, FieldDecl,
    FsEntry, RustSqlite, RustType, StructDecl,
};

fn path(name: &str) -> RustType {
    RustType::Path { name: name.to_string(), arg: None }
}

fn path1(name: &str, inner: RustType) -> RustType {
    RustType::Path { name: name.to_string(), arg: Some(Box::new(inner)) }
}

#[test]
fn classification_of_rust_types() {
    assert_eq!(from_rust_type(&path("u32")), RustSqlite::Integer);
    assert_eq!(from_rust_type(&path("isize")), RustSqlite::Integer);
    assert_eq!(from_rust_type(&path("f64")), RustSqlite::Float);
    assert_eq!(from_rust_type(&path("String")), RustSqlite::Text);
    assert_eq!(from_rust_type(&path("bool")), RustSqlite::Boolean);
    assert_eq!(from_rust_type(&path1("Vec", path("u8"))), RustSqlite::Binary);
    assert_eq!(from_rust_type(&path1("Vec", path("u16"))), RustSqlite::Other);
    assert_eq!(
        from_rust_type(&path1("Option", path("String"))),
        RustSqlite::Optional(Box::new(RustSqlite::Text))
    );
    assert_eq!(
        from_rust_type(&path1("Option", path1("Option", path("bool")))),
        RustSqlite::Optional(Box::new(RustSqlite::Optional(Box::new(RustSqlite::Boolean))))
    );
    assert_eq!(from_rust_type(&path("Duration")), RustSqlite::Other);
    assert_eq!(from_rust_type(&RustType::Other), RustSqlite::Other);
}

#[test]
fn sql_types_and_nullability() {
    assert_eq!(RustSqlite::Integer.to_sql_type(), "INTEGER");
    assert_eq!(RustSqlite::Float.to_sql_type(), "REAL");
    assert_eq!(RustSqlite::Text.to_sql_type(), "TEXT");
    assert_eq!(RustSqlite::Boolean.to_sql_type(), "INTEGER");
    assert_eq!(RustSqlite::Binary.to_sql_type(), "BLOB");
    assert_eq!(RustSqlite::Optional(Box::new(RustSqlite::Binary)).to_sql_type(), "BLOB");
    assert_eq!(RustSqlite::Other.to_sql_type(), "TEXT");

    assert_eq!(RustSqlite::Integer.nullability(), " NOT NULL");
    assert_eq!(RustSqlite::Optional(Box::new(RustSqlite::Text)).nullability(), "");
}

#[test]
fn struct_becomes_create_table() {
    let decl = StructDecl {
        name: "User".to_string(),
        fields: vec![
            FieldDecl { name: "id".to_string(), ty: path("u32") },
            FieldDecl { name: "name".to_string(), ty: path("String") },
            FieldDecl { name: "email".to_string(), ty: path1("Option", path("String")) },
        ],
    };
    assert_eq!(
        struct_to_sql_table(&decl),
        "CREATE TABLE IF NOT EXISTS users (\nid INTEGER NOT NULL,\nname TEXT NOT NULL,\nemail TEXT\n);"
    );
}

#[test]
fn fieldless_struct_becomes_empty_table() {
    let decl = StructDecl { name: "Marker".to_string(), fields: vec![] };
    assert_eq!(struct_to_sql_table(&decl), "CREATE TABLE IF NOT EXISTS markers (\n\n);");
}

#[test]
fn generated_statements_come_in_declaration_order() {
    let decls = vec![
        StructDecl {
            name: "Post".to_string(),
            fields: vec![FieldDecl { name: "body".to_string(), ty: path("String") }],
        },
        StructDecl {
            name: "Tag".to_string(),
            fields: vec![FieldDecl { name: "label".to_string(), ty: path("str") }],
        },
    ];
    let sql = generate_migrations(&decls);
    assert_eq!(
        sql,
        vec![
            "CREATE TABLE IF NOT EXISTS posts (\nbody TEXT NOT NULL\n);".to_string(),
            "CREATE TABLE IF NOT EXISTS tags (\nlabel TEXT NOT NULL\n);".to_string(),
        ]
    );
}

fn entry(path: &str, file_name: &str, is_file: bool) -> FsEntry {
    FsEntry { path: path.to_string(), file_name: file_name.to_string(), is_file }
}

#[test]
fn find_models_files_selects_by_name() {
    let entries = vec![
        entry("src/models.rs", "models.rs", true),
        entry("src/lib.rs", "lib.rs", true),
        entry("src/models.rs.bak", "models.rs.bak", true),
        entry("src/app/models.rs", "models.rs", true),
        entry("src/models.rs", "models.rs", false),
    ];
    assert_eq!(
        find_models_files(&entries),
        vec!["src/models.rs".to_string(), "src/app/models.rs".to_string()]
    );
    assert_eq!(find_models_files(&Vec::new()), Vec::<String>::new());
}
