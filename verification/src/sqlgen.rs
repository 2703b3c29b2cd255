//! The schema generator: maps data-model struct declarations to
//! `CREATE TABLE` statements, one column per field.
//!
//! The generator reads, of each field's Rust type, only the last path
//! segment's identifier and the first type argument, so a declaration is
//! modelled here by exactly those parts ([`RustType`]); the surrounding
//! program parses source files and hands the declarations in.

use vstd::prelude::*;

use crate::policy::str_eq;

verus! {

/// A Rust type as the generator reads it: the last path segment's
/// identifier together with its first angle-bracketed type argument, or
/// any other form of type.
#[derive(Debug, PartialEq, Eq)]
pub enum RustType {
    Path { name: String, arg: Option<Box<RustType>> },
    Other,
}

/// The SQLite column classification of a Rust type.
#[derive(Debug, PartialEq, Eq)]
pub enum RustSqlite {
    Integer,
    Float,
    Text,
    Boolean,
    Binary,
    Optional(Box<RustSqlite>),
    Other,
}

/// The type is `u8`.
pub open spec fn spec_is_u8(t: RustType) -> bool {
    t matches RustType::Path { name, arg } && name@ == "u8"@ && arg is None
}

/// The column classification of a Rust type: integral types map to
/// `Integer`, floating types to `Float`, text to `Text`, `bool` to
/// `Boolean`, `Vec<u8>` to `Binary`, an `Option` wraps its argument's
/// classification, and anything else is `Other`.
pub open spec fn spec_classify(t: RustType) -> RustSqlite
    decreases t,
{
    match t {
        RustType::Path { name, arg } => {
            if name@ == "i8"@ || name@ == "u8"@ || name@ == "i16"@ || name@ == "u16"@ || name@
                == "i32"@ || name@ == "u32"@ || name@ == "i64"@ || name@ == "u64"@ || name@
                == "isize"@ || name@ == "usize"@ {
                RustSqlite::Integer
            } else if name@ == "f32"@ || name@ == "f64"@ {
                RustSqlite::Float
            } else if name@ == "String"@ || name@ == "str"@ {
                RustSqlite::Text
            } else if name@ == "bool"@ {
                RustSqlite::Boolean
            } else if name@ == "Vec"@ {
                if arg matches Some(inner) && spec_is_u8(*inner) {
                    RustSqlite::Binary
                } else {
                    RustSqlite::Other
                }
            } else if name@ == "Option"@ {
                match arg {
                    Some(inner) => RustSqlite::Optional(Box::new(spec_classify(*inner))),
                    None => RustSqlite::Other,
                }
            } else {
                RustSqlite::Other
            }
        },
        RustType::Other => RustSqlite::Other,
    }
}

/// Classifies a Rust type for column generation.
pub fn from_rust_type(ty: &RustType) -> (r: RustSqlite)
    ensures
        r == spec_classify(*ty),
    decreases *ty,
{
    match ty {
        RustType::Path { name, arg } => {
            let n = name.as_str();
            if str_eq(n, "i8") || str_eq(n, "u8") || str_eq(n, "i16") || str_eq(n, "u16")
                || str_eq(n, "i32") || str_eq(n, "u32") || str_eq(n, "i64") || str_eq(n, "u64")
                || str_eq(n, "isize") || str_eq(n, "usize") {
                RustSqlite::Integer
            } else if str_eq(n, "f32") || str_eq(n, "f64") {
                RustSqlite::Float
            } else if str_eq(n, "String") || str_eq(n, "str") {
                RustSqlite::Text
            } else if str_eq(n, "bool") {
                RustSqlite::Boolean
            } else if str_eq(n, "Vec") {
                match arg {
                    Some(inner) => {
                        if is_u8(inner) {
                            RustSqlite::Binary
                        } else {
                            RustSqlite::Other
                        }
                    },
                    None => RustSqlite::Other,
                }
            } else if str_eq(n, "Option") {
                match arg {
                    Some(inner) => RustSqlite::Optional(Box::new(from_rust_type(inner))),
                    None => RustSqlite::Other,
                }
            } else {
                RustSqlite::Other
            }
        },
        RustType::Other => RustSqlite::Other,
    }
}

/// The type is `u8`.
fn is_u8(t: &RustType) -> (r: bool)
    ensures
        r == spec_is_u8(*t),
{
    match t {
        RustType::Path { name, arg } => {
            match arg {
                Some(_) => false,
                None => str_eq(name.as_str(), "u8"),
            }
        },
        RustType::Other => false,
    }
}

impl RustSqlite {
    /// The SQL type name of this classification; an optional column keeps
    /// its inner type's name.
    pub open spec fn spec_sql_type(self) -> Seq<char>
        decreases self,
    {
        match self {
            RustSqlite::Integer => "INTEGER"@,
            RustSqlite::Float => "REAL"@,
            RustSqlite::Text => "TEXT"@,
            RustSqlite::Boolean => "INTEGER"@,
            RustSqlite::Binary => "BLOB"@,
            RustSqlite::Optional(inner) => inner.spec_sql_type(),
            RustSqlite::Other => "TEXT"@,
        }
    }

    /// The SQL type of a column of this classification.
    pub fn to_sql_type(&self) -> (s: &str)
        ensures
            s@ == self.spec_sql_type(),
        decreases *self,
    {
        match self {
            RustSqlite::Integer => "INTEGER",
            RustSqlite::Float => "REAL",
            RustSqlite::Text => "TEXT",
            RustSqlite::Boolean => "INTEGER",
            RustSqlite::Binary => "BLOB",
            RustSqlite::Optional(inner) => inner.to_sql_type(),
            RustSqlite::Other => "TEXT",
        }
    }

    /// The column constraint: every non-optional column is `NOT NULL`.
    pub open spec fn spec_nullability(self) -> Seq<char> {
        if self is Optional {
            ""@
        } else {
            " NOT NULL"@
        }
    }

    /// The `NOT NULL` constraint of a column of this classification, or
    /// nothing for an optional one.
    pub fn nullability(&self) -> (s: String)
        ensures
            s@ == self.spec_nullability(),
    {
        match self {
            RustSqlite::Optional(_) => {
                let s = String::new();
                proof {
                    reveal_strlit("");
                    assert(s@ =~= ""@);
                }
                s
            },
            _ => " NOT NULL".to_owned(),
        }
    }
}

/// The text the lowercasing of `s` yields.
pub uninterp spec fn lower_of(s: Seq<char>) -> Seq<char>;

/// Relies on str::to_lowercase: the result is a function of the input
/// characters alone.
#[verifier::external_body]
fn lowercase(s: &str) -> (r: String)
    ensures
        r@ == lower_of(s@),
{
    s.to_lowercase()
}

/// One field declaration of a data-model struct: the field's name and
/// its type.
pub struct FieldDecl {
    pub name: String,
    pub ty: RustType,
}

/// A data-model struct declaration: the struct's name and its named
/// fields.
pub struct StructDecl {
    pub name: String,
    pub fields: Vec<FieldDecl>,
}

/// The column definition a field yields: name, SQL type, constraint.
pub open spec fn spec_field_sql(f: FieldDecl) -> Seq<char> {
    f.name@ + " "@ + spec_classify(f.ty).spec_sql_type() + spec_classify(f.ty).spec_nullability()
}

/// The column definitions joined with a separator between them.
pub open spec fn spec_fields_joined(fs: Seq<FieldDecl>) -> Seq<char>
    decreases fs.len(),
{
    if fs.len() == 0 {
        Seq::empty()
    } else if fs.len() == 1 {
        spec_field_sql(fs[0])
    } else {
        spec_fields_joined(fs.drop_last()) + ",\n"@ + spec_field_sql(fs.last())
    }
}

/// The whole statement a struct declaration yields: a `CREATE TABLE` for
/// the pluralised, lowercased struct name, with one column per field.
pub open spec fn spec_table_sql(s: StructDecl) -> Seq<char> {
    "CREATE TABLE IF NOT EXISTS "@ + lower_of(s.name@) + "s (\n"@ + spec_fields_joined(s.fields@)
        + "\n);"@
}

/// Converts a data-model struct declaration to an SQL table definition.
pub fn struct_to_sql_table(item_struct: &StructDecl) -> (sql: String)
    ensures
        sql@ == spec_table_sql(*item_struct),
{
    let ghost fields = item_struct.fields@;
    let mut out = "CREATE TABLE IF NOT EXISTS ".to_owned();
    let low = lowercase(item_struct.name.as_str());
    out.append(low.as_str());
    out.append("s (\n");
    let ghost head = "CREATE TABLE IF NOT EXISTS "@ + lower_of(item_struct.name@) + "s (\n"@;
    proof {
        assert(out@ =~= head);
    }
    let n = item_struct.fields.len();
    let mut i: usize = 0;
    while i < n
        invariant
            n == fields.len(),
            i <= n,
            fields == item_struct.fields@,
            out@ == head + spec_fields_joined(fields.take(i as int)),
        decreases n - i,
    {
        let ghost pre = out@;
        if i > 0 {
            out.append(",\n");
        }
        let f = &item_struct.fields[i];
        out.append(f.name.as_str());
        out.append(" ");
        let t = from_rust_type(&f.ty);
        out.append(t.to_sql_type());
        let nullab = t.nullability();
        out.append(nullab.as_str());
        proof {
            assert(fields.take(i + 1).drop_last() =~= fields.take(i as int));
            assert(fields.take(i + 1).last() == fields[i as int]);
            if i == 0 {
                assert(fields.take(1).len() == 1);
                assert(fields.take(1)[0] == fields[0]);
                assert(out@ =~= head + spec_fields_joined(fields.take(1)));
            } else {
                assert(spec_fields_joined(fields.take(i + 1)) == spec_fields_joined(
                    fields.take(i as int),
                ) + ",\n"@ + spec_field_sql(fields[i as int]));
                assert(out@ =~= head + spec_fields_joined(fields.take(i + 1)));
            }
        }
        i += 1;
    }
    out.append("\n);");
    proof {
        assert(fields.take(n as int) =~= fields);
        assert(out@ =~= spec_table_sql(*item_struct));
    }
    out
}

/// A directory entry as the surrounding program reports it: its full
/// path, its bare file name, and whether it is a regular file.
#[derive(Debug, Clone)]
pub struct FsEntry {
    pub path: String,
    pub file_name: String,
    pub is_file: bool,
}

/// Model of an [`FsEntry`].
#[verifier::ext_equal]
pub ghost struct FsEntryModel {
    pub path: Seq<char>,
    pub file_name: Seq<char>,
    pub is_file: bool,
}

impl View for FsEntry {
    type V = FsEntryModel;

    open spec fn view(&self) -> FsEntryModel {
        FsEntryModel { path: self.path@, file_name: self.file_name@, is_file: self.is_file }
    }
}

/// The entry is a data-model source file.
pub open spec fn is_models_file(e: FsEntryModel) -> bool {
    e.is_file && e.file_name == "models.rs"@
}

/// The paths of the data-model source files among the entries, in order.
pub open spec fn models_paths(es: Seq<FsEntryModel>) -> Seq<Seq<char>>
    decreases es.len(),
{
    if es.len() == 0 {
        Seq::empty()
    } else if is_models_file(es.last()) {
        models_paths(es.drop_last()).push(es.last().path)
    } else {
        models_paths(es.drop_last())
    }
}

/// The models of a sequence of entries.
pub open spec fn entries_model(es: Seq<FsEntry>) -> Seq<FsEntryModel> {
    es.map_values(|e: FsEntry| e@)
}

/// Selects, among the directory entries the surrounding program walked,
/// the paths of the data-model source files.
pub fn find_models_files(entries: &Vec<FsEntry>) -> (r: Vec<String>)
    ensures
        r@.map_values(|p: String| p@) == models_paths(entries_model(entries@)),
{
    let ghost em = entries_model(entries@);
    let mut r: Vec<String> = Vec::new();
    let n = entries.len();
    let mut i: usize = 0;
    while i < n
        invariant
            n == entries@.len(),
            i <= n,
            em == entries_model(entries@),
            r@.map_values(|p: String| p@) == models_paths(em.take(i as int)),
        decreases n - i,
    {
        let ghost pre = r@;
        let e = &entries[i];
        proof {
            assert(em[i as int] == e@);
        }
        if e.is_file && str_eq(e.file_name.as_str(), "models.rs") {
            r.push(e.path.clone());
        }
        proof {
            assert(em.take(i + 1).drop_last() =~= em.take(i as int));
            assert(em.take(i + 1).last() == em[i as int]);
            assert(r@.map_values(|p: String| p@) =~= models_paths(em.take(i + 1)));
        }
        i += 1;
    }
    proof {
        assert(em.take(n as int) =~= em);
    }
    r
}

/// The statement each struct declaration yields, in order.
pub fn generate_migrations(structs: &Vec<StructDecl>) -> (r: Vec<String>)
    ensures
        r@.len() == structs@.len(),
        forall|i: int| 0 <= i < r@.len() ==> (#[trigger] r@[i])@ == spec_table_sql(structs@[i]),
{
    let mut r: Vec<String> = Vec::new();
    let n = structs.len();
    let mut i: usize = 0;
    while i < n
        invariant
            n == structs@.len(),
            i <= n,
            r@.len() == i,
            forall|k: int| 0 <= k < i ==> (#[trigger] r@[k])@ == spec_table_sql(structs@[k]),
        decreases n - i,
    {
        let sql = struct_to_sql_table(&structs[i]);
        r.push(sql);
        i += 1;
    }
    r
}

} // verus!
