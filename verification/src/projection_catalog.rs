//! Read-only catalog queries over the projections, scoped to a project.
use vstd::prelude::*;
use vstd::string::*;

use crate::counters::{escape_like, escaped_text, matching, row_names, ByCount, CountRowModel};
use crate::order::{first, ranked, views};
use crate::projections::Projections;
use crate::text::same;

verus! {

/// Why a catalog query is refused.
#[derive(Debug)]
pub enum ProjectionCatalogError {
    InvalidStorage,
    InvalidSource,
    Database(String),
    Unavailable,
}

/// The message of an error.
pub open spec fn catalog_error_message(e: ProjectionCatalogError) -> Seq<char> {
    match e {
        ProjectionCatalogError::InvalidStorage => "not a validated projections database"@,
        ProjectionCatalogError::InvalidSource => "catalog source must be event or person"@,
        ProjectionCatalogError::Database(s) => "projection catalog database error: "@ + s@,
        ProjectionCatalogError::Unavailable => "projection catalog unavailable"@,
    }
}

impl ProjectionCatalogError {
    /// What the error says.
    pub fn message(&self) -> (r: String)
        ensures
            r@ == catalog_error_message(*self),
    {
        match self {
            ProjectionCatalogError::InvalidStorage =>
                "not a validated projections database".to_owned(),
            ProjectionCatalogError::InvalidSource =>
                "catalog source must be event or person".to_owned(),
            ProjectionCatalogError::Database(s) => crate::text::joined(
                "projection catalog database error: ",
                s.as_str(),
            ),
            ProjectionCatalogError::Unavailable => "projection catalog unavailable".to_owned(),
        }
    }
}

/// A property key as the catalog shows it.
pub struct PropertyKey {
    pub key: String,
    pub source: String,
    pub type_guess: String,
    pub count: i64,
}

/// The mathematical value of a property key.
pub struct PropertyKeyModel {
    pub key: Seq<char>,
    pub source: Seq<char>,
    pub type_guess: Seq<char>,
    pub count: int,
}

impl View for PropertyKey {
    type V = PropertyKeyModel;

    open spec fn view(&self) -> PropertyKeyModel {
        PropertyKeyModel {
            key: self.key@,
            source: self.source@,
            type_guess: self.type_guess@,
            count: self.count as int,
        }
    }
}

/// The property keys of rows.
pub open spec fn key_models(rows: Seq<CountRowModel>) -> Seq<PropertyKeyModel> {
    rows.map_values(
        |r: CountRowModel|
            PropertyKeyModel {
                key: r.key.2,
                source: r.key.1,
                type_guess: r.value.label,
                count: r.value.count,
            },
    )
}

/// A limit, brought into the range that a query serves.
pub open spec fn served(limit: int) -> int {
    if limit < 1 {
        1
    } else if limit > 200 {
        200
    } else {
        limit
    }
}

fn clamp_limit(limit: usize) -> (r: usize)
    ensures
        r == served(limit as int),
{
    if limit < 1 {
        1
    } else if limit > 200 {
        200
    } else {
        limit
    }
}

/// Whether a database is the projections database of a validated pair: its application id, and the pair
/// id and role that it records.
pub open spec fn projection_database(
    application_id: Option<i64>,
    expected: i64,
    metadata: Option<(Seq<char>, Seq<char>)>,
) -> bool {
    &&& application_id == Some(expected)
    &&& metadata matches Some(m) && m.0.len() > 0 && m.1 == "projections"@
}

/// Checks that a database is the projections database of a validated pair. What could not be read is
/// `None`.
pub fn validate_projection_database(
    application_id: Option<i64>,
    expected: i64,
    metadata: &Option<(String, String)>,
) -> (r: Result<(), ProjectionCatalogError>)
    ensures
        r is Ok <==> projection_database(
            application_id,
            expected,
            match metadata {
                Some(m) => Some((m.0@, m.1@)),
                None => None,
            },
        ),
        r matches Err(e) ==> e is InvalidStorage,
{
    match application_id {
        Some(id) => if id != expected {
            return Err(ProjectionCatalogError::InvalidStorage);
        },
        None => {
            return Err(ProjectionCatalogError::InvalidStorage);
        },
    }
    match metadata {
        Some((pair_id, role)) => if !pair_id.as_str().is_empty() && same(
            role.as_str(),
            "projections",
        ) {
            Ok(())
        } else {
            Err(ProjectionCatalogError::InvalidStorage)
        },
        None => Err(ProjectionCatalogError::InvalidStorage),
    }
}

/// The catalog of the projections.
pub struct ProjectionCatalog {
    pub projections: Projections,
}

/// The names within an owner and a group that begin with a prefix, the most frequent first and then by
/// name.
pub open spec fn names_found(
    rows: Seq<CountRowModel>,
    owner: Seq<char>,
    group: Seq<char>,
    prefix: Seq<char>,
    limit: int,
) -> Seq<Seq<char>> {
    row_names(
        first(
            ranked::<ByCount>(
                matching(
                    rows,
                    owner,
                    group,
                    Some(escaped_text(prefix) + "%"@),
                    Some('\\'),
                ),
            ),
            served(limit),
        ),
    )
}

fn names_of(rows: Vec<ByCount>) -> (r: Vec<String>)
    ensures
        views(r@) == row_names(views(rows@)),
{
    let mut out: Vec<String> = Vec::new();
    let mut i: usize = 0;
    while i < rows.len()
        invariant
            i <= rows.len(),
            out.len() == i,
            forall|j: int| 0 <= j < i ==> (#[trigger] out@[j])@ == rows@[j]@.key.2,
        decreases rows.len() - i,
    {
        out.push(rows[i].row.name.clone());
        i += 1;
    }
    assert(views(out@) =~= row_names(views(rows@)));
    out
}

impl ProjectionCatalog {
    /// The event names of a project that begin with a prefix.
    pub fn event_names(&self, project_id: &str, prefix: &str, limit: usize) -> (r: Vec<String>)
        ensures
            views(r@) == names_found(
                views(self.projections.event_names.rows@),
                project_id@,
                ""@,
                prefix@,
                limit as int,
            ),
    {
        let mut pattern = escape_like(prefix);
        pattern.append("%");
        let rows = self.projections.event_names.most_frequent(
            project_id,
            "",
            Some(pattern.as_str()),
            Some('\\'),
            clamp_limit(limit),
        );
        names_of(rows)
    }

    /// The property keys of a project from one source, the most frequent first and then by key.
    pub fn property_keys(&self, project_id: &str, source: &str) -> (r: Result<
        Vec<PropertyKey>,
        ProjectionCatalogError,
    >)
        ensures
            source@ != "event"@ && source@ != "person"@ ==> (r matches Err(e)
                && e is InvalidSource),
            source@ == "event"@ || source@ == "person"@ ==> (r matches Ok(keys) && views(keys@)
                == key_models(
                first(
                    ranked::<ByCount>(
                        matching(
                            views(self.projections.property_keys.rows@),
                            project_id@,
                            source@,
                            None,
                            None,
                        ),
                    ),
                    500,
                ),
            )),
    {
        if !same(source, "event") && !same(source, "person") {
            return Err(ProjectionCatalogError::InvalidSource);
        }
        let rows = self.projections.property_keys.most_frequent(
            project_id,
            source,
            None,
            None,
            500,
        );
        let mut out: Vec<PropertyKey> = Vec::new();
        let mut i: usize = 0;
        while i < rows.len()
            invariant
                i <= rows.len(),
                out.len() == i,
                forall|j: int|
                    0 <= j < i ==> (#[trigger] out@[j])@ == (PropertyKeyModel {
                        key: rows@[j]@.key.2,
                        source: rows@[j]@.key.1,
                        type_guess: rows@[j]@.value.label,
                        count: rows@[j]@.value.count,
                    }),
            decreases rows.len() - i,
        {
            out.push(
                PropertyKey {
                    key: rows[i].row.name.clone(),
                    source: rows[i].row.group.clone(),
                    type_guess: rows[i].row.label.clone(),
                    count: rows[i].row.count,
                },
            );
            i += 1;
        }
        assert(views(out@) =~= key_models(views(rows@)));
        Ok(out)
    }

    /// The values of a property of a project that begin with a prefix.
    pub fn property_values(&self, project_id: &str, key: &str, prefix: &str, limit: usize) -> (r: Vec<
        String,
    >)
        ensures
            views(r@) == names_found(
                views(self.projections.property_values.rows@),
                project_id@,
                key@,
                prefix@,
                limit as int,
            ),
    {
        let mut pattern = escape_like(prefix);
        pattern.append("%");
        let rows = self.projections.property_values.most_frequent(
            project_id,
            key,
            Some(pattern.as_str()),
            Some('\\'),
            clamp_limit(limit),
        );
        names_of(rows)
    }
}

} // verus!
