//! The decisions of the local store: where it lives, schema versions,
//! stored keys and tag lists, the values a resource is written with, and
//! which projects may be archived.
use vstd::prelude::*;

use crate::domain::{
    validate_name, validated_name, Asset, AssetDraft, Health, ResourceKind, ValidationError,
};
use crate::text::{chars_of, str_equal, string_from_chars, trim, trim_str, views};

verus! {

/// The schema version this library writes.
pub const SCHEMA_VERSION: i64 = 1;

/// What opening a database must do to its schema.
#[derive(Clone, Copy, Debug, PartialEq, Eq, Structural)]
pub enum SchemaStep {
    /// An empty database: create the schema and record its version.
    Create,
    /// The schema is current.
    Keep,
}

/// A database written by a newer version, which is never opened.
#[derive(Clone, Copy, Debug, PartialEq, Eq, Structural)]
pub struct SchemaTooNew {
    pub found: i64,
    pub supported: i64,
}

/// Decides the schema step from the database's `user_version`.
pub fn schema_step(current: i64) -> (r: Result<SchemaStep, SchemaTooNew>)
    ensures
        current > SCHEMA_VERSION ==> r == Err::<SchemaStep, SchemaTooNew>(
            SchemaTooNew { found: current, supported: SCHEMA_VERSION },
        ),
        current == 0 ==> r == Ok::<SchemaStep, SchemaTooNew>(SchemaStep::Create),
        current != 0 && current <= SCHEMA_VERSION ==> r == Ok::<SchemaStep, SchemaTooNew>(
            SchemaStep::Keep,
        ),
{
    if current > SCHEMA_VERSION {
        return Err(SchemaTooNew { found: current, supported: SCHEMA_VERSION });
    }
    if current == 0 {
        Ok(SchemaStep::Create)
    } else {
        Ok(SchemaStep::Keep)
    }
}

/// The example data is written only into a database without projects.
pub fn needs_seed(project_count: i64) -> (r: bool)
    ensures
        r == (project_count == 0),
{
    project_count == 0
}

/// A project may be archived only while another active project remains.
pub fn can_archive_project(active_projects: i64) -> (r: bool)
    ensures
        r == (active_projects > 1),
{
    active_projects > 1
}

/// Longest project name, in characters.
pub const PROJECT_NAME_MAX: usize = 120;

/// Longest resource name, in characters.
pub const ASSET_NAME_MAX: usize = 240;

// ----------------------------------------------------------------------------
// Where the database lives
// ----------------------------------------------------------------------------

/// The directory that holds the database.
#[derive(Clone, Debug, PartialEq, Eq)]
pub enum DataLocation {
    /// A directory named by the user, used as it is.
    Given(String),
    /// The platform's data directory; the store lives in its `itgla` child.
    Under(String),
}

/// Picks the data directory: a non-empty directory named by the user wins,
/// then the platform's data directory; with neither there is none.
pub fn data_location(explicit: Option<String>, platform: Option<String>) -> (r: Option<DataLocation>)
    ensures
        match explicit {
            Some(given) if given@.len() > 0 => r == Some(DataLocation::Given(given)),
            _ => match platform {
                Some(base) => r == Some(DataLocation::Under(base)),
                None => r.is_none(),
            },
        },
{
    match explicit {
        Some(given) if given.as_str().unicode_len() > 0 => Some(DataLocation::Given(given)),
        _ => match platform {
            Some(base) => Some(DataLocation::Under(base)),
            None => None,
        },
    }
}

// ----------------------------------------------------------------------------
// Stored keys
// ----------------------------------------------------------------------------

/// The kind stored under a key; unknown keys read as `Service`.
pub open spec fn kind_for_key(value: Seq<char>) -> ResourceKind {
    if value == "website"@ {
        ResourceKind::Website
    } else if value == "domain"@ {
        ResourceKind::Domain
    } else if value == "certificate"@ {
        ResourceKind::Certificate
    } else if value == "server"@ {
        ResourceKind::Server
    } else {
        ResourceKind::Service
    }
}

/// The health stored under a key; unknown keys read as `Healthy`.
pub open spec fn health_for_key(value: Seq<char>) -> Health {
    if value == "warning"@ {
        Health::Warning
    } else if value == "critical"@ {
        Health::Critical
    } else {
        Health::Healthy
    }
}

/// Reads a stored kind key.
pub fn parse_kind(value: &str) -> (r: ResourceKind)
    ensures
        r == kind_for_key(value@),
{
    if str_equal(value, "website") {
        ResourceKind::Website
    } else if str_equal(value, "domain") {
        ResourceKind::Domain
    } else if str_equal(value, "certificate") {
        ResourceKind::Certificate
    } else if str_equal(value, "server") {
        ResourceKind::Server
    } else {
        ResourceKind::Service
    }
}

/// Reads a stored health key.
pub fn parse_health(value: &str) -> (r: Health)
    ensures
        r == health_for_key(value@),
{
    if str_equal(value, "warning") {
        Health::Warning
    } else if str_equal(value, "critical") {
        Health::Critical
    } else {
        Health::Healthy
    }
}

// ----------------------------------------------------------------------------
// Stored tag lists
// ----------------------------------------------------------------------------

/// One character of a list separated by `", "`: a space right after a comma
/// closes the current piece (the comma is not part of it).
pub open spec fn list_step(pieces: Seq<Seq<char>>, c: char) -> Seq<Seq<char>> {
    let current = pieces.last();
    if c == ' ' && current.len() > 0 && current.last() == ',' {
        pieces.update(pieces.len() - 1, current.drop_last()).push(Seq::<char>::empty())
    } else {
        pieces.update(pieces.len() - 1, current.push(c))
    }
}

/// The pieces of `s` between the occurrences of `", "` (`str::split(", ")`).
pub open spec fn split_list(s: Seq<char>) -> Seq<Seq<char>> {
    s.fold_left(seq![Seq::<char>::empty()], |pieces: Seq<Seq<char>>, c: char| list_step(pieces, c))
}

/// The tags of a stored list: its non-empty pieces.
pub open spec fn stored_tags(s: Seq<char>) -> Seq<Seq<char>> {
    split_list(s).filter(|t: Seq<char>| t.len() > 0)
}

// ----------------------------------------------------------------------------
// Stored resources
// ----------------------------------------------------------------------------

/// The values a resource is written with.
#[derive(Clone, Debug, PartialEq, Eq)]
pub struct AssetRow {
    pub project_id: i64,
    pub kind_key: String,
    pub name: String,
    pub detail: String,
    pub status_detail: String,
    pub environment: String,
    pub health_key: String,
    pub tags: Vec<String>,
}

/// Prepares a resource for writing: its name is validated, its free text
/// trimmed, its kind and health written by their keys.
pub fn prepare_asset(draft: &AssetDraft) -> (r: Result<AssetRow, ValidationError>)
    ensures
        match validated_name(draft.name@, ASSET_NAME_MAX) {
            Err(e) => r == Err::<AssetRow, ValidationError>(e),
            Ok(name) => match r {
                Ok(row) => {
                    &&& row.project_id == draft.project_id
                    &&& row.kind_key@ == draft.kind.key_text()
                    &&& row.name@ == name
                    &&& row.detail@ == trim(draft.detail@)
                    &&& row.status_detail@ == trim(draft.status_detail@)
                    &&& row.environment@ == trim(draft.environment@)
                    &&& row.health_key@ == draft.health.key_text()
                    &&& views(row.tags@) == views(draft.tags@)
                },
                Err(_) => false,
            },
        },
{
    let name = match validate_name(draft.name.as_str(), ASSET_NAME_MAX) {
        Ok(name) => name,
        Err(e) => return Err(e),
    };
    let mut tags: Vec<String> = Vec::new();
    let n = draft.tags.len();
    for i in 0..n
        invariant
            n == draft.tags@.len(),
            tags@ == draft.tags@.take(i as int),
    {
        tags.push(draft.tags[i].clone());
        assert(tags@ =~= draft.tags@.take(i as int + 1));
    }
    assert(draft.tags@.take(n as int) =~= draft.tags@);
    Ok(
        AssetRow {
            project_id: draft.project_id,
            kind_key: String::from_str(draft.kind.key()),
            name,
            detail: String::from_str(trim_str(draft.detail.as_str())),
            status_detail: String::from_str(trim_str(draft.status_detail.as_str())),
            environment: String::from_str(trim_str(draft.environment.as_str())),
            health_key: String::from_str(draft.health.key()),
            tags,
        },
    )
}

/// Builds a resource from a stored row: the kind and health are read from
/// their keys, the tags from the stored list.
pub fn asset_from_row(
    id: i64,
    project_id: i64,
    kind: &str,
    name: String,
    detail: String,
    status_detail: String,
    environment: String,
    health: &str,
    tags: &str,
) -> (r: Asset)
    ensures
        r.id == id,
        r.project_id == project_id,
        r.kind == kind_for_key(kind@),
        r.name == name,
        r.detail == detail,
        r.status_detail == status_detail,
        r.environment == environment,
        r.health == health_for_key(health@),
        views(r.tags@) == stored_tags(tags@),
{
    Asset {
        id,
        project_id,
        kind: parse_kind(kind),
        name,
        detail,
        status_detail,
        environment,
        health: parse_health(health),
        tags: split_stored_tags(tags),
    }
}

/// Reads a stored `", "`-separated tag list, leaving out empty pieces.
pub fn split_stored_tags(value: &str) -> (r: Vec<String>)
    ensures
        views(r@) == stored_tags(value@),
{
    let chars = chars_of(value);
    let ghost f = |pieces: Seq<Seq<char>>, c: char| list_step(pieces, c);
    let ghost init = seq![Seq::<char>::empty()];
    let ghost keep = |t: Seq<char>| t.len() > 0;
    let mut done: Vec<String> = Vec::new();
    let mut current: Vec<char> = Vec::new();
    let ghost mut closed: Seq<Seq<char>> = Seq::empty();
    let n = chars.len();
    assert(chars@.take(0) =~= Seq::<char>::empty());
    assert(closed.filter(keep) =~= Seq::<Seq<char>>::empty()) by {
        reveal(Seq::filter);
    }
    assert(closed.push(current@) =~= init);
    for i in 0..n
        invariant
            n == chars@.len(),
            chars@ == value@,
            f == (|pieces: Seq<Seq<char>>, c: char| list_step(pieces, c)),
            init == seq![Seq::<char>::empty()],
            keep == (|t: Seq<char>| t.len() > 0),
            chars@.take(i as int).fold_left(init, f) == closed.push(current@),
            views(done@) == closed.filter(keep),
    {
        proof {
            crate::folds::lemma_fold_take_step(chars@, init, f, i as int);
        }
        let c = chars[i];
        let ghost pieces = closed.push(current@);
        if c == ' ' && current.len() > 0 && current[current.len() - 1] == ',' {
            current.pop();
            let ghost piece = current@;
            assert(pieces.update(pieces.len() - 1, pieces.last().drop_last()) =~= closed.push(piece));
            if current.len() > 0 {
                let s = string_from_chars(&current);
                let ghost before = views(done@);
                done.push(s);
                assert(views(done@) =~= before.push(piece));
            }
            proof {
                reveal(Seq::filter);
                assert(closed.push(piece).drop_last() =~= closed);
                closed = closed.push(piece);
            }
            current = Vec::new();
            assert(closed.push(current@) =~= pieces.update(pieces.len() - 1, pieces.last().drop_last()).push(
                Seq::<char>::empty(),
            ));
        } else {
            current.push(c);
            assert(closed.push(current@) =~= pieces.update(pieces.len() - 1, pieces.last().push(c)));
        }
    }
    proof {
        crate::folds::lemma_fold_take_all(chars@, init, f);
    }
    let ghost last = current@;
    if current.len() > 0 {
        let s = string_from_chars(&current);
        let ghost before = views(done@);
        done.push(s);
        assert(views(done@) =~= before.push(last));
    }
    proof {
        reveal(Seq::filter);
        assert(closed.push(last).drop_last() =~= closed);
    }
    done
}

} // verus!

verus! {

/// Every kind reads back from its stored key.
pub proof fn lemma_kind_key_round_trip(k: ResourceKind)
    ensures
        kind_for_key(k.key_text()) == k,
{
    reveal_strlit("website");
    reveal_strlit("domain");
    reveal_strlit("certificate");
    reveal_strlit("server");
    reveal_strlit("service");
    assert("website"@.len() == 7);
    assert("domain"@.len() == 6);
    assert("certificate"@.len() == 11);
    assert("server"@.len() == 6);
    assert("service"@.len() == 7);
    assert("website"@[0] == 'w');
    assert("service"@[0] == 's');
    assert("domain"@[0] == 'd');
    assert("server"@[0] == 's');
    assert("service"@ != "website"@);
    assert("server"@ != "domain"@);
}

/// Every health level reads back from its stored key.
pub proof fn lemma_health_key_round_trip(h: Health)
    ensures
        health_for_key(h.key_text()) == h,
{
    reveal_strlit("healthy");
    reveal_strlit("warning");
    reveal_strlit("critical");
    assert("healthy"@.len() == 7);
    assert("warning"@.len() == 7);
    assert("critical"@.len() == 8);
    assert("healthy"@[0] == 'h');
    assert("warning"@[0] == 'w');
    assert("healthy"@ != "warning"@);
    assert("healthy"@ != "critical"@);
}

} // verus!
