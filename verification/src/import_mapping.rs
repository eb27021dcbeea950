//! Mapping the columns of an import onto server fields.
use vstd::prelude::*;

use crate::domain::ServerColumn;
use crate::import_data::TabularData;
use crate::text::{
    ascii_lower_seq, ascii_lowered, chars_equal, chars_of, eq_ignore_ascii_case, join, join_with,
    str_eq_ignore_ascii_case, trim, trim_str, views,
};

verus! {

/// Where the values of one import column go.
#[derive(Clone, Debug, PartialEq, Eq)]
pub enum ServerImportTarget {
    Skip,
    Tags,
    IpAddress,
    Ports,
    ExistingCustom(i64),
    NewCustom(String),
}

/// A loaded import file with the chosen mapping of each of its columns.
pub struct ImportSession {
    pub data: Option<TabularData>,
    pub mappings: Vec<usize>,
    pub existing_columns: Vec<ServerColumn>,
}

impl Default for ImportSession {
    fn default() -> (r: Self)
        ensures
            r.data is None,
            r.mappings@.len() == 0,
            r.existing_columns@.len() == 0,
    {
        ImportSession { data: None, mappings: Vec::new(), existing_columns: Vec::new() }
    }
}

// ----------------------------------------------------------------------------
// Mapping choices
// ----------------------------------------------------------------------------

/// The choices offered for each column: skip, the three server fields, one
/// per existing custom column, and a new custom column.
pub open spec fn mapping_choices(columns: Seq<ServerColumn>) -> Seq<Seq<char>> {
    seq!["Skip"@, "Tags"@, "IP Address"@, "Ports"@] + columns.map_values(
        |c: ServerColumn| "Existing: "@ + c.name@,
    ) + seq!["New custom column"@]
}

/// The mapping choices shown for an import.
pub fn mapping_options(columns: &Vec<ServerColumn>) -> (r: Vec<String>)
    ensures
        views(r@) == mapping_choices(columns@),
{
    let mut options: Vec<String> = Vec::new();
    options.push("Skip".to_owned());
    options.push("Tags".to_owned());
    options.push("IP Address".to_owned());
    options.push("Ports".to_owned());
    let ghost fixed = seq!["Skip"@, "Tags"@, "IP Address"@, "Ports"@];
    assert(views(options@) =~= fixed);
    let n = columns.len();
    for i in 0..n
        invariant
            n == columns@.len(),
            views(options@) == fixed + columns@.take(i as int).map_values(
                |c: ServerColumn| "Existing: "@ + c.name@,
            ),
    {
        let mut label = "Existing: ".to_owned();
        label.append(columns[i].name.as_str());
        let ghost before = views(options@);
        options.push(label);
        assert(views(options@) =~= before.push(label@));
        assert(columns@.take(i + 1) =~= columns@.take(i as int).push(columns@[i as int]));
        assert(views(options@) =~= fixed + columns@.take(i + 1).map_values(
            |c: ServerColumn| "Existing: "@ + c.name@,
        ));
    }
    let ghost before = views(options@);
    options.push("New custom column".to_owned());
    assert(views(options@) =~= before.push("New custom column"@));
    assert(columns@.take(n as int) =~= columns@);
    options
}

/// `char::is_ascii_alphanumeric`.
pub open spec fn is_ascii_alphanumeric(c: char) -> bool {
    ('a' <= c && c <= 'z') || ('A' <= c && c <= 'Z') || ('0' <= c && c <= '9')
}

/// A header reduced to its ASCII letters and digits, lowercased.
pub open spec fn header_key(header: Seq<char>) -> Seq<char> {
    ascii_lower_seq(header.filter(|c: char| is_ascii_alphanumeric(c)))
}

/// The first existing column, from position `j` on, named `name` ignoring
/// ASCII case.
pub open spec fn column_named_from(columns: Seq<ServerColumn>, name: Seq<char>, j: nat) -> Option<nat>
    decreases columns.len() - j,
{
    if j >= columns.len() {
        None
    } else if eq_ignore_ascii_case(columns[j as int].name@, name) {
        Some(j)
    } else {
        column_named_from(columns, name, j + 1)
    }
}

/// The mapping first proposed for a header: tags, address or ports when the
/// header names them, else an existing custom column of the same name
/// (ignoring ASCII case and surrounding whitespace), else a new custom
/// column.
pub open spec fn proposed_mapping(header: Seq<char>, columns: Seq<ServerColumn>) -> nat {
    let key = header_key(header);
    if key == "tag"@ || key == "tags"@ || key == "label"@ || key == "labels"@ {
        1
    } else if key == "ip"@ || key == "ipaddress"@ || key == "address"@ || key == "host"@ {
        2
    } else if key == "port"@ || key == "ports"@ || key == "openports"@ {
        3
    } else {
        match column_named_from(columns, trim(header), 0) {
            Some(j) => 4 + j,
            None => 4 + columns.len(),
        }
    }
}

/// The letters and digits of a header, ASCII-lowercased.
fn header_key_of(header: &str) -> (r: Vec<char>)
    ensures
        r@ == header_key(header@),
{
    let lowered = ascii_lowered(header);
    let ghost chars = header@;
    let ghost pred = |c: char| is_ascii_alphanumeric(c);
    let mut out: Vec<char> = Vec::new();
    let n = lowered.len();
    assert(chars.take(0).filter(pred) =~= Seq::<char>::empty()) by {
        reveal(Seq::filter);
    }
    for i in 0..n
        invariant
            n == lowered@.len(),
            n == chars.len(),
            lowered@ == ascii_lower_seq(chars),
            pred == (|c: char| is_ascii_alphanumeric(c)),
            out@ == ascii_lower_seq(chars.take(i as int).filter(pred)),
    {
        proof {
            reveal(Seq::filter);
            assert(chars.take(i + 1).drop_last() =~= chars.take(i as int));
            assert(chars.take(i + 1).last() == chars[i as int]);
        }
        let c = lowered[i];
        let ghost source_char = chars[i as int];
        let keep = ('a' <= c && c <= 'z') || ('0' <= c && c <= '9');
        assert(keep == is_ascii_alphanumeric(source_char));
        if keep {
            let ghost before = out@;
            out.push(c);
            assert(ascii_lower_seq(chars.take(i as int).filter(pred).push(source_char)) =~= before.push(c));
        }
    }
    assert(chars.take(n as int) =~= chars);
    out
}

/// Whether a key equals the given word.
fn key_is(key: &Vec<char>, word: &str) -> (r: bool)
    ensures
        r == (key@ == word@),
{
    let expected = chars_of(word);
    chars_equal(key, &expected)
}

/// The first existing column named `name` ignoring ASCII case.
fn column_position(columns: &Vec<ServerColumn>, name: &str) -> (r: Option<usize>)
    ensures
        match r {
            Some(j) => column_named_from(columns@, name@, 0) == Some(j as nat),
            None => column_named_from(columns@, name@, 0) is None,
        },
        r matches Some(j) ==> j < columns@.len(),
{
    let n = columns.len();
    for j in 0..n
        invariant
            n == columns@.len(),
            column_named_from(columns@, name@, 0) == column_named_from(columns@, name@, j as nat),
    {
        if str_eq_ignore_ascii_case(columns[j].name.as_str(), name) {
            return Some(j);
        }
    }
    None
}

/// Proposes a mapping for an import column from its header.
pub fn default_mapping(header: &str, columns: &Vec<ServerColumn>) -> (r: usize)
    requires
        columns@.len() + 5 <= usize::MAX,
    ensures
        r == proposed_mapping(header@, columns@),
{
    let key = header_key_of(header);
    if key_is(&key, "tag") || key_is(&key, "tags") || key_is(&key, "label") || key_is(&key, "labels") {
        return 1;
    }
    if key_is(&key, "ip") || key_is(&key, "ipaddress") || key_is(&key, "address") || key_is(&key, "host") {
        return 2;
    }
    if key_is(&key, "port") || key_is(&key, "ports") || key_is(&key, "openports") {
        return 3;
    }
    match column_position(columns, trim_str(header)) {
        Some(index) => 4 + index,
        None => 4 + columns.len(),
    }
}

// ----------------------------------------------------------------------------
// Mapping targets
// ----------------------------------------------------------------------------

/// The target of import column `source` under mapping choice `mapping`, or
/// `None` when the choice is out of range (or names a new column for a
/// column that does not exist).
pub open spec fn target_for(source: nat, mapping: nat, session: ImportSession) -> Option<ServerImportTarget> {
    let columns = session.existing_columns@;
    if mapping == 0 {
        Some(ServerImportTarget::Skip)
    } else if mapping == 1 {
        Some(ServerImportTarget::Tags)
    } else if mapping == 2 {
        Some(ServerImportTarget::IpAddress)
    } else if mapping == 3 {
        Some(ServerImportTarget::Ports)
    } else if mapping < 4 + columns.len() {
        Some(ServerImportTarget::ExistingCustom(columns[mapping - 4].id))
    } else if mapping == 4 + columns.len() {
        match session.data {
            Some(d) => if source < d.headers@.len() {
                Some(ServerImportTarget::NewCustom(d.headers@[source as int]))
            } else {
                None
            },
            None => None,
        }
    } else {
        None
    }
}

/// Resolves the target of one import column.
pub fn import_target(source_index: usize, mapping_index: usize, session: &ImportSession) -> (r: Option<
    ServerImportTarget,
>)
    ensures
        r == target_for(source_index as nat, mapping_index as nat, *session),
{
    let count = session.existing_columns.len();
    if mapping_index == 0 {
        Some(ServerImportTarget::Skip)
    } else if mapping_index == 1 {
        Some(ServerImportTarget::Tags)
    } else if mapping_index == 2 {
        Some(ServerImportTarget::IpAddress)
    } else if mapping_index == 3 {
        Some(ServerImportTarget::Ports)
    } else if mapping_index - 4 < count {
        Some(ServerImportTarget::ExistingCustom(session.existing_columns[mapping_index - 4].id))
    } else if mapping_index - 4 == count {
        match &session.data {
            Some(d) => {
                if source_index < d.headers.len() {
                    Some(ServerImportTarget::NewCustom(d.headers[source_index].clone()))
                } else {
                    None
                }
            },
            None => None,
        }
    } else {
        None
    }
}

/// The targets of all columns, when every mapping resolves.
pub open spec fn all_targets_resolve(session: ImportSession) -> bool {
    forall|i: int|
        0 <= i < session.mappings@.len() ==> (#[trigger] target_for(
            i as nat,
            session.mappings@[i] as nat,
            session,
        )) is Some
}

/// The targets of every import column in order, or `None` as soon as one
/// mapping does not resolve.
pub fn import_targets(session: &ImportSession) -> (r: Option<Vec<ServerImportTarget>>)
    ensures
        r is Some <==> all_targets_resolve(*session),
        r matches Some(v) ==> v@.len() == session.mappings@.len() && forall|i: int|
            0 <= i < v@.len() ==> Some(#[trigger] v@[i]) == target_for(
                i as nat,
                session.mappings@[i] as nat,
                *session,
            ),
{
    let mut targets: Vec<ServerImportTarget> = Vec::new();
    let n = session.mappings.len();
    for i in 0..n
        invariant
            n == session.mappings@.len(),
            targets@.len() == i,
            forall|k: int|
                0 <= k < i ==> Some(#[trigger] targets@[k]) == target_for(
                    k as nat,
                    session.mappings@[k] as nat,
                    *session,
                ),
    {
        match import_target(i, session.mappings[i], session) {
            Some(t) => targets.push(t),
            None => {
                let ghost k: int = i as int;
                assert(target_for(k as nat, session.mappings@[k] as nat, *session) is None);
                return None;
            },
        }
    }
    assert forall|k: int| 0 <= k < session.mappings@.len() implies (#[trigger] target_for(
        k as nat,
        session.mappings@[k] as nat,
        *session,
    )) is Some by {
        assert(Some(targets@[k]) == target_for(k as nat, session.mappings@[k] as nat, *session));
    }
    Some(targets)
}

/// Records a new mapping choice for an import column; negative numbers
/// count as 0 and an unknown column is ignored.
pub fn set_mapping(session: &mut ImportSession, source_index: i32, mapping_index: i32)
    ensures
        final(session).data == old(session).data,
        final(session).existing_columns == old(session).existing_columns,
        ({
            let s = if source_index < 0 { 0 } else { source_index as int };
            let m = if mapping_index < 0 { 0 } else { mapping_index as int };
            if s < old(session).mappings@.len() {
                final(session).mappings@ == old(session).mappings@.update(s, m as usize)
            } else {
                final(session).mappings@ == old(session).mappings@
            }
        }),
{
    let source: usize = if source_index < 0 { 0 } else { source_index as usize };
    let mapping: usize = if mapping_index < 0 { 0 } else { mapping_index as usize };
    if source < session.mappings.len() {
        session.mappings.set(source, mapping);
    }
}

/// The first proposed mapping of every import column.
pub fn default_mappings(headers: &Vec<String>, columns: &Vec<ServerColumn>) -> (r: Vec<usize>)
    requires
        columns@.len() + 5 <= usize::MAX,
    ensures
        r@.len() == headers@.len(),
        forall|i: int| 0 <= i < r@.len() ==> #[trigger] r@[i] == proposed_mapping(headers@[i]@, columns@),
{
    let mut out: Vec<usize> = Vec::new();
    let n = headers.len();
    for i in 0..n
        invariant
            n == headers@.len(),
            columns@.len() + 5 <= usize::MAX,
            out@.len() == i,
            forall|k: int| 0 <= k < i ==> #[trigger] out@[k] == proposed_mapping(headers@[k]@, columns@),
    {
        out.push(default_mapping(headers[i].as_str(), columns));
    }
    out
}

// ----------------------------------------------------------------------------
// Column samples
// ----------------------------------------------------------------------------

/// A row has a non-empty value in column `index`.
pub open spec fn has_sample(row: Vec<String>, index: nat) -> bool {
    index < row@.len() && row@[index as int]@.len() > 0
}

/// The sample text of a column: its non-empty values in the first three
/// rows, joined with `" | "`.
pub open spec fn column_sample_text(rows: Seq<Vec<String>>, index: nat) -> Seq<char> {
    let first = if rows.len() < 3 {
        rows
    } else {
        rows.take(3)
    };
    join(
        first.filter(|row: Vec<String>| has_sample(row, index)).map_values(
            |row: Vec<String>| row@[index as int]@,
        ),
        " | "@,
    )
}

/// The sample values shown beside an import column.
pub fn column_sample(data: &TabularData, index: usize) -> (r: String)
    ensures
        r@ == column_sample_text(data.rows@, index as nat),
{
    let ghost rows = data.rows@;
    let limit: usize = if data.rows.len() < 3 { data.rows.len() } else { 3 };
    let ghost first = if rows.len() < 3 { rows } else { rows.take(3) };
    assert(first =~= rows.take(limit as int));
    let ghost pred = |row: Vec<String>| has_sample(row, index as nat);
    let ghost value = |row: Vec<String>| row@[index as int]@;
    let mut values: Vec<String> = Vec::new();
    assert(first.take(0).filter(pred) =~= Seq::<Vec<String>>::empty()) by {
        reveal(Seq::filter);
    }
    for i in 0..limit
        invariant
            limit <= data.rows@.len(),
            first == data.rows@.take(limit as int),
            pred == (|row: Vec<String>| has_sample(row, index as nat)),
            value == (|row: Vec<String>| row@[index as int]@),
            views(values@) == first.take(i as int).filter(pred).map_values(value),
    {
        proof {
            reveal(Seq::filter);
            assert(first.take(i + 1).drop_last() =~= first.take(i as int));
            assert(first.take(i + 1).last() == data.rows@[i as int]);
        }
        let row = &data.rows[i];
        if index < row.len() && row[index].unicode_len() > 0 {
            let ghost before = views(values@);
            values.push(row[index].clone());
            assert(views(values@) =~= before.push(value(*row)));
            assert(first.take(i as int).filter(pred).push(*row).map_values(value) =~= before.push(value(*row)));
        }
    }
    assert(first.take(limit as int) =~= first);
    join_with(&values, " | ")
}

} // verus!

verus! {

/// The proposed mapping of every column of a loaded import resolves to a
/// target, and it is one of the offered choices.
pub proof fn lemma_proposed_mappings_resolve(session: ImportSession, source: nat)
    requires
        session.data matches Some(d) && source < d.headers@.len(),
    ensures
        ({
            let d = session.data->Some_0;
            let m = proposed_mapping(d.headers@[source as int]@, session.existing_columns@);
            &&& m < mapping_choices(session.existing_columns@).len()
            &&& target_for(source, m, session) is Some
        }),
{
    let d = session.data->Some_0;
    let columns = session.existing_columns@;
    let header = d.headers@[source as int]@;
    lemma_column_named_bounded(columns, trim(header), 0);
}

proof fn lemma_column_named_bounded(columns: Seq<ServerColumn>, name: Seq<char>, j: nat)
    ensures
        column_named_from(columns, name, j) matches Some(k) ==> k < columns.len(),
    decreases columns.len() - j,
{
    if j < columns.len() {
        lemma_column_named_bounded(columns, name, j + 1);
    }
}

} // verus!

verus! {

// ----------------------------------------------------------------------------
// Laws of the proposed mappings
// ----------------------------------------------------------------------------

/// A header's ASCII letters and digits, lowercased.
pub open spec fn letters_and_digits(header: Seq<char>) -> Seq<char> {
    ascii_lower_seq(
        header.filter(
            |c: char| ('a' <= c && c <= 'z') || ('A' <= c && c <= 'Z') || ('0' <= c && c <= '9'),
        ),
    )
}

proof fn lemma_letters_and_digits(header: Seq<char>)
    ensures
        header_key(header) == letters_and_digits(header),
{
    let f = |c: char| is_ascii_alphanumeric(c);
    let g = |c: char| ('a' <= c && c <= 'z') || ('A' <= c && c <= 'Z') || ('0' <= c && c <= '9');
    assert(f =~= g);
}

/// The header keys that name a server field.
pub open spec fn names_a_field(k: Seq<char>) -> bool {
    ||| k == seq!['t', 'a', 'g']
    ||| k == seq!['t', 'a', 'g', 's']
    ||| k == seq!['l', 'a', 'b', 'e', 'l']
    ||| k == seq!['l', 'a', 'b', 'e', 'l', 's']
    ||| k == seq!['i', 'p']
    ||| k == seq!['i', 'p', 'a', 'd', 'd', 'r', 'e', 's', 's']
    ||| k == seq!['a', 'd', 'd', 'r', 'e', 's', 's']
    ||| k == seq!['h', 'o', 's', 't']
    ||| k == seq!['p', 'o', 'r', 't']
    ||| k == seq!['p', 'o', 'r', 't', 's']
    ||| k == seq!['o', 'p', 'e', 'n', 'p', 'o', 'r', 't', 's']
}

proof fn lemma_field_keys_literal()
    ensures
        "tag"@ == seq!['t', 'a', 'g'],
        "tags"@ == seq!['t', 'a', 'g', 's'],
        "label"@ == seq!['l', 'a', 'b', 'e', 'l'],
        "labels"@ == seq!['l', 'a', 'b', 'e', 'l', 's'],
        "ip"@ == seq!['i', 'p'],
        "ipaddress"@ == seq!['i', 'p', 'a', 'd', 'd', 'r', 'e', 's', 's'],
        "address"@ == seq!['a', 'd', 'd', 'r', 'e', 's', 's'],
        "host"@ == seq!['h', 'o', 's', 't'],
        "port"@ == seq!['p', 'o', 'r', 't'],
        "ports"@ == seq!['p', 'o', 'r', 't', 's'],
        "openports"@ == seq!['o', 'p', 'e', 'n', 'p', 'o', 'r', 't', 's'],
{
    reveal_strlit("tag");
    reveal_strlit("tags");
    reveal_strlit("label");
    reveal_strlit("labels");
    reveal_strlit("ip");
    reveal_strlit("ipaddress");
    reveal_strlit("address");
    reveal_strlit("host");
    reveal_strlit("port");
    reveal_strlit("ports");
    reveal_strlit("openports");
    assert("tag"@ =~= seq!['t', 'a', 'g']);
    assert("tags"@ =~= seq!['t', 'a', 'g', 's']);
    assert("label"@ =~= seq!['l', 'a', 'b', 'e', 'l']);
    assert("labels"@ =~= seq!['l', 'a', 'b', 'e', 'l', 's']);
    assert("ip"@ =~= seq!['i', 'p']);
    assert("ipaddress"@ =~= seq!['i', 'p', 'a', 'd', 'd', 'r', 'e', 's', 's']);
    assert("address"@ =~= seq!['a', 'd', 'd', 'r', 'e', 's', 's']);
    assert("host"@ =~= seq!['h', 'o', 's', 't']);
    assert("port"@ =~= seq!['p', 'o', 'r', 't']);
    assert("ports"@ =~= seq!['p', 'o', 'r', 't', 's']);
    assert("openports"@ =~= seq!['o', 'p', 'e', 'n', 'p', 'o', 'r', 't', 's']);
}

proof fn lemma_column_named_first(columns: Seq<ServerColumn>, name: Seq<char>, j: nat, k: nat)
    requires
        j <= k < columns.len(),
        eq_ignore_ascii_case(columns[k as int].name@, name),
        forall|l: int| j <= l < k ==> !eq_ignore_ascii_case(#[trigger] columns[l].name@, name),
    ensures
        column_named_from(columns, name, j) == Some(k),
    decreases k - j,
{
    if j < k {
        lemma_column_named_first(columns, name, j + 1, k);
    }
}

proof fn lemma_column_named_none(columns: Seq<ServerColumn>, name: Seq<char>, j: nat)
    requires
        forall|l: int| j <= l < columns.len() ==> !eq_ignore_ascii_case(#[trigger] columns[l].name@, name),
    ensures
        column_named_from(columns, name, j) is None,
    decreases columns.len() - j,
{
    if j < columns.len() {
        lemma_column_named_none(columns, name, j + 1);
    }
}

/// Headers spelling tags, address or ports (by their ASCII letters and
/// digits, case ignored) map to those fields: `tag`, `tags`, `label`,
/// `labels` to 1; `ip`, `ipaddress`, `address`, `host` to 2; `port`,
/// `ports`, `openports` to 3.
pub proof fn lemma_known_headers(header: Seq<char>, columns: Seq<ServerColumn>)
    ensures
        ({
            let k = letters_and_digits(header);
            let m = proposed_mapping(header, columns);
            &&& (k == seq!['t', 'a', 'g'] || k == seq!['t', 'a', 'g', 's'] || k == seq![
                'l',
                'a',
                'b',
                'e',
                'l',
            ] || k == seq!['l', 'a', 'b', 'e', 'l', 's']) ==> m == 1
            &&& (k == seq!['i', 'p'] || k == seq!['i', 'p', 'a', 'd', 'd', 'r', 'e', 's', 's']
                || k == seq!['a', 'd', 'd', 'r', 'e', 's', 's'] || k == seq!['h', 'o', 's', 't'])
                ==> m == 2
            &&& (k == seq!['p', 'o', 'r', 't'] || k == seq!['p', 'o', 'r', 't', 's'] || k == seq![
                'o',
                'p',
                'e',
                'n',
                'p',
                'o',
                'r',
                't',
                's',
            ]) ==> m == 3
        }),
{
    lemma_letters_and_digits(header);
    lemma_field_keys_literal();
}

/// Any other header maps to the first existing column named like it
/// (ASCII case and surrounding whitespace ignored), choice `4 + j`, or,
/// when none is, to a new custom column, the choice after the existing
/// columns.
pub proof fn lemma_other_headers(header: Seq<char>, columns: Seq<ServerColumn>, j: nat)
    requires
        !names_a_field(letters_and_digits(header)),
    ensures
        j < columns.len() && eq_ignore_ascii_case(columns[j as int].name@, trim(header)) && (forall|
            l: int,
        | 0 <= l < j ==> !eq_ignore_ascii_case(#[trigger] columns[l].name@, trim(header)))
            ==> proposed_mapping(header, columns) == 4 + j,
        (forall|l: int|
            0 <= l < columns.len() ==> !eq_ignore_ascii_case(#[trigger] columns[l].name@, trim(header)))
            ==> proposed_mapping(header, columns) == 4 + columns.len(),
{
    lemma_letters_and_digits(header);
    lemma_field_keys_literal();
    if j < columns.len() && eq_ignore_ascii_case(columns[j as int].name@, trim(header)) && (forall|
        l: int,
    | 0 <= l < j ==> !eq_ignore_ascii_case(#[trigger] columns[l].name@, trim(header))) {
        lemma_column_named_first(columns, trim(header), 0, j);
    }
    if forall|l: int|
        0 <= l < columns.len() ==> !eq_ignore_ascii_case(#[trigger] columns[l].name@, trim(header)) {
        lemma_column_named_none(columns, trim(header), 0);
    }
}

} // verus!
