//! Inventory records and the rules that validate and normalize them.
use vstd::prelude::*;

use crate::folds::{keeps_errors, lemma_fold_error_sticks, lemma_fold_take_all, lemma_fold_take_step};
use crate::text::{
    chars_of, comma_space, contains_seq, count_char, decimal, free_of, decimal_string, eq_ignore_ascii_case,
    is_one_of, join, join_comma_space, lower_contains, parse_u16, parse_u16_str, split_chars,
    lemma_split_join_single, split_on, str_eq_ignore_ascii_case, str_equal, to_lowercase, trim, trim_str,
    unicode_lowercase, views,
};

verus! {

// ----------------------------------------------------------------------------
// Records
// ----------------------------------------------------------------------------

/// A server row of the inventory table.
#[derive(Clone, Debug, PartialEq, Eq)]
pub struct ServerRecord {
    pub id: i64,
    pub tags: Vec<String>,
    pub ip_address: String,
    pub ports: String,
    pub custom_values: Vec<String>,
}

/// A user-defined column of the server table.
#[derive(Clone, Debug, PartialEq, Eq)]
pub struct ServerColumn {
    pub id: i64,
    pub name: String,
}

/// A server as entered in the editor, before validation.
#[derive(Clone, Debug, PartialEq, Eq)]
pub struct ServerDraft {
    pub tags: Vec<String>,
    pub ip_address: String,
    pub ports: String,
}

/// Why a server draft was refused.
#[derive(Clone, Debug, PartialEq, Eq)]
pub enum ServerValidationError {
    EmptyTags,
    TagTooLong,
    TooManyTags,
    InvalidIpAddress,
    EmptyPorts,
    InvalidPort,
    TooManyPorts,
}

/// The message shown for a refused server draft.
pub open spec fn server_error_text(e: ServerValidationError) -> Seq<char> {
    match e {
        ServerValidationError::EmptyTags => "Enter at least one tag"@,
        ServerValidationError::TagTooLong => "Tags must be 48 characters or fewer"@,
        ServerValidationError::TooManyTags => "A server can have at most 20 tags"@,
        ServerValidationError::InvalidIpAddress => "Enter a valid IPv4 or IPv6 address"@,
        ServerValidationError::EmptyPorts => "Enter at least one port"@,
        ServerValidationError::InvalidPort => "Ports must be numbers from 1 to 65535, separated by commas"@,
        ServerValidationError::TooManyPorts => "A server can have at most 32 ports"@,
    }
}

impl ServerValidationError {
    /// The message shown to the user.
    pub fn message(&self) -> (r: &'static str)
        ensures
            r@ == server_error_text(*self),
    {
        match self {
            ServerValidationError::EmptyTags => "Enter at least one tag",
            ServerValidationError::TagTooLong => "Tags must be 48 characters or fewer",
            ServerValidationError::TooManyTags => "A server can have at most 20 tags",
            ServerValidationError::InvalidIpAddress => "Enter a valid IPv4 or IPv6 address",
            ServerValidationError::EmptyPorts => "Enter at least one port",
            ServerValidationError::InvalidPort => "Ports must be numbers from 1 to 65535, separated by commas",
            ServerValidationError::TooManyPorts => "A server can have at most 32 ports",
        }
    }
}

/// Longest tag, in characters.
pub const MAX_TAG_CHARS: usize = 48;

/// Most tags on one server or asset.
pub const MAX_TAGS: usize = 20;

/// Most distinct ports on one server.
pub const MAX_PORTS: usize = 32;

// ----------------------------------------------------------------------------
// Server tags
// ----------------------------------------------------------------------------

/// Some kept tag equals `t` ignoring ASCII case.
pub open spec fn has_tag_ignoring_case(tags: Seq<Seq<char>>, t: Seq<char>) -> bool {
    exists|j: int| 0 <= j < tags.len() && eq_ignore_ascii_case(#[trigger] tags[j], t)
}

/// One candidate of the server tag list: trimmed, skipped when empty or
/// already present ignoring ASCII case, refused when longer than 48
/// characters, kept otherwise.
pub open spec fn server_tag_step(
    acc: Result<Seq<Seq<char>>, ServerValidationError>,
    candidate: Seq<char>,
) -> Result<Seq<Seq<char>>, ServerValidationError> {
    match acc {
        Err(e) => Err(e),
        Ok(tags) => {
            let t = trim(candidate);
            if t.len() == 0 || has_tag_ignoring_case(tags, t) {
                Ok(tags)
            } else if t.len() > 48 {
                Err(ServerValidationError::TagTooLong)
            } else {
                Ok(tags.push(t))
            }
        },
    }
}

/// The server tag list made from the candidates, left to right.
pub open spec fn server_tags(candidates: Seq<Seq<char>>) -> Result<
    Seq<Seq<char>>,
    ServerValidationError,
> {
    candidates.fold_left(
        Ok(Seq::<Seq<char>>::empty()),
        |acc: Result<Seq<Seq<char>>, ServerValidationError>, c: Seq<char>|
            server_tag_step(acc, c),
    )
}

proof fn lemma_server_tag_step_keeps_errors()
    ensures
        keeps_errors(
            |acc: Result<Seq<Seq<char>>, ServerValidationError>, c: Seq<char>|
                server_tag_step(acc, c),
        ),
{
}

/// Trims, deduplicates (ignoring ASCII case) and bounds the tag candidates.
fn normalize_server_tags(candidates: &Vec<String>) -> (r: Result<
    Vec<String>,
    ServerValidationError,
>)
    ensures
        match r {
            Ok(v) => server_tags(views(candidates@)) == Ok::<
                Seq<Seq<char>>,
                ServerValidationError,
            >(views(v@)),
            Err(e) => server_tags(views(candidates@)) == Err::<
                Seq<Seq<char>>,
                ServerValidationError,
            >(e),
        },
{
    let ghost f = |acc: Result<Seq<Seq<char>>, ServerValidationError>, c: Seq<char>|
        server_tag_step(acc, c);
    let ghost all = views(candidates@);
    let ghost init = Ok::<Seq<Seq<char>>, ServerValidationError>(Seq::empty());
    let mut tags: Vec<String> = Vec::new();
    let n = candidates.len();
    assert(all.take(0) =~= Seq::<Seq<char>>::empty());
    assert(views(tags@) =~= Seq::<Seq<char>>::empty());
    for i in 0..n
        invariant
            n == candidates@.len(),
            all == views(candidates@),
            init == Ok::<Seq<Seq<char>>, ServerValidationError>(Seq::empty()),
            f == (|acc: Result<Seq<Seq<char>>, ServerValidationError>, c: Seq<char>|
                server_tag_step(acc, c)),
            all.take(i as int).fold_left(init, f) == Ok::<
                Seq<Seq<char>>,
                ServerValidationError,
            >(views(tags@)),
    {
        proof {
            lemma_fold_take_step(all, init, f, i as int);
        }
        let tag = trim_str(candidates[i].as_str());
        assert(all[i as int] == candidates@[i as int]@);
        let mut duplicate = false;
        let mut j: usize = 0;
        let count = tags.len();
        while j < count
            invariant
                count == tags@.len(),
                j <= count,
                duplicate == (exists|k: int|
                    0 <= k < j && eq_ignore_ascii_case(#[trigger] views(tags@)[k], tag@)),
            decreases count - j,
        {
            assert(views(tags@)[j as int] == tags@[j as int]@);
            if str_eq_ignore_ascii_case(tags[j].as_str(), tag) {
                duplicate = true;
            }
            j = j + 1;
        }
        assert(duplicate == has_tag_ignoring_case(views(tags@), tag@));
        if tag.unicode_len() == 0 || duplicate {
        } else if tag.unicode_len() > 48 {
            proof {
                lemma_server_tag_step_keeps_errors();
                lemma_fold_error_sticks(all, init, f, i + 1);
            }
            return Err(ServerValidationError::TagTooLong);
        } else {
            let ghost before = views(tags@);
            tags.push(tag.to_owned());
            assert(views(tags@) =~= before.push(tag@));
        }
    }
    proof {
        lemma_fold_take_all(all, init, f);
    }
    Ok(tags)
}

// ----------------------------------------------------------------------------
// Ports
// ----------------------------------------------------------------------------

/// One comma-separated piece of the port list: trimmed and skipped when
/// empty; otherwise it must be a port number from 1 to 65535, kept once.
pub open spec fn port_step(acc: Result<Seq<u16>, ServerValidationError>, piece: Seq<char>) -> Result<
    Seq<u16>,
    ServerValidationError,
> {
    match acc {
        Err(e) => Err(e),
        Ok(ports) => {
            let t = trim(piece);
            if t.len() == 0 {
                Ok(ports)
            } else {
                match parse_u16(t) {
                    Some(p) => if p > 0 {
                        if ports.contains(p) {
                            Ok(ports)
                        } else {
                            Ok(ports.push(p))
                        }
                    } else {
                        Err(ServerValidationError::InvalidPort)
                    },
                    None => Err(ServerValidationError::InvalidPort),
                }
            }
        },
    }
}

/// The distinct ports of a comma-separated list, in order of first
/// appearance.
pub open spec fn port_list(value: Seq<char>) -> Result<Seq<u16>, ServerValidationError> {
    split_chars(value, is_one_of(',', ',')).fold_left(
        Ok(Seq::<u16>::empty()),
        |acc: Result<Seq<u16>, ServerValidationError>, p: Seq<char>| port_step(acc, p),
    )
}

/// The ports written in decimal and joined with `", "`.
pub open spec fn render_ports(ports: Seq<u16>) -> Seq<char> {
    join(ports.map_values(|p: u16| decimal(p as nat)), comma_space())
}

/// The normalized port list of a server, or why it is refused.
pub open spec fn normalized_ports(value: Seq<char>) -> Result<Seq<char>, ServerValidationError> {
    match port_list(value) {
        Err(e) => Err(e),
        Ok(ports) => if ports.len() == 0 {
            Err(ServerValidationError::EmptyPorts)
        } else if ports.len() > 32 {
            Err(ServerValidationError::TooManyPorts)
        } else {
            Ok(render_ports(ports))
        },
    }
}

proof fn lemma_port_step_keeps_errors()
    ensures
        keeps_errors(
            |acc: Result<Seq<u16>, ServerValidationError>, p: Seq<char>| port_step(acc, p),
        ),
{
}

/// Parses, deduplicates and renders a comma-separated port list.
pub fn normalize_ports(value: &str) -> (r: Result<String, ServerValidationError>)
    ensures
        match r {
            Ok(s) => normalized_ports(value@) == Ok::<Seq<char>, ServerValidationError>(s@),
            Err(e) => normalized_ports(value@) == Err::<Seq<char>, ServerValidationError>(e),
        },
{
    let ghost f = |acc: Result<Seq<u16>, ServerValidationError>, p: Seq<char>| port_step(acc, p);
    let ghost init = Ok::<Seq<u16>, ServerValidationError>(Seq::empty());
    let pieces = split_on(value, ',', ',');
    let ghost all = views(pieces@);
    let mut ports: Vec<u16> = Vec::new();
    let n = pieces.len();
    assert(all.take(0) =~= Seq::<Seq<char>>::empty());
    for i in 0..n
        invariant
            n == pieces@.len(),
            all == views(pieces@),
            all == split_chars(value@, is_one_of(',', ',')),
            init == Ok::<Seq<u16>, ServerValidationError>(Seq::empty()),
            f == (|acc: Result<Seq<u16>, ServerValidationError>, p: Seq<char>| port_step(acc, p)),
            all.take(i as int).fold_left(init, f) == Ok::<Seq<u16>, ServerValidationError>(
                ports@,
            ),
    {
        proof {
            lemma_fold_take_step(all, init, f, i as int);
        }
        let candidate = trim_str(pieces[i].as_str());
        assert(all[i as int] == pieces@[i as int]@);
        if candidate.unicode_len() > 0 {
        let parsed = parse_u16_str(candidate);
        let port: u16 = match parsed {
            Some(p) => {
                if p == 0 {
                    proof {
                        lemma_port_step_keeps_errors();
                        lemma_fold_error_sticks(all, init, f, i + 1);
                    }
                    return Err(ServerValidationError::InvalidPort);
                }
                p
            },
            None => {
                proof {
                    lemma_port_step_keeps_errors();
                    lemma_fold_error_sticks(all, init, f, i + 1);
                }
                return Err(ServerValidationError::InvalidPort);
            },
        };
        let mut seen = false;
        let count = ports.len();
        for j in 0..count
            invariant
                count == ports@.len(),
                seen == (exists|k: int| 0 <= k < j && ports@[k] == port),
        {
            if ports[j] == port {
                seen = true;
            }
        }
        assert(seen == ports@.contains(port));
        if !seen {
            ports.push(port);
        }
        }
    }
    proof {
        lemma_fold_take_all(all, init, f);
    }
    if ports.len() == 0 {
        return Err(ServerValidationError::EmptyPorts);
    }
    if ports.len() > 32 {
        return Err(ServerValidationError::TooManyPorts);
    }
    let mut rendered: Vec<String> = Vec::new();
    let m = ports.len();
    for k in 0..m
        invariant
            m == ports@.len(),
            views(rendered@) == ports@.take(k as int).map_values(|p: u16| decimal(p as nat)),
    {
        let ghost before = views(rendered@);
        let text = decimal_string(ports[k] as u64);
        rendered.push(text);
        assert(views(rendered@) =~= before.push(text@));
        assert(ports@.take(k + 1) =~= ports@.take(k as int).push(ports@[k as int]));
        assert(views(rendered@) =~= ports@.take(k + 1).map_values(|p: u16| decimal(p as nat)));
    }
    assert(ports@.take(m as int) =~= ports@);
    Ok(join_comma_space(&rendered))
}

// ----------------------------------------------------------------------------
// Whole server drafts
// ----------------------------------------------------------------------------

/// The outcome of validating a server draft, over plain sequences.
/// `ip_is_valid` says whether the trimmed address parses as an IPv4 or IPv6
/// address. Checks run in this order: tags, tag count, address, ports.
pub open spec fn validated_server(
    tags: Seq<Seq<char>>,
    ip_address: Seq<char>,
    ports: Seq<char>,
    ip_is_valid: bool,
) -> Result<(Seq<Seq<char>>, Seq<char>, Seq<char>), ServerValidationError> {
    match server_tags(tags) {
        Err(e) => Err(e),
        Ok(t) => if t.len() == 0 {
            Err(ServerValidationError::EmptyTags)
        } else if t.len() > 20 {
            Err(ServerValidationError::TooManyTags)
        } else if !ip_is_valid {
            Err(ServerValidationError::InvalidIpAddress)
        } else {
            match normalized_ports(ports) {
                Err(e) => Err(e),
                Ok(p) => Ok((t, trim(ip_address), p)),
            }
        },
    }
}

/// The view of a server draft.
pub open spec fn draft_view(d: ServerDraft) -> (Seq<Seq<char>>, Seq<char>, Seq<char>) {
    (views(d.tags@), d.ip_address@, d.ports@)
}

/// Validates and normalizes a server draft: tags trimmed and deduplicated
/// ignoring ASCII case (1 to 20 tags of at most 48 characters), the address
/// trimmed, the ports deduplicated and written as `"p1, p2, ..."`.
///
/// `ip_is_valid` is whether `trim(draft.ip_address)` is an IPv4 or IPv6
/// address; the address grammar is decided by the caller.
pub fn validate_server(draft: &ServerDraft, ip_is_valid: bool) -> (r: Result<
    ServerDraft,
    ServerValidationError,
>)
    ensures
        match r {
            Ok(d) => validated_server(
                views(draft.tags@),
                draft.ip_address@,
                draft.ports@,
                ip_is_valid,
            ) == Ok::<(Seq<Seq<char>>, Seq<char>, Seq<char>), ServerValidationError>(
                draft_view(d),
            ),
            Err(e) => validated_server(
                views(draft.tags@),
                draft.ip_address@,
                draft.ports@,
                ip_is_valid,
            ) == Err::<(Seq<Seq<char>>, Seq<char>, Seq<char>), ServerValidationError>(e),
        },
{
    let tags = match normalize_server_tags(&draft.tags) {
        Ok(t) => t,
        Err(e) => return Err(e),
    };
    if tags.len() == 0 {
        return Err(ServerValidationError::EmptyTags);
    }
    if tags.len() > 20 {
        return Err(ServerValidationError::TooManyTags);
    }
    let ip_address = trim_str(draft.ip_address.as_str());
    if !ip_is_valid {
        return Err(ServerValidationError::InvalidIpAddress);
    }
    let ports = match normalize_ports(draft.ports.as_str()) {
        Ok(p) => p,
        Err(e) => return Err(e),
    };
    let out = ServerDraft { tags, ip_address: ip_address.to_owned(), ports };
    assert(draft_view(out) == (views(out.tags@), trim(draft.ip_address@), out.ports@));
    Ok(out)
}

/// The tag editor's text split at every comma, pieces kept as typed: one
/// piece more than there are commas, none holding a comma, and joined with
/// `","` they give the text back.
pub fn server_tags_from_input(value: &str) -> (r: Vec<String>)
    ensures
        views(r@) == split_chars(value@, is_one_of(',', ',')),
        r@.len() == count_char(value@, ',') + 1,
        forall|i: int| 0 <= i < r@.len() ==> free_of(#[trigger] r@[i]@, is_one_of(',', ',')),
        join(views(r@), seq![',']) == value@,
{
    let r = split_on(value, ',', ',');
    proof {
        lemma_split_join_single(value@, ',');
        assert forall|i: int| 0 <= i < r@.len() implies free_of(#[trigger] r@[i]@, is_one_of(',', ',')) by {
            assert(views(r@)[i] == r@[i]@);
        }
    }
    r
}

} // verus!

verus! {

// ----------------------------------------------------------------------------
// Resource kinds, health and relationship kinds
// ----------------------------------------------------------------------------

/// The kind of an inventory resource.
#[derive(Clone, Copy, Debug, PartialEq, Eq, Structural)]
pub enum ResourceKind {
    Website,
    Domain,
    Certificate,
    Server,
    Service,
}

impl ResourceKind {
    /// Every kind, in the listed order.
    pub const ALL: [ResourceKind; 5] = [
        ResourceKind::Website,
        ResourceKind::Domain,
        ResourceKind::Certificate,
        ResourceKind::Server,
        ResourceKind::Service,
    ];

    /// The kinds in their listed order; `index` is a position in this list.
    pub open spec fn listed(i: int) -> ResourceKind {
        if i == 0 {
            ResourceKind::Website
        } else if i == 1 {
            ResourceKind::Domain
        } else if i == 2 {
            ResourceKind::Certificate
        } else if i == 3 {
            ResourceKind::Server
        } else {
            ResourceKind::Service
        }
    }

    /// The position of a kind in the listed order.
    pub open spec fn position(self) -> int {
        match self {
            ResourceKind::Website => 0,
            ResourceKind::Domain => 1,
            ResourceKind::Certificate => 2,
            ResourceKind::Server => 3,
            ResourceKind::Service => 4,
        }
    }

    pub open spec fn label_text(self) -> Seq<char> {
        match self {
            ResourceKind::Website => "Website"@,
            ResourceKind::Domain => "Domain"@,
            ResourceKind::Certificate => "Certificate"@,
            ResourceKind::Server => "Server"@,
            ResourceKind::Service => "Service"@,
        }
    }

    pub open spec fn mark_text(self) -> Seq<char> {
        match self {
            ResourceKind::Website => "W"@,
            ResourceKind::Domain => "D"@,
            ResourceKind::Certificate => "C"@,
            ResourceKind::Server => "S"@,
            ResourceKind::Service => "A"@,
        }
    }

    pub open spec fn key_text(self) -> Seq<char> {
        match self {
            ResourceKind::Website => "website"@,
            ResourceKind::Domain => "domain"@,
            ResourceKind::Certificate => "certificate"@,
            ResourceKind::Server => "server"@,
            ResourceKind::Service => "service"@,
        }
    }

    /// The display name of the kind.
    pub fn label(self) -> (r: &'static str)
        ensures
            r@ == self.label_text(),
    {
        match self {
            ResourceKind::Website => "Website",
            ResourceKind::Domain => "Domain",
            ResourceKind::Certificate => "Certificate",
            ResourceKind::Server => "Server",
            ResourceKind::Service => "Service",
        }
    }

    /// The one-letter badge of the kind.
    pub fn mark(self) -> (r: &'static str)
        ensures
            r@ == self.mark_text(),
    {
        match self {
            ResourceKind::Website => "W",
            ResourceKind::Domain => "D",
            ResourceKind::Certificate => "C",
            ResourceKind::Server => "S",
            ResourceKind::Service => "A",
        }
    }

    /// The stored key of the kind.
    pub fn key(self) -> (r: &'static str)
        ensures
            r@ == self.key_text(),
    {
        match self {
            ResourceKind::Website => "website",
            ResourceKind::Domain => "domain",
            ResourceKind::Certificate => "certificate",
            ResourceKind::Server => "server",
            ResourceKind::Service => "service",
        }
    }

    /// The kind at a list position; negative positions and positions past
    /// the end give `Website`.
    pub fn from_index(index: i32) -> (r: Self)
        ensures
            r == (if 0 <= index < 5 {
                ResourceKind::listed(index as int)
            } else {
                ResourceKind::Website
            }),
    {
        if index == 1 {
            ResourceKind::Domain
        } else if index == 2 {
            ResourceKind::Certificate
        } else if index == 3 {
            ResourceKind::Server
        } else if index == 4 {
            ResourceKind::Service
        } else {
            ResourceKind::Website
        }
    }

    /// The list position of the kind.
    pub fn index(self) -> (r: i32)
        ensures
            r == self.position(),
    {
        match self {
            ResourceKind::Website => 0,
            ResourceKind::Domain => 1,
            ResourceKind::Certificate => 2,
            ResourceKind::Server => 3,
            ResourceKind::Service => 4,
        }
    }
}

} // verus!

verus! {

/// How healthy a resource is.
#[derive(Clone, Copy, Debug, PartialEq, Eq, Structural)]
pub enum Health {
    Healthy,
    Warning,
    Critical,
}

impl Health {
    /// The position of a health level: 0, 1 or 2.
    pub open spec fn position(self) -> int {
        match self {
            Health::Healthy => 0,
            Health::Warning => 1,
            Health::Critical => 2,
        }
    }

    pub open spec fn label_text(self) -> Seq<char> {
        match self {
            Health::Healthy => "Healthy"@,
            Health::Warning => "Attention"@,
            Health::Critical => "Critical"@,
        }
    }

    pub open spec fn key_text(self) -> Seq<char> {
        match self {
            Health::Healthy => "healthy"@,
            Health::Warning => "warning"@,
            Health::Critical => "critical"@,
        }
    }

    /// The display name of the health level.
    pub fn label(self) -> (r: &'static str)
        ensures
            r@ == self.label_text(),
    {
        match self {
            Health::Healthy => "Healthy",
            Health::Warning => "Attention",
            Health::Critical => "Critical",
        }
    }

    /// The stored key of the health level.
    pub fn key(self) -> (r: &'static str)
        ensures
            r@ == self.key_text(),
    {
        match self {
            Health::Healthy => "healthy",
            Health::Warning => "warning",
            Health::Critical => "critical",
        }
    }

    /// 1 is `Warning`, 2 is `Critical`, every other number `Healthy`.
    pub fn from_index(index: i32) -> (r: Self)
        ensures
            r == (if index == 1 {
                Health::Warning
            } else if index == 2 {
                Health::Critical
            } else {
                Health::Healthy
            }),
    {
        match index {
            1 => Health::Warning,
            2 => Health::Critical,
            _ => Health::Healthy,
        }
    }

    /// The position of the health level.
    pub fn index(self) -> (r: i32)
        ensures
            r == self.position(),
    {
        match self {
            Health::Healthy => 0,
            Health::Warning => 1,
            Health::Critical => 2,
        }
    }
}

/// The kind of a directed link between two resources.
#[derive(Clone, Copy, Debug, PartialEq, Eq, Structural)]
pub enum RelationshipKind {
    DeploysTo,
    UsesDomain,
    ProtectedBy,
    DependsOn,
    Serves,
}

impl RelationshipKind {
    /// Every relationship kind, in the listed order.
    pub const ALL: [RelationshipKind; 5] = [
        RelationshipKind::DeploysTo,
        RelationshipKind::UsesDomain,
        RelationshipKind::ProtectedBy,
        RelationshipKind::DependsOn,
        RelationshipKind::Serves,
    ];

    /// The relationship kinds in their listed order.
    pub open spec fn listed(i: int) -> RelationshipKind {
        if i == 0 {
            RelationshipKind::DeploysTo
        } else if i == 1 {
            RelationshipKind::UsesDomain
        } else if i == 2 {
            RelationshipKind::ProtectedBy
        } else if i == 3 {
            RelationshipKind::DependsOn
        } else {
            RelationshipKind::Serves
        }
    }

    pub open spec fn key_text(self) -> Seq<char> {
        match self {
            RelationshipKind::DeploysTo => "deploys_to"@,
            RelationshipKind::UsesDomain => "uses_domain"@,
            RelationshipKind::ProtectedBy => "protected_by"@,
            RelationshipKind::DependsOn => "depends_on"@,
            RelationshipKind::Serves => "serves"@,
        }
    }

    pub open spec fn label_text(self) -> Seq<char> {
        match self {
            RelationshipKind::DeploysTo => "Deploys to"@,
            RelationshipKind::UsesDomain => "Uses domain"@,
            RelationshipKind::ProtectedBy => "Protected by"@,
            RelationshipKind::DependsOn => "Depends on"@,
            RelationshipKind::Serves => "Serves"@,
        }
    }

    /// The stored key of the relationship kind.
    pub fn key(self) -> (r: &'static str)
        ensures
            r@ == self.key_text(),
    {
        match self {
            RelationshipKind::DeploysTo => "deploys_to",
            RelationshipKind::UsesDomain => "uses_domain",
            RelationshipKind::ProtectedBy => "protected_by",
            RelationshipKind::DependsOn => "depends_on",
            RelationshipKind::Serves => "serves",
        }
    }

    /// The display name of the relationship kind.
    pub fn label(self) -> (r: &'static str)
        ensures
            r@ == self.label_text(),
    {
        match self {
            RelationshipKind::DeploysTo => "Deploys to",
            RelationshipKind::UsesDomain => "Uses domain",
            RelationshipKind::ProtectedBy => "Protected by",
            RelationshipKind::DependsOn => "Depends on",
            RelationshipKind::Serves => "Serves",
        }
    }

    /// The kind at a list position; a negative position counts as the
    /// first, a position past the end gives `DependsOn`.
    pub fn from_index(index: i32) -> (r: Self)
        ensures
            r == (if index < 0 {
                RelationshipKind::DeploysTo
            } else if index < 5 {
                RelationshipKind::listed(index as int)
            } else {
                RelationshipKind::DependsOn
            }),
    {
        if index <= 0 {
            RelationshipKind::DeploysTo
        } else if index == 1 {
            RelationshipKind::UsesDomain
        } else if index == 2 {
            RelationshipKind::ProtectedBy
        } else if index == 3 {
            RelationshipKind::DependsOn
        } else if index == 4 {
            RelationshipKind::Serves
        } else {
            RelationshipKind::DependsOn
        }
    }
}

// ----------------------------------------------------------------------------
// Projects and assets
// ----------------------------------------------------------------------------

/// A project with its resource counts.
#[derive(Clone, Debug, PartialEq, Eq)]
pub struct Project {
    pub id: i64,
    pub name: String,
    pub asset_count: i64,
    pub attention_count: i64,
}

/// A resource of a project.
#[derive(Clone, Debug, PartialEq, Eq)]
pub struct Asset {
    pub id: i64,
    pub project_id: i64,
    pub kind: ResourceKind,
    pub name: String,
    pub detail: String,
    pub status_detail: String,
    pub environment: String,
    pub health: Health,
    pub tags: Vec<String>,
}

/// A resource as entered, before it is stored.
#[derive(Clone, Debug, PartialEq, Eq)]
pub struct AssetDraft {
    pub project_id: i64,
    pub kind: ResourceKind,
    pub name: String,
    pub detail: String,
    pub status_detail: String,
    pub environment: String,
    pub health: Health,
    pub tags: Vec<String>,
}

/// A typed link from one resource to another.
#[derive(Clone, Debug, PartialEq, Eq)]
pub struct Relationship {
    pub id: i64,
    pub source_asset_id: i64,
    pub source_name: String,
    pub target_asset_id: i64,
    pub target_name: String,
    pub kind: RelationshipKind,
}

/// A resource together with the name of its project.
#[derive(Clone, Debug, PartialEq, Eq)]
pub struct GlobalAsset {
    pub project_name: String,
    pub asset: Asset,
}

/// Why a name or a tag list was refused.
#[derive(Clone, Debug, PartialEq, Eq)]
pub enum ValidationError {
    EmptyName,
    NameTooLong(usize),
    TagTooLong,
    TooManyTags,
    Server(ServerValidationError),
}

/// The message shown for a refused name or tag list.
pub open spec fn validation_error_text(e: ValidationError) -> Seq<char> {
    match e {
        ValidationError::EmptyName => "Name is required"@,
        ValidationError::NameTooLong(n) => "Name must be "@ + decimal(n as nat) + " characters or fewer"@,
        ValidationError::TagTooLong => "Tags must be 48 characters or fewer"@,
        ValidationError::TooManyTags => "A record can have at most 20 tags"@,
        ValidationError::Server(inner) => server_error_text(inner),
    }
}

impl ValidationError {
    /// The message shown to the user.
    pub fn message(&self) -> (r: String)
        ensures
            r@ == validation_error_text(*self),
    {
        match self {
            ValidationError::EmptyName => String::from_str("Name is required"),
            ValidationError::NameTooLong(n) => {
                let mut text = String::from_str("Name must be ");
                let digits = decimal_string(*n as u64);
                text.append(digits.as_str());
                text.append(" characters or fewer");
                text
            },
            ValidationError::TagTooLong => String::from_str("Tags must be 48 characters or fewer"),
            ValidationError::TooManyTags => String::from_str("A record can have at most 20 tags"),
            ValidationError::Server(inner) => String::from_str(inner.message()),
        }
    }
}

impl From<ServerValidationError> for ValidationError {
    fn from(error: ServerValidationError) -> (r: ValidationError) {
        ValidationError::Server(error)
    }
}

impl vstd::std_specs::convert::FromSpecImpl<ServerValidationError> for ValidationError {
    open spec fn obeys_from_spec() -> bool {
        true
    }

    open spec fn from_spec(error: ServerValidationError) -> ValidationError {
        ValidationError::Server(error)
    }
}

// ----------------------------------------------------------------------------
// Names
// ----------------------------------------------------------------------------

/// The outcome of validating a name against a length bound.
pub open spec fn validated_name(name: Seq<char>, maximum: usize) -> Result<
    Seq<char>,
    ValidationError,
> {
    let t = trim(name);
    if t.len() == 0 {
        Err(ValidationError::EmptyName)
    } else if t.len() > maximum {
        Err(ValidationError::NameTooLong(maximum))
    } else {
        Ok(t)
    }
}

/// Trims a name and checks that 1 to `maximum` characters remain.
pub fn validate_name(name: &str, maximum: usize) -> (r: Result<String, ValidationError>)
    ensures
        match r {
            Ok(s) => validated_name(name@, maximum) == Ok::<Seq<char>, ValidationError>(s@),
            Err(e) => validated_name(name@, maximum) == Err::<Seq<char>, ValidationError>(e),
        },
{
    let trimmed = trim_str(name);
    let count = trimmed.unicode_len();
    if count == 0 {
        return Err(ValidationError::EmptyName);
    }
    if count > maximum {
        return Err(ValidationError::NameTooLong(maximum));
    }
    Ok(trimmed.to_owned())
}

// ----------------------------------------------------------------------------
// Asset tags
// ----------------------------------------------------------------------------

/// The full-width comma that tag lists may use in place of `,`.
pub open spec fn fullwidth_comma() -> char {
    '\u{ff0c}'
}

/// One candidate of an asset tag list: trimmed, skipped when empty or
/// already present exactly, refused when longer than 48 characters.
pub open spec fn asset_tag_step(acc: Result<Seq<Seq<char>>, ValidationError>, candidate: Seq<char>) -> Result<
    Seq<Seq<char>>,
    ValidationError,
> {
    match acc {
        Err(e) => Err(e),
        Ok(tags) => {
            let t = trim(candidate);
            if t.len() == 0 || tags.contains(t) {
                Ok(tags)
            } else if t.len() > 48 {
                Err(ValidationError::TagTooLong)
            } else {
                Ok(tags.push(t))
            }
        },
    }
}

/// The tag list of a comma-separated text (`,` or `，`), before the count
/// bound.
pub open spec fn asset_tag_list(value: Seq<char>) -> Result<Seq<Seq<char>>, ValidationError> {
    split_chars(value, is_one_of(',', fullwidth_comma())).fold_left(
        Ok(Seq::<Seq<char>>::empty()),
        |acc: Result<Seq<Seq<char>>, ValidationError>, c: Seq<char>| asset_tag_step(acc, c),
    )
}

/// The outcome of parsing a tag list: at most 20 tags.
pub open spec fn parsed_tags(value: Seq<char>) -> Result<Seq<Seq<char>>, ValidationError> {
    match asset_tag_list(value) {
        Err(e) => Err(e),
        Ok(tags) => if tags.len() > 20 {
            Err(ValidationError::TooManyTags)
        } else {
            Ok(tags)
        },
    }
}

proof fn lemma_asset_tag_step_keeps_errors()
    ensures
        keeps_errors(
            |acc: Result<Seq<Seq<char>>, ValidationError>, c: Seq<char>| asset_tag_step(acc, c),
        ),
{
}

/// Splits a tag text at `,` and `，`, trims each tag, drops empty and
/// repeated ones, and bounds length and count.
pub fn parse_tags(value: &str) -> (r: Result<Vec<String>, ValidationError>)
    ensures
        match r {
            Ok(v) => parsed_tags(value@) == Ok::<Seq<Seq<char>>, ValidationError>(views(v@)),
            Err(e) => parsed_tags(value@) == Err::<Seq<Seq<char>>, ValidationError>(e),
        },
{
    let ghost f = |acc: Result<Seq<Seq<char>>, ValidationError>, c: Seq<char>|
        asset_tag_step(acc, c);
    let ghost init = Ok::<Seq<Seq<char>>, ValidationError>(Seq::empty());
    let pieces = split_on(value, ',', '\u{ff0c}');
    let ghost all = views(pieces@);
    let mut tags: Vec<String> = Vec::new();
    let n = pieces.len();
    assert(all.take(0) =~= Seq::<Seq<char>>::empty());
    assert(views(tags@) =~= Seq::<Seq<char>>::empty());
    for i in 0..n
        invariant
            n == pieces@.len(),
            all == views(pieces@),
            all == split_chars(value@, is_one_of(',', fullwidth_comma())),
            init == Ok::<Seq<Seq<char>>, ValidationError>(Seq::empty()),
            f == (|acc: Result<Seq<Seq<char>>, ValidationError>, c: Seq<char>|
                asset_tag_step(acc, c)),
            all.take(i as int).fold_left(init, f) == Ok::<Seq<Seq<char>>, ValidationError>(
                views(tags@),
            ),
    {
        proof {
            lemma_fold_take_step(all, init, f, i as int);
        }
        let tag = trim_str(pieces[i].as_str());
        assert(all[i as int] == pieces@[i as int]@);
        let mut duplicate = false;
        let count = tags.len();
        for j in 0..count
            invariant
                count == tags@.len(),
                duplicate == (exists|k: int| 0 <= k < j && #[trigger] views(tags@)[k] == tag@),
        {
            assert(views(tags@)[j as int] == tags@[j as int]@);
            if str_equal(tags[j].as_str(), tag) {
                duplicate = true;
            }
        }
        assert(duplicate == views(tags@).contains(tag@));
        if tag.unicode_len() == 0 || duplicate {
        } else if tag.unicode_len() > 48 {
            proof {
                lemma_asset_tag_step_keeps_errors();
                lemma_fold_error_sticks(all, init, f, i + 1);
            }
            return Err(ValidationError::TagTooLong);
        } else {
            let ghost before = views(tags@);
            tags.push(tag.to_owned());
            assert(views(tags@) =~= before.push(tag@));
        }
    }
    proof {
        lemma_fold_take_all(all, init, f);
    }
    if tags.len() > 20 {
        return Err(ValidationError::TooManyTags);
    }
    Ok(tags)
}

// ----------------------------------------------------------------------------
// Looking up kinds by label
// ----------------------------------------------------------------------------

/// The first kind in listed order whose label is `label`.
pub open spec fn kind_with_label(label: Seq<char>) -> Option<ResourceKind> {
    if label == ResourceKind::Website.label_text() {
        Some(ResourceKind::Website)
    } else if label == ResourceKind::Domain.label_text() {
        Some(ResourceKind::Domain)
    } else if label == ResourceKind::Certificate.label_text() {
        Some(ResourceKind::Certificate)
    } else if label == ResourceKind::Server.label_text() {
        Some(ResourceKind::Server)
    } else if label == ResourceKind::Service.label_text() {
        Some(ResourceKind::Service)
    } else {
        None
    }
}

/// The kind whose display name is exactly `label`.
pub fn kind_from_label(label: &str) -> (r: Option<ResourceKind>)
    ensures
        r == kind_with_label(label@),
{
    if str_equal(ResourceKind::Website.label(), label) {
        Some(ResourceKind::Website)
    } else if str_equal(ResourceKind::Domain.label(), label) {
        Some(ResourceKind::Domain)
    } else if str_equal(ResourceKind::Certificate.label(), label) {
        Some(ResourceKind::Certificate)
    } else if str_equal(ResourceKind::Server.label(), label) {
        Some(ResourceKind::Server)
    } else if str_equal(ResourceKind::Service.label(), label) {
        Some(ResourceKind::Service)
    } else {
        None
    }
}

} // verus!

verus! {

// ----------------------------------------------------------------------------
// Searching assets
// ----------------------------------------------------------------------------

/// The search text of a query: trimmed, then lowercased.
pub open spec fn search_text(query: Seq<char>) -> Seq<char> {
    unicode_lowercase(trim(query))
}

/// Some tag, lowercased, contains `q`.
pub open spec fn some_tag_contains(tags: Seq<String>, q: Seq<char>) -> bool {
    exists|i: int| 0 <= i < tags.len() && contains_seq(unicode_lowercase(#[trigger] tags[i]@), q)
}

/// An asset matches a search text when the text is empty or occurs in its
/// lowercased name, lowercased detail, lowercased kind label or a
/// lowercased tag.
pub open spec fn asset_matches_query(a: Asset, q: Seq<char>) -> bool {
    ||| q.len() == 0
    ||| contains_seq(unicode_lowercase(a.name@), q)
    ||| contains_seq(unicode_lowercase(a.detail@), q)
    ||| contains_seq(unicode_lowercase(a.kind.label_text()), q)
    ||| some_tag_contains(a.tags@, q)
}

/// An asset is selected when it has the wanted kind (if any) and matches
/// the search text.
pub open spec fn asset_selected(a: Asset, kind: Option<ResourceKind>, q: Seq<char>) -> bool {
    &&& match kind {
        None => true,
        Some(wanted) => a.kind == wanted,
    }
    &&& asset_matches_query(a, q)
}

/// The assets selected by kind and query, in the order they were given.
pub open spec fn selected_assets(assets: Seq<Asset>, kind: Option<ResourceKind>, query: Seq<char>) -> Seq<Asset> {
    assets.filter(|a: Asset| asset_selected(a, kind, search_text(query)))
}

/// Whether some string of `values`, lowercased, contains `needle`.
fn any_lower_contains(values: &Vec<String>, needle: &Vec<char>) -> (r: bool)
    ensures
        r == some_tag_contains(values@, needle@),
{
    let n = values.len();
    for i in 0..n
        invariant
            n == values@.len(),
            forall|j: int|
                0 <= j < i ==> !contains_seq(unicode_lowercase(#[trigger] values@[j]@), needle@),
    {
        if lower_contains(values[i].as_str(), needle) {
            return true;
        }
    }
    false
}

/// Whether an asset matches a search text that is already trimmed and
/// lowercased.
fn asset_matches(asset: &Asset, kind: Option<ResourceKind>, needle: &Vec<char>) -> (r: bool)
    ensures
        r == asset_selected(*asset, kind, needle@),
{
    let kind_ok = match kind {
        None => true,
        Some(wanted) => asset.kind == wanted,
    };
    if !kind_ok {
        return false;
    }
    needle.len() == 0 || lower_contains(asset.name.as_str(), needle) || lower_contains(
        asset.detail.as_str(),
        needle,
    ) || lower_contains(asset.kind.label(), needle) || any_lower_contains(&asset.tags, needle)
}

/// The assets of the wanted kind (all kinds for `None`) whose name, detail,
/// kind label or tags contain the trimmed, lowercased query.
pub fn filter_assets<'a>(assets: &'a [Asset], kind: Option<ResourceKind>, query: &str) -> (r: Vec<
    &'a Asset,
>)
    ensures
        r@.map_values(|a: &Asset| *a) == selected_assets(assets@, kind, query@),
{
    let normalized = to_lowercase(trim_str(query));
    let needle = chars_of(normalized.as_str());
    let ghost pred = |a: Asset| asset_selected(a, kind, search_text(query@));
    let mut out: Vec<&'a Asset> = Vec::new();
    let n = assets.len();
    assert(assets@.take(0).filter(pred) =~= Seq::<Asset>::empty()) by {
        reveal(Seq::filter);
    }
    for i in 0..n
        invariant
            n == assets@.len(),
            needle@ == search_text(query@),
            pred == (|a: Asset| asset_selected(a, kind, search_text(query@))),
            out@.map_values(|a: &Asset| *a) == assets@.take(i as int).filter(pred),
    {
        proof {
            reveal(Seq::filter);
            assert(assets@.take(i + 1).drop_last() =~= assets@.take(i as int));
        }
        let asset = &assets[i];
        let ghost before = out@.map_values(|a: &Asset| *a);
        if asset_matches(asset, kind, &needle) {
            out.push(asset);
            assert(out@.map_values(|a: &Asset| *a) =~= before.push(*asset));
        }
    }
    assert(assets@.take(n as int) =~= assets@);
    out
}

} // verus!

verus! {

// ----------------------------------------------------------------------------
// Laws of normalization
// ----------------------------------------------------------------------------

/// A normalized tag list: every tag trimmed, non-empty and at most 48
/// characters, no two equal ignoring ASCII case.
pub open spec fn server_tags_normalized(t: Seq<Seq<char>>) -> bool {
    &&& forall|i: int|
        0 <= i < t.len() ==> crate::text::is_trimmed(#[trigger] t[i]) && t[i].len() > 0 && t[i].len()
            <= 48
    &&& forall|i: int, j: int|
        0 <= i < j < t.len() ==> !eq_ignore_ascii_case(#[trigger] t[i], #[trigger] t[j])
}

/// What `server_tags` keeps is normalized.
pub proof fn lemma_server_tags_normalized(candidates: Seq<Seq<char>>)
    ensures
        server_tags(candidates) matches Ok(t) ==> server_tags_normalized(t),
    decreases candidates.len(),
{
    if candidates.len() > 0 {
        let prev = candidates.drop_last();
        lemma_server_tags_normalized(prev);
        let c = candidates.last();
        crate::text::lemma_trim_is_trimmed(c);
        if let Ok(t0) = server_tags(prev) {
            let t = trim(c);
            if !(t.len() == 0 || has_tag_ignoring_case(t0, t)) && t.len() <= 48 {
                let all = t0.push(t);
                assert forall|i: int, j: int| 0 <= i < j < all.len() implies !eq_ignore_ascii_case(
                    #[trigger] all[i],
                    #[trigger] all[j],
                ) by {
                    if j == all.len() - 1 {
                        assert(all[i] == t0[i]);
                    } else {
                        assert(all[i] == t0[i] && all[j] == t0[j]);
                    }
                }
            }
        }
    }
}

/// A normalized tag list is its own server tag list.
pub proof fn lemma_server_tags_fixed(t: Seq<Seq<char>>)
    requires
        server_tags_normalized(t),
    ensures
        server_tags(t) == Ok::<Seq<Seq<char>>, ServerValidationError>(t),
    decreases t.len(),
{
    if t.len() > 0 {
        let prev = t.drop_last();
        assert(server_tags_normalized(prev)) by {
            assert forall|i: int, j: int| 0 <= i < j < prev.len() implies !eq_ignore_ascii_case(
                #[trigger] prev[i],
                #[trigger] prev[j],
            ) by {
                assert(prev[i] == t[i] && prev[j] == t[j]);
            }
            assert forall|i: int| 0 <= i < prev.len() implies crate::text::is_trimmed(
                #[trigger] prev[i],
            ) && prev[i].len() > 0 && prev[i].len() <= 48 by {
                assert(prev[i] == t[i]);
            }
        }
        lemma_server_tags_fixed(prev);
        let last = t.last();
        assert(crate::text::is_trimmed(t[t.len() - 1]));
        crate::text::lemma_trimmed_is_fixed(last);
        assert(!has_tag_ignoring_case(prev, last)) by {
            assert forall|j: int| 0 <= j < prev.len() implies !eq_ignore_ascii_case(
                #[trigger] prev[j],
                last,
            ) by {
                assert(prev[j] == t[j]);
                assert(!eq_ignore_ascii_case(t[j], t[t.len() - 1]));
            }
        }
        assert(prev.push(last) =~= t);
        assert(server_tags(t) == server_tag_step(server_tags(prev), last));
    } else {
        assert(t =~= Seq::<Seq<char>>::empty());
    }
}

/// Distinct port numbers from 1 to 65535.
pub open spec fn ports_normalized(ps: Seq<u16>) -> bool {
    &&& forall|i: int| 0 <= i < ps.len() ==> #[trigger] ps[i] > 0
    &&& forall|i: int, j: int| 0 <= i < j < ps.len() ==> #[trigger] ps[i] != #[trigger] ps[j]
}

proof fn lemma_port_fold_normalized(pieces: Seq<Seq<char>>)
    ensures
        pieces.fold_left(
            Ok(Seq::<u16>::empty()),
            |acc: Result<Seq<u16>, ServerValidationError>, p: Seq<char>| port_step(acc, p),
        ) matches Ok(ps) ==> ports_normalized(ps),
    decreases pieces.len(),
{
    if pieces.len() > 0 {
        lemma_port_fold_normalized(pieces.drop_last());
        let f = |acc: Result<Seq<u16>, ServerValidationError>, p: Seq<char>| port_step(acc, p);
        if let Ok(ps0) = pieces.drop_last().fold_left(Ok(Seq::<u16>::empty()), f) {
            if let Ok(ps) = pieces.fold_left(Ok(Seq::<u16>::empty()), f) {
                if ps != ps0 {
                    let p = ps[ps.len() - 1];
                    assert(ps == ps0.push(p));
                    assert(!ps0.contains(p));
                    assert forall|i: int, j: int| 0 <= i < j < ps.len() implies #[trigger] ps[i]
                        != #[trigger] ps[j] by {
                        if j == ps.len() - 1 {
                            assert(ps[i] == ps0[i]);
                        } else {
                            assert(ps[i] == ps0[i] && ps[j] == ps0[j]);
                        }
                    }
                    assert forall|i: int| 0 <= i < ps.len() implies #[trigger] ps[i] > 0 by {
                        if i < ps0.len() {
                            assert(ps[i] == ps0[i]);
                        }
                    }
                }
            }
        }
    }
}

/// The ports of a port list are distinct and non-zero.
pub proof fn lemma_port_list_normalized(value: Seq<char>)
    ensures
        port_list(value) matches Ok(ps) ==> ports_normalized(ps),
{
    lemma_port_fold_normalized(split_chars(value, is_one_of(',', ',')));
}

/// Reading the rendering of a normalized port list gives the ports back.
pub proof fn lemma_rendered_ports_reparse(ps: Seq<u16>)
    requires
        ports_normalized(ps),
        ps.len() >= 1,
    ensures
        port_list(render_ports(ps)) == Ok::<Seq<u16>, ServerValidationError>(ps),
{
    let sep = is_one_of(',', ',');
    let ds = ps.map_values(|p: u16| decimal(p as nat));
    assert forall|i: int| 0 <= i < ds.len() implies crate::text::free_of(#[trigger] ds[i], sep) by {
        crate::text::lemma_decimal_trimmed(ps[i] as nat);
    }
    crate::text::lemma_split_joined(ds, sep);
    let pieces = crate::text::space_prefixed(ds);
    let f = |acc: Result<Seq<u16>, ServerValidationError>, p: Seq<char>| port_step(acc, p);
    let init = Ok::<Seq<u16>, ServerValidationError>(Seq::empty());
    assert forall|k: int| 0 <= k <= pieces.len() implies #[trigger] pieces.take(k).fold_left(
        init,
        f,
    ) == Ok::<Seq<u16>, ServerValidationError>(ps.take(k)) by {
        lemma_rendered_ports_prefix(ps, k);
    }
    crate::folds::lemma_fold_take_all(pieces, init, f);
    assert(ps.take(ps.len() as int) =~= ps);
}

proof fn lemma_rendered_ports_prefix(ps: Seq<u16>, k: int)
    requires
        ports_normalized(ps),
        ps.len() >= 1,
        0 <= k <= ps.len(),
    ensures
        crate::text::space_prefixed(ps.map_values(|p: u16| decimal(p as nat))).take(k).fold_left(
            Ok(Seq::<u16>::empty()),
            |acc: Result<Seq<u16>, ServerValidationError>, p: Seq<char>| port_step(acc, p),
        ) == Ok::<Seq<u16>, ServerValidationError>(ps.take(k)),
    decreases k,
{
    let ds = ps.map_values(|p: u16| decimal(p as nat));
    let pieces = crate::text::space_prefixed(ds);
    let f = |acc: Result<Seq<u16>, ServerValidationError>, p: Seq<char>| port_step(acc, p);
    let init = Ok::<Seq<u16>, ServerValidationError>(Seq::empty());
    if k == 0 {
        assert(pieces.take(0) =~= Seq::<Seq<char>>::empty());
        assert(ps.take(0) =~= Seq::<u16>::empty());
    } else {
        lemma_rendered_ports_prefix(ps, k - 1);
        crate::folds::lemma_fold_take_step(pieces, init, f, k - 1);
        let p = ps[k - 1];
        crate::text::lemma_decimal_trimmed(p as nat);
        let piece = pieces[k - 1];
        if k - 1 == 0 {
            assert(piece == decimal(p as nat));
            crate::text::lemma_trimmed_is_fixed(piece);
        } else {
            assert(piece == seq![' '] + decimal(p as nat));
            crate::text::lemma_trim_space_prefixed(decimal(p as nat));
        }
        assert(trim(piece) == decimal(p as nat));
        assert(!ps.take(k - 1).contains(p)) by {
            if ps.take(k - 1).contains(p) {
                let j = choose|j: int| 0 <= j < ps.take(k - 1).len() && #[trigger] ps.take(k - 1)[j] == p;
                assert(ps[j] == ps[k - 1]);
            }
        }
        assert(ps.take(k - 1).push(p) =~= ps.take(k));
    }
}

/// Validating an accepted server draft again accepts it unchanged: the
/// normalized tags, address and ports are a fixed point.
pub proof fn lemma_validated_server_idempotent(
    tags: Seq<Seq<char>>,
    ip_address: Seq<char>,
    ports: Seq<char>,
    ip_is_valid: bool,
)
    ensures
        validated_server(tags, ip_address, ports, ip_is_valid) matches Ok((t, i, p))
            ==> validated_server(t, i, p, ip_is_valid) == Ok::<
            (Seq<Seq<char>>, Seq<char>, Seq<char>),
            ServerValidationError,
        >((t, i, p)),
{
    if let Ok((t, i, p)) = validated_server(tags, ip_address, ports, ip_is_valid) {
        lemma_server_tags_normalized(tags);
        lemma_server_tags_fixed(t);
        crate::text::lemma_trim_idempotent(ip_address);
        lemma_port_list_normalized(ports);
        let ps = port_list(ports)->Ok_0;
        lemma_rendered_ports_reparse(ps);
    }
}

/// Validating an accepted name again accepts it unchanged.
pub proof fn lemma_validated_name_idempotent(name: Seq<char>, maximum: usize)
    ensures
        validated_name(name, maximum) matches Ok(t) ==> validated_name(t, maximum) == Ok::<
            Seq<char>,
            ValidationError,
        >(t),
{
    crate::text::lemma_trim_idempotent(name);
}

} // verus!

verus! {

/// The asset tag separators: `,` and `，`.
pub open spec fn tag_separators() -> spec_fn(char) -> bool {
    is_one_of(',', fullwidth_comma())
}

/// A normalized asset tag list: every tag trimmed, non-empty, at most 48
/// characters and free of tag separators, no tag twice.
pub open spec fn asset_tags_normalized(t: Seq<Seq<char>>) -> bool {
    &&& forall|i: int|
        0 <= i < t.len() ==> crate::text::is_trimmed(#[trigger] t[i]) && t[i].len() > 0 && t[i].len()
            <= 48 && crate::text::free_of(t[i], tag_separators())
    &&& forall|i: int, j: int| 0 <= i < j < t.len() ==> #[trigger] t[i] != #[trigger] t[j]
}

proof fn lemma_asset_tag_fold_normalized(pieces: Seq<Seq<char>>)
    requires
        forall|i: int| 0 <= i < pieces.len() ==> crate::text::free_of(#[trigger] pieces[i], tag_separators()),
    ensures
        pieces.fold_left(
            Ok(Seq::<Seq<char>>::empty()),
            |acc: Result<Seq<Seq<char>>, ValidationError>, c: Seq<char>| asset_tag_step(acc, c),
        ) matches Ok(t) ==> asset_tags_normalized(t),
    decreases pieces.len(),
{
    if pieces.len() > 0 {
        let prev = pieces.drop_last();
        assert forall|i: int| 0 <= i < prev.len() implies crate::text::free_of(#[trigger] prev[i], tag_separators()) by {
            assert(prev[i] == pieces[i]);
        }
        lemma_asset_tag_fold_normalized(prev);
        let f = |acc: Result<Seq<Seq<char>>, ValidationError>, c: Seq<char>| asset_tag_step(acc, c);
        let c = pieces.last();
        assert(crate::text::free_of(pieces[pieces.len() - 1], tag_separators()));
        crate::text::lemma_trim_is_trimmed(c);
        crate::text::lemma_trim_keeps_free(c, tag_separators());
        if let Ok(t0) = prev.fold_left(Ok(Seq::<Seq<char>>::empty()), f) {
            let t = trim(c);
            if !(t.len() == 0 || t0.contains(t)) && t.len() <= 48 {
                let all = t0.push(t);
                assert forall|i: int, j: int| 0 <= i < j < all.len() implies #[trigger] all[i]
                    != #[trigger] all[j] by {
                    if j == all.len() - 1 {
                        assert(all[i] == t0[i]);
                    } else {
                        assert(all[i] == t0[i] && all[j] == t0[j]);
                    }
                }
                assert forall|i: int| 0 <= i < all.len() implies crate::text::is_trimmed(
                    #[trigger] all[i],
                ) && all[i].len() > 0 && all[i].len() <= 48 && crate::text::free_of(
                    all[i],
                    tag_separators(),
                ) by {
                    if i < t0.len() {
                        assert(all[i] == t0[i]);
                    }
                }
            }
        }
    }
}

/// What `parse_tags` accepts is a normalized tag list of at most 20 tags.
pub proof fn lemma_parsed_tags_normalized(value: Seq<char>)
    ensures
        parsed_tags(value) matches Ok(t) ==> asset_tags_normalized(t) && t.len() <= 20,
{
    crate::text::lemma_split_pieces_free(value, tag_separators());
    lemma_asset_tag_fold_normalized(split_chars(value, tag_separators()));
}

proof fn lemma_joined_tags_prefix(t: Seq<Seq<char>>, k: int)
    requires
        asset_tags_normalized(t),
        t.len() >= 1,
        0 <= k <= t.len(),
    ensures
        crate::text::space_prefixed(t).take(k).fold_left(
            Ok(Seq::<Seq<char>>::empty()),
            |acc: Result<Seq<Seq<char>>, ValidationError>, c: Seq<char>| asset_tag_step(acc, c),
        ) == Ok::<Seq<Seq<char>>, ValidationError>(t.take(k)),
    decreases k,
{
    let pieces = crate::text::space_prefixed(t);
    let f = |acc: Result<Seq<Seq<char>>, ValidationError>, c: Seq<char>| asset_tag_step(acc, c);
    let init = Ok::<Seq<Seq<char>>, ValidationError>(Seq::empty());
    if k == 0 {
        assert(pieces.take(0) =~= Seq::<Seq<char>>::empty());
        assert(t.take(0) =~= Seq::<Seq<char>>::empty());
    } else {
        lemma_joined_tags_prefix(t, k - 1);
        crate::folds::lemma_fold_take_step(pieces, init, f, k - 1);
        let tag = t[k - 1];
        let piece = pieces[k - 1];
        if k - 1 == 0 {
            assert(piece == tag);
            crate::text::lemma_trimmed_is_fixed(piece);
        } else {
            assert(piece == seq![' '] + tag);
            crate::text::lemma_trim_space_prefixed(tag);
        }
        assert(!t.take(k - 1).contains(tag)) by {
            if t.take(k - 1).contains(tag) {
                let j = choose|j: int| 0 <= j < t.take(k - 1).len() && #[trigger] t.take(k - 1)[j] == tag;
                assert(t[j] == t[k - 1]);
            }
        }
        assert(t.take(k - 1).push(tag) =~= t.take(k));
    }
}

/// Tags written out with `", "` between them parse back to the same tags.
pub proof fn lemma_parse_tags_round_trip(value: Seq<char>)
    ensures
        parsed_tags(value) matches Ok(t) ==> parsed_tags(join(t, comma_space())) == Ok::<
            Seq<Seq<char>>,
            ValidationError,
        >(t),
{
    lemma_parsed_tags_normalized(value);
    if let Ok(t) = parsed_tags(value) {
        let f = |acc: Result<Seq<Seq<char>>, ValidationError>, c: Seq<char>| asset_tag_step(acc, c);
        let init = Ok::<Seq<Seq<char>>, ValidationError>(Seq::empty());
        if t.len() == 0 {
            assert(join(t, comma_space()) == Seq::<char>::empty());
            let pieces = split_chars(Seq::<char>::empty(), tag_separators());
            assert(pieces =~= seq![Seq::<char>::empty()]);
            assert(pieces.drop_last() =~= Seq::<Seq<char>>::empty());
            assert(trim(Seq::<char>::empty()) =~= Seq::<char>::empty());
            assert(pieces.fold_left(init, f) == f(pieces.drop_last().fold_left(init, f), pieces.last()));
            assert(asset_tag_list(join(t, comma_space())) == init);
            assert(t =~= Seq::<Seq<char>>::empty());
        } else {
            assert forall|i: int| 0 <= i < t.len() implies crate::text::free_of(#[trigger] t[i], tag_separators()) by {}
            crate::text::lemma_split_joined(t, tag_separators());
            lemma_joined_tags_prefix(t, t.len() as int);
            let pieces = crate::text::space_prefixed(t);
            crate::folds::lemma_fold_take_all(pieces, init, f);
            assert(t.take(t.len() as int) =~= t);
            assert(asset_tag_list(join(t, comma_space())) == pieces.fold_left(init, f));
        }
    }
}

} // verus!

verus! {

proof fn lemma_joined_server_tags_prefix(t: Seq<Seq<char>>, k: int)
    requires
        server_tags_normalized(t),
        t.len() >= 1,
        0 <= k <= t.len(),
    ensures
        crate::text::space_prefixed(t).take(k).fold_left(
            Ok(Seq::<Seq<char>>::empty()),
            |acc: Result<Seq<Seq<char>>, ServerValidationError>, c: Seq<char>|
                server_tag_step(acc, c),
        ) == Ok::<Seq<Seq<char>>, ServerValidationError>(t.take(k)),
    decreases k,
{
    let pieces = crate::text::space_prefixed(t);
    let f = |acc: Result<Seq<Seq<char>>, ServerValidationError>, c: Seq<char>|
        server_tag_step(acc, c);
    let init = Ok::<Seq<Seq<char>>, ServerValidationError>(Seq::empty());
    if k == 0 {
        assert(pieces.take(0) =~= Seq::<Seq<char>>::empty());
        assert(t.take(0) =~= Seq::<Seq<char>>::empty());
    } else {
        lemma_joined_server_tags_prefix(t, k - 1);
        crate::folds::lemma_fold_take_step(pieces, init, f, k - 1);
        let tag = t[k - 1];
        let piece = pieces[k - 1];
        if k - 1 == 0 {
            assert(piece == tag);
            crate::text::lemma_trimmed_is_fixed(piece);
        } else {
            assert(piece == seq![' '] + tag);
            crate::text::lemma_trim_space_prefixed(tag);
        }
        assert(!has_tag_ignoring_case(t.take(k - 1), tag)) by {
            assert forall|j: int| 0 <= j < t.take(k - 1).len() implies !eq_ignore_ascii_case(
                #[trigger] t.take(k - 1)[j],
                tag,
            ) by {
                assert(t.take(k - 1)[j] == t[j]);
                assert(!eq_ignore_ascii_case(t[j], t[k - 1]));
            }
        }
        assert(t.take(k - 1).push(tag) =~= t.take(k));
    }
}

/// A server's tags shown in the editor (joined with `", "`) and read back
/// from it (split at commas, then validated) are the same tags, provided no
/// tag contains a comma.
pub proof fn lemma_server_tags_edit_round_trip(t: Seq<Seq<char>>)
    requires
        server_tags_normalized(t),
        forall|i: int| 0 <= i < t.len() ==> crate::text::free_of(#[trigger] t[i], is_one_of(',', ',')),
    ensures
        server_tags(split_chars(join(t, comma_space()), is_one_of(',', ','))) == Ok::<
            Seq<Seq<char>>,
            ServerValidationError,
        >(t),
{
    let f = |acc: Result<Seq<Seq<char>>, ServerValidationError>, c: Seq<char>|
        server_tag_step(acc, c);
    let init = Ok::<Seq<Seq<char>>, ServerValidationError>(Seq::empty());
    if t.len() == 0 {
        let pieces = split_chars(Seq::<char>::empty(), is_one_of(',', ','));
        assert(join(t, comma_space()) == Seq::<char>::empty());
        assert(pieces =~= seq![Seq::<char>::empty()]);
        assert(pieces.drop_last() =~= Seq::<Seq<char>>::empty());
        assert(trim(Seq::<char>::empty()) =~= Seq::<char>::empty());
        assert(pieces.fold_left(init, f) == f(pieces.drop_last().fold_left(init, f), pieces.last()));
        assert(t =~= Seq::<Seq<char>>::empty());
    } else {
        crate::text::lemma_split_joined(t, is_one_of(',', ','));
        lemma_joined_server_tags_prefix(t, t.len() as int);
        let pieces = crate::text::space_prefixed(t);
        crate::folds::lemma_fold_take_all(pieces, init, f);
        assert(t.take(t.len() as int) =~= t);
    }
}

// ----------------------------------------------------------------------------
// Laws of the kind and health tables
// ----------------------------------------------------------------------------

/// A kind's list position leads back to the kind, and every position in the
/// list leads back to itself.
pub proof fn lemma_resource_kind_positions(k: ResourceKind, i: int)
    ensures
        ResourceKind::listed(k.position()) == k,
        0 <= k.position() < 5,
        0 <= i < 5 ==> ResourceKind::listed(i).position() == i,
{
}

/// A health level's position leads back to it.
pub proof fn lemma_health_positions(h: Health)
    ensures
        (if h.position() == 1 {
            Health::Warning
        } else if h.position() == 2 {
            Health::Critical
        } else {
            Health::Healthy
        }) == h,
{
}

/// Every kind is found again by its label.
pub proof fn lemma_kind_label_round_trip(k: ResourceKind)
    ensures
        kind_with_label(k.label_text()) == Some(k),
{
    reveal_strlit("Website");
    reveal_strlit("Domain");
    reveal_strlit("Certificate");
    reveal_strlit("Server");
    reveal_strlit("Service");
    assert(ResourceKind::Website.label_text().len() == 7);
    assert(ResourceKind::Domain.label_text().len() == 6);
    assert(ResourceKind::Certificate.label_text().len() == 11);
    assert(ResourceKind::Server.label_text().len() == 6);
    assert(ResourceKind::Service.label_text().len() == 7);
    assert(ResourceKind::Website.label_text()[0] == 'W');
    assert(ResourceKind::Service.label_text()[1] == 'e');
    assert(ResourceKind::Server.label_text()[0] == 'S');
    assert(ResourceKind::Domain.label_text()[0] == 'D');
    assert(ResourceKind::Website.label_text() != ResourceKind::Service.label_text());
    assert(ResourceKind::Domain.label_text() != ResourceKind::Server.label_text());
}

} // verus!

verus! {

// ----------------------------------------------------------------------------
// Laws of the resource search
// ----------------------------------------------------------------------------

/// A resource of the wanted kind (any kind for `None`) is found when the
/// trimmed, lowercased query is blank or occurs in its lowercased name,
/// detail, kind label or one of its tags.
pub proof fn lemma_search_finds_matches(a: Asset, kind: Option<ResourceKind>, query: Seq<char>)
    requires
        kind is None || kind == Some(a.kind),
    ensures
        ({
            let q = unicode_lowercase(trim(query));
            &&& q.len() == 0 ==> asset_selected(a, kind, search_text(query))
            &&& contains_seq(unicode_lowercase(a.name@), q) ==> asset_selected(a, kind, search_text(query))
            &&& contains_seq(unicode_lowercase(a.detail@), q) ==> asset_selected(a, kind, search_text(query))
            &&& contains_seq(unicode_lowercase(a.kind.label_text()), q) ==> asset_selected(
                a,
                kind,
                search_text(query),
            )
            &&& forall|i: int|
                0 <= i < a.tags@.len() && contains_seq(unicode_lowercase(#[trigger] a.tags@[i]@), q)
                    ==> asset_selected(a, kind, search_text(query))
        }),
{
}

/// A found resource has the wanted kind and, for a non-blank query,
/// contains it in its name, detail, kind label or a tag (all lowercased).
pub proof fn lemma_search_finds_only_matches(a: Asset, kind: Option<ResourceKind>, query: Seq<char>)
    ensures
        asset_selected(a, kind, search_text(query)) ==> kind is None || kind == Some(a.kind),
        asset_selected(a, kind, search_text(query)) && unicode_lowercase(trim(query)).len() > 0 ==> {
            let q = unicode_lowercase(trim(query));
            ||| contains_seq(unicode_lowercase(a.name@), q)
            ||| contains_seq(unicode_lowercase(a.detail@), q)
            ||| contains_seq(unicode_lowercase(a.kind.label_text()), q)
            ||| exists|i: int|
                0 <= i < a.tags@.len() && contains_seq(unicode_lowercase(#[trigger] a.tags@[i]@), q)
        },
{
}

/// The search result holds exactly the input resources that are selected by
/// the trimmed, lowercased query.
pub proof fn lemma_search_keeps_order(assets: Seq<Asset>, kind: Option<ResourceKind>, query: Seq<char>)
    ensures
        forall|a: Asset|
            #![trigger selected_assets(assets, kind, query).contains(a)]
            selected_assets(assets, kind, query).contains(a) <==> (assets.contains(a) && asset_selected(
                a,
                kind,
                unicode_lowercase(trim(query)),
            )),
{
    let pred = |x: Asset| asset_selected(x, kind, search_text(query));
    assert forall|a: Asset|
        #![trigger selected_assets(assets, kind, query).contains(a)]
        selected_assets(assets, kind, query).contains(a) <==> (assets.contains(a) && asset_selected(
            a,
            kind,
            unicode_lowercase(trim(query)),
        )) by {
        let f = assets.filter(pred);
        assert(selected_assets(assets, kind, query) == f);
        if f.contains(a) {
            assets.lemma_filter_contains_rev(pred, a);
            let k = choose|k: int| 0 <= k < f.len() && f[k] == a;
            assets.lemma_filter_pred(pred, k);
        }
        if assets.contains(a) && pred(a) {
            let i = choose|i: int| 0 <= i < assets.len() && assets[i] == a;
            assets.lemma_filter_contains(pred, i);
        }
    }
}

} // verus!
