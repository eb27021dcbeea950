//! The server table: filtering, ordering and the tag list.
use vstd::prelude::*;

use crate::domain::ServerRecord;
use crate::sorting::{
    antisymmetric, int_order, neighbours_in_order, order_i64, rearranged, sort_paired, Order,
};
use crate::text::{
    ascii_lower, ascii_lower_seq, ascii_lowered, chars_of, comma_space, contains_seq, eq_ignore_ascii_case,
    is_one_of, join, join_comma_space, parse_u16, parse_u16_str, split_chars, split_on,
    str_eq_ignore_ascii_case, to_ascii_lower, to_lowercase, trim, trim_str, unicode_lowercase,
    views,
};

verus! {

// ----------------------------------------------------------------------------
// Text order
// ----------------------------------------------------------------------------

/// Lexicographic order of character sequences by code point, which is the
/// order of `str::cmp` on the UTF-8 encodings.
pub open spec fn lex_order(a: Seq<char>, b: Seq<char>) -> Order
    decreases a.len(),
{
    if a.len() == 0 {
        if b.len() == 0 {
            Order::Equal
        } else {
            Order::Less
        }
    } else if b.len() == 0 {
        Order::Greater
    } else if a[0] < b[0] {
        Order::Less
    } else if a[0] > b[0] {
        Order::Greater
    } else {
        lex_order(a.drop_first(), b.drop_first())
    }
}

/// Exchanging the sides of `lex_order` flips it.
pub proof fn lemma_lex_order_antisymmetric(a: Seq<char>, b: Seq<char>)
    ensures
        lex_order(a, b) == lex_order(b, a).flipped(),
    decreases a.len(),
{
    if a.len() > 0 && b.len() > 0 && a[0] == b[0] {
        lemma_lex_order_antisymmetric(a.drop_first(), b.drop_first());
    }
}

/// `lex_order` is transitive.
pub proof fn lemma_lex_order_transitive(a: Seq<char>, b: Seq<char>, c: Seq<char>)
    requires
        lex_order(a, b) != Order::Greater,
        lex_order(b, c) != Order::Greater,
    ensures
        lex_order(a, c) != Order::Greater,
    decreases a.len(),
{
    if a.len() > 0 && b.len() > 0 && c.len() > 0 && a[0] == b[0] && b[0] == c[0] {
        lemma_lex_order_transitive(a.drop_first(), b.drop_first(), c.drop_first());
    }
}

/// Only equal sequences compare equal.
pub proof fn lemma_lex_order_equal(a: Seq<char>, b: Seq<char>)
    ensures
        lex_order(a, b) == Order::Equal <==> a == b,
    decreases a.len(),
{
    if a.len() > 0 && b.len() > 0 && a[0] == b[0] {
        lemma_lex_order_equal(a.drop_first(), b.drop_first());
        if a.drop_first() == b.drop_first() {
            assert(a =~= seq![a[0]] + a.drop_first());
            assert(b =~= seq![b[0]] + b.drop_first());
        }
    }
    if a == b && a.len() > 0 {
        assert(a.drop_first() == b.drop_first());
    }
    if a.len() == 0 && b.len() == 0 {
        assert(a =~= b);
    }
}

/// Compares two character vectors lexicographically.
pub fn order_chars(a: &Vec<char>, b: &Vec<char>) -> (r: Order)
    ensures
        r == lex_order(a@, b@),
{
    let n = a.len();
    let m = b.len();
    let mut i: usize = 0;
    assert(a@.skip(0) =~= a@);
    assert(b@.skip(0) =~= b@);
    while i < n && i < m
        invariant
            n == a@.len(),
            m == b@.len(),
            i <= n,
            i <= m,
            lex_order(a@, b@) == lex_order(a@.skip(i as int), b@.skip(i as int)),
        decreases n - i,
    {
        let x = a[i];
        let y = b[i];
        assert(a@.skip(i as int)[0] == x);
        assert(b@.skip(i as int)[0] == y);
        if x < y {
            return Order::Less;
        }
        if x > y {
            return Order::Greater;
        }
        assert(a@.skip(i as int).drop_first() =~= a@.skip(i + 1));
        assert(b@.skip(i as int).drop_first() =~= b@.skip(i + 1));
        i = i + 1;
    }
    if i == n {
        if i == m {
            Order::Equal
        } else {
            Order::Less
        }
    } else {
        Order::Greater
    }
}

/// Comparison ignoring ASCII case (`to_ascii_lowercase` then `cmp`).
pub open spec fn text_order(a: Seq<char>, b: Seq<char>) -> Order {
    lex_order(ascii_lower_seq(a), ascii_lower_seq(b))
}

/// Compares two texts ignoring ASCII case.
pub fn text_compare(left: &str, right: &str) -> (r: Order)
    ensures
        r == text_order(left@, right@),
{
    let a = ascii_lowered(left);
    let b = ascii_lowered(right);
    order_chars(&a, &b)
}

// ----------------------------------------------------------------------------
// Address and port keys
// ----------------------------------------------------------------------------

/// A parsed IP address as a plain sort key: the address family (4 or 6) and
/// the address as a number. Addresses order by family, then by number.
#[derive(Clone, Copy, Debug, PartialEq, Eq, Structural)]
pub struct IpKey {
    pub family: u8,
    pub value: u128,
}

/// The order of two address keys.
pub open spec fn key_order(a: IpKey, b: IpKey) -> Order {
    if a.family != b.family {
        int_order(a.family as int, b.family as int)
    } else {
        int_order(a.value as int, b.value as int)
    }
}

/// Addresses that both parse compare as addresses, others as text.
pub open spec fn ip_order(a: Seq<char>, ka: Option<IpKey>, b: Seq<char>, kb: Option<IpKey>) -> Order {
    match (ka, kb) {
        (Some(x), Some(y)) => key_order(x, y),
        _ => text_order(a, b),
    }
}

/// Compares two addresses given their parsed keys.
pub fn ip_compare(left: &str, left_key: Option<IpKey>, right: &str, right_key: Option<IpKey>) -> (r:
    Order)
    ensures
        r == ip_order(left@, left_key, right@, right_key),
{
    match (left_key, right_key) {
        (Some(x), Some(y)) => {
            if x.family < y.family {
                Order::Less
            } else if x.family > y.family {
                Order::Greater
            } else if x.value < y.value {
                Order::Less
            } else if x.value > y.value {
                Order::Greater
            } else {
                Order::Equal
            }
        },
        _ => text_compare(left, right),
    }
}

/// The first comma-separated port of a list, or 65535 when it is not a
/// number.
pub open spec fn first_port_of(value: Seq<char>) -> u16 {
    match parse_u16(trim(split_chars(value, is_one_of(',', ','))[0])) {
        Some(p) => p,
        None => 65535,
    }
}

/// The first port of a port list, used to order servers by port.
pub fn first_port(value: &str) -> (r: u16)
    ensures
        r == first_port_of(value@),
{
    let pieces = split_on(value, ',', ',');
    proof {
        crate::text::lemma_split_chars_nonempty(value@, is_one_of(',', ','));
    }
    assert(views(pieces@)[0] == pieces@[0]@);
    match parse_u16_str(trim_str(pieces[0].as_str())) {
        Some(p) => p,
        None => 65535,
    }
}

// ----------------------------------------------------------------------------
// Sorting server records
// ----------------------------------------------------------------------------

/// The tags of a record as one text, `", "` between them.
pub open spec fn tags_text(r: ServerRecord) -> Seq<char> {
    join(views(r.tags@), comma_space())
}

/// The text of a custom column, empty when the record has no such column.
pub open spec fn custom_text(r: ServerRecord, column: int) -> Seq<char> {
    if 0 <= column < r.custom_values@.len() {
        r.custom_values@[column]@
    } else {
        Seq::empty()
    }
}

/// The order of a sort mode before the direction is applied, and whether
/// the mode is ascending. Modes: 0/1 tags, 2/3 address, 4/5 first port
/// (ascending/descending), 6 newest first, 7 oldest first, then two modes
/// (ascending, descending) per custom column.
pub open spec fn mode_order(
    a: ServerRecord,
    ka: Option<IpKey>,
    b: ServerRecord,
    kb: Option<IpKey>,
    mode: usize,
) -> (Order, bool) {
    if mode == 0 || mode == 1 {
        (text_order(tags_text(a), tags_text(b)), mode == 0)
    } else if mode == 2 || mode == 3 {
        (ip_order(a.ip_address@, ka, b.ip_address@, kb), mode == 2)
    } else if mode == 4 || mode == 5 {
        (int_order(first_port_of(a.ports@) as int, first_port_of(b.ports@) as int), mode == 4)
    } else if mode == 6 {
        (int_order(a.id as int, b.id as int), false)
    } else if mode == 7 {
        (int_order(a.id as int, b.id as int), true)
    } else {
        let column = (mode - 8) / 2;
        (text_order(custom_text(a, column), custom_text(b, column)), (mode - 8) % 2 == 0)
    }
}

/// The order of two records in a sort mode: the mode's order in its
/// direction, ties broken by ascending id.
pub open spec fn record_order(
    a: ServerRecord,
    ka: Option<IpKey>,
    b: ServerRecord,
    kb: Option<IpKey>,
    mode: usize,
) -> Order {
    let (o, ascending) = mode_order(a, ka, b, kb, mode);
    let directed = if ascending {
        o
    } else {
        o.flipped()
    };
    if directed == Order::Equal {
        int_order(a.id as int, b.id as int)
    } else {
        directed
    }
}

/// The record order of a sort mode as a comparison function.
pub open spec fn record_order_fn(mode: usize) -> spec_fn(ServerRecord, Option<IpKey>, ServerRecord, Option<IpKey>) -> Order {
    |a: ServerRecord, ka: Option<IpKey>, b: ServerRecord, kb: Option<IpKey>|
        record_order(a, ka, b, kb, mode)
}

proof fn lemma_text_order_antisymmetric(a: Seq<char>, b: Seq<char>)
    ensures
        text_order(a, b) == text_order(b, a).flipped(),
{
    lemma_lex_order_antisymmetric(ascii_lower_seq(a), ascii_lower_seq(b));
}

/// Every sort mode is antisymmetric.
pub proof fn lemma_record_order_antisymmetric(mode: usize)
    ensures
        antisymmetric(record_order_fn(mode)),
{
    assert forall|a: ServerRecord, ka: Option<IpKey>, b: ServerRecord, kb: Option<IpKey>|
        #[trigger] record_order_fn(mode)(a, ka, b, kb) == record_order_fn(mode)(
            b,
            kb,
            a,
            ka,
        ).flipped() by {
        let (o1, asc1) = mode_order(a, ka, b, kb, mode);
        let (o2, asc2) = mode_order(b, kb, a, ka, mode);
        lemma_text_order_antisymmetric(tags_text(a), tags_text(b));
        lemma_text_order_antisymmetric(a.ip_address@, b.ip_address@);
        lemma_text_order_antisymmetric(custom_text(a, (mode - 8) / 2), custom_text(b, (mode - 8) / 2));
        assert(asc1 == asc2);
        assert(o1 == o2.flipped());
    }
}

/// The joined tag text of a record.
fn record_tags_text(r: &ServerRecord) -> (t: String)
    ensures
        t@ == tags_text(*r),
{
    join_comma_space(&r.tags)
}

/// The text of a custom column of a record.
fn record_custom_text(r: &ServerRecord, column: usize) -> (t: &str)
    ensures
        t@ == custom_text(*r, column as int),
{
    if column < r.custom_values.len() {
        r.custom_values[column].as_str()
    } else {
        proof {
            reveal_strlit("");
        }
        ""
    }
}

/// Compares two records in a sort mode.
pub fn compare_records(
    a: &ServerRecord,
    ka: &Option<IpKey>,
    b: &ServerRecord,
    kb: &Option<IpKey>,
    mode: usize,
) -> (r: Order)
    ensures
        r == record_order(*a, *ka, *b, *kb, mode),
{
    let (o, ascending) = if mode == 0 || mode == 1 {
        let ta = record_tags_text(a);
        let tb = record_tags_text(b);
        (text_compare(ta.as_str(), tb.as_str()), mode == 0)
    } else if mode == 2 || mode == 3 {
        (ip_compare(a.ip_address.as_str(), *ka, b.ip_address.as_str(), *kb), mode == 2)
    } else if mode == 4 || mode == 5 {
        let pa = first_port(a.ports.as_str());
        let pb = first_port(b.ports.as_str());
        let o = if pa < pb {
            Order::Less
        } else if pa > pb {
            Order::Greater
        } else {
            Order::Equal
        };
        (o, mode == 4)
    } else if mode == 6 {
        (order_i64(a.id, b.id), false)
    } else if mode == 7 {
        (order_i64(a.id, b.id), true)
    } else {
        let column = (mode - 8) / 2;
        let ca = record_custom_text(a, column);
        let cb = record_custom_text(b, column);
        (text_compare(ca, cb), (mode - 8) % 2 == 0)
    };
    let directed = if ascending {
        o
    } else {
        o.reverse()
    };
    if directed == Order::Equal {
        order_i64(a.id, b.id)
    } else {
        directed
    }
}

/// Sorts the records (and, alongside, the parsed address key of each) for a
/// sort mode. The sort is stable and the id breaks ties, so neighbours end
/// in order; `ip_keys[k]` is the parsed address of `records[k]`, or `None`
/// when it does not parse.
pub fn sort_records(records: &mut [ServerRecord], ip_keys: &mut [Option<IpKey>], mode: usize)
    requires
        old(records)@.len() == old(ip_keys)@.len(),
    ensures
        exists|p: Seq<int>|
            {
                &&& rearranged(final(records)@, final(ip_keys)@, old(records)@, old(ip_keys)@, p)
                &&& neighbours_in_order(final(records)@, final(ip_keys)@, p, record_order_fn(mode))
            },
{
    proof {
        lemma_record_order_antisymmetric(mode);
    }
    let compare = |a: &ServerRecord, ka: &Option<IpKey>, b: &ServerRecord, kb: &Option<IpKey>| -> (r:
        Order)
        ensures
            r == record_order(*a, *ka, *b, *kb, mode),
        { compare_records(a, ka, b, kb, mode) };
    let Ghost(p) = sort_paired(records, ip_keys, compare, Ghost(record_order_fn(mode)));
    assert(rearranged(records@, ip_keys@, old(records)@, old(ip_keys)@, p));
}

} // verus!

verus! {

// ----------------------------------------------------------------------------
// Filtering server records
// ----------------------------------------------------------------------------

/// The search box, selected tag and sort mode of the server table.
pub struct TableState {
    pub query: String,
    pub tag: String,
    pub sort_mode: usize,
    pub show_hidden: bool,
}

impl Default for TableState {
    fn default() -> (r: Self)
        ensures
            r.query@ == Seq::<char>::empty(),
            r.tag@ == Seq::<char>::empty(),
            r.sort_mode == 0,
            !r.show_hidden,
    {
        TableState { query: String::new(), tag: String::new(), sort_mode: 0, show_hidden: false }
    }
}

/// Some value of `values`, lowercased, contains `q`.
pub open spec fn some_value_contains(values: Seq<String>, q: Seq<char>) -> bool {
    exists|i: int|
        0 <= i < values.len() && contains_seq(unicode_lowercase(#[trigger] values[i]@), q)
}

/// Some tag equals `t` ignoring ASCII case.
pub open spec fn some_tag_equal_ignoring_case(tags: Seq<String>, t: Seq<char>) -> bool {
    exists|i: int| 0 <= i < tags.len() && eq_ignore_ascii_case(#[trigger] tags[i]@, t)
}

/// A record passes the table filters when the trimmed selected tag is empty
/// or equals one of its tags ignoring ASCII case, and the trimmed, lowercased
/// query is empty or occurs in a lowercased tag, the address, the ports or a
/// custom value.
pub open spec fn record_matches(server: ServerRecord, query: Seq<char>, tag: Seq<char>) -> bool {
    let q = unicode_lowercase(trim(query));
    let t = trim(tag);
    &&& (t.len() == 0 || some_tag_equal_ignoring_case(server.tags@, t))
    &&& (q.len() == 0 || some_value_contains(server.tags@, q) || contains_seq(
        unicode_lowercase(server.ip_address@),
        q,
    ) || contains_seq(unicode_lowercase(server.ports@), q) || some_value_contains(
        server.custom_values@,
        q,
    ))
}

/// Whether some string of `values`, lowercased, contains `needle`.
fn any_value_contains(values: &Vec<String>, needle: &Vec<char>) -> (r: bool)
    ensures
        r == some_value_contains(values@, needle@),
{
    let n = values.len();
    for i in 0..n
        invariant
            n == values@.len(),
            forall|j: int|
                0 <= j < i ==> !contains_seq(unicode_lowercase(#[trigger] values@[j]@), needle@),
    {
        if crate::text::lower_contains(values[i].as_str(), needle) {
            return true;
        }
    }
    false
}

/// Whether some tag equals `tag` ignoring ASCII case.
fn any_tag_equal(tags: &Vec<String>, tag: &str) -> (r: bool)
    ensures
        r == some_tag_equal_ignoring_case(tags@, tag@),
{
    let n = tags.len();
    for i in 0..n
        invariant
            n == tags@.len(),
            forall|j: int| 0 <= j < i ==> !eq_ignore_ascii_case(#[trigger] tags@[j]@, tag@),
    {
        if str_eq_ignore_ascii_case(tags[i].as_str(), tag) {
            return true;
        }
    }
    false
}

/// Whether a record passes the tag filter and the free-text search.
pub fn matches_filters(server: &ServerRecord, state: &TableState) -> (r: bool)
    ensures
        r == record_matches(*server, state.query@, state.tag@),
{
    let query = to_lowercase(trim_str(state.query.as_str()));
    let needle = chars_of(query.as_str());
    let selected_tag = trim_str(state.tag.as_str());
    let matches_tag = selected_tag.unicode_len() == 0 || any_tag_equal(&server.tags, selected_tag);
    let matches_query = needle.len() == 0 || any_value_contains(&server.tags, &needle)
        || crate::text::lower_contains(server.ip_address.as_str(), &needle)
        || crate::text::lower_contains(server.ports.as_str(), &needle) || any_value_contains(
        &server.custom_values,
        &needle,
    );
    matches_tag && matches_query
}

/// The records that pass the table filters, in order.
pub open spec fn filtered_records(records: Seq<ServerRecord>, query: Seq<char>, tag: Seq<char>) -> Seq<ServerRecord> {
    records.filter(|r: ServerRecord| record_matches(r, query, tag))
}

/// The records shown by the table, in their current order.
pub fn filter_records<'a>(records: &'a [ServerRecord], state: &TableState) -> (r: Vec<
    &'a ServerRecord,
>)
    ensures
        r@.map_values(|x: &ServerRecord| *x) == filtered_records(records@, state.query@, state.tag@),
{
    let ghost pred = |r: ServerRecord| record_matches(r, state.query@, state.tag@);
    let mut out: Vec<&'a ServerRecord> = Vec::new();
    let n = records.len();
    assert(records@.take(0).filter(pred) =~= Seq::<ServerRecord>::empty()) by {
        reveal(Seq::filter);
    }
    for i in 0..n
        invariant
            n == records@.len(),
            pred == (|r: ServerRecord| record_matches(r, state.query@, state.tag@)),
            out@.map_values(|x: &ServerRecord| *x) == records@.take(i as int).filter(pred),
    {
        proof {
            reveal(Seq::filter);
            assert(records@.take(i + 1).drop_last() =~= records@.take(i as int));
        }
        let record = &records[i];
        let ghost before = out@.map_values(|x: &ServerRecord| *x);
        if matches_filters(record, state) {
            out.push(record);
            assert(out@.map_values(|x: &ServerRecord| *x) =~= before.push(*record));
        }
    }
    assert(records@.take(n as int) =~= records@);
    out
}

// ----------------------------------------------------------------------------
// The list of available tags
// ----------------------------------------------------------------------------

/// All tags of all records, record by record.
pub open spec fn all_tags(records: Seq<ServerRecord>) -> Seq<String> {
    records.map_values(|r: ServerRecord| r.tags@).flatten()
}

/// Tag order: by Unicode lowercase form.
pub open spec fn tag_order(a: String, ka: Vec<char>, b: String, kb: Vec<char>) -> Order {
    lex_order(ka@, kb@)
}

/// `sorted` is `all` rearranged by `p`, sorted stably by lowercase form.
pub open spec fn sorted_by_lowercase(sorted: Seq<String>, all: Seq<String>, p: Seq<int>) -> bool {
    &&& sorted.len() == all.len()
    &&& crate::sorting::is_index_permutation(p, all.len() as int)
    &&& forall|k: int| 0 <= k < sorted.len() ==> sorted[k] == all[#[trigger] p[k]]
    &&& forall|k: int|
        0 <= k && k + 1 < sorted.len() ==> {
            &&& lex_order(unicode_lowercase(sorted[k]@), unicode_lowercase(sorted[k + 1]@))
                != Order::Greater
            &&& lex_order(unicode_lowercase(#[trigger] sorted[k]@), unicode_lowercase(sorted[k + 1]@))
                == Order::Equal ==> p[k] < p[k + 1]
        }
}

/// One step of `Vec::dedup_by` with ASCII case folding: a tag equal to the
/// last kept one is dropped.
pub open spec fn dedup_step(kept: Seq<Seq<char>>, t: Seq<char>) -> Seq<Seq<char>> {
    if kept.len() > 0 && eq_ignore_ascii_case(kept.last(), t) {
        kept
    } else {
        kept.push(t)
    }
}

/// Consecutive tags equal ignoring ASCII case collapse to the first.
pub open spec fn dedup_ignoring_case(tags: Seq<Seq<char>>) -> Seq<Seq<char>> {
    tags.fold_left(Seq::<Seq<char>>::empty(), |kept: Seq<Seq<char>>, t: Seq<char>| dedup_step(kept, t))
}

/// Every tag of every record, with its lowercase form.
fn collect_tags(records: &Vec<ServerRecord>) -> (r: (Vec<String>, Vec<Vec<char>>))
    ensures
        r.0@ == all_tags(records@),
        r.1@.len() == r.0@.len(),
        forall|k: int| 0 <= k < r.0@.len() ==> #[trigger] r.1@[k]@ == unicode_lowercase(r.0@[k]@),
{
    let ghost nested = records@.map_values(|r: ServerRecord| r.tags@);
    let mut tags: Vec<String> = Vec::new();
    let mut keys: Vec<Vec<char>> = Vec::new();
    let n = records.len();
    assert(nested.take(0).flatten_alt() =~= Seq::<String>::empty());
    for i in 0..n
        invariant
            n == records@.len(),
            nested == records@.map_values(|r: ServerRecord| r.tags@),
            tags@ == nested.take(i as int).flatten_alt(),
            keys@.len() == tags@.len(),
            forall|k: int| 0 <= k < tags@.len() ==> #[trigger] keys@[k]@ == unicode_lowercase(tags@[k]@),
    {
        let record = &records[i];
        let m = record.tags.len();
        let ghost start = tags@;
        assert(start + record.tags@.take(0) =~= start);
        for j in 0..m
            invariant
                m == record.tags@.len(),
                tags@ == start + record.tags@.take(j as int),
                keys@.len() == tags@.len(),
                forall|k: int| 0 <= k < tags@.len() ==> #[trigger] keys@[k]@ == unicode_lowercase(tags@[k]@),
        {
            let t = record.tags[j].clone();
            let lowered = to_lowercase(record.tags[j].as_str());
            let key = chars_of(lowered.as_str());
            tags.push(t);
            keys.push(key);
            assert(start + record.tags@.take(j + 1) =~= (start + record.tags@.take(j as int)).push(record.tags@[j as int]));
        }
        assert(record.tags@.take(m as int) =~= record.tags@);
        assert(nested.take(i + 1).drop_last() =~= nested.take(i as int));
        assert(nested.take(i + 1).last() == record.tags@);
    }
    assert(nested.take(n as int) =~= nested);
    proof {
        nested.lemma_flatten_and_flatten_alt_are_equivalent();
    }
    (tags, keys)
}

/// Sorts tags stably by their lowercase forms.
fn sort_tags(tags: &mut Vec<String>, keys: &mut Vec<Vec<char>>) -> (p: Ghost<Seq<int>>)
    requires
        old(keys)@.len() == old(tags)@.len(),
        forall|k: int| 0 <= k < old(tags)@.len() ==> #[trigger] old(keys)@[k]@ == unicode_lowercase(old(tags)@[k]@),
    ensures
        sorted_by_lowercase(final(tags)@, old(tags)@, p@),
{
    let ghost order = |a: String, ka: Vec<char>, b: String, kb: Vec<char>| tag_order(a, ka, b, kb);
    assert(antisymmetric(order)) by {
        assert forall|a: String, ka: Vec<char>, b: String, kb: Vec<char>|
            #[trigger] order(a, ka, b, kb) == order(b, kb, a, ka).flipped() by {
            lemma_lex_order_antisymmetric(ka@, kb@);
        }
    }
    let compare = |a: &String, ka: &Vec<char>, b: &String, kb: &Vec<char>| -> (r: Order)
        ensures
            r == lex_order(ka@, kb@),
        { order_chars(ka, kb) };
    let ghost unsorted = tags@;
    let ghost all_keys = keys@;
    let Ghost(p) = sort_paired(tags.as_mut_slice(), keys.as_mut_slice(), compare, Ghost(order));
    proof {
        assert forall|k: int| 0 <= k < tags@.len() implies #[trigger] keys@[k]@ == unicode_lowercase(tags@[k]@) by {
            assert(keys@[k] == all_keys[p[k]]);
            assert(tags@[k] == unsorted[p[k]]);
        }
        assert forall|k: int| 0 <= k && k + 1 < tags@.len() implies {
            &&& lex_order(unicode_lowercase(tags@[k]@), unicode_lowercase(tags@[k + 1]@))
                != Order::Greater
            &&& lex_order(unicode_lowercase(#[trigger] tags@[k]@), unicode_lowercase(tags@[k + 1]@))
                == Order::Equal ==> p[k] < p[k + 1]
        } by {
            assert(crate::sorting::in_order(tags@, keys@, p, order, k, k + 1));
            assert(keys@[k]@ == unicode_lowercase(tags@[k]@));
            assert(keys@[k + 1]@ == unicode_lowercase(tags@[k + 1]@));
        }
    }
    Ghost(p)
}

/// Drops every tag equal, ignoring ASCII case, to the tag kept before it.
fn dedup_tags(tags: &Vec<String>) -> (r: Vec<String>)
    ensures
        views(r@) == dedup_ignoring_case(views(tags@)),
{
    let ghost f = |kept: Seq<Seq<char>>, t: Seq<char>| dedup_step(kept, t);
    let mut out: Vec<String> = Vec::new();
    let total = tags.len();
    assert(views(tags@).take(0) =~= Seq::<Seq<char>>::empty());
    assert(views(out@) =~= Seq::<Seq<char>>::empty());
    for k in 0..total
        invariant
            total == tags@.len(),
            f == (|kept: Seq<Seq<char>>, t: Seq<char>| dedup_step(kept, t)),
            views(out@) == views(tags@).take(k as int).fold_left(Seq::<Seq<char>>::empty(), f),
    {
        proof {
            crate::folds::lemma_fold_take_step(views(tags@), Seq::<Seq<char>>::empty(), f, k as int);
        }
        assert(views(tags@)[k as int] == tags@[k as int]@);
        let keep = if out.len() == 0 {
            true
        } else {
            let last = out.len() - 1;
            assert(views(out@).last() == out@[last as int]@);
            !str_eq_ignore_ascii_case(out[last].as_str(), tags[k].as_str())
        };
        if keep {
            let ghost before = views(out@);
            out.push(tags[k].clone());
            assert(views(out@) =~= before.push(tags@[k as int]@));
        }
    }
    proof {
        crate::folds::lemma_fold_take_all(views(tags@), Seq::<Seq<char>>::empty(), f);
    }
    out
}

/// The tag choices of the table: every tag of every record, sorted stably by
/// lowercase form, with neighbours equal ignoring ASCII case collapsed.
pub fn available_tags(records: &Vec<ServerRecord>) -> (r: Vec<String>)
    ensures
        exists|sorted: Seq<String>, p: Seq<int>|
            {
                &&& sorted_by_lowercase(sorted, all_tags(records@), p)
                &&& views(r@) == dedup_ignoring_case(views(sorted))
            },
{
    let (mut tags, mut keys) = collect_tags(records);
    let Ghost(p) = sort_tags(&mut tags, &mut keys);
    let out = dedup_tags(&tags);
    assert(sorted_by_lowercase(tags@, all_tags(records@), p));
    out
}

/// What the server table shows.
pub struct TableView {
    /// The records that pass the filters, in the order of the sort mode.
    pub rows: Vec<ServerRecord>,
    /// The tag choices, taken from every record before filtering.
    pub tags: Vec<String>,
}

/// Builds the server table: the tag choices of all the records, then the
/// records sorted by the state's mode and kept when they pass its filters.
pub fn table_view(records: Vec<ServerRecord>, ip_keys: Vec<Option<IpKey>>, state: &TableState) -> (r:
    TableView)
    requires
        records@.len() == ip_keys@.len(),
    ensures
        exists|sorted: Seq<String>, p: Seq<int>|
            {
                &&& sorted_by_lowercase(sorted, all_tags(records@), p)
                &&& views(r.tags@) == dedup_ignoring_case(views(sorted))
            },
        exists|s: Seq<ServerRecord>, ks: Seq<Option<IpKey>>, p: Seq<int>|
            {
                &&& rearranged(s, ks, records@, ip_keys@, p)
                &&& neighbours_in_order(s, ks, p, record_order_fn(state.sort_mode))
                &&& r.rows@ == filtered_records(s, state.query@, state.tag@)
            },
{
    let tags = available_tags(&records);
    let mut records = records;
    let mut keys = ip_keys;
    sort_records(records.as_mut_slice(), keys.as_mut_slice(), state.sort_mode);
    let ghost sorted = records@;
    let ghost pred = |x: ServerRecord| record_matches(x, state.query@, state.tag@);
    assert(sorted.take(0).filter(pred) =~= Seq::<ServerRecord>::empty()) by {
        reveal(Seq::filter);
    }
    let mut rows: Vec<ServerRecord> = Vec::new();
    let n = records.len();
    for record in it: records.into_iter()
        invariant
            n == sorted.len(),
            it.seq() == sorted,
            pred == (|x: ServerRecord| record_matches(x, state.query@, state.tag@)),
            rows@ == sorted.take(it.index() as int).filter(pred),
    {
        proof {
            reveal(Seq::filter);
            assert(sorted.take(it.index() + 1).drop_last() =~= sorted.take(it.index() as int));
        }
        if matches_filters(&record, state) {
            rows.push(record);
        }
    }
    assert(sorted.take(n as int) =~= sorted);
    TableView { rows, tags }
}

} // verus!

verus! {

proof fn lemma_dedup_unfold(tags: Seq<Seq<char>>)
    requires
        tags.len() > 0,
    ensures
        dedup_ignoring_case(tags) == dedup_step(dedup_ignoring_case(tags.drop_last()), tags.last()),
{
}

proof fn lemma_dedup_neighbours_differ(tags: Seq<Seq<char>>)
    ensures
        forall|i: int|
            0 <= i && i + 1 < dedup_ignoring_case(tags).len() ==> !eq_ignore_ascii_case(
                #[trigger] dedup_ignoring_case(tags)[i],
                dedup_ignoring_case(tags)[i + 1],
            ),
    decreases tags.len(),
{
    if tags.len() > 0 {
        let prev = tags.drop_last();
        lemma_dedup_neighbours_differ(prev);
        lemma_dedup_unfold(tags);
        let d0 = dedup_ignoring_case(prev);
        let d = dedup_ignoring_case(tags);
        assert forall|i: int| 0 <= i && i + 1 < d.len() implies !eq_ignore_ascii_case(
            #[trigger] d[i],
            d[i + 1],
        ) by {
            if i + 1 < d0.len() {
                assert(d[i] == d0[i] && d[i + 1] == d0[i + 1]);
            }
        }
    }
}

proof fn lemma_dedup_keeps_input(tags: Seq<Seq<char>>)
    ensures
        forall|j: int|
            0 <= j < dedup_ignoring_case(tags).len() ==> tags.contains(
                #[trigger] dedup_ignoring_case(tags)[j],
            ),
    decreases tags.len(),
{
    if tags.len() > 0 {
        let prev = tags.drop_last();
        lemma_dedup_keeps_input(prev);
        lemma_dedup_unfold(tags);
        let d0 = dedup_ignoring_case(prev);
        let d = dedup_ignoring_case(tags);
        assert forall|j: int| 0 <= j < d.len() implies tags.contains(#[trigger] d[j]) by {
            if j < d0.len() {
                assert(d[j] == d0[j]);
                assert(prev.contains(d0[j]));
                let k = choose|k: int| 0 <= k < prev.len() && prev[k] == d0[j];
                assert(tags[k] == prev[k]);
            } else {
                assert(tags[tags.len() - 1] == tags.last());
            }
        }
    }
}

proof fn lemma_dedup_covers_input(tags: Seq<Seq<char>>)
    ensures
        forall|i: int|
            0 <= i < tags.len() ==> exists|j: int|
                0 <= j < dedup_ignoring_case(tags).len() && eq_ignore_ascii_case(
                    #[trigger] tags[i],
                    #[trigger] dedup_ignoring_case(tags)[j],
                ),
    decreases tags.len(),
{
    if tags.len() > 0 {
        let prev = tags.drop_last();
        lemma_dedup_covers_input(prev);
        lemma_dedup_unfold(tags);
        let d0 = dedup_ignoring_case(prev);
        let d = dedup_ignoring_case(tags);
        let t = tags.last();
        assert forall|i: int| 0 <= i < tags.len() implies exists|j: int|
            0 <= j < d.len() && eq_ignore_ascii_case(#[trigger] tags[i], #[trigger] d[j]) by {
            if i < prev.len() {
                assert(tags[i] == prev[i]);
                let j = choose|j: int|
                    0 <= j < d0.len() && eq_ignore_ascii_case(#[trigger] prev[i], #[trigger] d0[j]);
                assert(d[j] == d0[j]);
            } else if d0.len() > 0 && eq_ignore_ascii_case(d0.last(), t) {
                assert(d[d0.len() - 1] == d0.last());
            } else {
                assert(d[d.len() - 1] == t);
            }
        }
    }
}

/// After collapsing, no two neighbouring tags are equal ignoring ASCII case;
/// every kept tag is one of the input tags, and every input tag equals some
/// kept tag ignoring ASCII case.
pub proof fn lemma_dedup_ignoring_case(tags: Seq<Seq<char>>)
    ensures
        forall|i: int|
            0 <= i && i + 1 < dedup_ignoring_case(tags).len() ==> !eq_ignore_ascii_case(
                #[trigger] dedup_ignoring_case(tags)[i],
                dedup_ignoring_case(tags)[i + 1],
            ),
        forall|j: int|
            0 <= j < dedup_ignoring_case(tags).len() ==> tags.contains(
                #[trigger] dedup_ignoring_case(tags)[j],
            ),
        forall|i: int|
            0 <= i < tags.len() ==> exists|j: int|
                0 <= j < dedup_ignoring_case(tags).len() && eq_ignore_ascii_case(
                    #[trigger] tags[i],
                    #[trigger] dedup_ignoring_case(tags)[j],
                ),
{
    lemma_dedup_neighbours_differ(tags);
    lemma_dedup_keeps_input(tags);
    lemma_dedup_covers_input(tags);
    let d = dedup_ignoring_case(tags);
    assert forall|i: int| 0 <= i < tags.len() implies exists|j: int|
        0 <= j < d.len() && eq_ignore_ascii_case(#[trigger] tags[i], #[trigger] d[j]) by {
        let j = choose|j: int| 0 <= j < d.len() && eq_ignore_ascii_case(#[trigger] tags[i], #[trigger] d[j]);
        assert(0 <= j < d.len() && eq_ignore_ascii_case(tags[i], d[j]));
    }
}

} // verus!

verus! {

// ----------------------------------------------------------------------------
// Laws of the record order
// ----------------------------------------------------------------------------

/// Three outcomes for pairs (a, b), (b, c), (a, c) that a total preorder can
/// give.
pub open spec fn consistent(ab: Order, bc: Order, ac: Order) -> bool {
    &&& (ab != Order::Greater && bc != Order::Greater ==> ac != Order::Greater)
    &&& (ab == Order::Less && bc != Order::Greater ==> ac == Order::Less)
    &&& (ab != Order::Greater && bc == Order::Less ==> ac == Order::Less)
    &&& (ab == Order::Equal && bc == Order::Equal ==> ac == Order::Equal)
}

proof fn lemma_lex_consistent(a: Seq<char>, b: Seq<char>, c: Seq<char>)
    ensures
        consistent(lex_order(a, b), lex_order(b, c), lex_order(a, c)),
{
    lemma_lex_order_antisymmetric(a, b);
    lemma_lex_order_antisymmetric(b, c);
    lemma_lex_order_antisymmetric(a, c);
    lemma_lex_order_equal(a, b);
    lemma_lex_order_equal(b, c);
    lemma_lex_order_equal(a, c);
    if lex_order(a, b) != Order::Greater && lex_order(b, c) != Order::Greater {
        lemma_lex_order_transitive(a, b, c);
    }
    if lex_order(a, c) == Order::Equal {
        lemma_lex_order_antisymmetric(c, b);
        lemma_lex_order_antisymmetric(b, a);
    }
}

proof fn lemma_text_consistent(a: Seq<char>, b: Seq<char>, c: Seq<char>)
    ensures
        consistent(text_order(a, b), text_order(b, c), text_order(a, c)),
{
    lemma_lex_consistent(ascii_lower_seq(a), ascii_lower_seq(b), ascii_lower_seq(c));
}

/// A sort mode whose order is transitive on these keys: one that ignores
/// addresses, or address keys that are all set or all missing.
pub open spec fn mode_is_total(keys: Seq<Option<IpKey>>, mode: usize) -> bool {
    mode != 2 && mode != 3 || (forall|i: int| 0 <= i < keys.len() ==> (#[trigger] keys[i]) is Some)
        || (forall|i: int| 0 <= i < keys.len() ==> (#[trigger] keys[i]) is None)
}

proof fn lemma_mode_order_consistent(
    a: ServerRecord,
    ka: Option<IpKey>,
    b: ServerRecord,
    kb: Option<IpKey>,
    c: ServerRecord,
    kc: Option<IpKey>,
    mode: usize,
)
    requires
        mode != 2 && mode != 3 || (ka is Some && kb is Some && kc is Some) || (ka is None
            && kb is None && kc is None),
    ensures
        consistent(
            mode_order(a, ka, b, kb, mode).0,
            mode_order(b, kb, c, kc, mode).0,
            mode_order(a, ka, c, kc, mode).0,
        ),
        mode_order(a, ka, b, kb, mode).1 == mode_order(a, ka, c, kc, mode).1,
        mode_order(b, kb, c, kc, mode).1 == mode_order(a, ka, c, kc, mode).1,
        mode_order(a, ka, b, kb, mode).0 == mode_order(b, kb, a, ka, mode).0.flipped(),
        mode_order(b, kb, c, kc, mode).0 == mode_order(c, kc, b, kb, mode).0.flipped(),
        mode_order(a, ka, c, kc, mode).0 == mode_order(c, kc, a, ka, mode).0.flipped(),
{
    let column = (mode - 8) / 2;
    lemma_text_consistent(tags_text(a), tags_text(b), tags_text(c));
    lemma_text_consistent(a.ip_address@, b.ip_address@, c.ip_address@);
    lemma_text_consistent(custom_text(a, column), custom_text(b, column), custom_text(c, column));
    lemma_text_order_antisymmetric(tags_text(a), tags_text(b));
    lemma_text_order_antisymmetric(tags_text(b), tags_text(c));
    lemma_text_order_antisymmetric(tags_text(a), tags_text(c));
    lemma_text_order_antisymmetric(a.ip_address@, b.ip_address@);
    lemma_text_order_antisymmetric(b.ip_address@, c.ip_address@);
    lemma_text_order_antisymmetric(a.ip_address@, c.ip_address@);
    lemma_text_order_antisymmetric(custom_text(a, column), custom_text(b, column));
    lemma_text_order_antisymmetric(custom_text(b, column), custom_text(c, column));
    lemma_text_order_antisymmetric(custom_text(a, column), custom_text(c, column));
}

/// The record order of a mode is transitive on records whose address keys
/// are all set or all missing (or in a mode that ignores addresses).
pub proof fn lemma_record_order_transitive(
    a: ServerRecord,
    ka: Option<IpKey>,
    b: ServerRecord,
    kb: Option<IpKey>,
    c: ServerRecord,
    kc: Option<IpKey>,
    mode: usize,
)
    requires
        mode != 2 && mode != 3 || (ka is Some && kb is Some && kc is Some) || (ka is None
            && kb is None && kc is None),
        record_order(a, ka, b, kb, mode) != Order::Greater,
        record_order(b, kb, c, kc, mode) != Order::Greater,
    ensures
        record_order(a, ka, c, kc, mode) != Order::Greater,
{
    lemma_mode_order_consistent(a, ka, b, kb, c, kc, mode);
    lemma_mode_order_consistent(c, kc, b, kb, a, ka, mode);
    let asc = mode_order(a, ka, c, kc, mode).1;
    let ab = mode_order(a, ka, b, kb, mode).0;
    let bc = mode_order(b, kb, c, kc, mode).0;
    let ac = mode_order(a, ka, c, kc, mode).0;
    if !asc {
        assert(consistent(ab.flipped(), bc.flipped(), ac.flipped())) by {
            assert(mode_order(c, kc, b, kb, mode).0 == bc.flipped());
            assert(mode_order(b, kb, a, ka, mode).0 == ab.flipped());
            assert(mode_order(c, kc, a, ka, mode).0 == ac.flipped());
        }
    }
}

/// The record order of a mode is transitive on these records.
pub open spec fn order_transitive_on(records: Seq<ServerRecord>, keys: Seq<Option<IpKey>>, mode: usize) -> bool {
    forall|i: int, j: int, k: int|
        #![trigger record_order(records[i], keys[i], records[j], keys[j], mode), record_order(records[j], keys[j], records[k], keys[k], mode)]
        0 <= i < records.len() && 0 <= j < records.len() && 0 <= k < records.len()
            && record_order(records[i], keys[i], records[j], keys[j], mode) != Order::Greater
            && record_order(records[j], keys[j], records[k], keys[k], mode) != Order::Greater
            ==> record_order(records[i], keys[i], records[k], keys[k], mode) != Order::Greater
}

/// A mode that ignores addresses, or address keys all set or all missing,
/// make the record order transitive.
pub proof fn lemma_total_mode_transitive(records: Seq<ServerRecord>, keys: Seq<Option<IpKey>>, mode: usize)
    requires
        records.len() == keys.len(),
        mode_is_total(keys, mode),
    ensures
        order_transitive_on(records, keys, mode),
{
    assert forall|i: int, j: int, k: int|
        0 <= i < records.len() && 0 <= j < records.len() && 0 <= k < records.len()
            && #[trigger] record_order(records[i], keys[i], records[j], keys[j], mode) != Order::Greater
            && #[trigger] record_order(records[j], keys[j], records[k], keys[k], mode) != Order::Greater
        implies record_order(records[i], keys[i], records[k], keys[k], mode) != Order::Greater by {
        lemma_record_order_transitive(records[i], keys[i], records[j], keys[j], records[k], keys[k], mode);
    }
}

/// Neighbours in order make every pair in order, on records where the
/// order is transitive.
pub proof fn lemma_sorted_records_ordered(
    records: Seq<ServerRecord>,
    keys: Seq<Option<IpKey>>,
    p: Seq<int>,
    mode: usize,
)
    requires
        records.len() == keys.len(),
        neighbours_in_order(records, keys, p, record_order_fn(mode)),
        order_transitive_on(records, keys, mode),
    ensures
        forall|i: int, j: int|
            0 <= i < j < records.len() ==> record_order(
                #[trigger] records[i],
                keys[i],
                #[trigger] records[j],
                keys[j],
                mode,
            ) != Order::Greater,
{
    assert forall|i: int, j: int| 0 <= i < j < records.len() implies record_order(
        #[trigger] records[i],
        keys[i],
        #[trigger] records[j],
        keys[j],
        mode,
    ) != Order::Greater by {
        lemma_sorted_span(records, keys, p, mode, i, j);
    }
}

proof fn lemma_sorted_span(
    records: Seq<ServerRecord>,
    keys: Seq<Option<IpKey>>,
    p: Seq<int>,
    mode: usize,
    i: int,
    j: int,
)
    requires
        records.len() == keys.len(),
        neighbours_in_order(records, keys, p, record_order_fn(mode)),
        order_transitive_on(records, keys, mode),
        0 <= i < j < records.len(),
    ensures
        record_order(records[i], keys[i], records[j], keys[j], mode) != Order::Greater,
    decreases j - i,
{
    let k = j - 1;
    assert(crate::sorting::in_order(records, keys, p, record_order_fn(mode), k, k + 1));
    if i < k {
        lemma_sorted_span(records, keys, p, mode, i, k);
        assert(record_order(records[i], keys[i], records[k], keys[k], mode) != Order::Greater);
        assert(record_order(records[k], keys[k], records[j], keys[j], mode) != Order::Greater);
    }
}

} // verus!

verus! {

// ----------------------------------------------------------------------------
// Laws of the text order, the sort modes and the table filters
// ----------------------------------------------------------------------------

/// Two texts that agree up to position `i`, where the first has the smaller
/// character, are in order.
pub proof fn lemma_lex_order_first_difference(a: Seq<char>, b: Seq<char>, i: int)
    requires
        0 <= i < a.len(),
        i < b.len(),
        a.take(i) == b.take(i),
        a[i] < b[i],
    ensures
        lex_order(a, b) == Order::Less,
    decreases i,
{
    if i > 0 {
        assert(a[0] == a.take(i)[0]);
        assert(b[0] == b.take(i)[0]);
        assert(a.drop_first().take(i - 1) =~= a.take(i).drop_first());
        assert(b.drop_first().take(i - 1) =~= b.take(i).drop_first());
        lemma_lex_order_first_difference(a.drop_first(), b.drop_first(), i - 1);
    }
}

/// A text comes before every longer text that starts with it.
pub proof fn lemma_lex_order_prefix(a: Seq<char>, b: Seq<char>)
    requires
        a.len() < b.len(),
        b.take(a.len() as int) == a,
    ensures
        lex_order(a, b) == Order::Less,
    decreases a.len(),
{
    if a.len() > 0 {
        assert(a[0] == b.take(a.len() as int)[0]);
        assert(b.drop_first().take(a.len() - 1) =~= b.take(a.len() as int).drop_first());
        lemma_lex_order_prefix(a.drop_first(), b.drop_first());
    }
}

/// Records comparing equal in any sort mode have the same id: ties are
/// broken by id.
pub proof fn lemma_record_order_ties_by_id(
    a: ServerRecord,
    ka: Option<IpKey>,
    b: ServerRecord,
    kb: Option<IpKey>,
    mode: usize,
)
    ensures
        record_order(a, ka, b, kb, mode) == Order::Equal ==> a.id == b.id,
        a.id < b.id ==> record_order(a, ka, b, kb, mode) != Order::Equal,
{
}

/// Mode 0 orders records by their tags joined with `", "`, ASCII case
/// ignored, and mode 1 by the same text in reverse; records with the same
/// tag text go by ascending id in both.
pub proof fn lemma_tag_modes(a: ServerRecord, ka: Option<IpKey>, b: ServerRecord, kb: Option<IpKey>)
    ensures
        ({
            let o = lex_order(
                ascii_lower_seq(join(views(a.tags@), seq![',', ' '])),
                ascii_lower_seq(join(views(b.tags@), seq![',', ' '])),
            );
            &&& o != Order::Equal ==> record_order(a, ka, b, kb, 0) == o
            &&& o != Order::Equal ==> record_order(a, ka, b, kb, 1) == o.flipped()
            &&& o == Order::Equal ==> record_order(a, ka, b, kb, 0) == int_order(a.id as int, b.id as int)
            &&& o == Order::Equal ==> record_order(a, ka, b, kb, 1) == int_order(a.id as int, b.id as int)
        }),
{
    assert(comma_space() =~= seq![',', ' ']);
}

/// Modes 2 and 3 order records with parsed addresses by family, then by
/// value (2 ascending, 3 descending); other addresses compare as text,
/// ASCII case ignored.
pub proof fn lemma_address_modes(a: ServerRecord, ka: Option<IpKey>, b: ServerRecord, kb: Option<IpKey>)
    ensures
        ka is Some && kb is Some && (ka->0.family < kb->0.family || (ka->0.family == kb->0.family
            && ka->0.value < kb->0.value)) ==> record_order(a, ka, b, kb, 2) == Order::Less
            && record_order(a, ka, b, kb, 3) == Order::Greater,
        ka is Some && kb is Some && ka->0 == kb->0 ==> record_order(a, ka, b, kb, 2) == int_order(
            a.id as int,
            b.id as int,
        ) && record_order(a, ka, b, kb, 3) == int_order(a.id as int, b.id as int),
        !(ka is Some && kb is Some) ==> ({
            let o = lex_order(ascii_lower_seq(a.ip_address@), ascii_lower_seq(b.ip_address@));
            o != Order::Equal ==> record_order(a, ka, b, kb, 2) == o && record_order(a, ka, b, kb, 3)
                == o.flipped()
        }),
{
}

/// Modes 4 and 5 order records by their first port, ascending and
/// descending.
pub proof fn lemma_port_modes(a: ServerRecord, ka: Option<IpKey>, b: ServerRecord, kb: Option<IpKey>)
    ensures
        first_port_of(a.ports@) < first_port_of(b.ports@) ==> record_order(a, ka, b, kb, 4)
            == Order::Less && record_order(a, ka, b, kb, 5) == Order::Greater,
        first_port_of(a.ports@) == first_port_of(b.ports@) ==> record_order(a, ka, b, kb, 4)
            == int_order(a.id as int, b.id as int) && record_order(a, ka, b, kb, 5) == int_order(
            a.id as int,
            b.id as int,
        ),
{
}

/// Mode 6 puts the newest record (largest id) first, mode 7 the oldest.
pub proof fn lemma_id_modes(a: ServerRecord, ka: Option<IpKey>, b: ServerRecord, kb: Option<IpKey>)
    ensures
        a.id < b.id ==> record_order(a, ka, b, kb, 7) == Order::Less && record_order(a, ka, b, kb, 6)
            == Order::Greater,
        a.id == b.id ==> record_order(a, ka, b, kb, 7) == Order::Equal && record_order(a, ka, b, kb, 6)
            == Order::Equal,
{
}

/// Modes `8 + 2c` and `9 + 2c` order records by custom column `c`,
/// ascending and descending, ASCII case ignored; a record without that
/// column counts as empty there.
pub proof fn lemma_custom_modes(
    a: ServerRecord,
    ka: Option<IpKey>,
    b: ServerRecord,
    kb: Option<IpKey>,
    c: usize,
)
    requires
        9 + 2 * c <= usize::MAX,
    ensures
        ({
            let va = if c < a.custom_values@.len() { a.custom_values@[c as int]@ } else { Seq::<char>::empty() };
            let vb = if c < b.custom_values@.len() { b.custom_values@[c as int]@ } else { Seq::<char>::empty() };
            let o = lex_order(ascii_lower_seq(va), ascii_lower_seq(vb));
            o != Order::Equal ==> record_order(a, ka, b, kb, (8 + 2 * c) as usize) == o && record_order(
                a,
                ka,
                b,
                kb,
                (9 + 2 * c) as usize,
            ) == o.flipped()
        }),
{
    let m0 = (8 + 2 * c) as usize;
    let m1 = (9 + 2 * c) as usize;
    assert((m0 - 8) / 2 == c as int && (m0 - 8) % 2 == 0) by (nonlinear_arith)
        requires
            m0 == 8 + 2 * c,
    ;
    assert((m1 - 8) / 2 == c as int && (m1 - 8) % 2 == 1) by (nonlinear_arith)
        requires
            m1 == 9 + 2 * c,
    ;
}

/// With no tag selected, a record whose address, ports, a tag or a custom
/// value contains the trimmed, lowercased query (each lowercased) is shown,
/// and so is every record when the query is blank.
pub proof fn lemma_filter_shows_matches(server: ServerRecord, query: Seq<char>, tag: Seq<char>)
    requires
        trim(tag).len() == 0,
    ensures
        ({
            let q = unicode_lowercase(trim(query));
            &&& q.len() == 0 ==> record_matches(server, query, tag)
            &&& contains_seq(unicode_lowercase(server.ip_address@), q) ==> record_matches(server, query, tag)
            &&& contains_seq(unicode_lowercase(server.ports@), q) ==> record_matches(server, query, tag)
            &&& forall|i: int|
                0 <= i < server.tags@.len() && contains_seq(unicode_lowercase(#[trigger] server.tags@[i]@), q)
                    ==> record_matches(server, query, tag)
            &&& forall|i: int|
                0 <= i < server.custom_values@.len() && contains_seq(
                    unicode_lowercase(#[trigger] server.custom_values@[i]@),
                    q,
                ) ==> record_matches(server, query, tag)
        }),
{
}

/// A shown record carries the selected tag (ignoring ASCII case and the
/// surrounding whitespace of the selection) and, for a non-blank query,
/// contains it in its address, ports, a tag or a custom value.
pub proof fn lemma_filter_hides_others(server: ServerRecord, query: Seq<char>, tag: Seq<char>)
    ensures
        record_matches(server, query, tag) ==> trim(tag).len() == 0 || exists|i: int|
            0 <= i < server.tags@.len() && eq_ignore_ascii_case(#[trigger] server.tags@[i]@, trim(tag)),
        record_matches(server, query, tag) && unicode_lowercase(trim(query)).len() > 0 ==> {
            let q = unicode_lowercase(trim(query));
            ||| contains_seq(unicode_lowercase(server.ip_address@), q)
            ||| contains_seq(unicode_lowercase(server.ports@), q)
            ||| exists|i: int|
                0 <= i < server.tags@.len() && contains_seq(unicode_lowercase(#[trigger] server.tags@[i]@), q)
            ||| exists|i: int|
                0 <= i < server.custom_values@.len() && contains_seq(
                    unicode_lowercase(#[trigger] server.custom_values@[i]@),
                    q,
                )
        },
{
}

/// A selected tag equal to one of a record's tags (ASCII case ignored)
/// shows the record under a blank query.
pub proof fn lemma_filter_selected_tag(server: ServerRecord, query: Seq<char>, tag: Seq<char>, i: int)
    requires
        0 <= i < server.tags@.len(),
        eq_ignore_ascii_case(server.tags@[i]@, trim(tag)),
        unicode_lowercase(trim(query)).len() == 0,
    ensures
        record_matches(server, query, tag),
{
}

} // verus!

verus! {

proof fn lemma_split_keeps_closed_pieces(s: Seq<char>, u: Seq<char>, sep: spec_fn(char) -> bool)
    ensures
        split_chars(s + u, sep).len() >= split_chars(s, sep).len(),
        forall|i: int|
            0 <= i < split_chars(s, sep).len() - 1 ==> split_chars(s + u, sep)[i] == #[trigger] split_chars(
                s,
                sep,
            )[i],
    decreases u.len(),
{
    if u.len() == 0 {
        assert(s + u =~= s);
    } else {
        let v = u.drop_last();
        lemma_split_keeps_closed_pieces(s, v, sep);
        crate::text::lemma_split_chars_nonempty(s + v, sep);
        assert((s + u).drop_last() =~= s + v);
        assert((s + u).last() == u.last());
    }
}

/// The port a record is sorted by comes from the text before the first
/// comma alone: trimmed and read as a number from 0 to 65535, or 65535
/// when it is not one.
pub proof fn lemma_first_port_reads_first_piece(t: Seq<char>, rest: Seq<char>)
    requires
        forall|i: int| 0 <= i < t.len() ==> t[i] != ',',
    ensures
        first_port_of(t + seq![','] + rest) == first_port_of(t),
        first_port_of(t) == (match parse_u16(trim(t)) {
            Some(p) => p,
            None => 65535u16,
        }),
{
    let sep = is_one_of(',', ',');
    assert(crate::text::free_of(t, sep));
    crate::text::lemma_split_append_plain(Seq::<char>::empty(), t, sep);
    assert(Seq::<char>::empty() + t =~= t);
    assert(split_chars(Seq::<char>::empty(), sep) =~= seq![Seq::<char>::empty()]);
    assert(split_chars(t, sep) =~= seq![t]);
    crate::text::lemma_split_push_separator(t, ',', sep);
    assert(t + seq![','] =~= t.push(','));
    lemma_split_keeps_closed_pieces(t + seq![','], rest, sep);
    assert(split_chars(t + seq![','], sep)[0] == t);
}

} // verus!
