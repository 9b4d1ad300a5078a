//! Layout of the partitioned Parquet lake:
//! `site_no=.../param_cd=.../service=.../year=.../part-*.parquet`, its file
//! schema, and how a batch of readings splits into partition files.
use vstd::prelude::*;
use vstd::string::*;
use vstd::utf8::encode_utf8;

use crate::cli::Service;
use crate::text::{
    byte_cut_ok, byte_prefix, byte_prefix_of, bytes_less, bytes_lt, lemma_bytes_lt_irreflexive,
    lemma_bytes_lt_total, lemma_bytes_lt_transitive, lemma_text_lt_irreflexive,
    lemma_text_lt_total, lemma_text_lt_transitive, owned, text_equal, text_less, text_lt,
};

verus! {

/// The lake's four Hive partition-path levels, by exact directory-key name.
/// A listing table over the lake must declare exactly these, in this order,
/// as its partition columns.
pub const PARTITION_COLUMNS: [&'static str; 4] = ["site_no", "param_cd", "service", "year"];

/// Directory name of a service's partition level.
pub open spec fn service_dir(service: Service) -> Seq<char> {
    match service {
        Service::Daily => "daily"@,
        Service::Continuous => "continuous"@,
    }
}

/// Directory name of a service's partition level.
pub fn service_dir_name(service: Service) -> (r: &'static str)
    ensures
        r@ == service_dir(service),
{
    match service {
        Service::Daily => "daily",
        Service::Continuous => "continuous",
    }
}

/// One `key=value` path segment.
pub open spec fn segment(key: Seq<char>, value: Seq<char>) -> Seq<char> {
    key + "="@ + value
}

fn make_segment(key: &str, value: &str) -> (r: String)
    ensures
        r@ == segment(key@, value@),
{
    let mut r = owned(key);
    r.append("=");
    r.append(value);
    r
}

pub open spec fn string_views(v: Seq<String>) -> Seq<Seq<char>> {
    v.map_values(|s: String| s@)
}

/// The partition directory of one site/param/service, as path segments
/// below the lake root, e.g. `site_no=USGS-01646500`, `param_cd=00060`,
/// `service=daily`.
pub fn partition_dir(site_no: &str, param_cd: &str, service: Service) -> (r: Vec<String>)
    ensures
        string_views(r@) == seq![
            segment(PARTITION_COLUMNS@[0]@, site_no@),
            segment(PARTITION_COLUMNS@[1]@, param_cd@),
            segment(PARTITION_COLUMNS@[2]@, service_dir(service)),
        ],
{
    let mut r: Vec<String> = Vec::new();
    r.push(make_segment(PARTITION_COLUMNS[0], site_no));
    r.push(make_segment(PARTITION_COLUMNS[1], param_cd));
    r.push(make_segment(PARTITION_COLUMNS[2], service_dir_name(service)));
    assert(string_views(r@) =~= seq![
        segment(PARTITION_COLUMNS@[0]@, site_no@),
        segment(PARTITION_COLUMNS@[1]@, param_cd@),
        segment(PARTITION_COLUMNS@[2]@, service_dir(service)),
    ]);
    r
}

/// The year segment below a partition directory, e.g. `year=2024`.
pub fn year_dir(year: &str) -> (r: String)
    ensures
        r@ == segment(PARTITION_COLUMNS@[3]@, year@),
{
    make_segment(PARTITION_COLUMNS[3], year)
}

/// The year of an ISO 8601 timestamp: its first 4 bytes (all of it when
/// shorter).
pub fn year_of(datetime: &str) -> (r: &str)
    requires
        byte_cut_ok(datetime@, 4),
    ensures
        r.spec_bytes() == byte_prefix(datetime@, 4),
{
    byte_prefix_of(datetime, 4)
}

/// Every level of a file's directory below the lake root is
/// `<name>=<value>`, with `<name>` the declared partition column of that
/// level, in order.
pub proof fn partition_path_matches_columns(
    dir: Seq<Seq<char>>,
    year_segment: Seq<char>,
    site_no: Seq<char>,
    param_cd: Seq<char>,
    service: Service,
    year: Seq<char>,
)
    requires
        dir == seq![
            segment(PARTITION_COLUMNS@[0]@, site_no),
            segment(PARTITION_COLUMNS@[1]@, param_cd),
            segment(PARTITION_COLUMNS@[2]@, service_dir(service)),
        ],
        year_segment == segment(PARTITION_COLUMNS@[3]@, year),
    ensures
        ({
            let path = dir.push(year_segment);
            let values = seq![site_no, param_cd, service_dir(service), year];
            &&& path.len() == PARTITION_COLUMNS@.len()
            &&& forall|i: int| 0 <= i < path.len() ==> #[trigger] path[i] == segment(PARTITION_COLUMNS@[i]@, values[i])
        }),
{
    let path = dir.push(year_segment);
    let values = seq![site_no, param_cd, service_dir(service), year];
    assert forall|i: int| 0 <= i < path.len() implies #[trigger] path[i] == segment(PARTITION_COLUMNS@[i]@, values[i]) by {
        if i == 3 {
        } else {
            assert(path[i] == dir[i]);
        }
    }
}

/// Arrow type of a lake column.
#[derive(Copy, Clone, Debug, PartialEq, Eq, Structural)]
pub enum ColumnType {
    Utf8,
    Float64,
}

/// One column of the lake's Parquet schema.
#[derive(Debug, Clone)]
pub struct Column {
    pub name: String,
    pub data_type: ColumnType,
    pub nullable: bool,
}

pub struct ColumnView {
    pub name: Seq<char>,
    pub data_type: ColumnType,
    pub nullable: bool,
}

impl View for Column {
    type V = ColumnView;

    open spec fn view(&self) -> ColumnView {
        ColumnView { name: self.name@, data_type: self.data_type, nullable: self.nullable }
    }
}

pub open spec fn column_views(cols: Seq<Column>) -> Seq<ColumnView> {
    cols.map_values(|c: Column| c@)
}

pub open spec fn col(name: Seq<char>, data_type: ColumnType, nullable: bool) -> ColumnView {
    ColumnView { name, data_type, nullable }
}

/// The physical columns every lake file holds, in file order.
pub open spec fn lake_columns() -> Seq<ColumnView> {
    seq![
        col("site_no"@, ColumnType::Utf8, false),
        col("param_cd"@, ColumnType::Utf8, false),
        col("datetime"@, ColumnType::Utf8, false),
        col("value"@, ColumnType::Float64, false),
        col("qualifiers"@, ColumnType::Utf8, true),
        col("latitude"@, ColumnType::Float64, false),
        col("longitude"@, ColumnType::Float64, false),
        col("approval_status"@, ColumnType::Utf8, false),
        col("last_modified"@, ColumnType::Utf8, false),
    ]
}

fn column(name: &str, data_type: ColumnType, nullable: bool) -> (c: Column)
    ensures
        c@ == col(name@, data_type, nullable),
{
    Column { name: owned(name), data_type, nullable }
}

/// The Parquet schema of the files the fetcher writes.
pub fn schema() -> (r: Vec<Column>)
    ensures
        column_views(r@) == lake_columns(),
{
    let mut r: Vec<Column> = Vec::new();
    r.push(column("site_no", ColumnType::Utf8, false));
    r.push(column("param_cd", ColumnType::Utf8, false));
    r.push(column("datetime", ColumnType::Utf8, false));
    r.push(column("value", ColumnType::Float64, false));
    r.push(column("qualifiers", ColumnType::Utf8, true));
    r.push(column("latitude", ColumnType::Float64, false));
    r.push(column("longitude", ColumnType::Float64, false));
    r.push(column("approval_status", ColumnType::Utf8, false));
    r.push(column("last_modified", ColumnType::Utf8, false));
    assert(column_views(r@) =~= lake_columns());
    r
}

/// Columns a listing table must not declare as file columns because they
/// are also partition-path levels.
pub open spec fn omitted_from_listing(name: Seq<char>) -> bool {
    name == "site_no"@ || name == "param_cd"@
}

/// `cols` without the omitted columns, in order.
pub open spec fn listing_columns(cols: Seq<ColumnView>) -> Seq<ColumnView>
    decreases cols.len(),
{
    if cols.len() == 0 {
        cols
    } else if omitted_from_listing(cols.last().name) {
        listing_columns(cols.drop_last())
    } else {
        listing_columns(cols.drop_last()).push(cols.last())
    }
}

/// The file schema for a listing table over the lake: the lake schema minus
/// `site_no` and `param_cd`, which the table takes from the partition path
/// instead (the two column sets must be disjoint).
pub fn file_schema_for_listing() -> (r: Vec<Column>)
    ensures
        column_views(r@) == listing_columns(lake_columns()),
{
    let all = schema();
    let ghost cols = column_views(all@);
    let mut r: Vec<Column> = Vec::new();
    let mut i: usize = 0;
    assert(cols.take(0) =~= Seq::<ColumnView>::empty());
    while i < all.len()
        invariant
            i <= all@.len(),
            cols == column_views(all@),
            column_views(r@) == listing_columns(cols.take(i as int)),
        decreases all@.len() - i,
    {
        let c = &all[i];
        assert(cols.take(i + 1).drop_last() =~= cols.take(i as int));
        assert(cols.take(i + 1).last() == c@);
        if !(text_equal(c.name.as_str(), "site_no") || text_equal(c.name.as_str(), "param_cd")) {
            let ghost before = column_views(r@);
            r.push(column(c.name.as_str(), c.data_type, c.nullable));
            assert(column_views(r@) =~= before.push(c@));
        }
        i = i + 1;
    }
    assert(cols.take(all@.len() as int) =~= cols);
    r
}

/// The listing file schema and the partition columns share no name, and
/// every lake column other than `site_no` and `param_cd` is in the file
/// schema.
#[verifier::spinoff_prover]
pub proof fn listing_schema_disjoint_from_partitions()
    ensures
        forall|i: int, j: int|
            0 <= i < listing_columns(lake_columns()).len() && 0 <= j < 4 ==> #[trigger] listing_columns(lake_columns())[i].name
                != #[trigger] PARTITION_COLUMNS@[j]@,
        listing_columns(lake_columns()) == lake_columns().skip(2),
{
    reveal_strlit("site_no");
    reveal_strlit("param_cd");
    reveal_strlit("service");
    reveal_strlit("year");
    reveal_strlit("datetime");
    reveal_strlit("value");
    reveal_strlit("qualifiers");
    reveal_strlit("latitude");
    reveal_strlit("longitude");
    reveal_strlit("approval_status");
    reveal_strlit("last_modified");
    let all = lake_columns();
    lemma_listed_names_kept(all);
    assert(PARTITION_COLUMNS@[0]@ == "site_no"@);
    assert(PARTITION_COLUMNS@[1]@ == "param_cd"@);
    assert(PARTITION_COLUMNS@[2]@ == "service"@);
    assert(PARTITION_COLUMNS@[3]@ == "year"@);
    assert("datetime"@[0] != "param_cd"@[0]);
    assert("latitude"@[0] != "param_cd"@[0]);
    assert forall|k: int| 2 <= k <= 9 implies #[trigger] listing_columns(all.take(k)) =~= all.subrange(2, k) by {
        lemma_listing_tail(all, k);
    }
    assert(all.take(9) =~= all);
    let ls = listing_columns(all);
    assert(ls =~= all.skip(2));
    assert forall|i: int, j: int| 0 <= i < ls.len() && 0 <= j < 4 implies #[trigger] ls[i].name
        != #[trigger] PARTITION_COLUMNS@[j]@ by {
        assert(ls[i] == all[i + 2]);
        let a = ls[i].name;
        let b = PARTITION_COLUMNS@[j]@;
        assert(b.len() == 7 || b.len() == 8 || b.len() == 4);
        assert(b.len() == 8 ==> b[0] == 'p');
        assert(a.len() == 5 || a.len() == 8 || a.len() == 9 || a.len() == 10 || a.len() == 13 || a.len() == 15);
        assert(a.len() == 8 ==> a[0] == 'd' || a[0] == 'l');
        lemma_texts_differ(a, b);
    }
}

/// Texts of different lengths, or with different first characters, differ.
proof fn lemma_texts_differ(a: Seq<char>, b: Seq<char>)
    requires
        a.len() != b.len() || (a.len() > 0 && b.len() > 0 && a[0] != b[0]),
    ensures
        a != b,
{
}

proof fn lemma_listed_names_kept(all: Seq<ColumnView>)
    requires
        all == lake_columns(),
    ensures
        omitted_from_listing(all[0].name),
        omitted_from_listing(all[1].name),
        forall|m: int| 2 <= m < 9 ==> !omitted_from_listing(#[trigger] all[m].name),
{
    reveal_strlit("site_no");
    reveal_strlit("param_cd");
    reveal_strlit("datetime");
    reveal_strlit("value");
    reveal_strlit("qualifiers");
    reveal_strlit("latitude");
    reveal_strlit("longitude");
    reveal_strlit("approval_status");
    reveal_strlit("last_modified");
    assert(all[0].name == "site_no"@);
    assert(all[1].name == "param_cd"@);
    assert(all[2].name == "datetime"@);
    assert(all[3].name == "value"@);
    assert(all[4].name == "qualifiers"@);
    assert(all[5].name == "latitude"@);
    assert(all[6].name == "longitude"@);
    assert(all[7].name == "approval_status"@);
    assert(all[8].name == "last_modified"@);
    assert("datetime"@[0] != "param_cd"@[0]);
    assert("latitude"@[0] != "param_cd"@[0]);
}

proof fn lemma_listing_tail(all: Seq<ColumnView>, k: int)
    requires
        all == lake_columns(),
        2 <= k <= 9,
    ensures
        listing_columns(all.take(k)) =~= all.subrange(2, k),
    decreases k,
{
    lemma_listed_names_kept(all);
    if k == 2 {
        assert(all.take(1).drop_last() =~= Seq::<ColumnView>::empty());
        assert(all.take(1).last() == all[0]);
        assert(all.take(2).drop_last() =~= all.take(1));
        assert(all.take(2).last() == all[1]);
        assert(listing_columns(all.take(1).drop_last()) =~= Seq::<ColumnView>::empty());
        assert(listing_columns(all.take(1)) =~= Seq::<ColumnView>::empty());
    } else {
        lemma_listing_tail(all, k - 1);
        assert(all.take(k).drop_last() =~= all.take(k - 1));
        assert(all.take(k).last() == all[k - 1]);
        assert(!omitted_from_listing(all[k - 1].name));
    }
}


/// The fields of a reading that decide its partition file.
#[derive(Debug, Clone)]
pub struct ReadingKey {
    pub site_no: String,
    pub datetime: String,
}

/// The readings (by index) that go to one `site_no=.../year=...` partition.
#[derive(Debug, Clone)]
pub struct PartitionGroup {
    pub site_no: String,
    pub year: String,
    pub rows: Vec<usize>,
}

/// Partition of a reading: its site and the bytes of its year.
pub open spec fn reading_part(r: ReadingKey) -> (Seq<char>, Seq<u8>) {
    (r.site_no@, byte_prefix(r.datetime@, 4))
}

pub open spec fn reading_parts(rs: Seq<ReadingKey>) -> Seq<(Seq<char>, Seq<u8>)> {
    rs.map_values(|r: ReadingKey| reading_part(r))
}

pub open spec fn group_part(g: PartitionGroup) -> (Seq<char>, Seq<u8>) {
    (g.site_no@, encode_utf8(g.year@))
}

/// Order of partitions: by site, then year (bytewise).
pub open spec fn part_lt(a: (Seq<char>, Seq<u8>), b: (Seq<char>, Seq<u8>)) -> bool {
    text_lt(a.0, b.0) || (a.0 == b.0 && bytes_lt(a.1, b.1))
}

/// Indices of the readings in `parts` that belong to partition `key`, in order.
pub open spec fn members(parts: Seq<(Seq<char>, Seq<u8>)>, key: (Seq<char>, Seq<u8>)) -> Seq<usize>
    decreases parts.len(),
{
    if parts.len() == 0 {
        Seq::<usize>::empty()
    } else {
        let m = members(parts.drop_last(), key);
        if parts.last() == key {
            m.push((parts.len() - 1) as usize)
        } else {
            m
        }
    }
}

/// Some group in `gs` is partition `key`.
pub open spec fn has_group(gs: Seq<PartitionGroup>, key: (Seq<char>, Seq<u8>)) -> bool {
    exists|g: int| 0 <= g < gs.len() && #[trigger] group_part(gs[g]) == key
}

/// Number of readings over all groups.
pub open spec fn group_total(gs: Seq<PartitionGroup>) -> nat
    decreases gs.len(),
{
    if gs.len() == 0 {
        0
    } else {
        group_total(gs.drop_last()) + gs.last().rows@.len()
    }
}

proof fn lemma_group_total_concat(a: Seq<PartitionGroup>, b: Seq<PartitionGroup>)
    ensures
        group_total(a + b) == group_total(a) + group_total(b),
    decreases b.len(),
{
    if b.len() == 0 {
        assert(a + b =~= a);
    } else {
        lemma_group_total_concat(a, b.drop_last());
        assert((a + b).drop_last() =~= a + b.drop_last());
    }
}

proof fn lemma_group_total_single(g: PartitionGroup)
    ensures
        group_total(seq![g]) == g.rows@.len(),
{
    assert(seq![g].drop_last() =~= Seq::<PartitionGroup>::empty());
    assert(group_total(Seq::<PartitionGroup>::empty()) == 0);
    assert(seq![g].last() == g);
}

proof fn lemma_members_absent(parts: Seq<(Seq<char>, Seq<u8>)>, key: (Seq<char>, Seq<u8>))
    requires
        forall|j: int| 0 <= j < parts.len() ==> #[trigger] parts[j] != key,
    ensures
        members(parts, key) == Seq::<usize>::empty(),
    decreases parts.len(),
{
    if parts.len() > 0 {
        lemma_members_absent(parts.drop_last(), key);
    }
}

proof fn lemma_part_lt_facts(a: (Seq<char>, Seq<u8>), b: (Seq<char>, Seq<u8>), c: (Seq<char>, Seq<u8>))
    ensures
        !part_lt(a, a),
        a == b || part_lt(a, b) || part_lt(b, a),
        part_lt(a, b) && part_lt(b, c) ==> part_lt(a, c),
{
    lemma_text_lt_irreflexive(a.0);
    lemma_bytes_lt_irreflexive(a.1);
    lemma_text_lt_irreflexive(b.0);
    lemma_text_lt_total(a.0, b.0);
    lemma_bytes_lt_total(a.1, b.1);
    if part_lt(a, b) && part_lt(b, c) {
        if text_lt(a.0, b.0) && text_lt(b.0, c.0) {
            lemma_text_lt_transitive(a.0, b.0, c.0);
        }
        if a.0 == b.0 && b.0 == c.0 {
            lemma_bytes_lt_transitive(a.1, b.1, c.1);
        }
    }
}

fn part_less(site_a: &str, year_a: &str, site_b: &str, year_b: &str) -> (r: bool)
    ensures
        r == part_lt((site_a@, encode_utf8(year_a@)), (site_b@, encode_utf8(year_b@))),
{
    text_less(site_a, site_b) || (text_equal(site_a, site_b) && bytes_less(
        year_a.as_bytes(),
        year_b.as_bytes(),
    ))
}

fn same_part(site_a: &str, year_a: &str, site_b: &str, year_b: &str) -> (r: bool)
    ensures
        r == ((site_a@, encode_utf8(year_a@)) == (site_b@, encode_utf8(year_b@))),
{
    proof {
        lemma_bytes_lt_total(encode_utf8(year_a@), encode_utf8(year_b@));
        lemma_bytes_lt_irreflexive(encode_utf8(year_a@));
    }
    text_equal(site_a, site_b) && !bytes_less(year_a.as_bytes(), year_b.as_bytes()) && !bytes_less(
        year_b.as_bytes(),
        year_a.as_bytes(),
    )
}

/// The grouping built from the first `n` readings: groups in strictly
/// increasing partition order, each holding exactly its partition's
/// readings among the first `n`, every one of those readings placed.
pub open spec fn groups_inv(gs: Seq<PartitionGroup>, parts: Seq<(Seq<char>, Seq<u8>)>, n: int) -> bool {
    &&& 0 <= n <= parts.len()
    &&& forall|a: int, b: int| 0 <= a < b < gs.len() ==> part_lt(group_part(#[trigger] gs[a]), group_part(#[trigger] gs[b]))
    &&& forall|g: int| 0 <= g < gs.len() ==> (#[trigger] gs[g]).rows@ == members(parts.take(n), group_part(gs[g]))
    &&& forall|j: int| 0 <= j < n ==> has_group(gs, #[trigger] parts[j])
    &&& forall|g: int| 0 <= g < gs.len() ==> (#[trigger] gs[g]).rows@.len() > 0
    &&& group_total(gs) == n
}

proof fn lemma_group_total_update(gs: Seq<PartitionGroup>, p: int, g: PartitionGroup)
    requires
        0 <= p < gs.len(),
    ensures
        group_total(gs.update(p, g)) + gs[p].rows@.len() == group_total(gs) + g.rows@.len(),
{
    let a = gs.take(p);
    let b = gs.skip(p + 1);
    assert(gs =~= (a + seq![gs[p]]) + b);
    assert(gs.update(p, g) =~= (a + seq![g]) + b);
    lemma_group_total_concat(a + seq![gs[p]], b);
    lemma_group_total_concat(a + seq![g], b);
    lemma_group_total_concat(a, seq![gs[p]]);
    lemma_group_total_concat(a, seq![g]);
    lemma_group_total_single(g);
    lemma_group_total_single(gs[p]);
}

proof fn lemma_group_total_insert(gs: Seq<PartitionGroup>, p: int, g: PartitionGroup)
    requires
        0 <= p <= gs.len(),
    ensures
        group_total(gs.insert(p, g)) == group_total(gs) + g.rows@.len(),
{
    let a = gs.take(p);
    let b = gs.skip(p);
    assert(gs =~= a + b);
    assert(gs.insert(p, g) =~= (a + seq![g]) + b);
    lemma_group_total_concat(a + seq![g], b);
    lemma_group_total_concat(a, b);
    lemma_group_total_concat(a, seq![g]);
    lemma_group_total_single(g);
}

/// Reading `i` joins the existing group at `p`.
proof fn lemma_join_step(
    old: Seq<PartitionGroup>,
    parts: Seq<(Seq<char>, Seq<u8>)>,
    i: int,
    p: int,
    g: PartitionGroup,
)
    requires
        groups_inv(old, parts, i),
        i < parts.len(),
        0 <= p < old.len(),
        group_part(old[p]) == parts[i],
        group_part(g) == group_part(old[p]),
        g.rows@ == old[p].rows@.push(i as usize),
    ensures
        groups_inv(old.update(p, g), parts, i + 1),
{
    let new = old.update(p, g);
    let key = parts[i];
    assert(parts.take(i + 1).drop_last() =~= parts.take(i));
    assert(parts.take(i + 1).last() == key);
    lemma_group_total_update(old, p, g);
    assert forall|a: int, b: int| 0 <= a < b < new.len() implies part_lt(group_part(#[trigger] new[a]), group_part(#[trigger] new[b])) by {
        assert(group_part(new[a]) == group_part(old[a]));
        assert(group_part(new[b]) == group_part(old[b]));
    }
    assert forall|q: int| 0 <= q < new.len() implies (#[trigger] new[q]).rows@ == members(parts.take(i + 1), group_part(new[q])) by {
        if q != p {
            assert(new[q] == old[q]);
            lemma_part_lt_facts(group_part(old[q]), key, key);
            if q < p {
                assert(part_lt(group_part(old[q]), group_part(old[p])));
            } else {
                assert(part_lt(group_part(old[p]), group_part(old[q])));
            }
        }
    }
    assert forall|j: int| 0 <= j < i + 1 implies has_group(new, #[trigger] parts[j]) by {
        if j == i {
            assert(group_part(new[p]) == parts[j]);
        } else {
            assert(has_group(old, parts[j]));
            let gq = choose|gq: int| 0 <= gq < old.len() && #[trigger] group_part(old[gq]) == parts[j];
            assert(group_part(new[gq]) == parts[j]);
        }
    }
}

/// Reading `i` opens a new group, inserted at `p` to keep the order.
proof fn lemma_open_step(
    old: Seq<PartitionGroup>,
    parts: Seq<(Seq<char>, Seq<u8>)>,
    i: int,
    p: int,
    g: PartitionGroup,
)
    requires
        groups_inv(old, parts, i),
        i < parts.len(),
        0 <= p <= old.len(),
        forall|j: int| 0 <= j < p ==> part_lt(group_part(#[trigger] old[j]), parts[i]),
        p < old.len() ==> !part_lt(group_part(old[p]), parts[i]) && group_part(old[p]) != parts[i],
        group_part(g) == parts[i],
        g.rows@ == seq![i as usize],
    ensures
        groups_inv(old.insert(p, g), parts, i + 1),
{
    let new = old.insert(p, g);
    let key = parts[i];
    let prefix = parts.take(i);
    assert(parts.take(i + 1).drop_last() =~= prefix);
    assert(parts.take(i + 1).last() == key);
    lemma_group_total_insert(old, p, g);
    if p < old.len() {
        lemma_part_lt_facts(group_part(old[p]), key, key);
        assert(part_lt(key, group_part(old[p])));
    }
    assert forall|j: int| 0 <= j < prefix.len() implies #[trigger] prefix[j] != key by {
        assert(has_group(old, parts[j]));
        let gq = choose|gq: int| 0 <= gq < old.len() && #[trigger] group_part(old[gq]) == parts[j];
        if prefix[j] == key {
            lemma_part_lt_facts(group_part(old[gq]), key, key);
            if gq < p {
                assert(part_lt(group_part(old[gq]), key));
            } else if gq > p {
                lemma_part_lt_facts(key, group_part(old[p]), group_part(old[gq]));
                assert(part_lt(group_part(old[p]), group_part(old[gq])));
            }
        }
    }
    lemma_members_absent(prefix, key);
    assert(g.rows@ =~= members(prefix, key).push(i as usize));
    assert forall|a: int, b: int| 0 <= a < b < new.len() implies part_lt(group_part(#[trigger] new[a]), group_part(#[trigger] new[b])) by {
        if b < p {
            assert(new[a] == old[a] && new[b] == old[b]);
        } else if a > p {
            assert(new[a] == old[a - 1] && new[b] == old[b - 1]);
        } else if a == p {
            assert(new[b] == old[b - 1]);
            if b - 1 > p {
                assert(part_lt(group_part(old[p]), group_part(old[b - 1])));
                lemma_part_lt_facts(key, group_part(old[p]), group_part(old[b - 1]));
            }
        } else if b == p {
            assert(new[a] == old[a]);
        } else {
            assert(new[a] == old[a] && new[b] == old[b - 1]);
        }
    }
    assert forall|q: int| 0 <= q < new.len() implies (#[trigger] new[q]).rows@ == members(parts.take(i + 1), group_part(new[q])) by {
        if q < p {
            assert(new[q] == old[q]);
            lemma_part_lt_facts(group_part(old[q]), key, key);
        } else if q > p {
            assert(new[q] == old[q - 1]);
            lemma_part_lt_facts(group_part(old[q - 1]), key, key);
            if q - 1 > p {
                assert(part_lt(group_part(old[p]), group_part(old[q - 1])));
                lemma_part_lt_facts(key, group_part(old[p]), group_part(old[q - 1]));
            }
        }
    }
    assert forall|j: int| 0 <= j < i + 1 implies has_group(new, #[trigger] parts[j]) by {
        if j == i {
            assert(group_part(new[p]) == parts[j]);
        } else {
            assert(has_group(old, parts[j]));
            let gq = choose|gq: int| 0 <= gq < old.len() && #[trigger] group_part(old[gq]) == parts[j];
            if gq < p {
                assert(group_part(new[gq]) == parts[j]);
            } else {
                assert(group_part(new[gq + 1]) == parts[j]);
            }
        }
    }
}

/// Splits readings into partition files, one per (site, year) pair, in
/// increasing (site, year) order; each group lists its readings in input
/// order, every reading lands in exactly the group of its partition, no
/// group is empty, and so the groups together hold every reading once.
pub fn partition_groups(readings: &Vec<ReadingKey>) -> (r: Vec<PartitionGroup>)
    requires
        forall|i: int| 0 <= i < readings@.len() ==> byte_cut_ok(#[trigger] readings@[i].datetime@, 4),
    ensures
        forall|a: int, b: int| 0 <= a < b < r@.len() ==> part_lt(group_part(#[trigger] r@[a]), group_part(#[trigger] r@[b])),
        forall|g: int| 0 <= g < r@.len() ==> (#[trigger] r@[g]).rows@ == members(reading_parts(readings@), group_part(r@[g])),
        forall|i: int| 0 <= i < readings@.len() ==> has_group(r@, #[trigger] reading_parts(readings@)[i]),
        forall|g: int| 0 <= g < r@.len() ==> (#[trigger] r@[g]).rows@.len() > 0,
        group_total(r@) == readings@.len(),
{
    let ghost parts = reading_parts(readings@);
    let mut groups: Vec<PartitionGroup> = Vec::new();
    let mut i: usize = 0;
    assert(group_total(groups@) == 0);
    while i < readings.len()
        invariant
            parts == reading_parts(readings@),
            i <= readings@.len(),
            forall|i: int| 0 <= i < readings@.len() ==> byte_cut_ok(#[trigger] readings@[i].datetime@, 4),
            groups_inv(groups@, parts, i as int),
        decreases readings@.len() - i,
    {
        let reading = &readings[i];
        let year = year_of(reading.datetime.as_str());
        let site = reading.site_no.as_str();
        let ghost key = parts[i as int];
        assert(key == (site@, encode_utf8(year@)));
        let mut p: usize = 0;
        while p < groups.len() && part_less(groups[p].site_no.as_str(), groups[p].year.as_str(), site, year)
            invariant
                p <= groups@.len(),
                key == (site@, encode_utf8(year@)),
                forall|j: int| 0 <= j < p ==> part_lt(group_part(#[trigger] groups@[j]), key),
            decreases groups@.len() - p,
        {
            p = p + 1;
        }
        let ghost old_groups = groups@;
        let found = p < groups.len() && same_part(groups[p].site_no.as_str(), groups[p].year.as_str(), site, year);
        if found {
            let mut g = groups.remove(p);
            g.rows.push(i);
            groups.insert(p, g);
            proof {
                assert(groups@ =~= old_groups.update(p as int, g));
                lemma_join_step(old_groups, parts, i as int, p as int, g);
            }
        } else {
            let mut rows: Vec<usize> = Vec::new();
            rows.push(i);
            let g = PartitionGroup { site_no: owned(site), year: owned(year), rows };
            groups.insert(p, g);
            proof {
                assert(g.rows@ =~= seq![i]);
                lemma_open_step(old_groups, parts, i as int, p as int, g);
            }
        }
        i = i + 1;
    }
    assert(parts.take(readings@.len() as int) =~= parts);
    groups
}

/// The latest of some ISO 8601 timestamps (bytewise greatest; the first of
/// equal maxima), or `None` when there are none.
pub fn latest_text(values: &Vec<String>) -> (r: Option<String>)
    ensures
        values@.len() == 0 ==> r is None,
        values@.len() > 0 ==> (r matches Some(m) && (exists|i: int| 0 <= i < values@.len() && m@ == #[trigger] values@[i]@)
            && forall|j: int| 0 <= j < values@.len() ==> !text_lt(m@, #[trigger] values@[j]@)),
{
    let mut best: Option<String> = None;
    let mut i: usize = 0;
    while i < values.len()
        invariant
            i <= values@.len(),
            i == 0 <==> best is None,
            best matches Some(m) ==> (exists|k: int| 0 <= k < i && m@ == #[trigger] values@[k]@)
                && forall|j: int| 0 <= j < i ==> !text_lt(m@, #[trigger] values@[j]@),
        decreases values@.len() - i,
    {
        let v = &values[i];
        let replace = match &best {
            None => true,
            Some(m) => text_less(m.as_str(), v.as_str()),
        };
        if replace {
            proof {
                if let Some(m) = &best {
                    assert forall|j: int| 0 <= j < i + 1 implies !text_lt(v@, #[trigger] values@[j]@) by {
                        if j < i {
                            lemma_text_lt_total(m@, values@[j]@);
                            if text_lt(v@, values@[j]@) {
                                lemma_text_lt_transitive(m@, v@, values@[j]@);
                                lemma_text_lt_irreflexive(m@);
                                if m@ != values@[j]@ {
                                    lemma_text_lt_transitive(values@[j]@, m@, values@[j]@);
                                    lemma_text_lt_irreflexive(values@[j]@);
                                }
                            }
                        } else {
                            lemma_text_lt_irreflexive(v@);
                        }
                    }
                } else {
                    lemma_text_lt_irreflexive(v@);
                }
            }
            best = Some(v.clone());
        } else {
            proof {
                if let Some(m) = &best {
                    lemma_text_lt_total(m@, v@);
                    lemma_text_lt_irreflexive(m@);
                    if text_lt(m@, v@) {
                    }
                    assert(!text_lt(m@, values@[i as int]@)) by {
                        if text_lt(m@, v@) {
                        }
                    }
                }
            }
        }
        i = i + 1;
    }
    best
}

/// The value of a `key=value` path segment whose key is `key`.
pub open spec fn segment_value(seg: Seq<char>, key: Seq<char>) -> Option<Seq<char>> {
    if seg.len() > key.len() && seg.take(key.len() as int) == key && seg[key.len() as int] == '=' {
        Some(seg.skip(key.len() as int + 1))
    } else {
        None
    }
}

/// Reads the value of a partition directory segment `key=value`; `None`
/// when the segment is for another key.
pub fn partition_value(seg: &str, key: &str) -> (r: Option<String>)
    ensures
        match segment_value(seg@, key@) {
            Some(v) => r matches Some(t) && t@ == v,
            None => r is None,
        },
{
    let n = seg.unicode_len();
    let k = key.unicode_len();
    if n <= k {
        return None;
    }
    let head = seg.substring_char(0, k);
    if !text_equal(head, key) || seg.get_char(k) != '=' {
        return None;
    }
    let rest = seg.substring_char(k + 1, n);
    assert(rest@ =~= seg@.skip(k + 1));
    Some(owned(rest))
}

/// Reading a segment back gives the value it was written with.
pub proof fn segment_value_round_trip(key: Seq<char>, value: Seq<char>)
    ensures
        segment_value(segment(key, value), key) == Some(value),
{
    reveal_strlit("=");
    let seg = segment(key, value);
    assert(seg.take(key.len() as int) =~= key);
    assert(seg[key.len() as int] == '=');
    assert(seg.skip(key.len() as int + 1) =~= value);
}

} // verus!
