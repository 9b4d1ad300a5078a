//! Requests to the USGS Water Data API: site-id normalisation, query
//! parameters, pagination links, request windows and the grouping of
//! site metadata rows.
use vstd::prelude::*;
use vstd::string::*;

use crate::dates::{date_text, format_day, parse_ymd, parsed_ymd, MAX_DAY, MIN_DAY};
use crate::text::{
    byte_cut_ok, byte_prefix, byte_prefix_of, contains_char, join_text, join_with, lemma_encode_concat,
    owned, split_on, split_text, text_equal,
};
use vstd::utf8::encode_utf8;

verus! {

/// Base of the API's OGC collections.
pub const BASE_URL: &'static str = "https://api.waterdata.usgs.gov/ogcapi/v1/collections";

/// URL of the combined-metadata collection's items.
pub const METADATA_URL: &'static str = "https://api.waterdata.usgs.gov/ogcapi/v1/collections/combined-metadata/items";

/// A character of Unicode's `White_Space` property, by which
/// `char::is_whitespace` and `str::trim` go.
pub open spec fn is_white_space(c: char) -> bool {
    let u = c as u32;
    ||| 0x9 <= u && u <= 0xD
    ||| u == 0x20
    ||| u == 0x85
    ||| u == 0xA0
    ||| u == 0x1680
    ||| 0x2000 <= u && u <= 0x200A
    ||| u == 0x2028
    ||| u == 0x2029
    ||| u == 0x202F
    ||| u == 0x205F
    ||| u == 0x3000
}

/// `s` without its leading white space.
pub open spec fn trim_leading(s: Seq<char>) -> Seq<char>
    decreases s.len(),
{
    if s.len() > 0 && is_white_space(s[0]) {
        trim_leading(s.drop_first())
    } else {
        s
    }
}

/// `s` without its trailing white space.
pub open spec fn trim_trailing(s: Seq<char>) -> Seq<char>
    decreases s.len(),
{
    if s.len() > 0 && is_white_space(s.last()) {
        trim_trailing(s.drop_last())
    } else {
        s
    }
}

/// What `str::trim` keeps of `s`: the text with leading and trailing
/// `White_Space` removed.
pub open spec fn trimmed(s: Seq<char>) -> Seq<char> {
    trim_trailing(trim_leading(s))
}

fn is_white_space_exec(c: char) -> (r: bool)
    ensures
        r == is_white_space(c),
{
    let u = c as u32;
    (0x9 <= u && u <= 0xD) || u == 0x20 || u == 0x85 || u == 0xA0 || u == 0x1680 || (0x2000 <= u
        && u <= 0x200A) || u == 0x2028 || u == 0x2029 || u == 0x202F || u == 0x205F || u == 0x3000
}

/// The text with leading and trailing Unicode `White_Space` removed, as
/// `str::trim` gives it.
pub(crate) fn trim_text(s: &str) -> (r: &str)
    ensures
        r@ == trimmed(s@),
{
    let n = s.unicode_len();
    let mut i: usize = 0;
    assert(s@.skip(0) =~= s@);
    while i < n && is_white_space_exec(s.get_char(i))
        invariant
            n == s@.len(),
            i <= n,
            trim_leading(s@) == trim_leading(s@.skip(i as int)),
        decreases n - i,
    {
        assert(s@.skip(i as int)[0] == s@[i as int]);
        assert(s@.skip(i as int).drop_first() =~= s@.skip(i + 1));
        i = i + 1;
    }
    if i == n {
        assert(s@.skip(i as int) =~= Seq::<char>::empty());
    } else {
        assert(s@.skip(i as int)[0] == s@[i as int]);
    }
    assert(trim_leading(s@) == s@.skip(i as int));
    let mut j: usize = n;
    assert(s@.subrange(i as int, n as int) =~= s@.skip(i as int));
    while j > i && is_white_space_exec(s.get_char(j - 1))
        invariant
            n == s@.len(),
            i <= j <= n,
            trimmed(s@) == trim_trailing(s@.subrange(i as int, j as int)),
        decreases j,
    {
        assert(s@.subrange(i as int, j as int).last() == s@[j - 1]);
        assert(s@.subrange(i as int, j as int).drop_last() =~= s@.subrange(i as int, j - 1));
        j = j - 1;
    }
    if j == i {
        assert(s@.subrange(i as int, j as int) =~= Seq::<char>::empty());
    } else {
        assert(s@.subrange(i as int, j as int).last() == s@[j - 1]);
    }
    s.substring_char(i, j)
}

/// A site id as the modernized API expects it: trimmed, and prefixed with
/// `USGS-` unless it already carries an agency prefix (contains `-`).
pub open spec fn normalized_site(site: Seq<char>) -> Seq<char> {
    let t = trimmed(site);
    if t.contains('-') {
        t
    } else {
        "USGS-"@ + t
    }
}

/// Normalizes a single USGS site number to the `USGS-`-prefixed monitoring
/// location ID; an already-prefixed ID (e.g. from another agency) is left
/// as it is, apart from trimming.
pub fn normalize_site_id(site: &str) -> (r: String)
    ensures
        r@ == normalized_site(site@),
{
    let t = trim_text(site);
    if contains_char(t, '-') {
        owned(t)
    } else {
        let mut r = owned("USGS-");
        r.append(t);
        r
    }
}

pub open spec fn string_views(v: Seq<String>) -> Seq<Seq<char>> {
    v.map_values(|s: String| s@)
}

/// The comma-separated site list with each entry normalized.
pub open spec fn normalized_sites(sites: Seq<char>) -> Seq<char> {
    join_with(split_on(sites, ',').map_values(|p: Seq<char>| normalized_site(p)), ","@)
}

/// Normalizes a comma-separated list of USGS site numbers; see
/// [`normalize_site_id`].
pub fn normalize_sites(sites: &str) -> (r: String)
    ensures
        r@ == normalized_sites(sites@),
{
    let parts = split_text(sites, ',');
    let ghost pieces = string_views(parts@);
    let mut out: Vec<String> = Vec::new();
    let mut i: usize = 0;
    while i < parts.len()
        invariant
            i <= parts@.len(),
            pieces == string_views(parts@),
            pieces == split_on(sites@, ','),
            string_views(out@) == pieces.take(i as int).map_values(|p: Seq<char>| normalized_site(p)),
        decreases parts@.len() - i,
    {
        let n = normalize_site_id(parts[i].as_str());
        let ghost before = string_views(out@);
        out.push(n);
        assert(string_views(out@) =~= before.push(n@));
        assert(pieces.take(i + 1).map_values(|p: Seq<char>| normalized_site(p)) =~= pieces.take(
            i as int,
        ).map_values(|p: Seq<char>| normalized_site(p)).push(normalized_site(pieces[i as int])));
        i = i + 1;
    }
    assert(pieces.take(parts@.len() as int) =~= pieces);
    join_text(&out, ",")
}

/// A link of a paged response.
#[derive(Debug, Clone)]
pub struct Link {
    pub rel: String,
    pub href: String,
}

/// The target of the first link with relation `next`, if any: where the
/// next page of results is.
pub fn next_page_link(links: &Vec<Link>) -> (r: Option<String>)
    ensures
        match r {
            Some(h) => exists|i: int|
                0 <= i < links@.len() && #[trigger] links@[i].rel@ == "next"@ && h@ == links@[i].href@
                    && forall|j: int| 0 <= j < i ==> links@[j].rel@ != "next"@,
            None => forall|i: int| 0 <= i < links@.len() ==> #[trigger] links@[i].rel@ != "next"@,
        },
{
    let mut i: usize = 0;
    while i < links.len()
        invariant
            i <= links@.len(),
            forall|j: int| 0 <= j < i ==> #[trigger] links@[j].rel@ != "next"@,
        decreases links@.len() - i,
    {
        if text_equal(links[i].rel.as_str(), "next") {
            return Some(links[i].href.clone());
        }
        i = i + 1;
    }
    None
}

/// A `qualifier` field, which the API sends either as one nullable string
/// or as a list of strings.
#[derive(Debug)]
pub enum QualifierValue {
    Single(Option<String>),
    Many(Vec<String>),
}

/// Normalizes both shapes of `qualifier` to one comma-joined string; an
/// empty list is no qualifier.
pub fn qualifier_as_string(q: QualifierValue) -> (r: Option<String>)
    ensures
        match q {
            QualifierValue::Single(v) => r == v,
            QualifierValue::Many(v) => if v@.len() == 0 {
                r is None
            } else {
                r matches Some(s) && s@ == join_with(string_views(v@), ","@)
            },
        },
{
    match q {
        QualifierValue::Single(v) => v,
        QualifierValue::Many(v) => if v.len() == 0 {
            None
        } else {
            Some(join_text(&v, ","))
        },
    }
}

fn pair(key: &str, value: &str) -> (r: (String, String))
    ensures
        r.0@ == key@,
        r.1@ == value@,
{
    (owned(key), owned(value))
}

pub open spec fn pair_views(v: Seq<(String, String)>) -> Seq<(Seq<char>, Seq<char>)> {
    v.map_values(|p: (String, String)| (p.0@, p.1@))
}

/// URL of a collection's items.
pub fn collection_items_url(collection: &str) -> (r: String)
    ensures
        r@ == BASE_URL@ + "/"@ + collection@ + "/items"@,
{
    let mut r = owned(BASE_URL);
    r.append("/");
    r.append(collection);
    r.append("/items");
    r
}

/// Query parameters of the first request for a collection's readings.
pub fn collection_query(sites: &str, param: &str, datetime_range: &str) -> (r: Vec<(String, String)>)
    ensures
        pair_views(r@) == seq![
            ("monitoring_location_id"@, normalized_sites(sites@)),
            ("parameter_code"@, param@),
            ("datetime"@, datetime_range@),
            ("f"@, "json"@),
            ("limit"@, "2000"@),
        ],
{
    let normalized = normalize_sites(sites);
    let mut r: Vec<(String, String)> = Vec::new();
    r.push(pair("monitoring_location_id", normalized.as_str()));
    r.push(pair("parameter_code", param));
    r.push(pair("datetime", datetime_range));
    r.push(pair("f", "json"));
    r.push(pair("limit", "2000"));
    assert(pair_views(r@) =~= seq![
        ("monitoring_location_id"@, normalized_sites(sites@)),
        ("parameter_code"@, param@),
        ("datetime"@, datetime_range@),
        ("f"@, "json"@),
        ("limit"@, "2000"@),
    ]);
    r
}

/// Query parameters of the first combined-metadata request, optionally
/// restricted to one parameter code.
pub fn metadata_query(sites: &str, param: Option<&str>) -> (r: Vec<(String, String)>)
    ensures
        pair_views(r@) == {
            let base = seq![
                ("monitoring_location_id"@, normalized_sites(sites@)),
                ("f"@, "json"@),
                ("limit"@, "2000"@),
            ];
            match param {
                Some(p) => base.push(("parameter_code"@, p@)),
                None => base,
            }
        },
{
    let normalized = normalize_sites(sites);
    let mut r: Vec<(String, String)> = Vec::new();
    r.push(pair("monitoring_location_id", normalized.as_str()));
    r.push(pair("f", "json"));
    r.push(pair("limit", "2000"));
    let ghost base = pair_views(r@);
    match param {
        Some(p) => {
            r.push(pair("parameter_code", p));
            assert(pair_views(r@) =~= base.push(("parameter_code"@, p@)));
        },
        None => {},
    }
    r
}

/// The `datetime` filter of a daily-values request: `start/end`.
pub fn daily_range(start: &str, end: &str) -> (r: String)
    ensures
        r@ == start@ + "/"@ + end@,
{
    let mut r = owned(start);
    r.append("/");
    r.append(end);
    r
}

/// The `continuous` collection answers at most this many days per request.
pub const MAX_WINDOW_DAYS: i32 = 1095;

/// Day windows covering `start..=end`: consecutive, each at most
/// `MAX_WINDOW_DAYS` long, the last one cut at `end`.
pub open spec fn windows(start: int, end: int) -> Seq<(int, int)>
    decreases end + 1 - start,
{
    if start > end {
        Seq::<(int, int)>::empty()
    } else {
        let e = if start + (MAX_WINDOW_DAYS - 1) < end {
            start + (MAX_WINDOW_DAYS - 1)
        } else {
            end
        };
        seq![(start, e)] + windows(e + 1, end)
    }
}

/// The windows of `start..=end` can be computed with dates: each window's
/// tentative end (`start + MAX_WINDOW_DAYS - 1`) and the day after each
/// window are still dates (at most `MAX_DAY`).
pub open spec fn windows_fit(start: int, end: int) -> bool {
    forall|k: int|
        0 <= k < windows(start, end).len() ==> #[trigger] windows(start, end)[k].0 + (MAX_WINDOW_DAYS - 1) <= MAX_DAY
            && windows(start, end)[k].1 + 1 <= MAX_DAY
}

/// The windows partition `start..=end` in order: the first begins at
/// `start`, each begins the day after the previous ends, the last ends at
/// `end`, and none is empty or longer than `MAX_WINDOW_DAYS` days.
pub proof fn windows_cover_range(start: int, end: int)
    requires
        start <= end,
    ensures
        ({
            let ws = windows(start, end);
            &&& ws.len() >= 1
            &&& ws[0].0 == start
            &&& ws[ws.len() - 1].1 == end
            &&& forall|k: int| 0 <= k < ws.len() ==> #[trigger] ws[k].0 <= ws[k].1 <= ws[k].0 + (MAX_WINDOW_DAYS - 1)
            &&& forall|k: int| 1 <= k < ws.len() ==> #[trigger] ws[k].0 == ws[k - 1].1 + 1
        }),
    decreases end + 1 - start,
{
    let ws = windows(start, end);
    let e = if start + (MAX_WINDOW_DAYS - 1) < end {
        start + (MAX_WINDOW_DAYS - 1)
    } else {
        end
    };
    let rest = windows(e + 1, end);
    assert(ws == seq![(start, e)] + rest);
    if e < end {
        windows_cover_range(e + 1, end);
        assert forall|k: int| 0 <= k < ws.len() implies #[trigger] ws[k].0 <= ws[k].1 <= ws[k].0 + (MAX_WINDOW_DAYS - 1) by {
            if k > 0 {
                assert(ws[k] == rest[k - 1]);
            }
        }
        assert forall|k: int| 1 <= k < ws.len() implies #[trigger] ws[k].0 == ws[k - 1].1 + 1 by {
            assert(ws[k] == rest[k - 1]);
            assert(rest[0].0 == e + 1);
            assert(ws[0] == (start, e));
            if k > 1 {
                assert(ws[k - 1] == rest[k - 2]);
            }
        }
    } else {
        assert(rest =~= Seq::<(int, int)>::empty());
        assert(ws =~= seq![(start, e)]);
    }
}

/// The `datetime` filter of one window: whole days from the start of its
/// first day to the end of its last.
pub open spec fn window_range_text(start: i32, end: i32) -> Seq<char> {
    date_text(start) + "T00:00:00Z/"@ + date_text(end) + "T23:59:59Z"@
}

/// Why a continuous-values date range is refused.
#[derive(Debug)]
pub enum DateRangeError {
    /// The start date does not parse; the parser's message.
    InvalidStart(String),
    /// The end date does not parse; the parser's message.
    InvalidEnd(String),
    EndBeforeStart,
    /// The windows would run past the last representable date.
    OutOfRange,
}

impl DateRangeError {
    /// The message a continuous-values fetch reports for the range
    /// `start..end` it refused. For a date that does not parse, the
    /// parser's own message is the cause underneath this one.
    pub fn message(&self, start: &str, end: &str) -> (r: String)
        ensures
            self is InvalidStart ==> r@ == "invalid start date '"@ + start@ + "'"@,
            self is InvalidEnd ==> r@ == "invalid end date '"@ + end@ + "'"@,
            self is EndBeforeStart ==> r@ == "end date "@ + end@ + " is before start date "@ + start@,
            self is OutOfRange ==> r@ == "`NaiveDate + TimeDelta` overflowed"@,
    {
        match self {
            DateRangeError::InvalidStart(_) => {
                let mut r = owned("invalid start date '");
                r.append(start);
                r.append("'");
                r
            },
            DateRangeError::InvalidEnd(_) => {
                let mut r = owned("invalid end date '");
                r.append(end);
                r.append("'");
                r
            },
            DateRangeError::EndBeforeStart => {
                let mut r = owned("end date ");
                r.append(end);
                r.append(" is before start date ");
                r.append(start);
                r
            },
            DateRangeError::OutOfRange => owned("`NaiveDate + TimeDelta` overflowed"),
        }
    }
}

/// The refusal of a fetch that returned no readings.
pub open spec fn no_data_text(sites: Seq<char>, param: Seq<char>, start: Seq<char>, end: Seq<char>) -> Seq<char> {
    "no data returned for site(s) "@ + sites + " (param "@ + param + ") in range "@ + start + ".."@ + end
}

/// The outcome of a daily or continuous fetch of `sites` (parameter
/// `param`, dates `start..end`): the readings, or, when there are none, the
/// refusal naming the request.
pub fn require_readings<T>(readings: Vec<T>, sites: &str, param: &str, start: &str, end: &str) -> (r: Result<Vec<T>, String>)
    ensures
        readings@.len() > 0 ==> r == Ok::<Vec<T>, String>(readings),
        readings@.len() == 0 ==> (r matches Err(m) && m@ == no_data_text(sites@, param@, start@, end@)),
{
    if readings.len() > 0 {
        return Ok(readings);
    }
    let mut m = owned("no data returned for site(s) ");
    m.append(sites);
    m.append(" (param ");
    m.append(param);
    m.append(") in range ");
    m.append(start);
    m.append("..");
    m.append(end);
    Err(m)
}

pub open spec fn window_texts(start: int, end: int) -> Seq<Seq<char>> {
    windows(start, end).map_values(|w: (int, int)| window_range_text(w.0 as i32, w.1 as i32))
}

/// The request windows for the days `start_day..=end_day`, as `datetime`
/// filters.
pub fn day_ranges(start_day: i32, end_day: i32) -> (r: Result<Vec<String>, DateRangeError>)
    requires
        MIN_DAY <= start_day <= MAX_DAY,
        MIN_DAY <= end_day <= MAX_DAY,
    ensures
        end_day < start_day ==> r matches Err(DateRangeError::EndBeforeStart),
        start_day <= end_day && !windows_fit(start_day as int, end_day as int) ==> r matches Err(DateRangeError::OutOfRange),
        start_day <= end_day && windows_fit(start_day as int, end_day as int) ==> (r matches Ok(v)
            && string_views(v@) == window_texts(start_day as int, end_day as int)),
{
    if end_day < start_day {
        return Err(DateRangeError::EndBeforeStart);
    }
    let ghost all = windows(start_day as int, end_day as int);
    let mut out: Vec<String> = Vec::new();
    let mut chunk_start: i32 = start_day;
    let ghost mut k: int = 0;
    proof {
        windows_cover_range(start_day as int, end_day as int);
    }
    while chunk_start <= end_day
        invariant
            MIN_DAY <= start_day <= end_day <= MAX_DAY,
            all == windows(start_day as int, end_day as int),
            0 <= k <= all.len(),
            k < all.len() ==> all[k].0 == chunk_start,
            k == all.len() <==> chunk_start > end_day,
            start_day <= chunk_start,
            chunk_start <= end_day + 1,
            windows(chunk_start as int, end_day as int) == all.skip(k),
            forall|q: int| 0 <= q < k ==> #[trigger] all[q].0 + (MAX_WINDOW_DAYS - 1) <= MAX_DAY && all[q].1 + 1 <= MAX_DAY,
            string_views(out@) == all.take(k).map_values(|w: (int, int)| window_range_text(w.0 as i32, w.1 as i32)),
        decreases end_day + 1 - chunk_start,
    {
        let ghost rest = windows(chunk_start as int, end_day as int);
        assert(rest.len() > 0);
        assert(all[k] == rest[0]);
        if chunk_start > MAX_DAY - (MAX_WINDOW_DAYS - 1) {
            assert(!windows_fit(start_day as int, end_day as int)) by {
                assert(!(all[k].0 + (MAX_WINDOW_DAYS - 1) <= MAX_DAY));
            }
            return Err(DateRangeError::OutOfRange);
        }
        let tentative = chunk_start + (MAX_WINDOW_DAYS - 1);
        let chunk_end = if tentative < end_day {
            tentative
        } else {
            end_day
        };
        assert(rest == seq![(chunk_start as int, chunk_end as int)] + windows(chunk_end + 1, end_day as int));
        if chunk_end >= MAX_DAY {
            assert(!windows_fit(start_day as int, end_day as int)) by {
                assert(!(all[k].1 + 1 <= MAX_DAY));
            }
            return Err(DateRangeError::OutOfRange);
        }
        let mut text = format_day(chunk_start);
        text.append("T00:00:00Z/");
        let last = format_day(chunk_end);
        text.append(last.as_str());
        text.append("T23:59:59Z");
        let ghost before = string_views(out@);
        out.push(text);
        proof {
            assert(string_views(out@) =~= before.push(text@));
            assert(all.take(k + 1) =~= all.take(k).push(all[k]));
            assert(all.take(k + 1).map_values(|w: (int, int)| window_range_text(w.0 as i32, w.1 as i32))
                =~= all.take(k).map_values(|w: (int, int)| window_range_text(w.0 as i32, w.1 as i32)).push(window_range_text(chunk_start, chunk_end)));
            assert(all.skip(k + 1) =~= all.skip(k).drop_first());
            assert(windows(chunk_end + 1, end_day as int) =~= rest.drop_first());
            k = k + 1;
            if k < all.len() {
                assert(all[k] == all.skip(k)[0]);
            }
        }
        chunk_start = chunk_end + 1;
    }
    proof {
        assert(all.take(all.len() as int) =~= all);
        assert(windows_fit(start_day as int, end_day as int));
    }
    Ok(out)
}

/// Request windows for a continuous-values fetch from `start` to `end`
/// (`YYYY-MM-DD`), as `datetime` filters: each window spans at most
/// `MAX_WINDOW_DAYS` days, from the start of its first day to the end of
/// its last.
pub fn continuous_ranges(start: &str, end: &str) -> (r: Result<Vec<String>, DateRangeError>)
    ensures
        parsed_ymd(start@) matches Err(e) ==> (r matches Err(DateRangeError::InvalidStart(m)) && m@ == e),
        parsed_ymd(start@) is Ok ==> (parsed_ymd(end@) matches Err(e) ==> (r matches Err(
            DateRangeError::InvalidEnd(m),
        ) && m@ == e)),
        parsed_ymd(start@) matches Ok(s) ==> (parsed_ymd(end@) matches Ok(e) ==> {
            &&& e < s ==> (r matches Err(DateRangeError::EndBeforeStart))
            &&& s <= e && !windows_fit(s as int, e as int) ==> (r matches Err(DateRangeError::OutOfRange))
            &&& s <= e && windows_fit(s as int, e as int) ==> (r matches Ok(v) && string_views(v@)
                == window_texts(s as int, e as int))
        }),
{
    let s = match parse_ymd(start) {
        Ok(d) => d,
        Err(m) => return Err(DateRangeError::InvalidStart(m)),
    };
    let e = match parse_ymd(end) {
        Ok(d) => d,
        Err(m) => return Err(DateRangeError::InvalidEnd(m)),
    };
    day_ranges(s, e)
}

/// One row of the combined-metadata collection: one (site, parameter,
/// statistic) series, repeating the site-level fields. Numeric site fields
/// (drainage area, altitude) are read by position from the caller's rows.
#[derive(Debug, Clone)]
pub struct MetadataRow {
    pub monitoring_location_id: String,
    pub monitoring_location_name: Option<String>,
    pub state_name: Option<String>,
    pub county_name: Option<String>,
    pub hydrologic_unit_code: Option<String>,
    pub parameter_code: Option<String>,
    pub parameter_name: Option<String>,
    pub statistic_id: Option<String>,
    pub begin: Option<String>,
    pub end: Option<String>,
    pub primary: Option<String>,
}

/// One parameter+statistic time series a site records, with its period of
/// record. `primary` is `None` for provisional series.
#[derive(Debug, Clone)]
pub struct TimeSeriesInfo {
    pub parameter_code: String,
    pub parameter_name: String,
    pub statistic_id: Option<String>,
    pub begin: Option<String>,
    pub end: Option<String>,
    pub primary: Option<String>,
}

/// The metadata of one site, gathered from its rows. `first_row` is the
/// index of the site's first row, whose site-level fields are used.
#[derive(Debug, Clone)]
pub struct SiteGroup {
    pub site_no: String,
    pub name: String,
    pub state_name: Option<String>,
    pub county_name: Option<String>,
    pub hydrologic_unit_code: Option<String>,
    pub first_row: usize,
    pub series: Vec<TimeSeriesInfo>,
}

/// Why site metadata is refused.
#[derive(Debug, PartialEq, Eq, Structural)]
pub enum MetadataError {
    /// The API returned no rows for the requested sites.
    NoMetadata,
}

impl MetadataError {
    /// The message reported for this refusal of a request for `sites` (the
    /// sites as the caller gave them).
    pub fn message(&self, sites: &str) -> (r: String)
        ensures
            r@ == "no metadata found for site(s) "@ + sites@,
    {
        let mut r = owned("no metadata found for site(s) ");
        r.append(sites);
        r
    }
}

/// A row describes a series when it names both parameter code and name.
pub open spec fn is_series_row(r: MetadataRow) -> bool {
    r.parameter_code is Some && r.parameter_name is Some
}

pub open spec fn series_of_row(r: MetadataRow) -> TimeSeriesInfo {
    TimeSeriesInfo {
        parameter_code: r.parameter_code->0,
        parameter_name: r.parameter_name->0,
        statistic_id: r.statistic_id,
        begin: r.begin,
        end: r.end,
        primary: r.primary,
    }
}

/// The series of site `site` among `rows`, in row order.
pub open spec fn site_series(rows: Seq<MetadataRow>, site: Seq<char>) -> Seq<TimeSeriesInfo>
    decreases rows.len(),
{
    if rows.len() == 0 {
        Seq::<TimeSeriesInfo>::empty()
    } else {
        let s = site_series(rows.drop_last(), site);
        let r = rows.last();
        if r.monitoring_location_id@ == site && is_series_row(r) {
            s.push(series_of_row(r))
        } else {
            s
        }
    }
}

/// Row `i` is the first row of its site.
pub open spec fn first_of_site(rows: Seq<MetadataRow>, i: int) -> bool {
    forall|j: int| 0 <= j < i ==> #[trigger] rows[j].monitoring_location_id@ != rows[i].monitoring_location_id@
}

pub open spec fn text_or_empty(o: Option<String>) -> Seq<char> {
    match o {
        Some(s) => s@,
        None => Seq::<char>::empty(),
    }
}

/// Group `g` is site `rows[g.first_row]` as gathered from `rows`.
pub open spec fn group_matches(g: SiteGroup, rows: Seq<MetadataRow>) -> bool {
    let f = rows[g.first_row as int];
    &&& g.first_row < rows.len()
    &&& first_of_site(rows, g.first_row as int)
    &&& g.site_no@ == f.monitoring_location_id@
    &&& g.name@ == text_or_empty(f.monitoring_location_name)
    &&& g.state_name == f.state_name
    &&& g.county_name == f.county_name
    &&& g.hydrologic_unit_code == f.hydrologic_unit_code
    &&& g.series@ == site_series(rows, g.site_no@)
}

/// Some group is the site of row `j`.
pub open spec fn site_has_group(gs: Seq<SiteGroup>, rows: Seq<MetadataRow>, j: int) -> bool {
    exists|g: int| 0 <= g < gs.len() && #[trigger] gs[g].site_no@ == rows[j].monitoring_location_id@
}

/// The groups built from the first `n` rows: one per site, in order of first
/// appearance, each gathered from those rows.
pub open spec fn meta_inv(gs: Seq<SiteGroup>, rows: Seq<MetadataRow>, n: int) -> bool {
    &&& 0 <= n <= rows.len()
    &&& forall|g: int| 0 <= g < gs.len() ==> group_matches(#[trigger] gs[g], rows.take(n))
    &&& forall|a: int, b: int| 0 <= a < b < gs.len() ==> (#[trigger] gs[a]).first_row < (#[trigger] gs[b]).first_row
    &&& forall|a: int, b: int| 0 <= a < b < gs.len() ==> (#[trigger] gs[a]).site_no@ != (#[trigger] gs[b]).site_no@
    &&& forall|j: int| 0 <= j < n ==> #[trigger] site_has_group(gs, rows, j)
}

/// The site groups of `rows`: one per site, in order of first appearance
/// (increasing first rows, distinct sites, every row's site present), each
/// gathered from all of `rows`.
pub open spec fn site_groups_of(gs: Seq<SiteGroup>, rows: Seq<MetadataRow>) -> bool {
    &&& forall|g: int| 0 <= g < gs.len() ==> group_matches(#[trigger] gs[g], rows)
    &&& forall|a: int, b: int| 0 <= a < b < gs.len() ==> (#[trigger] gs[a]).first_row < (#[trigger] gs[b]).first_row
    &&& forall|a: int, b: int| 0 <= a < b < gs.len() ==> (#[trigger] gs[a]).site_no@ != (#[trigger] gs[b]).site_no@
    &&& forall|j: int| 0 <= j < rows.len() ==> #[trigger] site_has_group(gs, rows, j)
}

fn clone_opt(o: &Option<String>) -> (r: Option<String>)
    ensures
        r == *o,
{
    match o {
        Some(s) => Some(s.clone()),
        None => None,
    }
}

fn series_from(row: &MetadataRow) -> (r: Option<TimeSeriesInfo>)
    ensures
        is_series_row(*row) ==> r == Some(series_of_row(*row)),
        !is_series_row(*row) ==> r is None,
{
    match (&row.parameter_code, &row.parameter_name) {
        (Some(code), Some(name)) => Some(
            TimeSeriesInfo {
                parameter_code: code.clone(),
                parameter_name: name.clone(),
                statistic_id: clone_opt(&row.statistic_id),
                begin: clone_opt(&row.begin),
                end: clone_opt(&row.end),
                primary: clone_opt(&row.primary),
            },
        ),
        _ => None,
    }
}

proof fn lemma_site_series_step(rows: Seq<MetadataRow>, i: int, site: Seq<char>)
    requires
        0 <= i < rows.len(),
    ensures
        site_series(rows.take(i + 1), site) == if rows[i].monitoring_location_id@ == site && is_series_row(rows[i]) {
            site_series(rows.take(i), site).push(series_of_row(rows[i]))
        } else {
            site_series(rows.take(i), site)
        },
{
    assert(rows.take(i + 1).drop_last() =~= rows.take(i));
    assert(rows.take(i + 1).last() == rows[i]);
}

proof fn lemma_group_extends(g: SiteGroup, rows: Seq<MetadataRow>, i: int)
    requires
        0 <= i < rows.len(),
        group_matches(g, rows.take(i)),
        g.site_no@ != rows[i].monitoring_location_id@,
    ensures
        group_matches(g, rows.take(i + 1)),
{
    lemma_site_series_step(rows, i, g.site_no@);
    assert(rows.take(i + 1)[g.first_row as int] == rows.take(i)[g.first_row as int]);
    assert forall|j: int| 0 <= j < g.first_row implies #[trigger] rows.take(i + 1)[j].monitoring_location_id@
        != rows.take(i + 1)[g.first_row as int].monitoring_location_id@ by {
        assert(rows.take(i + 1)[j] == rows.take(i)[j]);
    }
}

/// Row `i` adds to the existing group at `p` of its site.
proof fn lemma_meta_join(old: Seq<SiteGroup>, rows: Seq<MetadataRow>, i: int, p: int, g: SiteGroup)
    requires
        meta_inv(old, rows, i),
        i < rows.len(),
        0 <= p < old.len(),
        old[p].site_no@ == rows[i].monitoring_location_id@,
        g.site_no == old[p].site_no,
        g.name == old[p].name,
        g.state_name == old[p].state_name,
        g.county_name == old[p].county_name,
        g.hydrologic_unit_code == old[p].hydrologic_unit_code,
        g.first_row == old[p].first_row,
        g.series@ == if is_series_row(rows[i]) {
            old[p].series@.push(series_of_row(rows[i]))
        } else {
            old[p].series@
        },
    ensures
        meta_inv(old.update(p, g), rows, i + 1),
{
    let new = old.update(p, g);
    assert forall|q: int| 0 <= q < new.len() implies group_matches(#[trigger] new[q], rows.take(i + 1)) by {
        if q == p {
            let f = old[p].first_row as int;
            assert(group_matches(old[p], rows.take(i)));
            lemma_site_series_step(rows, i, g.site_no@);
            assert(rows.take(i + 1)[f] == rows.take(i)[f]);
            assert forall|j: int| 0 <= j < f implies #[trigger] rows.take(i + 1)[j].monitoring_location_id@
                != rows.take(i + 1)[f].monitoring_location_id@ by {
                assert(rows.take(i + 1)[j] == rows.take(i)[j]);
            }
        } else {
            assert(new[q] == old[q]);
            assert(group_matches(old[q], rows.take(i)));
            lemma_group_extends(old[q], rows, i);
        }
    }
    assert forall|j: int| 0 <= j < i + 1 implies #[trigger] site_has_group(new, rows, j) by {
        if j == i {
            assert(new[p].site_no@ == rows[j].monitoring_location_id@);
        } else {
            assert(site_has_group(old, rows, j));
            let gq = choose|gq: int| 0 <= gq < old.len() && #[trigger] old[gq].site_no@ == rows[j].monitoring_location_id@;
            assert(new[gq].site_no@ == old[gq].site_no@);
        }
    }
    assert forall|a: int, b: int| 0 <= a < b < new.len() implies (#[trigger] new[a]).first_row < (#[trigger] new[b]).first_row by {
        assert(new[a].first_row == old[a].first_row && new[b].first_row == old[b].first_row);
    }
    assert forall|a: int, b: int| 0 <= a < b < new.len() implies (#[trigger] new[a]).site_no@ != (#[trigger] new[b]).site_no@ by {
        assert(new[a].site_no == old[a].site_no && new[b].site_no == old[b].site_no);
    }
}

/// Row `i` is the first of a new site, appended as the last group.
proof fn lemma_meta_open(old: Seq<SiteGroup>, rows: Seq<MetadataRow>, i: int, g: SiteGroup)
    requires
        meta_inv(old, rows, i),
        i < rows.len(),
        forall|q: int| 0 <= q < old.len() ==> #[trigger] old[q].site_no@ != rows[i].monitoring_location_id@,
        g.first_row == i,
        g.site_no@ == rows[i].monitoring_location_id@,
        g.name@ == text_or_empty(rows[i].monitoring_location_name),
        g.state_name == rows[i].state_name,
        g.county_name == rows[i].county_name,
        g.hydrologic_unit_code == rows[i].hydrologic_unit_code,
        g.series@ == if is_series_row(rows[i]) {
            seq![series_of_row(rows[i])]
        } else {
            Seq::<TimeSeriesInfo>::empty()
        },
    ensures
        meta_inv(old.push(g), rows, i + 1),
{
    let new = old.push(g);
    let site = rows[i].monitoring_location_id@;
    assert forall|j: int| 0 <= j < i implies #[trigger] rows[j].monitoring_location_id@ != site by {
        assert(site_has_group(old, rows, j));
        let gq = choose|gq: int| 0 <= gq < old.len() && #[trigger] old[gq].site_no@ == rows[j].monitoring_location_id@;
    }
    assert(site_series(rows.take(i), site) =~= Seq::<TimeSeriesInfo>::empty()) by {
        lemma_series_absent(rows.take(i), site);
    }
    assert forall|q: int| 0 <= q < new.len() implies group_matches(#[trigger] new[q], rows.take(i + 1)) by {
        if q == old.len() {
            lemma_site_series_step(rows, i, site);
            assert(rows.take(i + 1)[i] == rows[i]);
            assert forall|j: int| 0 <= j < i implies #[trigger] rows.take(i + 1)[j].monitoring_location_id@
                != rows.take(i + 1)[i].monitoring_location_id@ by {
                assert(rows.take(i + 1)[j] == rows[j]);
            }
        } else {
            assert(new[q] == old[q]);
            assert(group_matches(old[q], rows.take(i)));
            lemma_group_extends(old[q], rows, i);
        }
    }
    assert forall|j: int| 0 <= j < i + 1 implies #[trigger] site_has_group(new, rows, j) by {
        if j == i {
            assert(new[old.len() as int].site_no@ == rows[j].monitoring_location_id@);
        } else {
            assert(site_has_group(old, rows, j));
            let gq = choose|gq: int| 0 <= gq < old.len() && #[trigger] old[gq].site_no@ == rows[j].monitoring_location_id@;
            assert(new[gq] == old[gq]);
        }
    }
    assert forall|a: int, b: int| 0 <= a < b < new.len() implies (#[trigger] new[a]).first_row < (#[trigger] new[b]).first_row by {
        if b == old.len() {
            assert(group_matches(old[a], rows.take(i)));
        }
    }
}

proof fn lemma_series_absent(rows: Seq<MetadataRow>, site: Seq<char>)
    requires
        forall|j: int| 0 <= j < rows.len() ==> #[trigger] rows[j].monitoring_location_id@ != site,
    ensures
        site_series(rows, site) == Seq::<TimeSeriesInfo>::empty(),
    decreases rows.len(),
{
    if rows.len() > 0 {
        lemma_series_absent(rows.drop_last(), site);
    }
}

/// Groups combined-metadata rows one entry per site, in the order sites
/// first appear, each with the site-level fields of its first row and the
/// series of all its rows that name a parameter code and name. No rows at
/// all is an error.
pub fn group_site_metadata(rows: &Vec<MetadataRow>) -> (r: Result<Vec<SiteGroup>, MetadataError>)
    ensures
        rows@.len() == 0 ==> r == Err::<Vec<SiteGroup>, MetadataError>(MetadataError::NoMetadata),
        rows@.len() > 0 ==> (r matches Ok(gs) && site_groups_of(gs@, rows@)),
{
    if rows.len() == 0 {
        return Err(MetadataError::NoMetadata);
    }
    let mut groups: Vec<SiteGroup> = Vec::new();
    let mut i: usize = 0;
    while i < rows.len()
        invariant
            i <= rows@.len(),
            meta_inv(groups@, rows@, i as int),
        decreases rows@.len() - i,
    {
        let row = &rows[i];
        let mut p: usize = 0;
        while p < groups.len() && !text_equal(groups[p].site_no.as_str(), row.monitoring_location_id.as_str())
            invariant
                p <= groups@.len(),
                row == rows@[i as int],
                forall|q: int| 0 <= q < p ==> #[trigger] groups@[q].site_no@ != row.monitoring_location_id@,
            decreases groups@.len() - p,
        {
            p = p + 1;
        }
        let ghost old_groups = groups@;
        let series = series_from(row);
        if p < groups.len() {
            let mut g = groups.remove(p);
            let ghost before = g;
            match series {
                Some(s) => g.series.push(s),
                None => {},
            }
            groups.insert(p, g);
            proof {
                assert(groups@ =~= old_groups.update(p as int, g));
                assert(before == old_groups[p as int]);
                lemma_meta_join(old_groups, rows@, i as int, p as int, g);
            }
        } else {
            let mut list: Vec<TimeSeriesInfo> = Vec::new();
            match series {
                Some(s) => list.push(s),
                None => {},
            }
            let name = match &row.monitoring_location_name {
                Some(n) => n.clone(),
                None => String::new(),
            };
            let g = SiteGroup {
                site_no: row.monitoring_location_id.clone(),
                name,
                state_name: clone_opt(&row.state_name),
                county_name: clone_opt(&row.county_name),
                hydrologic_unit_code: clone_opt(&row.hydrologic_unit_code),
                first_row: i,
                series: list,
            };
            groups.push(g);
            proof {
                assert(g.series@ =~= if is_series_row(rows@[i as int]) {
                    seq![series_of_row(rows@[i as int])]
                } else {
                    Seq::<TimeSeriesInfo>::empty()
                });
                lemma_meta_open(old_groups, rows@, i as int, g);
            }
        }
        i = i + 1;
    }
    assert(rows@.take(rows@.len() as int) =~= rows@);
    assert(site_groups_of(groups@, rows@));
    Ok(groups)
}

/// The present ones of county and state, joined with `", "`.
pub open spec fn location_text(county: Option<String>, state: Option<String>) -> Seq<char> {
    match (county, state) {
        (Some(c), Some(s)) => c@ + ", "@ + s@,
        (Some(c), None) => c@,
        (None, Some(s)) => s@,
        (None, None) => Seq::<char>::empty(),
    }
}

/// A site's location for the site listing: county and state, as far as
/// known.
pub fn site_location(county: &Option<String>, state: &Option<String>) -> (r: String)
    ensures
        r@ == location_text(*county, *state),
{
    let mut r = String::new();
    match county {
        Some(c) => r.append(c.as_str()),
        None => {},
    }
    match state {
        Some(s) => {
            if county.is_some() {
                r.append(", ");
            }
            r.append(s.as_str());
        },
        None => {},
    }
    r
}

/// An optional text, or `dflt` when absent.
pub open spec fn text_or(o: Option<String>, dflt: Seq<char>) -> Seq<char> {
    match o {
        Some(s) => s@,
        None => dflt,
    }
}

/// The listing line of one series:
/// `  <name> (<code>)  stat <stat>  <begin> .. <end>  [<status>]`, with `-`
/// for a missing statistic, the dates cut to their first 10 bytes (`?` when
/// unknown), and `Primary` or `Provisional` as status.
pub fn series_line(s: &TimeSeriesInfo) -> (r: String)
    requires
        byte_cut_ok(text_or(s.begin, "?"@), 10),
        byte_cut_ok(text_or(s.end, "?"@), 10),
    ensures
        encode_utf8(r@) == encode_utf8(
            "  "@ + s.parameter_name@ + " ("@ + s.parameter_code@ + ")  stat "@ + text_or(
                s.statistic_id,
                "-"@,
            ) + "  "@,
        ) + byte_prefix(text_or(s.begin, "?"@), 10) + encode_utf8(" .. "@) + byte_prefix(
            text_or(s.end, "?"@),
            10,
        ) + encode_utf8(
            "  ["@ + (if s.primary is Some {
                "Primary"@
            } else {
                "Provisional"@
            }) + "]"@,
        ),
{
    let mut head = owned("  ");
    head.append(s.parameter_name.as_str());
    head.append(" (");
    head.append(s.parameter_code.as_str());
    head.append(")  stat ");
    match &s.statistic_id {
        Some(st) => head.append(st.as_str()),
        None => head.append("-"),
    }
    head.append("  ");
    let begin_full: &str = match &s.begin {
        Some(b) => b.as_str(),
        None => "?",
    };
    let end_full: &str = match &s.end {
        Some(e) => e.as_str(),
        None => "?",
    };
    let begin = byte_prefix_of(begin_full, 10);
    let end = byte_prefix_of(end_full, 10);
    let ghost h = head@;
    let mut r = head;
    r.append(begin);
    let ghost h2 = r@;
    r.append(" .. ");
    let ghost h3 = r@;
    r.append(end);
    let ghost h4 = r@;
    let mut tail = owned("  [");
    if s.primary.is_some() {
        tail.append("Primary");
    } else {
        tail.append("Provisional");
    }
    tail.append("]");
    r.append(tail.as_str());
    proof {
        lemma_encode_concat(h, begin@);
        lemma_encode_concat(h2, " .. "@);
        lemma_encode_concat(h3, end@);
        lemma_encode_concat(h4, tail@);
    }
    r
}

/// Each series of a site comes from one of that site's rows naming both a
/// parameter code and name.
proof fn lemma_site_series_from_rows(rows: Seq<MetadataRow>, site: Seq<char>, k: int)
    requires
        0 <= k < site_series(rows, site).len(),
    ensures
        exists|j: int|
            0 <= j < rows.len() && rows[j].monitoring_location_id@ == site && is_series_row(rows[j])
                && #[trigger] series_of_row(rows[j]) == site_series(rows, site)[k],
    decreases rows.len(),
{
    let init = rows.drop_last();
    let rest = site_series(init, site);
    let r = rows.last();
    if k < rest.len() {
        lemma_site_series_from_rows(init, site, k);
        let j = choose|j: int|
            0 <= j < init.len() && init[j].monitoring_location_id@ == site && is_series_row(init[j])
                && #[trigger] series_of_row(init[j]) == rest[k];
        assert(rows[j] == init[j]);
        if r.monitoring_location_id@ == site && is_series_row(r) {
            assert(site_series(rows, site)[k] == rest[k]);
        }
    } else {
        assert(r.monitoring_location_id@ == site && is_series_row(r));
        assert(site_series(rows, site)[k] == series_of_row(r));
        assert(rows[rows.len() - 1] == r);
    }
}

/// Every series of a site's metadata is one of that site's rows, carried
/// over field by field: a row with both a parameter code and a parameter
/// name, whose code, name, statistic, period of record (`begin` and `end`)
/// and primary flag the series repeats unchanged.
pub proof fn series_carry_their_rows(gs: Seq<SiteGroup>, rows: Seq<MetadataRow>)
    requires
        site_groups_of(gs, rows),
    ensures
        forall|g: int, k: int|
            0 <= g < gs.len() && 0 <= k < gs[g].series@.len() ==> exists|j: int|
                0 <= j < rows.len() && #[trigger] rows[j].monitoring_location_id@ == gs[g].site_no@ && {
                    let s = #[trigger] gs[g].series@[k];
                    let r = rows[j];
                    &&& r.parameter_code == Some(s.parameter_code)
                    &&& r.parameter_name == Some(s.parameter_name)
                    &&& s.statistic_id == r.statistic_id
                    &&& s.begin == r.begin
                    &&& s.end == r.end
                    &&& s.primary == r.primary
                },
{
    assert forall|g: int, k: int| 0 <= g < gs.len() && 0 <= k < gs[g].series@.len() implies exists|j: int|
        0 <= j < rows.len() && #[trigger] rows[j].monitoring_location_id@ == gs[g].site_no@ && {
            let s = #[trigger] gs[g].series@[k];
            let r = rows[j];
            &&& r.parameter_code == Some(s.parameter_code)
            &&& r.parameter_name == Some(s.parameter_name)
            &&& s.statistic_id == r.statistic_id
            &&& s.begin == r.begin
            &&& s.end == r.end
            &&& s.primary == r.primary
        } by {
        assert(group_matches(gs[g], rows));
        lemma_site_series_from_rows(rows, gs[g].site_no@, k);
        let j = choose|j: int|
            0 <= j < rows.len() && rows[j].monitoring_location_id@ == gs[g].site_no@ && is_series_row(rows[j])
                && #[trigger] series_of_row(rows[j]) == site_series(rows, gs[g].site_no@)[k];
        assert(rows[j].monitoring_location_id@ == gs[g].site_no@);
    }
}

proof fn lemma_row_in_site_series(rows: Seq<MetadataRow>, j: int)
    requires
        0 <= j < rows.len(),
        is_series_row(rows[j]),
    ensures
        site_series(rows, rows[j].monitoring_location_id@).contains(series_of_row(rows[j])),
    decreases rows.len(),
{
    let site = rows[j].monitoring_location_id@;
    let init = rows.drop_last();
    if j < rows.len() - 1 {
        assert(init[j] == rows[j]);
        lemma_row_in_site_series(init, j);
        let rest = site_series(init, site);
        let k = choose|k: int| 0 <= k < rest.len() && rest[k] == series_of_row(rows[j]);
        assert(site_series(rows, site)[k] == rest[k]);
    } else {
        let out = site_series(rows, site);
        assert(out[out.len() - 1] == series_of_row(rows[j]));
    }
}

/// Every row that names both a parameter code and a parameter name shows up,
/// field by field, among the series of its site's group.
pub proof fn every_series_row_is_listed(gs: Seq<SiteGroup>, rows: Seq<MetadataRow>, j: int)
    requires
        site_groups_of(gs, rows),
        0 <= j < rows.len(),
        rows[j].parameter_code is Some,
        rows[j].parameter_name is Some,
    ensures
        exists|g: int, k: int|
            0 <= g < gs.len() && 0 <= k < gs[g].series@.len() && #[trigger] gs[g].site_no@
                == rows[j].monitoring_location_id@ && {
                let s = #[trigger] gs[g].series@[k];
                let r = rows[j];
                &&& r.parameter_code == Some(s.parameter_code)
                &&& r.parameter_name == Some(s.parameter_name)
                &&& s.statistic_id == r.statistic_id
                &&& s.begin == r.begin
                &&& s.end == r.end
                &&& s.primary == r.primary
            },
{
    assert(site_has_group(gs, rows, j));
    let g = choose|g: int| 0 <= g < gs.len() && #[trigger] gs[g].site_no@ == rows[j].monitoring_location_id@;
    assert(group_matches(gs[g], rows));
    lemma_row_in_site_series(rows, j);
    let series = gs[g].series@;
    let k = choose|k: int| 0 <= k < series.len() && series[k] == series_of_row(rows[j]);
    assert(gs[g].series@[k] == series_of_row(rows[j]));
}

} // verus!
