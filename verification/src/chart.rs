//! Per-site time series for the charts: one series per site, its points
//! ordered by date.
use vstd::prelude::*;
use vstd::utf8::{decode_utf8, encode_utf8, encode_utf8_decode_utf8};

use crate::dates::{parse_ymd, parsed_ymd};
use crate::lake::ReadingKey;
use crate::sort::{lemma_insert_at, stable_sort};
use crate::text::{
    byte_cut_ok, byte_prefix, byte_prefix_of, lemma_text_lt_irreflexive, lemma_text_lt_total,
    lemma_text_lt_transitive, owned, text_equal, text_less, text_lt,
};

verus! {

/// One site's chart: `(day number, row index)` points in date order.
#[derive(Debug, Clone)]
pub struct ChartSeries {
    pub site_no: String,
    pub points: Vec<(i32, usize)>,
}

/// The day a reading is charted at: its timestamp's first 10 bytes parsed
/// as `YYYY-MM-DD` (a plain date, or the date part of a full timestamp);
/// `None` when that does not parse.
pub open spec fn chart_day(datetime: Seq<char>) -> Option<i32> {
    match parsed_ymd(decode_utf8(byte_prefix(datetime, 10))) {
        Ok(d) => Some(d),
        Err(_) => None,
    }
}

/// The chartable readings of `site` among `rows`, in row order.
pub open spec fn site_points(rows: Seq<ReadingKey>, site: Seq<char>) -> Seq<(i32, usize)>
    decreases rows.len(),
{
    if rows.len() == 0 {
        Seq::<(i32, usize)>::empty()
    } else {
        let rest = site_points(rows.drop_last(), site);
        let r = rows.last();
        if r.site_no@ == site && chart_day(r.datetime@) is Some {
            rest.push((chart_day(r.datetime@)->0, (rows.len() - 1) as usize))
        } else {
            rest
        }
    }
}

pub open spec fn by_day() -> spec_fn((i32, usize), (i32, usize)) -> bool {
    |a: (i32, usize), b: (i32, usize)| a.0 < b.0
}

/// Some series is the one of `site`.
pub open spec fn has_series(gs: Seq<ChartSeries>, site: Seq<char>) -> bool {
    exists|g: int| 0 <= g < gs.len() && #[trigger] gs[g].site_no@ == site
}

/// Series gathered from the first `n` rows: one per site with a chartable
/// reading, in increasing site order, points in row order.
pub open spec fn chart_inv(gs: Seq<ChartSeries>, rows: Seq<ReadingKey>, n: int) -> bool {
    &&& 0 <= n <= rows.len()
    &&& forall|a: int, b: int| 0 <= a < b < gs.len() ==> text_lt((#[trigger] gs[a]).site_no@, (#[trigger] gs[b]).site_no@)
    &&& forall|g: int| 0 <= g < gs.len() ==> (#[trigger] gs[g]).points@ == site_points(rows.take(n), gs[g].site_no@)
    &&& forall|g: int| 0 <= g < gs.len() ==> (#[trigger] gs[g]).points@.len() > 0
    &&& forall|j: int| 0 <= j < n && chart_day(rows[j].datetime@) is Some ==> has_series(gs, #[trigger] rows[j].site_no@)
}

proof fn lemma_points_step(rows: Seq<ReadingKey>, i: int, site: Seq<char>)
    requires
        0 <= i < rows.len(),
    ensures
        site_points(rows.take(i + 1), site) == if rows[i].site_no@ == site && chart_day(rows[i].datetime@) is Some {
            site_points(rows.take(i), site).push((chart_day(rows[i].datetime@)->0, i as usize))
        } else {
            site_points(rows.take(i), site)
        },
{
    assert(rows.take(i + 1).drop_last() =~= rows.take(i));
    assert(rows.take(i + 1).last() == rows[i]);
}

proof fn lemma_points_absent(rows: Seq<ReadingKey>, site: Seq<char>)
    requires
        forall|j: int| 0 <= j < rows.len() && chart_day(rows[j].datetime@) is Some ==> #[trigger] rows[j].site_no@ != site,
    ensures
        site_points(rows, site) == Seq::<(i32, usize)>::empty(),
    decreases rows.len(),
{
    if rows.len() > 0 {
        let d = rows.drop_last();
        assert forall|j: int| 0 <= j < d.len() && chart_day(d[j].datetime@) is Some implies #[trigger] d[j].site_no@ != site by {
            assert(d[j] == rows[j]);
        }
        lemma_points_absent(d, site);
        assert(rows.last() == rows[rows.len() - 1]);
    }
}

/// A row that is not chartable, or charted under another site, leaves the
/// series unchanged.
proof fn lemma_chart_skip(old: Seq<ChartSeries>, rows: Seq<ReadingKey>, i: int)
    requires
        chart_inv(old, rows, i),
        i < rows.len(),
        chart_day(rows[i].datetime@) is None,
    ensures
        chart_inv(old, rows, i + 1),
{
    assert forall|g: int| 0 <= g < old.len() implies (#[trigger] old[g]).points@ == site_points(rows.take(i + 1), old[g].site_no@) by {
        lemma_points_step(rows, i, old[g].site_no@);
    }
}

proof fn lemma_chart_join(old: Seq<ChartSeries>, rows: Seq<ReadingKey>, i: int, p: int, g: ChartSeries)
    requires
        chart_inv(old, rows, i),
        i < rows.len(),
        chart_day(rows[i].datetime@) is Some,
        0 <= p < old.len(),
        old[p].site_no@ == rows[i].site_no@,
        g.site_no@ == old[p].site_no@,
        g.points@ == old[p].points@.push((chart_day(rows[i].datetime@)->0, i as usize)),
    ensures
        chart_inv(old.update(p, g), rows, i + 1),
{
    let new = old.update(p, g);
    let site = rows[i].site_no@;
    assert forall|q: int| 0 <= q < new.len() implies (#[trigger] new[q]).points@ == site_points(rows.take(i + 1), new[q].site_no@) by {
        lemma_points_step(rows, i, new[q].site_no@);
        if q != p {
            assert(new[q] == old[q]);
            if old[q].site_no@ == site {
                if q < p {
                    assert(text_lt(old[q].site_no@, old[p].site_no@));
                } else {
                    assert(text_lt(old[p].site_no@, old[q].site_no@));
                }
                lemma_text_lt_irreflexive(site);
            }
        }
    }
    assert forall|q: int| 0 <= q < new.len() implies (#[trigger] new[q]).points@.len() > 0 by {
        if q != p {
            assert(new[q] == old[q]);
        }
    }
    assert forall|a: int, b: int| 0 <= a < b < new.len() implies text_lt((#[trigger] new[a]).site_no@, (#[trigger] new[b]).site_no@) by {
        assert(new[a].site_no@ == old[a].site_no@ && new[b].site_no@ == old[b].site_no@);
    }
    assert forall|j: int| 0 <= j < i + 1 && chart_day(rows[j].datetime@) is Some implies has_series(new, #[trigger] rows[j].site_no@) by {
        if j == i {
            assert(new[p].site_no@ == rows[j].site_no@);
        } else {
            assert(has_series(old, rows[j].site_no@));
            let q = choose|q: int| 0 <= q < old.len() && #[trigger] old[q].site_no@ == rows[j].site_no@;
            assert(new[q].site_no@ == old[q].site_no@);
        }
    }
}

proof fn lemma_chart_open(old: Seq<ChartSeries>, rows: Seq<ReadingKey>, i: int, p: int, g: ChartSeries)
    requires
        chart_inv(old, rows, i),
        i < rows.len(),
        chart_day(rows[i].datetime@) is Some,
        0 <= p <= old.len(),
        forall|j: int| 0 <= j < p ==> text_lt((#[trigger] old[j]).site_no@, rows[i].site_no@),
        p < old.len() ==> text_lt(rows[i].site_no@, old[p].site_no@),
        g.site_no@ == rows[i].site_no@,
        g.points@ == seq![(chart_day(rows[i].datetime@)->0, i as usize)],
    ensures
        chart_inv(old.insert(p, g), rows, i + 1),
{
    let new = old.insert(p, g);
    let site = rows[i].site_no@;
    assert forall|j: int| 0 <= j < i && chart_day(rows.take(i)[j].datetime@) is Some implies #[trigger] rows.take(i)[j].site_no@ != site by {
        assert(rows.take(i)[j] == rows[j]);
        assert(has_series(old, rows[j].site_no@));
        let q = choose|q: int| 0 <= q < old.len() && #[trigger] old[q].site_no@ == rows[j].site_no@;
        if rows[j].site_no@ == site {
            lemma_text_lt_irreflexive(site);
            if q > p {
                assert(text_lt(old[p].site_no@, old[q].site_no@));
                lemma_text_lt_transitive(site, old[p].site_no@, old[q].site_no@);
            }
        }
    }
    lemma_points_absent(rows.take(i), site);
    assert forall|q: int| 0 <= q < new.len() implies (#[trigger] new[q]).points@ == site_points(rows.take(i + 1), new[q].site_no@) by {
        lemma_points_step(rows, i, new[q].site_no@);
        if q < p {
            assert(new[q] == old[q]);
            lemma_text_lt_irreflexive(site);
        } else if q > p {
            assert(new[q] == old[q - 1]);
            lemma_text_lt_irreflexive(site);
            if q - 1 > p {
                assert(text_lt(old[p].site_no@, old[q - 1].site_no@));
                lemma_text_lt_transitive(site, old[p].site_no@, old[q - 1].site_no@);
            }
        } else {
            assert(seq![(chart_day(rows[i].datetime@)->0, i as usize)] =~= Seq::<(i32, usize)>::empty().push((chart_day(rows[i].datetime@)->0, i as usize)));
        }
    }
    assert forall|q: int| 0 <= q < new.len() implies (#[trigger] new[q]).points@.len() > 0 by {
        if q < p {
            assert(new[q] == old[q]);
        } else if q > p {
            assert(new[q] == old[q - 1]);
        }
    }
    assert forall|a: int, b: int| 0 <= a < b < new.len() implies text_lt((#[trigger] new[a]).site_no@, (#[trigger] new[b]).site_no@) by {
        if b < p {
            assert(new[a] == old[a] && new[b] == old[b]);
        } else if a > p {
            assert(new[a] == old[a - 1] && new[b] == old[b - 1]);
        } else if a == p {
            assert(new[b] == old[b - 1]);
            if b - 1 > p {
                lemma_text_lt_transitive(site, old[p].site_no@, old[b - 1].site_no@);
            }
        } else if b == p {
            assert(new[a] == old[a]);
        } else {
            assert(new[a] == old[a] && new[b] == old[b - 1]);
        }
    }
    assert forall|j: int| 0 <= j < i + 1 && chart_day(rows[j].datetime@) is Some implies has_series(new, #[trigger] rows[j].site_no@) by {
        if j == i {
            assert(new[p].site_no@ == rows[j].site_no@);
        } else {
            assert(has_series(old, rows[j].site_no@));
            let q = choose|q: int| 0 <= q < old.len() && #[trigger] old[q].site_no@ == rows[j].site_no@;
            if q < p {
                assert(new[q] == old[q]);
            } else {
                assert(new[q + 1] == old[q]);
            }
        }
    }
}

/// The day of a reading, when its timestamp's date part parses.
fn reading_day(datetime: &str) -> (r: Option<i32>)
    requires
        byte_cut_ok(datetime@, 10),
    ensures
        r == chart_day(datetime@),
{
    let part = byte_prefix_of(datetime, 10);
    proof {
        encode_utf8_decode_utf8(part@);
    }
    match parse_ymd(part) {
        Ok(d) => Some(d),
        Err(_) => None,
    }
}

/// `points` stably sorted by day.
fn sort_points(points: &Vec<(i32, usize)>) -> (r: Vec<(i32, usize)>)
    ensures
        r@ == stable_sort(points@, by_day()),
{
    let mut sorted: Vec<(i32, usize)> = Vec::new();
    let mut i: usize = 0;
    assert(points@.take(0) =~= Seq::<(i32, usize)>::empty());
    while i < points.len()
        invariant
            i <= points@.len(),
            sorted@ == stable_sort(points@.take(i as int), by_day()),
        decreases points@.len() - i,
    {
        let e = points[i];
        assert(points@.take(i + 1).drop_last() =~= points@.take(i as int));
        assert(points@.take(i + 1).last() == e);
        let ghost prev = sorted@;
        let mut k: usize = 0;
        while k < sorted.len() && !(e.0 < sorted[k].0)
            invariant
                k <= sorted@.len(),
                prev == sorted@,
                forall|j: int| 0 <= j < k ==> !by_day()(e, #[trigger] prev[j]),
            decreases sorted@.len() - k,
        {
            k = k + 1;
        }
        proof {
            lemma_insert_at(prev, e, by_day(), k as int);
        }
        sorted.insert(k, e);
        i = i + 1;
    }
    assert(points@.take(points@.len() as int) =~= points@);
    sorted
}

/// One series per site that has a chartable reading, in increasing site
/// order; each holds the site's chartable readings as `(day, row)` points,
/// ordered by day (readings of the same day keep their row order).
pub fn chart_series(rows: &Vec<ReadingKey>) -> (r: Vec<ChartSeries>)
    requires
        forall|i: int| 0 <= i < rows@.len() ==> byte_cut_ok(#[trigger] rows@[i].datetime@, 10),
    ensures
        forall|a: int, b: int| 0 <= a < b < r@.len() ==> text_lt((#[trigger] r@[a]).site_no@, (#[trigger] r@[b]).site_no@),
        forall|g: int| 0 <= g < r@.len() ==> (#[trigger] r@[g]).points@ == stable_sort(site_points(rows@, r@[g].site_no@), by_day()),
        forall|g: int| 0 <= g < r@.len() ==> (#[trigger] r@[g]).points@.len() > 0,
        forall|j: int| 0 <= j < rows@.len() && chart_day(rows@[j].datetime@) is Some ==> has_series(r@, #[trigger] rows@[j].site_no@),
{
    let mut groups: Vec<ChartSeries> = Vec::new();
    let mut i: usize = 0;
    while i < rows.len()
        invariant
            i <= rows@.len(),
            forall|i: int| 0 <= i < rows@.len() ==> byte_cut_ok(#[trigger] rows@[i].datetime@, 10),
            chart_inv(groups@, rows@, i as int),
        decreases rows@.len() - i,
    {
        let row = &rows[i];
        let ghost old_groups = groups@;
        match reading_day(row.datetime.as_str()) {
            None => {
                proof {
                    lemma_chart_skip(old_groups, rows@, i as int);
                }
            },
            Some(day) => {
                let site = row.site_no.as_str();
                let mut p: usize = 0;
                while p < groups.len() && text_less(groups[p].site_no.as_str(), site)
                    invariant
                        p <= groups@.len(),
                        forall|j: int| 0 <= j < p ==> text_lt((#[trigger] groups@[j]).site_no@, site@),
                    decreases groups@.len() - p,
                {
                    p = p + 1;
                }
                if p < groups.len() && text_equal(groups[p].site_no.as_str(), site) {
                    let mut g = groups.remove(p);
                    g.points.push((day, i));
                    groups.insert(p, g);
                    proof {
                        assert(groups@ =~= old_groups.update(p as int, g));
                        lemma_chart_join(old_groups, rows@, i as int, p as int, g);
                    }
                } else {
                    proof {
                        if p < old_groups.len() {
                            lemma_text_lt_total(site@, old_groups[p as int].site_no@);
                        }
                    }
                    let mut points: Vec<(i32, usize)> = Vec::new();
                    points.push((day, i));
                    let g = ChartSeries { site_no: owned(site), points };
                    groups.insert(p, g);
                    proof {
                        assert(g.points@ =~= seq![(day, i)]);
                        lemma_chart_open(old_groups, rows@, i as int, p as int, g);
                    }
                }
            },
        }
        i = i + 1;
    }
    assert(rows@.take(rows@.len() as int) =~= rows@);
    let mut out: Vec<ChartSeries> = Vec::new();
    let mut k: usize = 0;
    while k < groups.len()
        invariant
            k <= groups@.len(),
            chart_inv(groups@, rows@, rows@.len() as int),
            rows@.take(rows@.len() as int) == rows@,
            out@.len() == k,
            forall|g: int| 0 <= g < k ==> (#[trigger] out@[g]).site_no == groups@[g].site_no,
            forall|g: int| 0 <= g < k ==> (#[trigger] out@[g]).points@ == stable_sort(groups@[g].points@, by_day()),
        decreases groups@.len() - k,
    {
        let sorted = sort_points(&groups[k].points);
        out.push(ChartSeries { site_no: groups[k].site_no.clone(), points: sorted });
        k = k + 1;
    }
    proof {
        assert forall|g: int| 0 <= g < out@.len() implies (#[trigger] out@[g]).points@.len() > 0 by {
            crate::sort::lemma_sort_len(groups@[g].points@, by_day());
        }
        assert forall|j: int| 0 <= j < rows@.len() && chart_day(rows@[j].datetime@) is Some implies has_series(out@, #[trigger] rows@[j].site_no@) by {
            assert(has_series(groups@, rows@[j].site_no@));
            let q = choose|q: int| 0 <= q < groups@.len() && #[trigger] groups@[q].site_no@ == rows@[j].site_no@;
            assert(out@[q].site_no@ == rows@[j].site_no@);
        }
    }
    out
}

} // verus!
