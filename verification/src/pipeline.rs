//! Around the engine: what is made of a line that arrives, and which
//! clusters are drawn on a terminal of a given size.

use crate::cluster::{joined, ClusterView, LogCluster};
use crate::drain::Drain;
use crate::model::{has_room, trained};
use crate::token::{push_char, tokens_of};
use promkit::grapheme::StyledGraphemes;
use vstd::prelude::*;

verus! {

/// What `strip_ansi_escapes::strip_str` makes of a text: the text without
/// its ANSI escape sequences.
pub uninterp spec fn ansi_stripped(text: Seq<char>) -> Seq<char>;

/// `strip_ansi_escapes::strip_str`: the text without its ANSI escape
/// sequences, which depends on the text alone.
#[verifier::external_body]
fn strip_ansi(text: &str) -> (plain: String)
    ensures
        plain@ == ansi_stripped(text@),
{
    strip_ansi_escapes::strip_str(text)
}

/// The number of rows that promkit's `StyledGraphemes::matrixify` lays a
/// text out in, for a terminal of `width` columns and `height` rows, read
/// from the first row.
pub uninterp spec fn rows_of(text: Seq<char>, width: usize, height: usize) -> usize;

/// `StyledGraphemes::matrixify`, called without an offset on the unstyled
/// text: the number of rows in its result, which depends on the text and
/// the size alone.
#[verifier::external_body]
fn wrapped_rows(text: &str, width: usize, height: usize) -> (rows: usize)
    ensures
        rows == rows_of(text@, width, height),
{
    StyledGraphemes::from(text).matrixify(width, height, 0).0.len()
}

/// A line with a space in place of each newline and each tab.
pub open spec fn spaced(line: Seq<char>) -> Seq<char> {
    Seq::new(
        line.len(),
        |i: int|
            if line[i] == '\n' || line[i] == '\t' {
                ' '
            } else {
                line[i]
            },
    )
}

/// A line as the engine takes it: newlines and tabs become spaces, and
/// ANSI escape sequences are taken out.
pub fn sanitize(line: &str) -> (clean: String)
    ensures
        clean@ == ansi_stripped(spaced(line@)),
{
    let mut flat = String::new();
    for c in it: line.chars()
        invariant
            it.seq() == line@,
            flat@.len() == it.index(),
            forall|i: int| 0 <= i < it.index() ==> flat@[i] == spaced(line@)[i],
    {
        if c == '\n' || c == '\t' {
            push_char(&mut flat, ' ');
        } else {
            push_char(&mut flat, c);
        }
    }
    assert(flat@ =~= spaced(line@));
    strip_ansi(flat.as_str())
}

/// What the line source had when it was asked.
pub enum Arrival {
    /// No line came within the retrieval timeout.
    Pending,
    /// A line came.
    Line(String),
    /// The stream has ended or failed.
    Closed,
}

/// What the ingestion does next.
#[derive(Clone, Copy, Debug, PartialEq, Eq)]
pub enum Next {
    /// Ask the line source again.
    Again,
    /// Leave the loop.
    Stop,
}

/// One step of ingestion. A line that came is sanitized and trained on;
/// a timeout changes nothing, and the source is asked again; the end of
/// the stream ends the loop. So does a line for which the counters have
/// no room left.
pub fn ingest(drain: &mut Drain, arrival: Arrival) -> (next: Next)
    requires
        old(drain).wf(),
    ensures
        final(drain).wf(),
        match arrival {
            Arrival::Pending => next == Next::Again && final(drain)@ == old(drain)@,
            Arrival::Line(line) => if has_room(old(drain)@) {
                next == Next::Again && final(drain)@ == trained(
                    old(drain)@,
                    tokens_of(ansi_stripped(spaced(line@))),
                )
            } else {
                next == Next::Stop && final(drain)@ == old(drain)@
            },
            Arrival::Closed => next == Next::Stop && final(drain)@ == old(drain)@,
        },
{
    match arrival {
        Arrival::Pending => Next::Again,
        Arrival::Line(line) => {
            if drain.has_room() {
                let escaped = sanitize(line.as_str());
                drain.train(escaped.as_str());
                Next::Again
            } else {
                Next::Stop
            }
        },
        Arrival::Closed => Next::Stop,
    }
}

/// The rows that the first `k` texts take together.
pub open spec fn rows_sum(rows: Seq<usize>, k: int) -> int
    decreases k,
{
    if k <= 0 {
        0
    } else {
        rows_sum(rows, k - 1) + rows[k - 1]
    }
}

/// Whether the first `k` texts are the ones to draw on `height` rows:
/// there are at most `height` of them, they fit, and the next one, if
/// there is one and `k` is less than `height`, no longer fits.
pub open spec fn fits(rows: Seq<usize>, height: usize, k: int) -> bool {
    &&& 0 <= k <= rows.len()
    &&& k <= height
    &&& rows_sum(rows, k) <= height
    &&& k < rows.len() && k < height ==> rows_sum(rows, k + 1) > height
}

/// The rows of more texts are not fewer.
pub proof fn lemma_rows_sum_grows(rows: Seq<usize>, k: int, m: int)
    requires
        k <= m,
    ensures
        rows_sum(rows, k) <= rows_sum(rows, m),
    decreases m - k,
{
    if k < m {
        lemma_rows_sum_grows(rows, k, m - 1);
    }
}

/// There is one number of texts to draw, and no other.
pub proof fn lemma_fits_once(rows: Seq<usize>, height: usize, k: int, m: int)
    requires
        fits(rows, height, k),
        fits(rows, height, m),
    ensures
        k == m,
{
    if k < m {
        lemma_rows_sum_grows(rows, k + 1, m);
    } else if m < k {
        lemma_rows_sum_grows(rows, m + 1, k);
    }
}

/// How many of the texts, from the first on, are drawn on `height` rows,
/// where `rows` holds the rows that each text takes.
pub fn fitting(rows: &Vec<usize>, height: usize) -> (count: usize)
    ensures
        fits(rows@, height, count as int),
{
    let mut count: usize = 0;
    let mut total_rows: usize = 0;
    while count < rows.len() && count < height
        invariant
            count <= rows.len(),
            count <= height,
            total_rows == rows_sum(rows@, count as int),
            total_rows <= height,
        ensures
            fits(rows@, height, count as int),
        decreases rows.len() - count,
    {
        if rows[count] > height - total_rows {
            break;
        }
        total_rows = total_rows + rows[count];
        count = count + 1;
    }
    count
}

/// The views of clusters that are held by reference.
pub open spec fn cluster_views(clusters: Seq<&LogCluster>) -> Seq<ClusterView> {
    Seq::new(clusters.len(), |i: int| clusters[i]@)
}

/// Whether a cluster has absorbed more than `cluster_size_th` lines.
pub open spec fn above(cluster_size_th: usize) -> spec_fn(ClusterView) -> bool {
    |cluster: ClusterView| cluster.size > cluster_size_th
}

/// The clusters that may be drawn on `height` rows: those above the size
/// threshold, in their order, and of them the first `height` at most.
pub open spec fn eligible(clusters: Seq<ClusterView>, cluster_size_th: usize, height: usize) -> Seq<
    ClusterView,
> {
    let large = clusters.filter(above(cluster_size_th));
    if large.len() > height {
        large.take(height as int)
    } else {
        large
    }
}

/// The rows that each cluster's template takes.
pub open spec fn row_counts(clusters: Seq<ClusterView>, width: usize, height: usize) -> Seq<
    usize,
> {
    Seq::new(clusters.len(), |i: int| rows_of(joined(clusters[i].template), width, height))
}

/// The clusters above the size threshold, in their order, and of them
/// the first `height` at most.
pub fn select<'a>(clusters: &Vec<&'a LogCluster>, cluster_size_th: usize, height: usize) -> (chosen:
    Vec<&'a LogCluster>)
    ensures
        cluster_views(chosen@) == eligible(cluster_views(clusters@), cluster_size_th, height),
{
    let ghost all = cluster_views(clusters@);
    let ghost keep = above(cluster_size_th);
    let mut chosen: Vec<&'a LogCluster> = Vec::new();
    let mut i: usize = 0;
    assert(all.take(0) =~= Seq::<ClusterView>::empty());
    assert(Seq::<ClusterView>::empty().filter(keep) =~= Seq::<ClusterView>::empty()) by {
        reveal(Seq::filter);
    }
    while i < clusters.len() && chosen.len() < height
        invariant
            i <= clusters.len(),
            all == cluster_views(clusters@),
            keep == above(cluster_size_th),
            chosen.len() <= height,
            cluster_views(chosen@) == all.take(i as int).filter(keep),
        decreases clusters.len() - i,
    {
        let cluster = clusters[i];
        proof {
            let done = all.take(i as int);
            assert(all.take(i + 1) =~= done.push(cluster@));
            done.lemma_filter_push(cluster@, keep);
        }
        if cluster.size > cluster_size_th {
            let ghost before = cluster_views(chosen@);
            chosen.push(cluster);
            assert(cluster_views(chosen@) =~= before.push(cluster@));
        }
        i = i + 1;
    }
    proof {
        let done = all.take(i as int);
        let rest = all.skip(i as int);
        assert(all =~= done + rest);
        Seq::filter_distributes_over_add(done, rest, keep);
        let large = all.filter(keep);
        if i == clusters.len() {
            assert(done =~= all);
        } else {
            assert(large.take(height as int) =~= done.filter(keep));
        }
    }
    chosen
}

/// The clusters to draw on a terminal of `width` columns and `height`
/// rows: of the eligible ones, the first so many as `fits` says, for the
/// rows that their templates take.
pub fn visible<'a>(
    clusters: &Vec<&'a LogCluster>,
    cluster_size_th: usize,
    width: usize,
    height: usize,
) -> (shown: Vec<&'a LogCluster>)
    ensures
        ({
            let chosen = eligible(cluster_views(clusters@), cluster_size_th, height);
            &&& fits(row_counts(chosen, width, height), height, shown.len() as int)
            &&& cluster_views(shown@) == chosen.take(shown.len() as int)
        }),
{
    let mut shown = select(clusters, cluster_size_th, height);
    let ghost chosen = cluster_views(shown@);
    let mut rows: Vec<usize> = Vec::new();
    let mut i: usize = 0;
    while i < shown.len()
        invariant
            i <= shown.len(),
            rows.len() == i,
            chosen == cluster_views(shown@),
            forall|j: int| 0 <= j < i ==> rows[j] == row_counts(chosen, width, height)[j],
        decreases shown.len() - i,
    {
        let text = shown[i].get_template();
        rows.push(wrapped_rows(text.as_str(), width, height));
        i = i + 1;
    }
    assert(rows@ =~= row_counts(chosen, width, height));
    let count: usize = fitting(&rows, height);
    shown.truncate(count);
    assert(cluster_views(shown@) =~= chosen.take(count as int));
    shown
}

} // verus!
