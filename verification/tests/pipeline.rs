use logu::cluster::LogCluster;
use logu::drain::Drain;
use logu::pipeline::{fitting, ingest, sanitize, select, visible, Arrival, Next};

fn cluster(template: &str, cluster_id: usize, size: usize) -> LogCluster {
    LogCluster {
        log_template_tokens: template.split(' ').map(String::from).collect(),
        cluster_id,
        size,
    }
}

fn ids(clusters: &[&LogCluster]) -> Vec<usize> {
    clusters.iter().map(|c| c.cluster_id).collect()
}

#[test]
fn sanitize_takes_out_escape_sequences() {
    assert_eq!(sanitize("\x1b[1m\x1b[32mFinished\x1b[m dev in 0.0 secs"), "Finished dev in 0.0 secs");
}

#[test]
fn sanitize_turns_tabs_and_newlines_into_spaces() {
    assert_eq!(sanitize("a\tb\nc"), "a b c");
    assert_eq!(sanitize("\x1b[31mred\x1b[0m\tlight\n"), "red light ");
}

#[test]
fn sanitize_keeps_plain_text() {
    assert_eq!(sanitize("user davidoh logged in"), "user davidoh logged in");
    assert_eq!(sanitize(""), "");
}

#[test]
fn fitting_stops_before_the_rows_run_out() {
    assert_eq!(fitting(&vec![1, 1, 1], 2), 2);
    assert_eq!(fitting(&vec![1, 2, 1], 3), 2);
    assert_eq!(fitting(&vec![1, 2, 1], 4), 3);
    assert_eq!(fitting(&vec![3, 1], 2), 0);
    assert_eq!(fitting(&vec![2, 5, 1], 4), 1);
    assert_eq!(fitting(&vec![], 5), 0);
    assert_eq!(fitting(&vec![1, 1], 0), 0);
    assert_eq!(fitting(&vec![usize::MAX, 1], usize::MAX), 1);
}

#[test]
fn fitting_takes_no_more_texts_than_rows() {
    assert_eq!(fitting(&vec![0, 0, 0], 2), 2);
    assert_eq!(fitting(&vec![0, 1, 0, 0], 3), 3);
}

#[test]
fn select_keeps_the_clusters_above_the_threshold() {
    let a = cluster("a", 1, 1);
    let b = cluster("b", 2, 5);
    let c = cluster("c", 3, 2);
    let d = cluster("d", 4, 9);
    let all = vec![&a, &b, &c, &d];
    assert_eq!(ids(&select(&all, 0, 10)), vec![1, 2, 3, 4]);
    assert_eq!(ids(&select(&all, 1, 10)), vec![2, 3, 4]);
    assert_eq!(ids(&select(&all, 2, 10)), vec![2, 4]);
    assert_eq!(ids(&select(&all, 2, 1)), vec![2]);
    assert_eq!(ids(&select(&all, 9, 10)), Vec::<usize>::new());
    assert_eq!(ids(&select(&all, 0, 0)), Vec::<usize>::new());
}

#[test]
fn visible_fills_the_rows() {
    let a = cluster("connected to <*>", 1, 3);
    let b = cluster("Hex number <*>", 2, 2);
    let c = cluster("user <*> logged in", 3, 2);
    let all = vec![&a, &b, &c];
    assert_eq!(ids(&visible(&all, 0, 80, 24)), vec![1, 2, 3]);
    assert_eq!(ids(&visible(&all, 0, 80, 2)), vec![1, 2]);
    assert_eq!(ids(&visible(&all, 2, 80, 2)), vec![1]);
    assert_eq!(ids(&visible(&all, 0, 80, 0)), Vec::<usize>::new());
}

#[test]
fn visible_counts_wrapped_rows() {
    let a = cluster("connected to <*>", 1, 3);
    let b = cluster("ok", 2, 2);
    let c = cluster("fine", 3, 2);
    let all = vec![&a, &b, &c];
    assert_eq!(ids(&visible(&all, 0, 8, 4)), vec![1, 2, 3]);
    assert_eq!(ids(&visible(&all, 0, 8, 3)), vec![1, 2]);
    assert_eq!(ids(&visible(&all, 0, 4, 4)), vec![1]);
    assert_eq!(ids(&visible(&vec![&b, &a, &c], 0, 4, 4)), vec![2]);
}

#[test]
fn ingest_trains_on_a_line_that_came() {
    let mut drain = Drain::default();
    let next = ingest(&mut drain, Arrival::Line(String::from("\x1b[32mconnected\x1b[m to\t10.0.0.1")));
    assert_eq!(next, Next::Again);
    let next = ingest(&mut drain, Arrival::Line(String::from("connected to 10.0.0.2\n")));
    assert_eq!(next, Next::Again);
    let clusters = drain.clusters();
    assert_eq!(clusters.len(), 1);
    assert_eq!(clusters[0].get_template(), "connected to <*>");
    assert_eq!(clusters[0].size, 2);
}

#[test]
fn ingest_waits_and_stops() {
    let mut drain = Drain::default();
    assert_eq!(ingest(&mut drain, Arrival::Pending), Next::Again);
    assert_eq!(drain.clusters().len(), 0);
    assert_eq!(ingest(&mut drain, Arrival::Closed), Next::Stop);
    assert_eq!(drain.clusters().len(), 0);
}
