use logu::cluster::LogCluster;
use logu::drain::{ConfigError, Drain};
use logu::similarity::Threshold;
use logu::token::tokenize;
use logu::tree::Node;

fn strings(tokens: &[&str]) -> Vec<String> {
    tokens.iter().map(|t| String::from(*t)).collect()
}

fn cluster(tokens: &[&str], cluster_id: usize, size: usize) -> LogCluster {
    LogCluster { log_template_tokens: strings(tokens), cluster_id, size }
}

fn sorted(drain: &Drain) -> Vec<LogCluster> {
    let mut clusters: Vec<LogCluster> = drain.clusters().into_iter().cloned().collect();
    clusters.sort_by_key(|c| c.cluster_id);
    clusters
}

fn by_recency(drain: &Drain) -> Vec<usize> {
    drain.clusters().iter().map(|c| c.cluster_id).collect()
}

fn two_fifths() -> Threshold {
    Threshold { numerator: 2, denominator: 5 }
}

fn engine(max_clusters: Option<usize>, max_node_depth: usize, max_children: usize) -> Drain {
    Drain::new(max_clusters, max_node_depth, two_fifths(), max_children, String::from("<*>"))
        .unwrap()
}

/// The widest node and the longest path below `node`.
fn extent(node: &Node) -> (usize, usize) {
    let mut widest = node.width();
    let mut deepest = 0;
    for i in 0..node.width() {
        let (w, d) = extent(node.child(i));
        widest = widest.max(w);
        deepest = deepest.max(d + 1);
    }
    (widest, deepest)
}

#[test]
fn test() {
    let logs = vec![
        "connected to 10.0.0.1",
        "connected to 10.0.0.2",
        "connected to 10.0.0.3",
        "Hex number 0xDEADBEAF",
        "Hex number 0x10000",
        "user davidoh logged in",
        "user eranr logged in",
    ];
    let mut drain = Drain::default();
    for log in logs {
        drain.train(log);
    }
    let mut clusters = drain.clusters();
    clusters.sort_by_key(|c| c.cluster_id);
    assert_eq!(
        clusters,
        vec![
            &LogCluster {
                log_template_tokens: vec![
                    String::from("connected"),
                    String::from("to"),
                    String::from("<*>"),
                ],
                cluster_id: 1,
                size: 3,
            },
            &LogCluster {
                log_template_tokens: vec![
                    String::from("Hex"),
                    String::from("number"),
                    String::from("<*>"),
                ],
                cluster_id: 2,
                size: 2,
            },
            &LogCluster {
                log_template_tokens: vec![
                    String::from("user"),
                    String::from("<*>"),
                    String::from("logged"),
                    String::from("in"),
                ],
                cluster_id: 3,
                size: 2,
            },
        ]
    );
}

#[test]
fn addresses_share_one_template() {
    let mut drain = Drain::default();
    for log in ["connected to 10.0.0.1", "connected to 10.0.0.2", "connected to 10.0.0.3"] {
        drain.train(log);
    }
    let clusters = sorted(&drain);
    assert_eq!(clusters, vec![cluster(&["connected", "to", "<*>"], 1, 3)]);
    assert_eq!(clusters[0].get_template(), "connected to <*>");
}

#[test]
fn hex_numbers_share_one_template() {
    let mut drain = Drain::default();
    let first = drain.train("Hex number 0xDEADBEAF");
    assert_eq!(first, cluster(&["Hex", "number", "0xDEADBEAF"], 1, 1));
    let last = drain.train("Hex number 0x10000");
    assert_eq!(last.get_template(), "Hex number <*>");
    assert_eq!(last.size, 2);
    assert_eq!(sorted(&drain), vec![cluster(&["Hex", "number", "<*>"], 1, 2)]);
}

#[test]
fn user_names_share_one_template() {
    let mut drain = Drain::default();
    drain.train("user davidoh logged in");
    let last = drain.train("user eranr logged in");
    assert_eq!(last.get_template(), "user <*> logged in");
    assert_eq!(sorted(&drain), vec![cluster(&["user", "<*>", "logged", "in"], 1, 2)]);
}

#[test]
fn a_high_threshold_keeps_lines_apart() {
    let mut drain = Drain::new(
        None,
        2,
        Threshold { numerator: 99, denominator: 100 },
        100,
        String::from("<*>"),
    )
    .unwrap();
    drain.train("user davidoh logged in");
    drain.train("user eranr logged in");
    assert_eq!(
        sorted(&drain),
        vec![
            cluster(&["user", "davidoh", "logged", "in"], 1, 1),
            cluster(&["user", "eranr", "logged", "in"], 2, 1),
        ]
    );
}

#[test]
fn the_threshold_is_reached_at_equality() {
    let mut drain = Drain::default();
    drain.train("a b c d e");
    let joined = drain.train("a b x y z");
    assert_eq!(joined, cluster(&["a", "b", "<*>", "<*>", "<*>"], 1, 2));
    let apart = drain.train("a q r s t");
    assert_eq!(apart, cluster(&["a", "q", "r", "s", "t"], 2, 1));
}

#[test]
fn repeated_runs_agree() {
    let logs = [
        "connected to 10.0.0.1",
        "user davidoh logged in",
        "",
        "connected to 10.0.0.2",
        "Hex number 0xDEADBEAF",
        "user eranr logged in",
        "a b",
        "",
    ];
    let mut first = engine(Some(3), 3, 2);
    let mut second = engine(Some(3), 3, 2);
    for log in logs {
        let a = first.train(log);
        let b = second.train(log);
        assert_eq!(a, b);
    }
    let left: Vec<LogCluster> = first.clusters().into_iter().cloned().collect();
    let right: Vec<LogCluster> = second.clusters().into_iter().cloned().collect();
    assert_eq!(left, right);
    assert_eq!(left.len(), 3);
}

#[test]
fn sizes_add_up_to_the_number_of_lines() {
    let logs = [
        "connected to 10.0.0.1",
        "connected to 10.0.0.2",
        "Hex number 0xDEADBEAF",
        "",
        "user davidoh logged in",
        "user eranr logged in",
        "",
        "one two three four five six",
        "connected to 10.0.0.3",
    ];
    let mut drain = Drain::default();
    for (n, log) in logs.iter().enumerate() {
        drain.train(log);
        let total: usize = drain.clusters().iter().map(|c| c.size).sum();
        assert_eq!(total, n + 1);
    }
}

#[test]
fn a_line_without_tokens_has_its_own_cluster() {
    let mut drain = Drain::default();
    let first = drain.train("");
    assert_eq!(first, cluster(&[], 1, 1));
    let second = drain.train("  \t ");
    assert_eq!(second, cluster(&[], 1, 2));
    assert_eq!(second.get_template(), "");
    assert_eq!(sorted(&drain), vec![cluster(&[], 1, 2)]);
    assert_eq!(drain.bucket(0).unwrap().cluster_ids(), &vec![1]);
}

#[test]
fn wildcards_stay() {
    let mut drain = Drain::default();
    drain.train("job 17 done fast");
    let second = drain.train("job 18 done slow");
    assert_eq!(second, cluster(&["job", "<*>", "done", "<*>"], 1, 2));
    let third = drain.train("job 17 done fast");
    assert_eq!(third, cluster(&["job", "<*>", "done", "<*>"], 1, 3));
    let fourth = drain.train("job <*> done <*>");
    assert_eq!(fourth, cluster(&["job", "<*>", "done", "<*>"], 1, 4));
    let fifth = drain.train("job 19 ended <*>");
    assert_eq!(fifth, cluster(&["job", "19", "ended", "<*>"], 2, 1));
}

#[test]
fn a_full_store_evicts_the_least_recently_used() {
    let mut drain = engine(Some(2), 2, 100);
    drain.train("a a");
    drain.train("b b b");
    assert_eq!(by_recency(&drain), vec![2, 1]);
    drain.train("c c c c");
    assert_eq!(by_recency(&drain), vec![3, 2]);
    assert_eq!(
        sorted(&drain),
        vec![cluster(&["b", "b", "b"], 2, 1), cluster(&["c", "c", "c", "c"], 3, 1)]
    );
}

#[test]
fn a_search_passes_over_an_evicted_cluster() {
    let mut drain = engine(Some(2), 2, 100);
    drain.train("a a");
    drain.train("b b b");
    drain.train("c c c c");
    let leaf = drain.bucket(2).unwrap().child(0);
    assert_eq!(leaf.cluster_ids(), &vec![1]);
    let again = drain.train("a a");
    assert_eq!(again, cluster(&["a", "a"], 4, 1));
    assert_eq!(by_recency(&drain), vec![4, 3]);
    let leaf = drain.bucket(2).unwrap().child(0);
    assert_eq!(leaf.cluster_ids(), &vec![4]);
}

#[test]
fn a_match_refreshes_recency() {
    let mut drain = engine(Some(2), 2, 100);
    drain.train("a a");
    drain.train("b b b");
    let matched = drain.train("a a");
    assert_eq!(matched, cluster(&["a", "a"], 1, 2));
    assert_eq!(by_recency(&drain), vec![1, 2]);
    drain.train("c c c c");
    assert_eq!(by_recency(&drain), vec![3, 1]);
}

#[test]
fn a_search_refreshes_every_candidate() {
    let mut drain = engine(None, 1, 100);
    drain.train("a b");
    drain.train("c d");
    drain.train("e f");
    assert_eq!(by_recency(&drain), vec![3, 2, 1]);
    let found = drain.tree_search(&strings(&["a", "b"]), two_fifths(), false);
    assert_eq!(found, Some(cluster(&["a", "b"], 1, 1)));
    assert_eq!(by_recency(&drain), vec![3, 2, 1]);
    let found = drain.fast_match(&vec![2, 9, 3], &strings(&["e", "f"]), two_fifths(), false);
    assert_eq!(found, Some(cluster(&["e", "f"], 3, 1)));
    assert_eq!(by_recency(&drain), vec![3, 2, 1]);
    let found = drain.fast_match(&vec![3, 1], &strings(&["x", "y"]), two_fifths(), false);
    assert_eq!(found, None);
    assert_eq!(by_recency(&drain), vec![1, 3, 2]);
}

#[test]
fn branching_is_bounded() {
    let mut drain = engine(None, 3, 3);
    drain.train("req alpha end");
    drain.train("req beta end");
    drain.train("req gamma end");
    let fourth = drain.train("req delta end");
    assert_eq!(fourth, cluster(&["req", "<*>", "end"], 3, 2));
    let below = drain.bucket(3).unwrap().child(0);
    assert_eq!(drain.bucket(3).unwrap().key(0), "req");
    assert_eq!(below.width(), 3);
    assert_eq!(below.key(0), "alpha");
    assert_eq!(below.key(1), "beta");
    assert_eq!(below.key(2), "<*>");
    for word in ["one", "two", "three", "four", "five", "six", "seven"] {
        drain.train(&format!("{word} {word}x tail"));
        drain.train(&format!("req {word} end"));
        drain.train(&format!("{word} mid tail"));
    }
    let (widest, _) = extent(drain.bucket(3).unwrap());
    assert_eq!(widest, 3);
}

#[test]
fn a_single_child_is_the_wildcard() {
    let mut drain = engine(None, 2, 1);
    drain.train("alpha one");
    drain.train("beta two");
    let node = drain.bucket(2).unwrap();
    assert_eq!(node.width(), 1);
    assert_eq!(node.key(0), "<*>");
    assert_eq!(node.child(0).cluster_ids(), &vec![1, 2]);
}

#[test]
fn depth_is_bounded() {
    for max_node_depth in 1..5 {
        let mut drain = engine(None, max_node_depth, 100);
        drain.train("a b c d e f g h");
        drain.train("a b c d e f g i");
        drain.train("k l m n o p q r");
        drain.train("s t");
        drain.train("u");
        for n in [1, 2, 8] {
            let (_, deepest) = extent(drain.bucket(n).unwrap());
            assert_eq!(deepest, max_node_depth.min(n) - 1);
        }
    }
}

#[test]
fn a_token_with_a_digit_goes_to_the_wildcard() {
    let mut drain = engine(None, 3, 100);
    drain.train("id 15 ok");
    let node = drain.bucket(3).unwrap().child(0);
    assert_eq!(node.width(), 1);
    assert_eq!(node.key(0), "<*>");
    assert_eq!(node.child(0).cluster_ids(), &vec![1]);
    let other = drain.train("id 16 ok");
    assert_eq!(other, cluster(&["id", "<*>", "ok"], 1, 2));
}

#[test]
fn lines_of_different_lengths_never_share_a_cluster() {
    let mut drain = engine(None, 1, 100);
    drain.train("a b c");
    let shorter = drain.train("a b");
    assert_eq!(shorter, cluster(&["a", "b"], 2, 1));
    let longer = drain.train("a b c d");
    assert_eq!(longer, cluster(&["a", "b", "c", "d"], 3, 1));
}

#[test]
fn ties_go_to_more_wildcards_and_then_to_the_earlier() {
    let mut drain = Drain::default();
    drain.train("x a b");
    drain.train("x a2 b");
    drain.train("x q r");
    drain.train("x s t");
    assert_eq!(
        sorted(&drain),
        vec![
            cluster(&["x", "<*>", "b"], 1, 2),
            cluster(&["x", "q", "r"], 2, 1),
            cluster(&["x", "s", "t"], 3, 1),
        ]
    );
    let none = Threshold { numerator: 0, denominator: 1 };
    let line = strings(&["x", "z", "w"]);
    let found = drain.fast_match(&vec![2, 1, 3], &line, none, false);
    assert_eq!(found.unwrap().cluster_id, 1);
    let found = drain.fast_match(&vec![3, 2], &line, none, false);
    assert_eq!(found.unwrap().cluster_id, 3);
    let found = drain.fast_match(&vec![2, 3], &line, none, false);
    assert_eq!(found.unwrap().cluster_id, 2);
    let found = drain.fast_match(&vec![], &line, none, false);
    assert_eq!(found, None);
}

#[test]
fn wildcards_count_as_alike_on_request() {
    let mut drain = Drain::default();
    drain.train("x a b");
    drain.train("x a2 b");
    let half = Threshold { numerator: 1, denominator: 2 };
    let line = strings(&["x", "z", "w"]);
    assert_eq!(drain.fast_match(&vec![1], &line, half, false), None);
    assert_eq!(
        drain.fast_match(&vec![1], &line, half, true),
        Some(cluster(&["x", "<*>", "b"], 1, 2))
    );
}

#[test]
fn get_seq_distance_counts_positions() {
    let drain = Drain::default();
    let line = strings(&["a", "b", "c", "d"]);
    let template = strings(&["a", "<*>", "x", "d"]);
    assert_eq!(drain.get_seq_distance(&line, &template, false), (2, 1));
    assert_eq!(drain.get_seq_distance(&line, &template, true), (3, 1));
    let marked = strings(&["<*>", "b"]);
    assert_eq!(drain.get_seq_distance(&marked, &marked, false), (1, 1));
    assert_eq!(drain.get_seq_distance(&marked, &strings(&["x", "b"]), false), (1, 0));
    assert_eq!(drain.get_seq_distance(&line, &strings(&["a"]), false), (1, 0));
    assert_eq!(drain.get_seq_distance(&strings(&[]), &strings(&[]), true), (0, 0));
}

#[test]
fn create_template_keeps_what_agrees() {
    let drain = Drain::default();
    let line = strings(&["user", "eranr", "logged", "in"]);
    let template = strings(&["user", "davidoh", "logged", "in"]);
    assert_eq!(drain.create_template(&line, &template), strings(&["user", "<*>", "logged", "in"]));
    assert_eq!(drain.create_template(&line, &line), line);
    assert_eq!(drain.create_template(&line, &strings(&["user", "x"])), strings(&["user", "<*>"]));
    let other = Drain::new(None, 2, two_fifths(), 100, String::from("?")).unwrap();
    assert_eq!(other.create_template(&line, &template), strings(&["user", "?", "logged", "in"]));
}

#[test]
fn get_template_joins_with_single_spaces() {
    assert_eq!(cluster(&[], 1, 1).get_template(), "");
    assert_eq!(cluster(&["a"], 1, 1).get_template(), "a");
    assert_eq!(cluster(&["a", "<*>", "c"], 1, 1).get_template(), "a <*> c");
}

#[test]
fn a_cluster_and_its_copy_are_equal() {
    let first = cluster(&["a", "<*>"], 7, 3);
    assert_eq!(first.clone(), first);
}

#[test]
fn thresholds_compare_without_rounding() {
    let th = two_fifths();
    assert!(th.is_met_by(2, 5));
    assert!(th.is_met_by(2, 3));
    assert!(!th.is_met_by(1, 3));
    assert!(th.is_met_by(0, 0));
    let one = Threshold { numerator: 1, denominator: 1 };
    assert!(one.is_met_by(usize::MAX, usize::MAX));
    assert!(!one.is_met_by(usize::MAX - 1, usize::MAX));
    let large = Threshold { numerator: u64::MAX - 1, denominator: u64::MAX };
    assert!(!large.is_met_by(usize::MAX - 2, usize::MAX));
    assert!(large.is_met_by(usize::MAX - 1, usize::MAX));
}

#[test]
fn settings_out_of_range_are_refused() {
    let marker = || String::from("<*>");
    let th = two_fifths();
    assert_eq!(Drain::new(Some(0), 2, th, 100, marker()).err(), Some(ConfigError::ZeroMaxClusters));
    assert_eq!(Drain::new(None, 0, th, 100, marker()).err(), Some(ConfigError::ZeroMaxNodeDepth));
    let over = Threshold { numerator: 3, denominator: 2 };
    assert_eq!(
        Drain::new(None, 2, over, 100, marker()).err(),
        Some(ConfigError::ThresholdOutOfRange)
    );
    let undefined = Threshold { numerator: 0, denominator: 0 };
    assert_eq!(
        Drain::new(None, 2, undefined, 100, marker()).err(),
        Some(ConfigError::ThresholdOutOfRange)
    );
    assert_eq!(Drain::new(None, 2, th, 0, marker()).err(), Some(ConfigError::ZeroMaxChildren));
    assert_eq!(Drain::new(None, 2, th, 100, String::new()).err(), Some(ConfigError::EmptyParamStr));
    assert_eq!(Drain::new(Some(0), 0, over, 0, String::new()).err(), Some(ConfigError::ZeroMaxClusters));
    assert_eq!(Drain::new(Some(1), 0, over, 0, String::new()).err(), Some(ConfigError::ZeroMaxNodeDepth));
    assert_eq!(Drain::new(Some(1), 1, over, 0, String::new()).err(), Some(ConfigError::ThresholdOutOfRange));
    assert_eq!(Drain::new(Some(1), 1, th, 0, String::new()).err(), Some(ConfigError::ZeroMaxChildren));
}

#[test]
fn settings_at_their_bounds_are_taken() {
    let zero = Threshold { numerator: 0, denominator: 1 };
    let one = Threshold { numerator: 7, denominator: 7 };
    assert!(Drain::new(Some(1), 1, zero, 1, String::from("*")).is_ok());
    assert!(Drain::new(Some(usize::MAX), usize::MAX, one, usize::MAX, String::from("*")).is_ok());
}

#[test]
fn the_default_engine_has_the_default_settings() {
    let mut by_default = Drain::default();
    let mut by_hand = engine(None, 2, 100);
    for log in ["a b c d e", "a b x y z", "a q r s t", "n 1", "n 2"] {
        assert_eq!(by_default.train(log), by_hand.train(log));
    }
    assert!(by_default.has_room());
    assert!(by_default.bucket(7).is_none());
}

#[test]
fn a_store_of_one_holds_the_last_cluster() {
    let mut drain = engine(Some(1), 2, 100);
    drain.train("a");
    drain.train("b b");
    assert_eq!(sorted(&drain), vec![cluster(&["b", "b"], 2, 1)]);
    let total: usize = drain.clusters().iter().map(|c| c.size).sum();
    assert_eq!(total, 1);
}

/// The number of nodes at `node` and below it.
fn count(node: &Node) -> usize {
    let mut nodes = 1;
    for i in 0..node.width() {
        nodes += count(node.child(i));
    }
    nodes
}

#[test]
fn many_numbers_at_one_position_share_a_cluster() {
    let mut drain = Drain::default();
    for n in 0..500 {
        drain.train(&format!("request {n} served"));
    }
    assert_eq!(sorted(&drain), vec![cluster(&["request", "<*>", "served"], 1, 500)]);
    assert_eq!(count(drain.bucket(3).unwrap()), 2);
}

#[test]
fn many_words_at_one_position_leave_the_tree_small() {
    let mut drain = engine(None, 4, 5);
    for a in 0..40 {
        for b in 0..40 {
            let first: String = format!("{a}").chars().map(|c| (b'a' + (c as u8 - b'0')) as char).collect();
            let second: String = format!("{b}").chars().map(|c| (b'k' + (c as u8 - b'0')) as char).collect();
            drain.train(&format!("{first} {second} {first}{second} end"));
        }
    }
    let root = drain.bucket(4).unwrap();
    let (widest, deepest) = extent(root);
    assert_eq!(widest, 5);
    assert_eq!(deepest, 3);
    assert!(count(root) <= 1 + 5 + 25 + 125);
    let total: usize = drain.clusters().iter().map(|c| c.size).sum();
    assert_eq!(total, 1600);
}

#[test]
fn a_template_splits_into_its_tokens() {
    let mut drain = Drain::default();
    for log in ["user davidoh logged in", "user eranr logged in", "Hex number 0x10000", ""] {
        let cluster = drain.train(log);
        assert_eq!(tokenize(&cluster.get_template()), cluster.log_template_tokens);
    }
}

#[test]
fn a_repeated_line_joins_its_cluster() {
    let mut drain = engine(Some(2), 3, 2);
    for log in ["a b c", "d e", "a b c", "f g h i", "x y", "x y", "a q c", "a q c"] {
        let first = drain.train(log);
        let again = drain.train(log);
        assert_eq!(again.cluster_id, first.cluster_id);
        assert_eq!(again.size, first.size + 1);
        assert_eq!(again.log_template_tokens, first.log_template_tokens);
    }
}

/// The keys and identifiers at `node` and below it, in order.
fn outline(node: &Node, into: &mut Vec<String>) {
    into.push(format!("{:?}", node.cluster_ids()));
    for i in 0..node.width() {
        into.push(node.key(i).clone());
        outline(node.child(i), into);
    }
}

#[test]
fn a_node_and_its_copy_are_alike() {
    let mut drain = engine(None, 3, 3);
    for log in ["req alpha end", "req beta end", "req 7 end", "get alpha end", "req gamma end"] {
        drain.train(log);
    }
    let node = drain.bucket(3).unwrap();
    let copy = node.clone();
    let (mut left, mut right) = (Vec::new(), Vec::new());
    outline(node, &mut left);
    outline(&copy, &mut right);
    assert_eq!(left, right);
    assert_eq!(left.len(), 13);
    let fresh = Node::default();
    assert_eq!(fresh.width(), 0);
    assert_eq!(fresh.cluster_ids(), &Vec::<usize>::new());
}

#[test]
fn has_number_looks_for_the_digits_zero_to_nine() {
    assert!(logu::token::has_number("x0"));
    assert!(logu::token::has_number("9"));
    assert!(!logu::token::has_number("\u{663}"));
    assert!(!logu::token::has_number("\u{bd}"));
    assert!(!logu::token::has_number("/:"));
}
