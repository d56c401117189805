//! The clustering engine: it owns the prefix tree and the cluster store,
//! and takes one line at a time.

use crate::cluster::{ClusterView, LogCluster};
use crate::model::{
    best, candidates, fast_matched, has_room, initial, lemma_planted_valid,
    lemma_search_result_stored, lemma_searched_valid, lemma_touched_all,
    lemma_touched_all_valid, lemma_trained_valid, lemma_written_valid, planted, search_result,
    searched, touched_all, trained, trained_cluster, valid, DrainView,
};
use crate::similarity::{
    alike, common_len, distance, lemma_counts_bounded, merged, wildcards, Threshold,
};
use crate::store::{
    cache_entries, cache_get, cache_limit, cache_put, cache_resize, cache_unbounded,
    cache_values, lookup, touched,
};
use crate::token::{tokenize, tokens_of, views};
use crate::tree::Node;
use lru::LruCache;
use std::collections::HashMap;
use vstd::prelude::*;

verus! {

broadcast use vstd::std_specs::hash::group_hash_axioms;

/// Why a set of engine settings is refused.
#[derive(Clone, Copy, Debug, PartialEq, Eq)]
pub enum ConfigError {
    /// The store was to hold at most zero clusters.
    ZeroMaxClusters,
    /// The tree was to have no level below the token count.
    ZeroMaxNodeDepth,
    /// The similarity threshold is no fraction between 0 and 1.
    ThresholdOutOfRange,
    /// A node was to have no children.
    ZeroMaxChildren,
    /// The wildcard marker is empty.
    EmptyParamStr,
}

impl ConfigError {
    /// The fault in words.
    pub open spec fn text(self) -> Seq<char> {
        match self {
            ConfigError::ZeroMaxClusters => "max_clusters must be greater than 0"@,
            ConfigError::ZeroMaxNodeDepth => "max_node_depth must be greater than 0"@,
            ConfigError::ThresholdOutOfRange => "sim_th must be between 0 and 1"@,
            ConfigError::ZeroMaxChildren => "max_children must be greater than 0"@,
            ConfigError::EmptyParamStr => "param_str must not be empty"@,
        }
    }

    /// The fault in words.
    pub fn message(&self) -> (message: String)
        ensures
            message@ == self.text(),
    {
        match self {
            ConfigError::ZeroMaxClusters => "max_clusters must be greater than 0".to_string(),
            ConfigError::ZeroMaxNodeDepth => "max_node_depth must be greater than 0".to_string(),
            ConfigError::ThresholdOutOfRange => "sim_th must be between 0 and 1".to_string(),
            ConfigError::ZeroMaxChildren => "max_children must be greater than 0".to_string(),
            ConfigError::EmptyParamStr => "param_str must not be empty".to_string(),
        }
    }
}

/// The first fault in a set of engine settings, if there is one.
pub open spec fn config_fault(
    max_clusters: Option<usize>,
    max_node_depth: usize,
    sim_th: Threshold,
    max_children: usize,
    param: Seq<char>,
) -> Option<ConfigError> {
    if max_clusters == Some(0usize) {
        Some(ConfigError::ZeroMaxClusters)
    } else if max_node_depth == 0 {
        Some(ConfigError::ZeroMaxNodeDepth)
    } else if !sim_th.valid() {
        Some(ConfigError::ThresholdOutOfRange)
    } else if max_children == 0 {
        Some(ConfigError::ZeroMaxChildren)
    } else if param.len() == 0 {
        Some(ConfigError::EmptyParamStr)
    } else {
        None
    }
}

/// The view of a cluster that may be missing.
pub open spec fn view_of(cluster: Option<LogCluster>) -> Option<ClusterView> {
    match cluster {
        Some(cluster) => Some(cluster@),
        None => None,
    }
}

/// The engine: settings that stay, a store of clusters, and the tree
/// through which a line finds the clusters of its shape.
pub struct Drain {
    id_to_cluster: LruCache<usize, LogCluster>,
    max_node_depth: usize,
    /// Similarity threshold.
    /// A new log cluster will be created
    /// if the similarity of tokens for log message is below this.
    sim_th: Threshold,
    /// Maximum number of children within a node.
    max_children: usize,
    /// Maximum number of clusters.
    max_clusters: Option<usize>,
    cluster_counter: usize,
    root: HashMap<usize, Node>,
    param_str: String,
}

impl View for Drain {
    type V = DrainView;

    closed spec fn view(&self) -> DrainView {
        DrainView {
            entries: cache_entries(self.id_to_cluster),
            limit: cache_limit(self.id_to_cluster),
            counter: self.cluster_counter,
            buckets: Map::new(|n: usize| self.root@.contains_key(n), |n: usize| self.root@[n]@),
            max_node_depth: self.max_node_depth,
            sim_th: self.sim_th,
            max_children: self.max_children,
            max_clusters: self.max_clusters,
            param: self.param_str@,
        }
    }
}

impl Default for Drain {
    /// An engine with an unbounded store, two levels of tree, the
    /// threshold 2/5, up to 100 children per node and the marker `<*>`.
    fn default() -> (drain: Self)
        ensures
            drain.wf(),
            drain@ == initial(
                None,
                2,
                Threshold { numerator: 2, denominator: 5 },
                100,
                "<*>"@,
            ),
    {
        let param_str = "<*>".to_string();
        proof {
            reveal_strlit("<*>");
        }
        let drain = Drain {
            id_to_cluster: cache_unbounded(),
            max_node_depth: 2,
            sim_th: Threshold { numerator: 2, denominator: 5 },
            max_children: 100,
            max_clusters: None,
            cluster_counter: 0,
            root: HashMap::new(),
            param_str,
        };
        assert(drain@.buckets =~= Map::empty());
        drain
    }
}

impl Drain {
    /// Whether the engine is in a state that its operations keep: a
    /// valid one.
    pub open spec fn wf(&self) -> bool {
        valid(self@)
    }

    /// An engine with the given settings, or the first fault in them.
    pub fn new(
        max_clusters: Option<usize>,
        max_node_depth: usize,
        sim_th: Threshold,
        max_children: usize,
        param_str: String,
    ) -> (made: Result<Drain, ConfigError>)
        ensures
            match made {
                Ok(drain) => config_fault(
                    max_clusters,
                    max_node_depth,
                    sim_th,
                    max_children,
                    param_str@,
                ) is None && drain.wf() && drain@ == initial(
                    max_clusters,
                    max_node_depth,
                    sim_th,
                    max_children,
                    param_str@,
                ),
                Err(fault) => config_fault(
                    max_clusters,
                    max_node_depth,
                    sim_th,
                    max_children,
                    param_str@,
                ) == Some(fault),
            },
    {
        let mut id_to_cluster = cache_unbounded();
        match max_clusters {
            Some(limit) => {
                if limit == 0 {
                    return Err(ConfigError::ZeroMaxClusters);
                }
                cache_resize(&mut id_to_cluster, limit);
            },
            None => {},
        }
        if max_node_depth == 0 {
            return Err(ConfigError::ZeroMaxNodeDepth);
        }
        if sim_th.denominator == 0 || sim_th.numerator > sim_th.denominator {
            return Err(ConfigError::ThresholdOutOfRange);
        }
        if max_children == 0 {
            return Err(ConfigError::ZeroMaxChildren);
        }
        if param_str.as_str().is_empty() {
            return Err(ConfigError::EmptyParamStr);
        }
        let drain = Drain {
            id_to_cluster,
            max_node_depth,
            sim_th,
            max_children,
            max_clusters,
            cluster_counter: 0,
            root: HashMap::new(),
            param_str,
        };
        assert(drain@.buckets =~= Map::empty());
        Ok(drain)
    }

    /// The node under which the clusters of lines of `token_count` tokens
    /// are entered, if there is one yet.
    pub fn bucket(&self, token_count: usize) -> (node: Option<&Node>)
        ensures
            match node {
                Some(node) => self@.buckets.contains_key(token_count) && self@.buckets[token_count]
                    == node@,
                None => !self@.buckets.contains_key(token_count),
            },
    {
        self.root.get(&token_count)
    }

    /// The stored clusters, from the most recently used to the least
    /// recently used.
    pub fn clusters(&self) -> (all: Vec<&LogCluster>)
        ensures
            all.len() == self@.entries.len(),
            forall|i: int| 0 <= i < all.len() ==> (#[trigger] all[i])@ == self@.entries[i].1,
    {
        cache_values(&self.id_to_cluster)
    }

    /// The score of the template `seq2` against the line `seq1`: the
    /// number of positions that count as alike, and the number of
    /// wildcard positions.
    pub fn get_seq_distance(
        &self,
        seq1: &[String],
        seq2: &[String],
        include_params: bool,
    ) -> (score: (usize, usize))
        ensures
            (score.0 as nat, score.1 as nat) == distance(
                views(seq1@),
                views(seq2@),
                self@.param,
                include_params,
            ),
    {
        let ghost tokens = views(seq1@);
        let ghost template = views(seq2@);
        let ghost param = self.param_str@;
        let n: usize = if seq1.len() <= seq2.len() {
            seq1.len()
        } else {
            seq2.len()
        };
        let mut sim_tokens: usize = 0;
        let mut param_count: usize = 0;
        let mut i: usize = 0;
        while i < n
            invariant
                i <= n,
                n == common_len(tokens, template),
                tokens == views(seq1@),
                template == views(seq2@),
                param == self.param_str@,
                sim_tokens == alike(tokens, template, param, i as nat),
                param_count == wildcards(template, param, i as nat),
            decreases n - i,
        {
            proof {
                lemma_counts_bounded(tokens, template, param, (i + 1) as nat);
            }
            if seq2[i] == self.param_str {
                param_count = param_count + 1;
            } else if seq1[i] == seq2[i] {
                sim_tokens = sim_tokens + 1;
            }
            i = i + 1;
        }
        proof {
            lemma_counts_bounded(tokens, template, param, n as nat);
        }
        if include_params {
            sim_tokens = sim_tokens + param_count;
        }
        (sim_tokens, param_count)
    }

    /// The template that covers both the line `seq1` and the template
    /// `seq2`: the token where the two agree, the wildcard marker where
    /// they differ.
    pub fn create_template(&self, seq1: &[String], seq2: &[String]) -> (template: Vec<String>)
        ensures
            views(template@) == merged(views(seq1@), views(seq2@), self@.param),
    {
        let n: usize = if seq1.len() <= seq2.len() {
            seq1.len()
        } else {
            seq2.len()
        };
        let mut new_template_tokens: Vec<String> = Vec::new();
        let mut i: usize = 0;
        while i < n
            invariant
                i <= n,
                n == common_len(views(seq1@), views(seq2@)),
                new_template_tokens.len() == i,
                forall|j: int|
                    0 <= j < i ==> (#[trigger] new_template_tokens[j])@ == merged(
                        views(seq1@),
                        views(seq2@),
                        self.param_str@,
                    )[j],
            decreases n - i,
        {
            if seq1[i] == seq2[i] {
                new_template_tokens.push(seq1[i].clone());
            } else {
                new_template_tokens.push(self.param_str.clone());
            }
            i = i + 1;
        }
        assert(views(new_template_tokens@) =~= merged(
            views(seq1@),
            views(seq2@),
            self.param_str@,
        ));
        new_template_tokens
    }

    /// Looks each of `cluster_ids` up in the store and returns the
    /// cluster that matches `tokens`: the best candidate, if its
    /// similarity reaches `sim_th`. Every cluster looked up becomes the
    /// most recently used in its turn.
    pub fn fast_match(
        &mut self,
        cluster_ids: &[usize],
        tokens: &[String],
        sim_th: Threshold,
        include_params: bool,
    ) -> (found: Option<LogCluster>)
        ensures
            final(self)@ == (DrainView {
                entries: touched_all(old(self)@.entries, cluster_ids@),
                ..old(self)@
            }),
            view_of(found) == fast_matched(
                cluster_ids@,
                old(self)@.entries,
                views(tokens@),
                old(self)@.param,
                sim_th,
                include_params,
            ),
            old(self).wf() ==> final(self).wf(),
    {
        let ghost start = self@;
        let ghost ids = cluster_ids@;
        let ghost line = views(tokens@);
        let mut max_cluster: Option<LogCluster> = None;
        let mut max_sim: usize = 0;
        let mut max_param_count: usize = 0;
        let mut k: usize = 0;
        assert(ids.take(0) =~= Seq::<usize>::empty());
        while k < cluster_ids.len()
            invariant
                k <= cluster_ids.len(),
                ids == cluster_ids@,
                line == views(tokens@),
                self@ == (DrainView {
                    entries: touched_all(start.entries, ids.take(k as int)),
                    ..start
                }),
                view_of(max_cluster) == best(
                    ids.take(k as int),
                    start.entries,
                    line,
                    start.param,
                    include_params,
                ),
                max_cluster matches Some(leader) ==> (max_sim as nat, max_param_count as nat)
                    == distance(line, leader@.template, start.param, include_params),
            decreases cluster_ids.len() - k,
        {
            let id: usize = cluster_ids[k];
            proof {
                assert(ids.take(k + 1).drop_last() =~= ids.take(k as int));
                lemma_touched_all(start.entries, ids.take(k as int));
            }
            let cluster = cache_get(&mut self.id_to_cluster, id);
            if let Some(cluster) = cluster {
                let (cur_sim, param_count) = self.get_seq_distance(
                    tokens,
                    cluster.log_template_tokens.as_slice(),
                    include_params,
                );
                let better = match &max_cluster {
                    None => true,
                    Some(_) => cur_sim > max_sim || (cur_sim == max_sim && param_count
                        > max_param_count),
                };
                if better {
                    max_sim = cur_sim;
                    max_param_count = param_count;
                    max_cluster = Some(cluster);
                }
            }
            k = k + 1;
        }
        proof {
            assert(ids.take(k as int) =~= ids);
            if old(self).wf() {
                lemma_touched_all_valid(start, ids);
            }
        }
        match max_cluster {
            Some(leader) => {
                if sim_th.is_met_by(max_sim, tokens.len()) {
                    Some(leader)
                } else {
                    None
                }
            },
            None => None,
        }
    }

    /// Searches the tree for the cluster that matches `tokens`. The
    /// clusters looked up on the way become the most recently used.
    pub fn tree_search(
        &mut self,
        tokens: &[String],
        sim_th: Threshold,
        include_params: bool,
    ) -> (found: Option<LogCluster>)
        ensures
            final(self)@ == searched(old(self)@, views(tokens@)),
            view_of(found) == search_result(old(self)@, views(tokens@), sim_th, include_params),
            old(self).wf() ==> final(self).wf(),
    {
        let ghost start = self@;
        let token_count: usize = tokens.len();
        proof {
            if self.wf() {
                lemma_searched_valid(start, views(tokens@));
            }
        }
        let cluster_ids: Vec<usize> = match self.root.get(&token_count) {
            None => {
                return None;
            },
            Some(cur_node) => {
                if token_count == 0 {
                    let ids = cur_node.cluster_ids();
                    if ids.len() == 0 {
                        return None;
                    }
                    let first: usize = ids[0];
                    let found = cache_get(&mut self.id_to_cluster, first);
                    proof {
                        let only = seq![first];
                        assert(only.drop_last() =~= Seq::<usize>::empty());
                        assert(touched_all(start.entries, only.drop_last()) == start.entries);
                        assert(touched_all(start.entries, only) == touched(start.entries, first));
                        assert(candidates(start, views(tokens@)) =~= only);
                    }
                    return found;
                }
                match cur_node.find_leaf(tokens, self.max_node_depth, &self.param_str) {
                    None => {
                        return None;
                    },
                    Some(ids) => ids.clone(),
                }
            },
        };
        self.fast_match(cluster_ids.as_slice(), tokens, sim_th, include_params)
    }

    /// Enters `cluster` into the tree, along the path of its template.
    /// The cluster is one that the store holds, or held.
    fn add_seq_to_prefix_tree(&mut self, cluster: &LogCluster)
        requires
            old(self).wf(),
            cluster@.id <= old(self)@.counter,
            lookup(old(self)@.entries, cluster@.id) matches Some(held) ==> held.template.len()
                == cluster@.template.len(),
        ensures
            final(self)@ == planted(old(self)@, cluster@.template, cluster@.id),
            final(self).wf(),
    {
        let ghost start = self@;
        let token_count: usize = cluster.log_template_tokens.len();
        let mut cur_node = match self.root.remove(&token_count) {
            Some(node) => node,
            None => Node::new(),
        };
        if token_count == 0 {
            cur_node.push_id(cluster.cluster_id);
        } else {
            cur_node.insert(
                &cluster.log_template_tokens,
                1,
                cluster.cluster_id,
                self.max_node_depth,
                self.max_children,
                &self.param_str,
                &self.id_to_cluster,
            );
        }
        self.root.insert(token_count, cur_node);
        proof {
            assert(self@.buckets =~= planted(start, cluster@.template, cluster@.id).buckets);
            lemma_planted_valid(start, cluster@.template, cluster@.id);
        }
    }

    /// Whether the counters leave room for one more line.
    pub fn has_room(&self) -> (room: bool)
        ensures
            room == has_room(self@),
    {
        if self.cluster_counter == usize::MAX {
            return false;
        }
        let all = cache_values(&self.id_to_cluster);
        let mut i: usize = 0;
        while i < all.len()
            invariant
                i <= all.len(),
                all.len() == self@.entries.len(),
                forall|j: int| 0 <= j < all.len() ==> (#[trigger] all[j])@ == self@.entries[j].1,
                forall|j: int| 0 <= j < i ==> (#[trigger] self@.entries[j]).1.size < usize::MAX,
            decreases all.len() - i,
        {
            if all[i].size == usize::MAX {
                assert(self@.entries[i as int].1.size == usize::MAX);
                return false;
            }
            i = i + 1;
        }
        true
    }

    /// Takes one line: the line joins the cluster that the search finds,
    /// or founds a new one. Returns that cluster as it is after the
    /// line.
    pub fn train(&mut self, log_message: &str) -> (cluster: LogCluster)
        requires
            old(self).wf(),
            has_room(old(self)@),
        ensures
            final(self).wf(),
            final(self)@ == trained(old(self)@, tokens_of(log_message@)),
            cluster@ == trained_cluster(old(self)@, tokens_of(log_message@)),
            cluster@.template.len() == tokens_of(log_message@).len(),
    {
        let ghost start = self@;
        let tokens = tokenize(log_message);
        let ghost line = views(tokens@);
        proof {
            assert(line.len() == tokens.len());
            lemma_trained_valid(start, line);
            lemma_search_result_stored(start, line, start.sim_th, false);
            lemma_searched_valid(start, line);
        }
        let sim_th = self.sim_th;
        match self.tree_search(tokens.as_slice(), sim_th, false) {
            Some(mut match_cluster) => {
                match_cluster.log_template_tokens = self.create_template(
                    tokens.as_slice(),
                    match_cluster.log_template_tokens.as_slice(),
                );
                match_cluster.size = match_cluster.size + 1;
                cache_put(&mut self.id_to_cluster, match_cluster.cluster_id, match_cluster.clone());
                match_cluster
            },
            None => {
                self.cluster_counter = self.cluster_counter + 1;
                let match_cluster = LogCluster {
                    log_template_tokens: tokens,
                    cluster_id: self.cluster_counter,
                    size: 1,
                };
                cache_put(&mut self.id_to_cluster, match_cluster.cluster_id, match_cluster.clone());
                proof {
                    lemma_written_valid(start, line);
                }
                self.add_seq_to_prefix_tree(&match_cluster);
                match_cluster
            },
        }
    }
}

} // verus!
