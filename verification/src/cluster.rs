//! Clusters: a template, an identifier and the number of lines absorbed.

use crate::token::{is_token, lemma_tokens_of_run, lemma_tokens_part_at_space, tokens_of, views};
use vstd::prelude::*;

verus! {

/// What a cluster is, as plain values.
pub struct ClusterView {
    pub template: Seq<Seq<char>>,
    pub id: usize,
    pub size: usize,
}

/// A cluster of lines that share a shape.
#[derive(PartialEq, Eq, Debug)]
pub struct LogCluster {
    /// The template: at each position a token, or the wildcard marker.
    pub log_template_tokens: Vec<String>,
    /// The identifier, given out once.
    pub cluster_id: usize,
    /// The number of lines absorbed so far.
    pub size: usize,
}

impl View for LogCluster {
    type V = ClusterView;

    open spec fn view(&self) -> ClusterView {
        ClusterView {
            template: views(self.log_template_tokens@),
            id: self.cluster_id,
            size: self.size,
        }
    }
}

/// The tokens joined by single spaces.
pub open spec fn joined(tokens: Seq<Seq<char>>) -> Seq<char>
    decreases tokens.len(),
{
    if tokens.len() == 0 {
        Seq::empty()
    } else if tokens.len() == 1 {
        tokens[0]
    } else {
        joined(tokens.drop_last()) + seq![' '] + tokens.last()
    }
}

impl Clone for LogCluster {
    /// A copy with the same template, identifier and size.
    fn clone(&self) -> (r: Self)
        ensures
            r@ == self@,
    {
        let mut tokens: Vec<String> = Vec::new();
        let mut i: usize = 0;
        while i < self.log_template_tokens.len()
            invariant
                i <= self.log_template_tokens.len(),
                tokens.len() == i,
                forall|j: int| 0 <= j < i ==> tokens[j]@ == self.log_template_tokens[j]@,
            decreases self.log_template_tokens.len() - i,
        {
            tokens.push(self.log_template_tokens[i].clone());
            i = i + 1;
        }
        assert(views(tokens@) =~= views(self.log_template_tokens@));
        LogCluster { log_template_tokens: tokens, cluster_id: self.cluster_id, size: self.size }
    }
}

impl LogCluster {
    /// The template as text: its tokens joined by single spaces.
    pub fn get_template(&self) -> (r: String)
        ensures
            r@ == joined(self@.template),
    {
        let mut out = String::new();
        let mut i: usize = 0;
        while i < self.log_template_tokens.len()
            invariant
                i <= self.log_template_tokens.len(),
                out@ == joined(self@.template.take(i as int)),
            decreases self.log_template_tokens.len() - i,
        {
            let ghost done = self@.template.take(i as int);
            let ghost next = self@.template.take(i + 1);
            assert(next.drop_last() =~= done);
            assert(next.last() == self.log_template_tokens[i as int]@);
            if i > 0 {
                proof {
                    reveal_strlit(" ");
                }
                out.append(" ");
                assert(" "@ =~= seq![' ']);
            }
            out.append(self.log_template_tokens[i].as_str());
            assert(out@ =~= joined(next));
            i = i + 1;
        }
        assert(self@.template.take(i as int) =~= self@.template);
        out
    }
}

/// A template read as a line has the tokens of the template: joining
/// tokens by single spaces and splitting the text at whitespace gives the
/// tokens back.
pub proof fn lemma_tokens_of_joined(tokens: Seq<Seq<char>>)
    requires
        forall|k: int| 0 <= k < tokens.len() ==> is_token(#[trigger] tokens[k]),
    ensures
        tokens_of(joined(tokens)) == tokens,
    decreases tokens.len(),
{
    if tokens.len() == 0 {
        assert(tokens =~= Seq::<Seq<char>>::empty());
    } else {
        let last = tokens.last();
        assert(is_token(tokens[tokens.len() - 1]));
        lemma_tokens_of_run(last, 0, Seq::empty());
        assert(Seq::<char>::empty() + last.skip(0) =~= last);
        if tokens.len() == 1 {
            assert(tokens =~= seq![last]);
        } else {
            let front = tokens.drop_last();
            assert(forall|k: int| 0 <= k < front.len() ==> front[k] == tokens[k]);
            lemma_tokens_of_joined(front);
            lemma_tokens_part_at_space(joined(front), last, 0, Seq::empty());
            assert(front + seq![last] =~= tokens);
        }
    }
}

} // verus!
