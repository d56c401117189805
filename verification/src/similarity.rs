//! How alike a line and a template are, position by position, and how a
//! template gives way to a line that it absorbs.

use vstd::prelude::*;

verus! {

/// A similarity threshold: the fraction `numerator / denominator`.
#[derive(Clone, Copy, Debug, PartialEq, Eq)]
pub struct Threshold {
    pub numerator: u64,
    pub denominator: u64,
}

impl Threshold {
    /// The fraction lies between 0 and 1, both included.
    pub open spec fn valid(self) -> bool {
        0 < self.denominator && self.numerator <= self.denominator
    }

    /// Whether `matched` positions out of `total` reach the threshold:
    /// `matched / total >= numerator / denominator`, without the division.
    pub open spec fn met_by(self, matched: nat, total: nat) -> bool {
        matched * self.denominator >= self.numerator * total
    }

    /// Whether `matched` positions out of `total` reach the threshold.
    pub fn is_met_by(&self, matched: usize, total: usize) -> (met: bool)
        ensures
            met == self.met_by(matched as nat, total as nat),
    {
        let left_a: u128 = matched as u128;
        let left_b: u128 = self.denominator as u128;
        let right_a: u128 = self.numerator as u128;
        let right_b: u128 = total as u128;
        assert(left_a * left_b <= 0xffff_ffff_ffff_ffff * 0xffff_ffff_ffff_ffff)
            by (nonlinear_arith)
            requires
                left_a <= 0xffff_ffff_ffff_ffff,
                left_b <= 0xffff_ffff_ffff_ffff,
        ;
        assert(right_a * right_b <= 0xffff_ffff_ffff_ffff * 0xffff_ffff_ffff_ffff)
            by (nonlinear_arith)
            requires
                right_a <= 0xffff_ffff_ffff_ffff,
                right_b <= 0xffff_ffff_ffff_ffff,
        ;
        left_a * left_b >= right_a * right_b
    }
}

/// How many positions a line and a template share.
pub open spec fn common_len(tokens: Seq<Seq<char>>, template: Seq<Seq<char>>) -> nat {
    if tokens.len() <= template.len() {
        tokens.len()
    } else {
        template.len()
    }
}

/// Among the first `k` positions, the number at which the template holds
/// the wildcard marker.
pub open spec fn wildcards(template: Seq<Seq<char>>, param: Seq<char>, k: nat) -> nat
    decreases k,
{
    if k == 0 {
        0
    } else {
        wildcards(template, param, (k - 1) as nat) + if template[k - 1] == param {
            1nat
        } else {
            0nat
        }
    }
}

/// Among the first `k` positions, the number at which the template holds
/// a literal token that the line holds too.
pub open spec fn alike(
    tokens: Seq<Seq<char>>,
    template: Seq<Seq<char>>,
    param: Seq<char>,
    k: nat,
) -> nat
    decreases k,
{
    if k == 0 {
        0
    } else {
        alike(tokens, template, param, (k - 1) as nat) + if template[k - 1] != param
            && template[k - 1] == tokens[k - 1] {
            1nat
        } else {
            0nat
        }
    }
}

/// The score of a template against a line: the number of positions that
/// count as alike, and the number of wildcard positions. A wildcard
/// position counts as alike only where `include_params` asks for it.
pub open spec fn distance(
    tokens: Seq<Seq<char>>,
    template: Seq<Seq<char>>,
    param: Seq<char>,
    include_params: bool,
) -> (nat, nat) {
    let k = common_len(tokens, template);
    let same = alike(tokens, template, param, k);
    let wild = wildcards(template, param, k);
    (
        if include_params {
            same + wild
        } else {
            same
        },
        wild,
    )
}

/// Whether the score `a` is better than the score `b`: more positions
/// alike, or as many and more wildcards.
pub open spec fn beats(a: (nat, nat), b: (nat, nat)) -> bool {
    a.0 > b.0 || (a.0 == b.0 && a.1 > b.1)
}

/// The template that covers both a line and the template that it joins:
/// a position keeps its token where the two agree, and holds the
/// wildcard marker where they differ.
pub open spec fn merged(tokens: Seq<Seq<char>>, template: Seq<Seq<char>>, param: Seq<char>) -> Seq<
    Seq<char>,
> {
    Seq::new(
        common_len(tokens, template),
        |i: int|
            if tokens[i] == template[i] {
                tokens[i]
            } else {
                param
            },
    )
}

/// No position counts twice: the positions alike and the wildcard
/// positions together are at most `k`.
pub proof fn lemma_counts_bounded(
    tokens: Seq<Seq<char>>,
    template: Seq<Seq<char>>,
    param: Seq<char>,
    k: nat,
)
    ensures
        alike(tokens, template, param, k) + wildcards(template, param, k) <= k,
    decreases k,
{
    if k > 0 {
        lemma_counts_bounded(tokens, template, param, (k - 1) as nat);
    }
}

/// A wildcard stays: where the template already holds the wildcard
/// marker, so does the merged template, whatever the line holds there.
pub proof fn lemma_merged_keeps_wildcards(
    tokens: Seq<Seq<char>>,
    template: Seq<Seq<char>>,
    param: Seq<char>,
    i: int,
)
    requires
        0 <= i < common_len(tokens, template),
        template[i] == param,
    ensures
        merged(tokens, template, param)[i] == param,
{
}

/// Merging a template once more with a line that it has absorbed changes
/// nothing.
pub proof fn lemma_merged_twice(
    tokens: Seq<Seq<char>>,
    template: Seq<Seq<char>>,
    param: Seq<char>,
)
    requires
        tokens.len() == template.len(),
    ensures
        merged(tokens, merged(tokens, template, param), param) == merged(tokens, template, param),
{
    assert(merged(tokens, merged(tokens, template, param), param) =~= merged(
        tokens,
        template,
        param,
    ));
}

/// A line merged with itself is the line.
pub proof fn lemma_merged_same(tokens: Seq<Seq<char>>, param: Seq<char>)
    ensures
        merged(tokens, tokens, param) == tokens,
{
    assert(merged(tokens, tokens, param) =~= tokens);
}

/// A line is as alike to a template that has absorbed it as it was to
/// the template before, and the template has no fewer wildcards.
pub proof fn lemma_merged_score(
    tokens: Seq<Seq<char>>,
    template: Seq<Seq<char>>,
    param: Seq<char>,
    k: nat,
)
    requires
        tokens.len() == template.len(),
        k <= tokens.len(),
    ensures
        alike(tokens, merged(tokens, template, param), param, k) == alike(
            tokens,
            template,
            param,
            k,
        ),
        wildcards(merged(tokens, template, param), param, k) >= wildcards(template, param, k),
    decreases k,
{
    if k > 0 {
        lemma_merged_score(tokens, template, param, (k - 1) as nat);
    }
}

/// A line without the wildcard marker is alike to itself at every
/// position.
pub proof fn lemma_alike_same(tokens: Seq<Seq<char>>, param: Seq<char>, k: nat)
    requires
        k <= tokens.len(),
        forall|i: int| 0 <= i < tokens.len() ==> #[trigger] tokens[i] != param,
    ensures
        alike(tokens, tokens, param, k) == k,
        wildcards(tokens, param, k) == 0,
    decreases k,
{
    if k > 0 {
        lemma_alike_same(tokens, param, (k - 1) as nat);
    }
}

impl Threshold {
    /// What reaches the threshold still reaches it with more positions
    /// alike, and a line alike at every position reaches it.
    pub proof fn lemma_met_by_more(self, matched: nat, more: nat, total: nat)
        requires
            self.valid(),
            matched <= more,
        ensures
            self.met_by(matched, total) ==> self.met_by(more, total),
            self.met_by(total, total),
    {
        assert(matched * self.denominator <= more * self.denominator) by (nonlinear_arith)
            requires
                matched <= more,
                0 <= self.denominator,
        ;
        assert(total * self.denominator >= self.numerator * total) by (nonlinear_arith)
            requires
                self.numerator <= self.denominator,
                0 <= total,
        ;
    }
}

} // verus!
