//! The naive-Bayes classifier that learns, per link, which streams tend to
//! be satisfied through it.
//!
//! The model counts: how often each link was seen, and how often each stream
//! was seen on each link. Probabilities are quotients of these counts and are
//! kept exact, as a numerator and a denominator.

use crate::hbfi::{HBFIOnlyKeys, HBFI};
use crate::link::LinkId;
use vstd::prelude::*;

verus! {

/// Denominator of the probability that stands in for a stream never seen on
/// a link: one in a thousand million.
pub const MIN_PROB_DEN: u128 = 1_000_000_000;

/// The logarithm that stands in for a stream never seen on a link.
pub const MIN_LOG_PROB: i64 = -100;

/// What one sighting of a request adds to the counts.
pub const TRAIN: i64 = 1;

/// What one sighting of a response adds to the counts.
pub const SUPER_TRAIN: i64 = 4;

/// The sum of the counts of the links in `order`.
pub open spec fn sum_counts(order: Seq<u32>, counts: Map<u32, int>) -> int
    decreases order.len(),
{
    if order.len() == 0 {
        0
    } else {
        sum_counts(order.drop_last(), counts) + counts[order.last()]
    }
}

/// The model: the links in the order in which they were first seen, the
/// count of each link, the streams seen, and the count of each stream on each
/// link. Links are told apart by their lookup number, streams by their index
/// without its offset.
pub struct BayesView {
    pub order: Seq<u32>,
    pub counts: Map<u32, int>,
    pub known: Set<HBFI>,
    pub frequencies: Map<(HBFI, u32), int>,
}

/// A probability, or a weight, as an exact quotient.
#[derive(Clone, Copy, PartialEq, Eq, Debug)]
pub struct Ratio {
    pub num: u128,
    pub den: u128,
}

/// A weight in the log domain: `shift + ln(num / den)`, or minus infinity.
#[derive(Clone, Copy, PartialEq, Eq, Debug)]
pub enum LogRatio {
    Log { num: u128, den: u128, shift: i64 },
    MinusInfinity,
}

/// A link with the weight that a classification gave it.
#[derive(Clone, Copy, PartialEq, Eq, Debug)]
pub struct LinkWeight {
    pub linkid: LinkId,
    pub weight: Ratio,
}

/// A link with the weight that a classification in the log domain gave it.
#[derive(Clone, Copy, PartialEq, Eq, Debug)]
pub struct LinkLogWeight {
    pub linkid: LinkId,
    pub weight: LogRatio,
}

/// Whether the quotient `a.0 / a.1` is less than `b.0 / b.1`, both with a
/// positive denominator.
pub open spec fn ratio_lt(a: (int, int), b: (int, int)) -> bool {
    a.0 * b.1 < b.0 * a.1
}

/// Whether the two quotients are the same number.
pub open spec fn ratio_eq(a: (int, int), b: (int, int)) -> bool {
    a.0 * b.1 == b.0 * a.1
}

impl Ratio {
    pub open spec fn view(self) -> (int, int) {
        (self.num as int, self.den as int)
    }
}

impl LogRatio {
    /// Whether the weight is zero: the logarithm of one, with nothing added.
    pub open spec fn is_zero(self) -> bool {
        self matches LogRatio::Log { num, den, shift } && num == den && shift == 0
    }
}

impl BayesView {
    /// The model that has seen nothing.
    pub open spec fn empty() -> BayesView {
        BayesView {
            order: Seq::empty(),
            counts: Map::empty(),
            known: Set::empty(),
            frequencies: Map::empty(),
        }
    }

    /// The count of a link, if the model knows the link.
    pub open spec fn count(self, link: u32) -> Option<int> {
        if self.counts.dom().contains(link) {
            Some(self.counts[link])
        } else {
            None
        }
    }

    /// The sum of the counts of all links.
    pub open spec fn total(self) -> int {
        sum_counts(self.order, self.counts)
    }

    /// The count of a stream on a link, if the stream was seen on the link.
    pub open spec fn frequency(self, stream: HBFI, link: u32) -> Option<int> {
        if self.frequencies.dom().contains((stream, link)) {
            Some(self.frequencies[(stream, link)])
        } else {
            None
        }
    }

    /// The model after `amount` was added to the count of `link`. A link that
    /// the model did not know is the last in the order from now on.
    pub open spec fn registered(self, link: u32, amount: int) -> BayesView {
        BayesView {
            order: if self.counts.dom().contains(link) {
                self.order
            } else {
                self.order.push(link)
            },
            counts: self.counts.insert(
                link,
                amount + (if self.counts.dom().contains(link) {
                    self.counts[link]
                } else {
                    0
                }),
            ),
            ..self
        }
    }

    /// The model after `stream` was seen on `link` with the weight `amount`:
    /// the count of the link and the count of the stream on the link rise by
    /// `amount`.
    pub open spec fn trained(self, stream: HBFI, link: u32, amount: int) -> BayesView {
        BayesView {
            known: self.known.insert(stream),
            frequencies: self.frequencies.insert(
                (stream, link),
                amount + (if self.frequencies.dom().contains((stream, link)) {
                    self.frequencies[(stream, link)]
                } else {
                    0
                }),
            ),
            ..self.registered(link, amount)
        }
    }

    /// The share of a link in all that was seen: its count over the total.
    /// There is none for a link that the model does not know, nor while
    /// nothing was seen.
    pub open spec fn prior(self, link: u32) -> Option<(int, int)> {
        if self.counts.dom().contains(link) && self.total() > 0 {
            Some((self.counts[link], self.total()))
        } else {
            None
        }
    }

    /// The prior of a link in the log domain: the logarithm of its count over
    /// the total, which is minus infinity for the count 0.
    pub open spec fn log_prior(self, link: u32) -> Option<LogRatio> {
        match self.prior(link) {
            Some(p) => Some(
                if p.0 > 0 {
                    LogRatio::Log { num: p.0 as u128, den: p.1 as u128, shift: 0 }
                } else {
                    LogRatio::MinusInfinity
                },
            ),
            None => None,
        }
    }

    /// The probability of a stream given a link: the count of the stream on
    /// the link over the count of the link. A stream that was not seen on the
    /// link gets the minimal probability, one in `MIN_PROB_DEN`.
    pub open spec fn attr_prob(self, stream: HBFI, link: u32) -> (int, int) {
        if self.frequencies.dom().contains((stream, link)) {
            (self.frequencies[(stream, link)], self.counts[link])
        } else {
            (1, MIN_PROB_DEN as int)
        }
    }

    /// The weight of a link for a stream: the prior of the link times the
    /// probability of the stream given the link.
    pub open spec fn weight(self, stream: HBFI, link: u32) -> (int, int) {
        let p = self.attr_prob(stream, link);
        (p.0 * self.counts[link], p.1 * self.total())
    }

    /// The weight of a link for a stream as classification hands it out: on
    /// the denominator that all links share, the total times `MIN_PROB_DEN`.
    pub open spec fn scaled_weight(self, stream: HBFI, link: u32) -> int {
        if self.frequencies.dom().contains((stream, link)) {
            self.frequencies[(stream, link)] * MIN_PROB_DEN as int
        } else {
            self.counts[link]
        }
    }

    /// The rank of a link for a stream in the log domain, and the number
    /// under the logarithm. A stream seen on the link ranks first, with its
    /// count under the logarithm. A stream not seen on the link ranks second:
    /// the count of the link is under the logarithm, which `MIN_LOG_PROB` is
    /// added to, and no count is so large as to make up for that. A link with
    /// the count 0 ranks last, at minus infinity.
    pub open spec fn log_rank(self, stream: HBFI, link: u32) -> (int, int) {
        if self.frequencies.dom().contains((stream, link)) {
            (2, self.frequencies[(stream, link)])
        } else if self.counts[link] > 0 {
            (1, self.counts[link])
        } else {
            (0, 0)
        }
    }

    /// The place of a link in the order of first sightings.
    pub open spec fn place(self, link: u32) -> int {
        self.order.index_of(link)
    }

    /// What holds of every model: no link stands twice in the order; the
    /// links counted are those in the order; no count is negative; a stream
    /// counted on a link was seen, on a link that is counted, at least once
    /// and no more often than the link itself.
    pub open spec fn wf(self) -> bool {
        &&& self.order.no_duplicates()
        &&& forall|link: u32| self.counts.dom().contains(link) <==> self.order.contains(link)
        &&& forall|link: u32| self.counts.dom().contains(link) ==> 0 <= #[trigger] self.counts[link]
        &&& forall|stream: HBFI, link: u32| #[trigger]
            self.frequencies.dom().contains((stream, link)) ==> {
                &&& self.known.contains(stream)
                &&& self.counts.dom().contains(link)
                &&& 1 <= self.frequencies[(stream, link)] <= self.counts[link]
            }
    }
}

/// Counts elsewhere in the map do not change the sum over `order`.
pub proof fn lemma_sum_insert_absent(order: Seq<u32>, counts: Map<u32, int>, link: u32, value: int)
    requires
        !order.contains(link),
    ensures
        sum_counts(order, counts.insert(link, value)) == sum_counts(order, counts),
    decreases order.len(),
{
    if order.len() > 0 {
        let front = order.drop_last();
        assert forall|l: u32| front.contains(l) implies order.contains(l) by {
            let i = choose|i: int| 0 <= i < front.len() && front[i] == l;
            assert(order[i] == l);
        }
        assert(order[order.len() - 1] == order.last());
        lemma_sum_insert_absent(front, counts, link, value);
    }
}

/// Changing the count of a link that stands once in `order` changes the sum
/// by the same amount.
pub proof fn lemma_sum_insert_present(
    order: Seq<u32>,
    counts: Map<u32, int>,
    link: u32,
    value: int,
)
    requires
        order.no_duplicates(),
        order.contains(link),
    ensures
        sum_counts(order, counts.insert(link, value)) == sum_counts(order, counts) - counts[link]
            + value,
    decreases order.len(),
{
    let front = order.drop_last();
    if order.last() == link {
        assert(!front.contains(link)) by {
            if front.contains(link) {
                let i = choose|i: int| 0 <= i < front.len() && front[i] == link;
                assert(order[i] == order[order.len() - 1]);
            }
        }
        lemma_sum_insert_absent(front, counts, link, value);
    } else {
        let i = choose|i: int| 0 <= i < order.len() && order[i] == link;
        assert(front[i] == link);
        lemma_sum_insert_present(front, counts, link, value);
    }
}

/// The sum of counts that are not negative is not negative, and no count in
/// it is more than the sum.
pub proof fn lemma_sum_bounds(order: Seq<u32>, counts: Map<u32, int>)
    requires
        forall|i: int| 0 <= i < order.len() ==> 0 <= #[trigger] counts[order[i]],
    ensures
        0 <= sum_counts(order, counts),
        forall|i: int| 0 <= i < order.len() ==> #[trigger] counts[order[i]] <= sum_counts(
            order,
            counts,
        ),
    decreases order.len(),
{
    if order.len() > 0 {
        let front = order.drop_last();
        assert forall|i: int| 0 <= i < front.len() implies 0 <= #[trigger] counts[front[i]] by {
            assert(front[i] == order[i]);
        }
        lemma_sum_bounds(front, counts);
        assert forall|i: int| 0 <= i < order.len() implies #[trigger] counts[order[i]]
            <= sum_counts(order, counts) by {
            if i < front.len() {
                assert(front[i] == order[i]);
            }
        }
    }
}

/// In a model, no count is negative or more than the total.
pub proof fn lemma_count_within_total(model: BayesView, link: u32)
    requires
        model.wf(),
        model.counts.dom().contains(link),
    ensures
        0 <= model.counts[link] <= model.total(),
{
    assert forall|i: int| 0 <= i < model.order.len() implies 0 <= #[trigger] model.counts[model.order[i]] by {
        assert(model.order.contains(model.order[i]));
    }
    lemma_sum_bounds(model.order, model.counts);
    assert(model.order.contains(link));
    let i = choose|i: int| 0 <= i < model.order.len() && model.order[i] == link;
    assert(model.order[i] == link);
    assert(model.counts[model.order[i]] <= model.total());
}

/// Adding to the count of a link keeps a model a model, and adds as much to
/// the total.
pub proof fn lemma_registered(model: BayesView, link: u32, amount: int)
    requires
        model.wf(),
        amount >= 0,
    ensures
        model.registered(link, amount).wf(),
        model.registered(link, amount).total() == model.total() + amount,
{
    let next = model.registered(link, amount);
    if model.counts.dom().contains(link) {
        lemma_sum_insert_present(model.order, model.counts, link, amount + model.counts[link]);
    } else {
        lemma_sum_insert_absent(model.order, model.counts, link, amount);
        assert(next.order.drop_last() =~= model.order);
        assert(next.order.last() == link);
        assert forall|l: u32| next.counts.dom().contains(l) <==> next.order.contains(l) by {
            if next.order.contains(l) {
                let i = choose|i: int| 0 <= i < next.order.len() && next.order[i] == l;
                if i < model.order.len() {
                    assert(model.order[i] == l);
                    assert(model.order.contains(l));
                }
            }
            if model.order.contains(l) {
                let i = choose|i: int| 0 <= i < model.order.len() && model.order[i] == l;
                assert(next.order[i] == l);
            }
            assert(next.order[next.order.len() - 1] == link);
        }
        assert(next.order.no_duplicates()) by {
            assert forall|i: int, j: int|
                0 <= i < next.order.len() && 0 <= j < next.order.len() && i != j implies next.order[i]
                != next.order[j] by {
                if i < model.order.len() {
                    assert(model.order.contains(model.order[i]));
                }
                if j < model.order.len() {
                    assert(model.order.contains(model.order[j]));
                }
            }
        }
    }
}

/// Training keeps a model a model, and adds the amount to the total.
pub proof fn lemma_trained(model: BayesView, stream: HBFI, link: u32, amount: int)
    requires
        model.wf(),
        amount >= 1,
    ensures
        model.trained(stream, link, amount).wf(),
        model.trained(stream, link, amount).total() == model.total() + amount,
{
    lemma_registered(model, link, amount);
    let mid = model.registered(link, amount);
    let next = model.trained(stream, link, amount);
    assert(next.order == mid.order);
    assert(next.counts == mid.counts);
    assert forall|s: HBFI, l: u32| #[trigger]
        next.frequencies.dom().contains((s, l)) implies {
        &&& next.known.contains(s)
        &&& next.counts.dom().contains(l)
        &&& 1 <= next.frequencies[(s, l)] <= next.counts[l]
    } by {
        if (s, l) != (stream, link) {
            assert(model.frequencies.dom().contains((s, l)));
        }
    }
}

/// For a model in which only one link was ever seen, at least once, the
/// prior of that link is one: its count is the total. Its logarithm is then
/// zero. No other link has a prior.
pub proof fn lemma_prior_of_only_link(model: BayesView, link: u32, other: u32)
    requires
        model.wf(),
        model.order == seq![link],
        model.counts[link] > 0,
        other != link,
    ensures
        model.prior(link) == Some((model.counts[link], model.counts[link])),
        ratio_eq(model.prior(link)->0, (1, 1)),
        model.log_prior(link) is Some && model.log_prior(link)->0.is_zero(),
        model.prior(other) is None,
        model.log_prior(other) is None,
{
    assert(model.order.contains(link)) by {
        assert(model.order[0] == link);
    }
    assert(model.order.drop_last() =~= Seq::<u32>::empty());
    assert(sum_counts(model.order.drop_last(), model.counts) == 0);
    assert(model.order.last() == link);
    if model.order.contains(other) {
        let i = choose|i: int| 0 <= i < model.order.len() && model.order[i] == other;
        assert(false);
    }
}

/// A model trained with one stream on one link, once or more, is such a
/// model: the prior of the link is one, and no other link has a prior.
pub proof fn lemma_prior_after_training_one_link(
    stream: HBFI,
    link: u32,
    other: u32,
    amount: int,
)
    requires
        amount >= 1,
        other != link,
    ensures
        ({
            let model = BayesView::empty().trained(stream, link, amount);
            &&& model.wf()
            &&& model.prior(link) == Some((amount, amount))
            &&& ratio_eq(model.prior(link)->0, (1, 1))
            &&& model.log_prior(link) is Some && model.log_prior(link)->0.is_zero()
            &&& model.prior(other) is None
            &&& model.log_prior(other) is None
        }),
{
    let start = BayesView::empty();
    assert(start.wf());
    lemma_trained(start, stream, link, amount);
    let model = start.trained(stream, link, amount);
    assert(model.order =~= seq![link]);
    lemma_prior_of_only_link(model, link, other);
}

/// With all other counts held fixed, a link weighs the more for a stream the
/// more often the stream was seen on it.
pub proof fn lemma_more_evidence_more_weight(
    model: BayesView,
    stream: HBFI,
    link: u32,
    less: int,
    more: int,
)
    requires
        model.wf(),
        model.counts.dom().contains(link),
        model.counts[link] > 0,
        1 <= less < more,
    ensures
        ({
            let a = BayesView {
                frequencies: model.frequencies.insert((stream, link), less),
                ..model
            };
            let b = BayesView {
                frequencies: model.frequencies.insert((stream, link), more),
                ..model
            };
            &&& ratio_lt(a.weight(stream, link), b.weight(stream, link))
            &&& a.scaled_weight(stream, link) < b.scaled_weight(stream, link)
        }),
{
    lemma_count_within_total(model, link);
    let c = model.counts[link];
    let t = model.total();
    assert((less * c) * (c * t) < (more * c) * (c * t)) by (nonlinear_arith)
        requires
            less < more,
            c > 0,
            t > 0,
    ;
    assert(less * (MIN_PROB_DEN as int) < more * (MIN_PROB_DEN as int));
}

/// With all other counts held fixed, the first sighting of a stream on a link
/// makes the link weigh more for the stream: the sighting outweighs the
/// minimal probability that stood in for it, whatever count a link can have.
pub proof fn lemma_first_evidence_more_weight(
    model: BayesView,
    stream: HBFI,
    link: u32,
    seen: int,
)
    requires
        model.wf(),
        model.counts.dom().contains(link),
        model.counts[link] > 0,
        !model.frequencies.dom().contains((stream, link)),
        seen >= 1,
        model.counts[link] < seen * MIN_PROB_DEN,
    ensures
        ratio_lt(
            model.weight(stream, link),
            (BayesView {
                frequencies: model.frequencies.insert((stream, link), seen),
                ..model
            }).weight(stream, link),
        ),
        model.scaled_weight(stream, link) < (BayesView {
            frequencies: model.frequencies.insert((stream, link), seen),
            ..model
        }).scaled_weight(stream, link),
{
    lemma_count_within_total(model, link);
    let c = model.counts[link];
    let t = model.total();
    let m = MIN_PROB_DEN as int;
    assert((1 * c) * (c * t) < (seen * c) * (m * t)) by (nonlinear_arith)
        requires
            0 < c < seen * m,
            t > 0,
            m > 0,
    ;
}

/// Training a stream on a link on which it was seen before raises the weight
/// of the link for the stream, unless the link already has all the weight
/// there is.
pub proof fn lemma_training_raises_weight(model: BayesView, stream: HBFI, link: u32, amount: int)
    requires
        model.wf(),
        model.frequencies.dom().contains((stream, link)),
        model.frequencies[(stream, link)] < model.total(),
        amount >= 1,
    ensures
        ratio_lt(
            model.weight(stream, link),
            model.trained(stream, link, amount).weight(stream, link),
        ),
{
    lemma_trained(model, stream, link, amount);
    lemma_count_within_total(model, link);
    let next = model.trained(stream, link, amount);
    let f = model.frequencies[(stream, link)];
    let c = model.counts[link];
    let t = model.total();
    assert(next.frequencies[(stream, link)] == f + amount);
    assert(next.counts[link] == c + amount);
    assert(next.total() == t + amount);
    assert((f * c) * ((c + amount) * (t + amount)) < ((f + amount) * (c + amount)) * (c * t))
        by (nonlinear_arith)
        requires
            1 <= f <= c,
            f < t,
            c <= t,
            amount >= 1,
    ;
}

/// The weight that classification hands out is the weight of the model, on
/// another denominator.
pub proof fn lemma_scaled_weight(model: BayesView, stream: HBFI, link: u32)
    requires
        model.wf(),
        model.counts.dom().contains(link),
        model.total() > 0,
    ensures
        ratio_eq(
            (model.scaled_weight(stream, link), model.total() * MIN_PROB_DEN as int),
            model.weight(stream, link),
        ),
        0 <= model.scaled_weight(stream, link) <= model.total() * MIN_PROB_DEN as int,
{
    lemma_count_within_total(model, link);
    let c = model.counts[link];
    let t = model.total();
    let m = MIN_PROB_DEN as int;
    if model.frequencies.dom().contains((stream, link)) {
        let f = model.frequencies[(stream, link)];
        assert((f * m) * (c * t) == (f * c) * (t * m)) by (nonlinear_arith);
        assert(0 <= f * m <= t * m) by (nonlinear_arith)
            requires
                0 <= f <= t,
                m > 0,
        ;
    } else {
        assert(c * (m * t) == (1 * c) * (t * m)) by (nonlinear_arith);
        assert(0 <= c <= t * m) by (nonlinear_arith)
            requires
                0 <= c <= t,
                m >= 1,
        ;
    }
}

#[derive(Clone, Copy)]
struct LinkEntry {
    link: LinkId,
    count: i64,
}

#[derive(Clone, Copy)]
struct FreqEntry {
    stream: HBFI,
    link: u32,
    count: i64,
}

#[derive(Clone, Copy)]
struct Scored {
    class: u8,
    key: u128,
    index: usize,
}

/// Whether `a` stands before `b` in a ranking: by class, then by key, the
/// higher one first, and among equals the one that was there first.
spec fn outranks(a: Scored, b: Scored) -> bool {
    a.class > b.class || (a.class == b.class && (a.key > b.key || (a.key == b.key && a.index
        < b.index)))
}

/// Whether one of the scores is that of the index `i`.
spec fn holds_index(scores: Seq<Scored>, i: int) -> bool {
    exists|p: int| 0 <= p < scores.len() && (#[trigger] scores[p]).index == i
}

fn stands_before(a: &Scored, b: &Scored) -> (yes: bool)
    ensures
        yes == outranks(*a, *b),
{
    a.class > b.class || (a.class == b.class && (a.key > b.key || (a.key == b.key && a.index
        < b.index)))
}

/// Ranks the scores: the result holds each of them once, every one before
/// all that it outranks. `places` tells where each score went.
fn rank(scores: &Vec<Scored>) -> (out: (Vec<Scored>, Ghost<Seq<int>>))
    requires
        forall|i: int| 0 <= i < scores@.len() ==> (#[trigger] scores@[i]).index == i,
    ensures
        out.0@.len() == scores@.len(),
        forall|p: int|
            0 <= p < out.0@.len() ==> 0 <= (#[trigger] out.0@[p]).index < scores@.len()
                && out.0@[p] == scores@[out.0@[p].index as int],
        forall|p: int, q: int| 0 <= p < q < out.0@.len() ==> outranks(out.0@[p], out.0@[q]),
        out.1@.len() == scores@.len(),
        forall|i: int|
            0 <= i < scores@.len() ==> 0 <= (#[trigger] out.1@[i]) < out.0@.len()
                && out.0@[out.1@[i]].index == i,
{
    let mut ranked: Vec<Scored> = Vec::new();
    let ghost mut places: Seq<int> = Seq::empty();
    let mut i: usize = 0;
    while i < scores.len()
        invariant
            i <= scores@.len(),
            forall|k: int| 0 <= k < scores@.len() ==> (#[trigger] scores@[k]).index == k,
            ranked@.len() == i,
            forall|p: int|
                0 <= p < ranked@.len() ==> 0 <= (#[trigger] ranked@[p]).index < i && ranked@[p]
                    == scores@[ranked@[p].index as int],
            forall|p: int, q: int| 0 <= p < q < ranked@.len() ==> outranks(ranked@[p], ranked@[q]),
            places.len() == i,
            forall|k: int|
                0 <= k < i ==> 0 <= (#[trigger] places[k]) < ranked@.len()
                    && ranked@[places[k]].index == k,
        decreases scores@.len() - i,
    {
        let x = scores[i];
        let mut pos: usize = 0;
        while pos < ranked.len() && !stands_before(&x, &ranked[pos])
            invariant
                pos <= ranked@.len(),
                x == scores@[i as int],
                x.index == i,
                forall|p: int| 0 <= p < ranked@.len() ==> (#[trigger] ranked@[p]).index < i,
                forall|p: int| 0 <= p < pos ==> outranks(#[trigger] ranked@[p], x),
            decreases ranked@.len() - pos,
        {
            pos += 1;
        }
        let ghost before = ranked@;
        ranked.insert(pos, x);
        proof {
            let old_places = places;
            places = Seq::new(
                (i + 1) as nat,
                |k: int|
                    if k == i {
                        pos as int
                    } else if old_places[k] >= pos {
                        old_places[k] + 1
                    } else {
                        old_places[k]
                    },
            );
            assert forall|p: int, q: int| 0 <= p < q < ranked@.len() implies outranks(
                ranked@[p],
                ranked@[q],
            ) by {
                if p < pos && q > pos {
                    assert(outranks(before[p], before[q - 1]));
                } else if p > pos {
                    assert(outranks(before[p - 1], before[q - 1]));
                } else if p < pos && q < pos {
                    assert(outranks(before[p], before[q]));
                } else if p == pos {
                    assert(outranks(x, before[pos as int]));
                    if q - 1 > pos {
                        assert(outranks(before[pos as int], before[q - 1]));
                    }
                }
            }
            assert forall|k: int| 0 <= k < i + 1 implies 0 <= (#[trigger] places[k]) < ranked@.len()
                && ranked@[places[k]].index == k by {
                if k < i {
                    let was = old_places[k];
                    assert(before[was].index == k);
                }
            }
        }
        i += 1;
    }
    (ranked, Ghost(places))
}

/// The classifier.
pub struct Bayes {
    links: Vec<LinkEntry>,
    total: i64,
    streams: Vec<HBFI>,
    freqs: Vec<FreqEntry>,
    model: Ghost<BayesView>,
}

impl Bayes {
    /// The model that the classifier has learnt.
    pub closed spec fn view(&self) -> BayesView {
        self.model@
    }

    /// The link under which the classifier filed the lookup number `id`:
    /// the first one that it saw with that number.
    pub closed spec fn link_of(&self, id: u32) -> LinkId {
        self.links@[self.model@.order.index_of(id)].link
    }

    /// The classifier is in order: its model is one, and its tables hold what
    /// the model says.
    #[verifier::type_invariant]
    spec fn wf(&self) -> bool {
        &&& self.model@.wf()
        &&& self.links@.len() == self.model@.order.len()
        &&& forall|i: int|
            0 <= i < self.links@.len() ==> (#[trigger] self.links@[i]).link.lookup_id
                == self.model@.order[i] && self.links@[i].count
                == self.model@.counts[self.model@.order[i]]
        &&& self.total == self.model@.total()
        &&& forall|h: HBFI| self.model@.known.contains(h) <==> self.streams@.contains(h)
        &&& forall|j: int|
            0 <= j < self.freqs@.len() ==> self.model@.frequencies.dom().contains(
                ((#[trigger] self.freqs@[j]).stream, self.freqs@[j].link),
            ) && self.model@.frequencies[(self.freqs@[j].stream, self.freqs@[j].link)]
                == self.freqs@[j].count
        &&& forall|s: HBFI, l: u32| #[trigger]
            self.model@.frequencies.dom().contains((s, l)) ==> exists|j: int|
                0 <= j < self.freqs@.len() && (#[trigger] self.freqs@[j]).stream == s
                    && self.freqs@[j].link == l
        &&& forall|j: int, k: int|
            0 <= j < k < self.freqs@.len() ==> !((#[trigger] self.freqs@[j]).stream == (
            #[trigger] self.freqs@[k]).stream && self.freqs@[j].link == self.freqs@[k].link)
    }

    /// A classifier that has seen nothing.
    pub fn new() -> (bayes: Bayes)
        ensures
            bayes@.wf(),
            bayes@ == BayesView::empty(),
    {
        let bayes = Bayes {
            links: Vec::new(),
            total: 0,
            streams: Vec::new(),
            freqs: Vec::new(),
            model: Ghost(BayesView::empty()),
        };
        proof {
            assert forall|h: HBFI| !bayes.streams@.contains(h) by {}
        }
        bayes
    }

    /// The sum of the counts of all links.
    pub fn total(&self) -> (total: i64)
        ensures
            total == self@.total(),
            total >= 0,
            self@.wf(),
    {
        proof {
            use_type_invariant(&*self);
        }
        proof {
            assert forall|i: int| 0 <= i < self@.order.len() implies 0
                <= #[trigger] self@.counts[self@.order[i]] by {
                assert(self@.order.contains(self@.order[i]));
            }
            lemma_sum_bounds(self@.order, self@.counts);
        }
        self.total
    }

    fn find_link(&self, id: u32) -> (found: Option<usize>)
        ensures
            found matches Some(i) ==> i < self.links@.len() && self@.order[i as int] == id
                && self@.counts.dom().contains(id) && self@.order.index_of(id) == i,
            found is None ==> !self@.counts.dom().contains(id),
    {
        proof {
            use_type_invariant(&*self);
        }
        let mut i: usize = 0;
        while i < self.links.len()
            invariant
                self.wf(),
                i <= self.links@.len(),
                forall|k: int| 0 <= k < i ==> self@.order[k] != id,
            decreases self.links@.len() - i,
        {
            if self.links[i].link.lookup_id == id {
                proof {
                    assert(self@.order.contains(id));
                    self@.order.index_of_first_ensures(id);
                    let first = self@.order.index_of(id);
                    assert(self@.order[first] == id);
                }
                return Some(i);
            }
            i += 1;
        }
        proof {
            if self@.order.contains(id) {
                let k = choose|k: int| 0 <= k < self@.order.len() && self@.order[k] == id;
                assert(false);
            }
        }
        None
    }

    fn knows(&self, stream: &HBFI) -> (known: bool)
        ensures
            known == self@.known.contains(*stream),
    {
        proof {
            use_type_invariant(&*self);
        }
        let mut i: usize = 0;
        while i < self.streams.len()
            invariant
                self.wf(),
                i <= self.streams@.len(),
                forall|k: int| 0 <= k < i ==> self.streams@[k] != *stream,
            decreases self.streams@.len() - i,
        {
            if self.streams[i].same(stream) {
                assert(self.streams@.contains(*stream));
                return true;
            }
            i += 1;
        }
        proof {
            if self.streams@.contains(*stream) {
                let k = choose|k: int| 0 <= k < self.streams@.len() && self.streams@[k] == *stream;
                assert(false);
            }
        }
        false
    }

    fn find_freq(&self, stream: &HBFI, id: u32) -> (found: Option<usize>)
        ensures
            found matches Some(j) ==> j < self.freqs@.len() && self.freqs@[j as int].stream
                == *stream && self.freqs@[j as int].link == id && self@.frequencies.dom().contains(
                (*stream, id),
            ) && self@.frequencies[(*stream, id)] == self.freqs@[j as int].count,
            found is None ==> !self@.frequencies.dom().contains((*stream, id)),
    {
        proof {
            use_type_invariant(&*self);
        }
        let mut j: usize = 0;
        while j < self.freqs.len()
            invariant
                self.wf(),
                j <= self.freqs@.len(),
                forall|k: int|
                    0 <= k < j ==> !((#[trigger] self.freqs@[k]).stream == *stream
                        && self.freqs@[k].link == id),
            decreases self.freqs@.len() - j,
        {
            if self.freqs[j].link == id && self.freqs[j].stream.same(stream) {
                return Some(j);
            }
            j += 1;
        }
        proof {
            if self@.frequencies.dom().contains((*stream, id)) {
                let k = choose|k: int|
                    0 <= k < self.freqs@.len() && (#[trigger] self.freqs@[k]).stream == *stream
                        && self.freqs@[k].link == id;
                assert(false);
            }
        }
        None
    }

    /// Adds `amount` to the count of the link, which enters the model if it
    /// is new.
    fn register(&mut self, linkid: &LinkId, amount: i64)
        requires
            0 <= amount,
            old(self)@.total() + amount <= i64::MAX,
        ensures
            final(self)@ == old(self)@.registered(linkid.lookup_id, amount as int),
            final(self)@.wf(),
            forall|id: u32|
                old(self)@.counts.dom().contains(id) ==> final(self).link_of(id) == old(
                    self,
                ).link_of(id),
            !old(self)@.counts.dom().contains(linkid.lookup_id) ==> final(self).link_of(
                linkid.lookup_id,
            ) == *linkid,
    {
        proof {
            use_type_invariant(&*self);
        }
        let id = linkid.lookup_id;
        let ghost before = self@;
        let ghost next = before.registered(id, amount as int);
        proof {
            lemma_registered(before, id, amount as int);
        }
        let found = self.find_link(id);
        let mut work = Bayes::new();
        core::mem::swap(self, &mut work);
        let Bayes { links, total, streams, freqs, model } = work;
        let mut links = links;
        let ghost links_before = links@;
        match found {
            Some(i) => {
                proof {
                    lemma_count_within_total(before, id);
                }
                let entry = links[i];
                links[i] = LinkEntry { link: entry.link, count: entry.count + amount };
                proof {
                    assert forall|k: int| 0 <= k < links@.len() implies (
                    #[trigger] links@[k]).link.lookup_id == next.order[k] && links@[k].count
                        == next.counts[next.order[k]] by {
                        if k != i {
                            assert(links_before[k].link.lookup_id == before.order[k]);
                            assert(before.order[k] != before.order[i as int]);
                        }
                    }
                }
            },
            None => {
                links.push(LinkEntry { link: *linkid, count: amount });
                proof {
                    assert(next.order == before.order.push(id));
                    assert forall|k: int| 0 <= k < links@.len() implies (
                    #[trigger] links@[k]).link.lookup_id == next.order[k] && links@[k].count
                        == next.counts[next.order[k]] by {
                        if k < before.order.len() {
                            assert(links_before[k].link.lookup_id == before.order[k]);
                            assert(before.order.contains(before.order[k]));
                        }
                    }
                }
            },
        }
        *self = Bayes { links, total: total + amount, streams, freqs, model: Ghost(next) };
        proof {
            assert forall|other: u32| before.counts.dom().contains(other) implies self.link_of(
                other,
            ) == old(self).link_of(other) by {
                assert(before.order.contains(other));
                before.order.index_of_first_ensures(other);
                let at = before.order.index_of(other);
                assert(next.order[at] == other);
                assert(next.order.contains(other));
                next.order.index_of_first_ensures(other);
                let now = next.order.index_of(other);
                assert(next.order[now] == other);
                assert(now == at);
                assert(self.links@[at].link == links_before[at].link);
            }
            if !before.counts.dom().contains(id) {
                assert(next.order[before.order.len() as int] == id);
                assert(next.order.contains(id));
                next.order.index_of_first_ensures(id);
                let at = next.order.index_of(id);
                assert(next.order[at] == id);
                assert(at == before.order.len());
            }
        }
    }

    /// Registers a link. A link that the classifier does not know enters the
    /// model with the count 0, behind all links known; a known link stays as
    /// it is.
    pub fn add_link(&mut self, linkid: &LinkId)
        ensures
            final(self)@.wf(),
            final(self)@ == old(self)@.registered(linkid.lookup_id, 0),
            final(self)@.total() == old(self)@.total(),
            forall|id: u32|
                old(self)@.counts.dom().contains(id) ==> final(self).link_of(id) == old(
                    self,
                ).link_of(id),
            !old(self)@.counts.dom().contains(linkid.lookup_id) ==> final(self).link_of(
                linkid.lookup_id,
            ) == *linkid,
    {
        proof {
            use_type_invariant(&*self);
            lemma_registered(self@, linkid.lookup_id, 0);
            assert forall|i: int| 0 <= i < self@.order.len() implies 0
                <= #[trigger] self@.counts[self@.order[i]] by {
                assert(self@.order.contains(self@.order[i]));
            }
            lemma_sum_bounds(self@.order, self@.counts);
        }
        self.register(linkid, 0);
    }

    fn learn(&mut self, data: &HBFI, linkid: &LinkId, amount: i64)
        requires
            1 <= amount,
            old(self)@.total() + amount <= i64::MAX,
        ensures
            final(self)@ == old(self)@.trained(
                HBFIOnlyKeys(*data).stream(),
                linkid.lookup_id,
                amount as int,
            ),
            final(self)@.wf(),
            final(self)@.total() == old(self)@.total() + amount,
            forall|id: u32|
                old(self)@.counts.dom().contains(id) ==> final(self).link_of(id) == old(
                    self,
                ).link_of(id),
            !old(self)@.counts.dom().contains(linkid.lookup_id) ==> final(self).link_of(
                linkid.lookup_id,
            ) == *linkid,
    {
        proof {
            use_type_invariant(&*self);
        }
        let stream = HBFI { ost: 0, ..*data };
        let id = linkid.lookup_id;
        let ghost before = self@;
        let ghost next = before.trained(stream, id, amount as int);
        proof {
            lemma_trained(before, stream, id, amount as int);
            lemma_registered(before, id, amount as int);
        }
        self.register(linkid, amount);
        proof {
            use_type_invariant(&*self);
        }
        let ghost mid = self@;
        let ghost mid_links = self.links@;
        let known = self.knows(&stream);
        let found = self.find_freq(&stream, id);
        let mut work = Bayes::new();
        core::mem::swap(self, &mut work);
        let Bayes { links, total, streams, freqs, model } = work;
        let mut streams = streams;
        let mut freqs = freqs;
        let ghost streams_before = streams@;
        let ghost freqs_before = freqs@;
        if !known {
            streams.push(stream);
        }
        match found {
            Some(j) => {
                proof {
                    lemma_count_within_total(before, id);
                    assert(before.frequencies[(stream, id)] <= before.counts[id]);
                }
                let entry = freqs[j];
                freqs[j] = FreqEntry { stream, link: id, count: entry.count + amount };
            },
            None => {
                freqs.push(FreqEntry { stream, link: id, count: amount });
            },
        }
        proof {
            assert(next.order == mid.order);
            assert(next.counts == mid.counts);
            assert forall|h: HBFI| next.known.contains(h) <==> streams@.contains(h) by {
                if streams_before.contains(h) {
                    let k = choose|k: int| 0 <= k < streams_before.len() && streams_before[k] == h;
                    assert(streams@[k] == h);
                }
                if streams@.contains(h) {
                    let k = choose|k: int| 0 <= k < streams@.len() && streams@[k] == h;
                    if k < streams_before.len() {
                        assert(streams_before[k] == h);
                        assert(streams_before.contains(h));
                    }
                }
                if h == stream {
                    if !before.known.contains(stream) {
                        assert(streams@[streams_before.len() as int] == stream);
                    }
                }
            }
            assert forall|j: int| 0 <= j < freqs@.len() implies next.frequencies.dom().contains(
                ((#[trigger] freqs@[j]).stream, freqs@[j].link),
            ) && next.frequencies[(freqs@[j].stream, freqs@[j].link)] == freqs@[j].count by {
                if j < freqs_before.len() {
                    let e = freqs_before[j];
                    assert(before.frequencies.dom().contains((e.stream, e.link)));
                }
            }
            assert forall|s: HBFI, l: u32| #[trigger]
                next.frequencies.dom().contains((s, l)) implies exists|j: int|
                0 <= j < freqs@.len() && (#[trigger] freqs@[j]).stream == s && freqs@[j].link
                    == l by {
                if (s, l) == (stream, id) {
                    if before.frequencies.dom().contains((stream, id)) {
                        let j = choose|j: int|
                            0 <= j < freqs_before.len() && (#[trigger] freqs_before[j]).stream
                                == stream && freqs_before[j].link == id;
                        assert(freqs@[j].stream == s && freqs@[j].link == l);
                    } else {
                        let j = freqs_before.len() as int;
                        assert(freqs@[j].stream == s && freqs@[j].link == l);
                    }
                } else {
                    assert(before.frequencies.dom().contains((s, l)));
                    let j = choose|j: int|
                        0 <= j < freqs_before.len() && (#[trigger] freqs_before[j]).stream == s
                            && freqs_before[j].link == l;
                    assert(freqs@[j].stream == s && freqs@[j].link == l);
                }
            }
        }
        *self = Bayes { links, total, streams, freqs, model: Ghost(next) };
        proof {
            assert(self.links@ == mid_links);
        }
    }

    /// Learns from a request for `data` that was seen on the link: the count
    /// of the link and the count of the stream on the link rise by one.
    pub fn train(&mut self, data: &HBFI, linkid: &LinkId)
        requires
            old(self)@.total() + TRAIN <= i64::MAX,
        ensures
            final(self)@.wf(),
            final(self)@ == old(self)@.trained(
                HBFIOnlyKeys(*data).stream(),
                linkid.lookup_id,
                TRAIN as int,
            ),
            final(self)@.total() == old(self)@.total() + TRAIN,
            forall|id: u32|
                old(self)@.counts.dom().contains(id) ==> final(self).link_of(id) == old(
                    self,
                ).link_of(id),
            !old(self)@.counts.dom().contains(linkid.lookup_id) ==> final(self).link_of(
                linkid.lookup_id,
            ) == *linkid,
    {
        self.learn(data, linkid, TRAIN);
    }

    /// Learns from a response for `data` that came from the link: the counts
    /// rise by four, as a response is better evidence than a request.
    pub fn super_train(&mut self, data: &HBFI, linkid: &LinkId)
        requires
            old(self)@.total() + SUPER_TRAIN <= i64::MAX,
        ensures
            final(self)@.wf(),
            final(self)@ == old(self)@.trained(
                HBFIOnlyKeys(*data).stream(),
                linkid.lookup_id,
                SUPER_TRAIN as int,
            ),
            final(self)@.total() == old(self)@.total() + SUPER_TRAIN,
            forall|id: u32|
                old(self)@.counts.dom().contains(id) ==> final(self).link_of(id) == old(
                    self,
                ).link_of(id),
            !old(self)@.counts.dom().contains(linkid.lookup_id) ==> final(self).link_of(
                linkid.lookup_id,
            ) == *linkid,
    {
        self.learn(data, linkid, SUPER_TRAIN);
    }

    /// The count of the link, if the classifier knows it.
    pub fn get_count(&self, linkid: &LinkId) -> (count: Option<i64>)
        ensures
            match count {
                Some(c) => self@.count(linkid.lookup_id) == Some(c as int),
                None => self@.count(linkid.lookup_id) is None,
            },
    {
        proof {
            use_type_invariant(&*self);
        }
        match self.find_link(linkid.lookup_id) {
            Some(i) => Some(self.links[i].count),
            None => None,
        }
    }

    /// The count of the stream of `bfis` on the link, if it was seen there,
    /// and whether the stream was seen at all.
    pub fn get_frequency(&self, bfis: &HBFIOnlyKeys, linkid: &LinkId) -> (out: (Option<i64>, bool))
        ensures
            match out.0 {
                Some(f) => self@.frequency(bfis.stream(), linkid.lookup_id) == Some(f as int),
                None => self@.frequency(bfis.stream(), linkid.lookup_id) is None,
            },
            out.1 == self@.known.contains(bfis.stream()),
    {
        proof {
            use_type_invariant(&*self);
        }
        let stream = HBFI { ost: 0, ..bfis.0 };
        let known = self.knows(&stream);
        match self.find_freq(&stream, linkid.lookup_id) {
            Some(j) => (Some(self.freqs[j].count), known),
            None => (None, known),
        }
    }

    /// The prior of the link: its count over the total.
    pub fn prior(&self, linkid: &LinkId) -> (out: Option<Ratio>)
        ensures
            match out {
                Some(r) => self@.prior(linkid.lookup_id) == Some(r@) && r.den > 0,
                None => self@.prior(linkid.lookup_id) is None,
            },
    {
        proof {
            use_type_invariant(&*self);
        }
        let total = self.total();
        match self.find_link(linkid.lookup_id) {
            Some(i) => {
                if total > 0 {
                    proof {
                        lemma_count_within_total(self@, linkid.lookup_id);
                    }
                    Some(Ratio { num: self.links[i].count as u128, den: total as u128 })
                } else {
                    None
                }
            },
            None => None,
        }
    }

    /// The prior of the link in the log domain: the logarithm of its count
    /// over the total, which is minus infinity for the count 0.
    pub fn log_prior(&self, linkid: &LinkId) -> (out: Option<LogRatio>)
        ensures
            out == self@.log_prior(linkid.lookup_id),
    {
        proof {
            use_type_invariant(&*self);
        }
        match self.prior(linkid) {
            Some(r) => {
                if r.num > 0 {
                    Some(LogRatio::Log { num: r.num, den: r.den, shift: 0 })
                } else {
                    Some(LogRatio::MinusInfinity)
                }
            },
            None => None,
        }
    }

    /// The weight of the link at `i` for the stream, as class and key of a
    /// ranking. `log` chooses the log domain.
    fn score(&self, stream: &HBFI, i: usize, log: bool) -> (s: Scored)
        requires
            i < self.links@.len(),
            self@.total() > 0,
        ensures
            s.index == i,
            !log ==> s.class == 0 && s.key == self@.scaled_weight(*stream, self@.order[i as int]),
            log ==> (s.class as int, s.key as int) == self@.log_rank(
                *stream,
                self@.order[i as int],
            ),
    {
        proof {
            use_type_invariant(&*self);
        }
        let entry = self.links[i];
        let id = entry.link.lookup_id;
        proof {
            assert(self@.order.contains(id));
            lemma_count_within_total(self@, id);
            lemma_scaled_weight(self@, *stream, id);
        }
        match self.find_freq(stream, id) {
            Some(j) => {
                let f = self.freqs[j].count;
                if log {
                    Scored { class: 2, key: f as u128, index: i }
                } else {
                    Scored { class: 0, key: f as u128 * MIN_PROB_DEN, index: i }
                }
            },
            None => {
                if log {
                    if entry.count > 0 {
                        Scored { class: 1, key: entry.count as u128, index: i }
                    } else {
                        Scored { class: 0, key: 0, index: i }
                    }
                } else {
                    Scored { class: 0, key: entry.count as u128, index: i }
                }
            },
        }
    }

    fn ranking(&self, stream: &HBFI, log: bool) -> (out: Vec<Scored>)
        requires
            self@.total() > 0,
        ensures
            out@.len() == self@.order.len(),
            forall|p: int|
                0 <= p < out@.len() ==> {
                    let s = #[trigger] out@[p];
                    &&& 0 <= s.index < self@.order.len()
                    &&& !log ==> s.class == 0 && s.key == self@.scaled_weight(
                        *stream,
                        self@.order[s.index as int],
                    )
                    &&& log ==> (s.class as int, s.key as int) == self@.log_rank(
                        *stream,
                        self@.order[s.index as int],
                    )
                },
            forall|p: int, q: int| 0 <= p < q < out@.len() ==> outranks(out@[p], out@[q]),
            forall|i: int| 0 <= i < self@.order.len() ==> #[trigger] holds_index(out@, i),
    {
        proof {
            use_type_invariant(&*self);
        }
        let mut scores: Vec<Scored> = Vec::new();
        let mut i: usize = 0;
        while i < self.links.len()
            invariant
                self.wf(),
                self@.total() > 0,
                i <= self.links@.len(),
                scores@.len() == i,
                forall|k: int|
                    0 <= k < i ==> {
                        let s = #[trigger] scores@[k];
                        &&& s.index == k
                        &&& !log ==> s.class == 0 && s.key == self@.scaled_weight(
                            *stream,
                            self@.order[k],
                        )
                        &&& log ==> (s.class as int, s.key as int) == self@.log_rank(
                            *stream,
                            self@.order[k],
                        )
                    },
            decreases self.links@.len() - i,
        {
            let s = self.score(stream, i, log);
            scores.push(s);
            i += 1;
        }
        let (ranked, Ghost(places)) = rank(&scores);
        proof {
            assert forall|i: int| 0 <= i < self@.order.len() implies #[trigger] holds_index(
                ranked@,
                i,
            ) by {
                let p = places[i];
                assert(ranked@[p].index == i);
            }
        }
        ranked
    }

    /// Ranks the links by their weight for the stream of `data`.
    ///
    /// Every link that the classifier knows gets the weight that the model
    /// gives it, written on the denominator `total * MIN_PROB_DEN`. The
    /// heaviest link comes first; of two links with the same weight the one
    /// that the classifier saw first comes first. While nothing was seen no
    /// link has a prior, and the ranking is empty.
    pub fn classify(&self, data: &HBFI) -> (out: Vec<LinkWeight>)
        ensures
            self@.total() <= 0 ==> out@.len() == 0,
            self@.total() > 0 ==> out@.len() == self@.order.len(),
            forall|p: int|
                0 <= p < out@.len() ==> {
                    let id = (#[trigger] out@[p]).linkid.lookup_id;
                    &&& self@.order.contains(id)
                    &&& out@[p].linkid == self.link_of(id)
                    &&& out@[p].weight.num == self@.scaled_weight(
                        HBFIOnlyKeys(*data).stream(),
                        id,
                    )
                    &&& out@[p].weight.den == self@.total() * MIN_PROB_DEN
                    &&& ratio_eq(out@[p].weight@, self@.weight(HBFIOnlyKeys(*data).stream(), id))
                },
            forall|p: int, q: int|
                0 <= p < q < out@.len() ==> out@[p].weight.num > out@[q].weight.num || (
                out@[p].weight.num == out@[q].weight.num && self@.place(out@[p].linkid.lookup_id)
                    < self@.place(out@[q].linkid.lookup_id)),
            forall|id: u32|
                self@.total() > 0 && self@.order.contains(id) ==> exists|p: int|
                    0 <= p < out@.len() && (#[trigger] out@[p]).linkid.lookup_id == id,
    {
        proof {
            use_type_invariant(&*self);
        }
        let mut out: Vec<LinkWeight> = Vec::new();
        let total = self.total();
        if total <= 0 {
            return out;
        }
        let stream = HBFI { ost: 0, ..*data };
        let ranked = self.ranking(&stream, false);
        let den: u128 = total as u128 * MIN_PROB_DEN;
        let mut p: usize = 0;
        while p < ranked.len()
            invariant
                self.wf(),
                self@.total() > 0,
                den == self@.total() * MIN_PROB_DEN,
                p <= ranked@.len(),
                ranked@.len() == self@.order.len(),
                out@.len() == p,
                forall|k: int|
                    0 <= k < ranked@.len() ==> {
                        let s = #[trigger] ranked@[k];
                        &&& 0 <= s.index < self@.order.len()
                        &&& s.class == 0
                        &&& s.key == self@.scaled_weight(stream, self@.order[s.index as int])
                    },
                forall|k: int|
                    0 <= k < p ==> {
                        let w = #[trigger] out@[k];
                        &&& w.linkid == self.links@[ranked@[k].index as int].link
                        &&& w.linkid.lookup_id == self@.order[ranked@[k].index as int]
                        &&& w.weight.num == ranked@[k].key
                        &&& w.weight.den == den
                    },
            decreases ranked@.len() - p,
        {
            let s = ranked[p];
            out.push(
                LinkWeight { linkid: self.links[s.index].link, weight: Ratio { num: s.key, den } },
            );
            p += 1;
        }
        proof {
            assert forall|k: int| 0 <= k < out@.len() implies {
                let id = (#[trigger] out@[k]).linkid.lookup_id;
                &&& self@.order.contains(id)
                &&& out@[k].linkid == self.link_of(id)
                &&& out@[k].weight.num == self@.scaled_weight(stream, id)
                &&& out@[k].weight.den == self@.total() * MIN_PROB_DEN
                &&& ratio_eq(out@[k].weight@, self@.weight(stream, id))
                &&& self@.place(id) == ranked@[k].index
            } by {
                self.lemma_place(ranked@[k].index as int);
                lemma_scaled_weight(self@, stream, out@[k].linkid.lookup_id);
            }
            assert forall|a: int, b: int| 0 <= a < b < out@.len() implies out@[a].weight.num
                > out@[b].weight.num || (out@[a].weight.num == out@[b].weight.num && self@.place(
                out@[a].linkid.lookup_id,
            ) < self@.place(out@[b].linkid.lookup_id)) by {
                assert(outranks(ranked@[a], ranked@[b]));
                assert(self@.place(out@[a].linkid.lookup_id) == ranked@[a].index);
                assert(self@.place(out@[b].linkid.lookup_id) == ranked@[b].index);
            }
            assert forall|id: u32| self@.order.contains(id) implies exists|k: int|
                0 <= k < out@.len() && (#[trigger] out@[k]).linkid.lookup_id == id by {
                let i = choose|i: int| 0 <= i < self@.order.len() && self@.order[i] == id;
                assert(holds_index(ranked@, i));
                let k = choose|k: int| 0 <= k < ranked@.len() && (#[trigger] ranked@[k]).index == i;
                assert(out@[k].linkid.lookup_id == id);
            }
        }
        out
    }

    /// Ranks the links by their weight for the stream of `data` in the log
    /// domain.
    ///
    /// Every link that the classifier knows gets the weight that
    /// `log_weight` says. Links on which the stream was seen come first, by
    /// their count of the stream; then, under `MIN_LOG_PROB`, links on which
    /// it was not seen, by their own count; last the links at minus infinity.
    /// Of two links with the same weight the one that the classifier saw
    /// first comes first. While nothing was seen the ranking is empty.
    pub fn log_classify(&self, data: &HBFIOnlyKeys) -> (out: Vec<LinkLogWeight>)
        ensures
            self@.total() <= 0 ==> out@.len() == 0,
            self@.total() > 0 ==> out@.len() == self@.order.len(),
            forall|p: int|
                0 <= p < out@.len() ==> {
                    let id = (#[trigger] out@[p]).linkid.lookup_id;
                    &&& self@.order.contains(id)
                    &&& out@[p].linkid == self.link_of(id)
                    &&& out@[p].weight == log_weight(self@, data.stream(), id)
                },
            forall|p: int, q: int|
                0 <= p < q < out@.len() ==> log_before(
                    self@.log_rank(data.stream(), out@[p].linkid.lookup_id),
                    self@.place(out@[p].linkid.lookup_id),
                    self@.log_rank(data.stream(), out@[q].linkid.lookup_id),
                    self@.place(out@[q].linkid.lookup_id),
                ),
            forall|id: u32|
                self@.total() > 0 && self@.order.contains(id) ==> exists|p: int|
                    0 <= p < out@.len() && (#[trigger] out@[p]).linkid.lookup_id == id,
    {
        proof {
            use_type_invariant(&*self);
        }
        let mut out: Vec<LinkLogWeight> = Vec::new();
        let total = self.total();
        if total <= 0 {
            return out;
        }
        let stream = HBFI { ost: 0, ..data.0 };
        let ranked = self.ranking(&stream, true);
        let den: u128 = total as u128;
        let mut p: usize = 0;
        while p < ranked.len()
            invariant
                self.wf(),
                self@.total() > 0,
                den == self@.total(),
                p <= ranked@.len(),
                ranked@.len() == self@.order.len(),
                out@.len() == p,
                forall|k: int|
                    0 <= k < ranked@.len() ==> {
                        let s = #[trigger] ranked@[k];
                        &&& 0 <= s.index < self@.order.len()
                        &&& (s.class as int, s.key as int) == self@.log_rank(
                            stream,
                            self@.order[s.index as int],
                        )
                    },
                forall|k: int|
                    0 <= k < p ==> {
                        let w = #[trigger] out@[k];
                        &&& w.linkid == self.links@[ranked@[k].index as int].link
                        &&& w.linkid.lookup_id == self@.order[ranked@[k].index as int]
                        &&& w.weight == log_weight(self@, stream, w.linkid.lookup_id)
                    },
            decreases ranked@.len() - p,
        {
            let s = ranked[p];
            let weight = if s.class == 2 {
                LogRatio::Log { num: s.key, den, shift: 0 }
            } else if s.class == 1 {
                LogRatio::Log { num: s.key, den, shift: MIN_LOG_PROB }
            } else {
                LogRatio::MinusInfinity
            };
            out.push(LinkLogWeight { linkid: self.links[s.index].link, weight });
            p += 1;
        }
        proof {
            assert forall|k: int| 0 <= k < out@.len() implies {
                let id = (#[trigger] out@[k]).linkid.lookup_id;
                &&& self@.order.contains(id)
                &&& out@[k].linkid == self.link_of(id)
                &&& self@.place(id) == ranked@[k].index
            } by {
                self.lemma_place(ranked@[k].index as int);
            }
            assert forall|a: int, b: int| 0 <= a < b < out@.len() implies log_before(
                self@.log_rank(stream, out@[a].linkid.lookup_id),
                self@.place(out@[a].linkid.lookup_id),
                self@.log_rank(stream, out@[b].linkid.lookup_id),
                self@.place(out@[b].linkid.lookup_id),
            ) by {
                assert(outranks(ranked@[a], ranked@[b]));
                assert(self@.place(out@[a].linkid.lookup_id) == ranked@[a].index);
                assert(self@.place(out@[b].linkid.lookup_id) == ranked@[b].index);
            }
            assert forall|id: u32| self@.order.contains(id) implies exists|k: int|
                0 <= k < out@.len() && (#[trigger] out@[k]).linkid.lookup_id == id by {
                let i = choose|i: int| 0 <= i < self@.order.len() && self@.order[i] == id;
                assert(holds_index(ranked@, i));
                let k = choose|k: int| 0 <= k < ranked@.len() && (#[trigger] ranked@[k]).index == i;
                assert(out@[k].linkid.lookup_id == id);
            }
        }
        out
    }

    /// The link at `i` is filed under the lookup number at `i` of the order,
    /// and `i` is the place of that number.
    proof fn lemma_place(&self, i: int)
        requires
            self.wf(),
            0 <= i < self@.order.len(),
        ensures
            self@.order.contains(self@.order[i]),
            self@.place(self@.order[i]) == i,
            self.link_of(self@.order[i]) == self.links@[i].link,
            self.links@[i].link.lookup_id == self@.order[i],
    {
        let id = self@.order[i];
        assert(self@.order.contains(id));
        self@.order.index_of_first_ensures(id);
        let at = self@.order.index_of(id);
        assert(self@.order[at] == id);
    }
}

/// The weight of a link for a stream in the log domain: the logarithm of the
/// count of the stream on the link over the total; for a stream not seen on
/// the link `MIN_LOG_PROB` plus the logarithm of the prior of the link, which
/// is minus infinity for a link with the count 0.
pub open spec fn log_weight(model: BayesView, stream: HBFI, link: u32) -> LogRatio {
    if model.frequencies.dom().contains((stream, link)) {
        LogRatio::Log {
            num: model.frequencies[(stream, link)] as u128,
            den: model.total() as u128,
            shift: 0,
        }
    } else if model.counts[link] > 0 {
        LogRatio::Log {
            num: model.counts[link] as u128,
            den: model.total() as u128,
            shift: MIN_LOG_PROB,
        }
    } else {
        LogRatio::MinusInfinity
    }
}

/// Whether a link with the log rank `a` at the place `i` stands before one
/// with the log rank `b` at the place `j`: the higher rank first, and among
/// equals the one seen first.
pub open spec fn log_before(a: (int, int), i: int, b: (int, int), j: int) -> bool {
    a.0 > b.0 || (a.0 == b.0 && (a.1 > b.1 || (a.1 == b.1 && i < j)))
}

} // verus!
