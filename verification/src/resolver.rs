//! The resolver: which recipe makes an item at a requested rate with the
//! least waste, how many runs of it in parallel, and the same for everything
//! that the recipe consumes.

use vstd::prelude::*;
use crate::error::{Failure, FlowError};
use crate::fraction::{Frac, lemma_lowest_of_multiple, lemma_quotient_valid};
use crate::hypergraph::{ascending, EdgeIndex, GraphModel, Hypergraph, NodeIndex};
use crate::rate::Rate;
use crate::recipe::Recipe;
use crate::tree::{NTree, Rose};

verus! {

/// What it comes to when one recipe is run for a requested rate.
pub struct Appraisal {
    /// The part behind the point of the number of runs that the rate asks for.
    pub waste: Frac,
    /// The number of runs in parallel that meets the rate.
    pub multiplier: int,
}

/// The appraisal of `recipe` as a producer of `widget` at the rate `requested`.
pub open spec fn appraise(recipe: Recipe, widget: u64, requested: Frac) -> Result<
    Appraisal,
    Failure,
> {
    match recipe.spec_rate(widget) {
        Err(failure) => Err(failure),
        Ok(rate) => {
            let runs = requested.quotient(rate);
            if !requested.quotient_fits(rate) || !runs.ceil_fits() {
                Err(Failure::RateOverflow)
            } else {
                Ok(Appraisal { waste: runs.fract(), multiplier: runs.ceil() })
            }
        },
    }
}

/// The waste and the number of runs of `recipe` as a producer of `widget` at
/// the rate `requested`.
pub fn appraise_recipe(recipe: &Recipe, widget: u64, requested: &Rate) -> (r: Result<
    (Rate, u64),
    FlowError,
>)
    ensures
        match appraise(*recipe, widget, requested@) {
            Ok(appraisal) => r is Ok && r->Ok_0.0@ == appraisal.waste && r->Ok_0.1
                == appraisal.multiplier && appraisal.waste.valid(),
            Err(failure) => r is Err && r->Err_0@ == failure,
        },
{
    let rate = match recipe.rate(widget) {
        Ok(rate) => rate,
        Err(error) => {
            return Err(error);
        },
    };
    let runs = match requested.checked_div(&rate) {
        Some(runs) => runs,
        None => {
            return Err(FlowError::RateOverflow);
        },
    };
    match runs.ceil() {
        Some(multiplier) => Ok((runs.fract(), multiplier)),
        None => Err(FlowError::RateOverflow),
    }
}

/// A choice among the edges that produce an item.
pub struct Pick {
    pub edge: int,
    pub waste: Frac,
    pub multiplier: int,
}

/// Whether the edge at `e` arrives at the node that goes by `target`.
pub open spec fn arrives(g: GraphModel<Recipe>, target: u64, e: int) -> bool {
    g.edges[e].destinations.contains(g.index_of(target) as NodeIndex)
}

/// The appraisal of the edge at `e` as a producer of `target`.
pub open spec fn appraisal_of(g: GraphModel<Recipe>, target: u64, requested: Frac, e: int) -> Result<
    Appraisal,
    Failure,
> {
    appraise(g.edges[e].weight, target, requested)
}

/// The choice among the edges below `upto` that arrive at the node of
/// `target`: the one of least waste, and of those the first. `None` if no
/// such edge arrives there; the failure of the first edge that cannot be
/// appraised, if there is one.
pub open spec fn scan(g: GraphModel<Recipe>, target: u64, requested: Frac, upto: int) -> Result<
    Option<Pick>,
    Failure,
>
    decreases upto,
{
    if upto <= 0 {
        Ok(None)
    } else {
        let e = upto - 1;
        match scan(g, target, requested, e) {
            Err(failure) => Err(failure),
            Ok(best) => if !arrives(g, target, e) {
                Ok(best)
            } else {
                match appraisal_of(g, target, requested, e) {
                    Err(failure) => Err(failure),
                    Ok(appraisal) => if best is Some && !appraisal.waste.lt(best->Some_0.waste) {
                        Ok(best)
                    } else {
                        Ok(
                            Some(
                                Pick {
                                    edge: e,
                                    waste: appraisal.waste,
                                    multiplier: appraisal.multiplier,
                                },
                            ),
                        )
                    },
                }
            },
        }
    }
}

/// The edge that makes `target` at the rate `requested` with the least
/// waste, and the number of its runs.
pub open spec fn selection(g: GraphModel<Recipe>, target: u64, requested: Frac) -> Result<
    Pick,
    Failure,
> {
    if !g.keys.contains(target) {
        Err(Failure::NodeNotFound(target))
    } else {
        match scan(g, target, requested, g.edges.len() as int) {
            Err(failure) => Err(failure),
            Ok(None) => Err(Failure::NoProducer(target)),
            Ok(Some(pick)) => Ok(pick),
        }
    }
}

/// Edges that do not arrive at the target's node leave the choice as it is.
pub proof fn lemma_scan_skips(
    g: GraphModel<Recipe>,
    target: u64,
    requested: Frac,
    from: int,
    upto: int,
)
    requires
        0 <= from <= upto,
        forall|e: int| from <= e < upto ==> !#[trigger] arrives(g, target, e),
    ensures
        scan(g, target, requested, upto) == scan(g, target, requested, from),
    decreases upto - from,
{
    if from < upto {
        lemma_scan_skips(g, target, requested, from, upto - 1);
        assert(!arrives(g, target, upto - 1));
    }
}

/// Once an edge could not be appraised, the failure stays.
pub proof fn lemma_scan_fails(
    g: GraphModel<Recipe>,
    target: u64,
    requested: Frac,
    from: int,
    upto: int,
)
    requires
        0 <= from <= upto,
        scan(g, target, requested, from) is Err,
    ensures
        scan(g, target, requested, upto) == scan(g, target, requested, from),
    decreases upto - from,
{
    if from < upto {
        lemma_scan_fails(g, target, requested, from, upto - 1);
    }
}

/// Whether `pick` is the least-waste choice among the edges below `upto`:
/// an edge that arrives at the target's node, with its own appraisal, such
/// that no edge that arrives there wastes less and each before it wastes more.
pub open spec fn is_least_waste(
    g: GraphModel<Recipe>,
    target: u64,
    requested: Frac,
    upto: int,
    pick: Pick,
) -> bool {
    &&& 0 <= pick.edge < upto
    &&& pick.waste.valid()
    &&& arrives(g, target, pick.edge)
    &&& appraisal_of(g, target, requested, pick.edge) == Ok::<Appraisal, Failure>(
        Appraisal { waste: pick.waste, multiplier: pick.multiplier },
    )
    &&& forall|e: int|
        0 <= e < upto && #[trigger] arrives(g, target, e) ==> {
            &&& appraisal_of(g, target, requested, e) is Ok
            &&& !appraisal_of(g, target, requested, e)->Ok_0.waste.lt(pick.waste)
            &&& e < pick.edge ==> pick.waste.lt(appraisal_of(g, target, requested, e)->Ok_0.waste)
        }
}

/// Whether `failure` is what the first edge below `upto` that cannot be
/// appraised fails with.
pub open spec fn is_first_failure(
    g: GraphModel<Recipe>,
    target: u64,
    requested: Frac,
    upto: int,
    failure: Failure,
) -> bool {
    exists|e: int|
        {
            &&& 0 <= e < upto
            &&& #[trigger] arrives(g, target, e)
            &&& appraisal_of(g, target, requested, e) == Err::<Appraisal, Failure>(failure)
            &&& forall|f: int|
                0 <= f < e && #[trigger] arrives(g, target, f) ==> appraisal_of(
                    g,
                    target,
                    requested,
                    f,
                ) is Ok
        }
}

/// The least-waste law: the choice among the edges that arrive at the
/// target's node is one of least waste, and of those the first; there is no
/// choice only if no edge arrives there; and a failure is that of the first
/// edge that cannot be appraised.
pub proof fn lemma_scan_picks(g: GraphModel<Recipe>, target: u64, requested: Frac, upto: int)
    requires
        requested.valid(),
        forall|e: int| 0 <= e < g.edges.len() ==> (#[trigger] g.edges[e]).weight.duration@.valid(),
        0 <= upto <= g.edges.len(),
    ensures
        match scan(g, target, requested, upto) {
            Err(failure) => is_first_failure(g, target, requested, upto, failure),
            Ok(None) => forall|e: int| 0 <= e < upto ==> !#[trigger] arrives(g, target, e),
            Ok(Some(pick)) => is_least_waste(g, target, requested, upto, pick),
        },
    decreases upto,
{
    if upto > 0 {
        let e = upto - 1;
        lemma_scan_picks(g, target, requested, e);
        match scan(g, target, requested, e) {
            Err(failure) => {
                let w = choose|w: int|
                    {
                        &&& 0 <= w < e
                        &&& #[trigger] arrives(g, target, w)
                        &&& appraisal_of(g, target, requested, w) == Err::<Appraisal, Failure>(
                            failure,
                        )
                        &&& forall|f: int|
                            0 <= f < w && #[trigger] arrives(g, target, f) ==> appraisal_of(
                                g,
                                target,
                                requested,
                                f,
                            ) is Ok
                    };
                assert(0 <= w < upto && arrives(g, target, w));
            },
            Ok(best) => {
                if arrives(g, target, e) {
                    assert(g.edges[e].weight.duration@.valid());
                    match appraisal_of(g, target, requested, e) {
                        Err(failure) => {
                            assert(forall|f: int|
                                0 <= f < e && #[trigger] arrives(g, target, f) ==> appraisal_of(
                                    g,
                                    target,
                                    requested,
                                    f,
                                ) is Ok);
                            assert(is_first_failure(g, target, requested, upto, failure));
                        },
                        Ok(appraisal) => {
                            lemma_appraisal_valid(g.edges[e].weight, target, requested);
                            if best is Some && !appraisal.waste.lt(best->Some_0.waste) {
                                assert(is_least_waste(g, target, requested, upto, best->Some_0));
                            } else {
                                let pick = Pick {
                                    edge: e,
                                    waste: appraisal.waste,
                                    multiplier: appraisal.multiplier,
                                };
                                assert forall|f: int|
                                    0 <= f < upto && #[trigger] arrives(g, target, f) implies {
                                    &&& appraisal_of(g, target, requested, f) is Ok
                                    &&& !appraisal_of(g, target, requested, f)->Ok_0.waste.lt(
                                        pick.waste,
                                    )
                                    &&& f < pick.edge ==> pick.waste.lt(
                                        appraisal_of(g, target, requested, f)->Ok_0.waste,
                                    )
                                } by {
                                    if f < e {
                                        let other = appraisal_of(g, target, requested, f)->Ok_0.waste;
                                        assert(g.edges[f].weight.duration@.valid());
                                        lemma_appraisal_valid(g.edges[f].weight, target, requested);
                                        crate::fraction::lemma_lt_transitive(
                                            appraisal.waste,
                                            best->Some_0.waste,
                                            other,
                                        );
                                    }
                                }
                                assert(is_least_waste(g, target, requested, upto, pick));
                            }
                        },
                    }
                } else {
                    if best is Some {
                        assert(is_least_waste(g, target, requested, upto, best->Some_0));
                    }
                }
            },
        }
    }
}

/// The waste of an appraisal is a valid fraction below one, and the number
/// of runs is not negative.
pub proof fn lemma_appraisal_valid(recipe: Recipe, widget: u64, requested: Frac)
    requires
        requested.valid(),
        recipe.duration@.valid(),
        appraise(recipe, widget, requested) is Ok,
    ensures
        appraise(recipe, widget, requested)->Ok_0.waste.valid(),
        appraise(recipe, widget, requested)->Ok_0.waste.lt(Frac::from_int(1)),
        appraise(recipe, widget, requested)->Ok_0.multiplier >= 0,
{
    let yielded = Frac::from_int(recipe.produced(widget) as int);
    lemma_quotient_valid(yielded, recipe.duration@);
    let rate = recipe.spec_rate(widget)->Ok_0;
    lemma_quotient_valid(requested, rate);
    let runs = requested.quotient(rate);
    vstd::arithmetic::div_mod::lemma_mod_bound(runs.num, runs.den);
    vstd::arithmetic::div_mod::lemma_div_pos_is_pos(runs.num + runs.den - 1, runs.den);
}

/// Where the scan stands when the first `i` of the edges in `candidates`
/// have been looked at: behind the last of them.
pub open spec fn frontier(candidates: Seq<EdgeIndex>, i: int) -> int {
    if i <= 0 {
        0
    } else {
        candidates[i - 1] + 1
    }
}

/// The choice that the running best of a scan stands for.
pub open spec fn chosen(best: Option<(EdgeIndex, Rate, u64)>) -> Option<Pick> {
    match best {
        None => None,
        Some(b) => Some(Pick { edge: b.0 as int, waste: b.1@, multiplier: b.2 as int }),
    }
}

/// Between the frontier and the next candidate, and behind the last
/// candidate, no edge arrives at the target's node.
proof fn lemma_gap(
    g: GraphModel<Recipe>,
    target: u64,
    candidates: Seq<EdgeIndex>,
    i: int,
    upto: int,
)
    requires
        ascending(candidates),
        candidates.to_set() == g.incoming(g.index_of(target) as NodeIndex),
        0 <= i <= candidates.len(),
        g.edges.len() <= usize::MAX,
        i < candidates.len() ==> upto == candidates[i],
        i == candidates.len() ==> upto == g.edges.len(),
    ensures
        frontier(candidates, i) <= upto <= g.edges.len(),
        forall|e: int| frontier(candidates, i) <= e < upto ==> !#[trigger] arrives(g, target, e),
        i < candidates.len() ==> arrives(g, target, upto) && upto < g.edges.len(),
{
    let n = g.index_of(target) as NodeIndex;
    if i < candidates.len() {
        assert(candidates.contains(candidates[i]));
        assert(candidates.to_set().contains(candidates[i]));
        assert(g.incoming(n).contains(candidates[i]));
    }
    if i > 0 {
        assert(candidates.contains(candidates[i - 1]));
        assert(candidates.to_set().contains(candidates[i - 1]));
        assert(g.incoming(n).contains(candidates[i - 1]));
    }
    assert forall|e: int| frontier(candidates, i) <= e < upto implies !#[trigger] arrives(
        g,
        target,
        e,
    ) by {
        if arrives(g, target, e) {
            let edge = e as EdgeIndex;
            assert(g.incoming(n).contains(edge));
            assert(candidates.to_set().contains(edge));
            assert(candidates.contains(edge));
            let j = candidates.index_of(edge);
            assert(candidates[j] == edge);
            if j < i {
                if j < i - 1 {
                    assert(candidates[j] < candidates[i - 1]);
                }
            } else if j > i {
                assert(candidates[i] < candidates[j]);
            }
        }
    }
}

/// Which edge makes `target` at the rate `requested` with the least waste,
/// and how many runs of it in parallel meet the rate. Of several edges of
/// least waste the one with the lowest index is taken.
pub fn least_waste_heuristic(graph: &Hypergraph<Recipe>, target: u64, requested: &Rate) -> (r:
    Result<(EdgeIndex, u64), FlowError>)
    requires
        graph.wf(),
    ensures
        match selection(graph@, target, requested@) {
            Ok(pick) => r is Ok && r->Ok_0.0 == pick.edge && r->Ok_0.1 == pick.multiplier
                && pick.edge < graph@.size(),
            Err(failure) => r is Err && r->Err_0@ == failure,
        },
{
    let candidates = match graph.neighbor_of(target) {
        Ok(candidates) => candidates,
        Err(error) => {
            return Err(error);
        },
    };
    let size = graph.size();
    let ghost g = graph@;
    let mut best: Option<(EdgeIndex, Rate, u64)> = None;
    let mut i: usize = 0;
    while i < candidates.len()
        invariant
            graph.wf(),
            g == graph@,
            g.keys.contains(target),
            g.edges.len() == size,
            ascending(candidates@),
            candidates@.to_set() == g.incoming(g.index_of(target) as NodeIndex),
            i <= candidates.len(),
            scan(g, target, requested@, frontier(candidates@, i as int)) == Ok::<
                Option<Pick>,
                Failure,
            >(chosen(best)),
            best matches Some(b) ==> b.0 < g.edges.len(),
        decreases candidates.len() - i,
    {
        let edge = candidates[i];
        proof {
            lemma_gap(g, target, candidates@, i as int, edge as int);
            lemma_scan_skips(g, target, requested@, frontier(candidates@, i as int), edge as int);
            assert(frontier(candidates@, i + 1) == edge + 1);
        }
        let recipe = match graph.get_weight(edge) {
            Ok(recipe) => recipe,
            Err(error) => {
                return Err(error);
            },
        };
        match appraise_recipe(recipe, target, requested) {
            Err(error) => {
                proof {
                    lemma_scan_fails(g, target, requested@, edge + 1, g.edges.len() as int);
                }
                return Err(error);
            },
            Ok((waste, multiplier)) => {
                let better = match &best {
                    None => true,
                    Some(b) => waste.less_than(&b.1),
                };
                if better {
                    best = Some((edge, waste, multiplier));
                }
            },
        }
        i += 1;
    }
    proof {
        lemma_gap(g, target, candidates@, candidates@.len() as int, g.edges.len() as int);
        lemma_scan_skips(
            g,
            target,
            requested@,
            frontier(candidates@, candidates@.len() as int),
            g.edges.len() as int,
        );
    }
    match best {
        None => Err(FlowError::NoProducer(target)),
        Some(b) => Ok((b.0, b.2)),
    }
}

/// The rate at which `multiplier` runs of `recipe` in parallel consume a
/// reagent of which one run takes `quantity`: the quantity times the runs,
/// by the duration of one run.
pub open spec fn child_request(recipe: Recipe, quantity: u64, multiplier: u64) -> Result<
    Frac,
    Failure,
> {
    let consumed = Frac::from_int(quantity * multiplier);
    if recipe.duration@.is_zero() {
        Err(Failure::InvalidPayload)
    } else if quantity * multiplier > i64::MAX || !consumed.quotient_fits(recipe.duration@) {
        Err(Failure::RateOverflow)
    } else {
        Ok(consumed.quotient(recipe.duration@))
    }
}

/// The rate at which `multiplier` runs of `recipe` in parallel consume a
/// reagent of which one run takes `quantity`.
pub fn child_rate(recipe: &Recipe, quantity: u64, multiplier: u64) -> (r: Result<Rate, FlowError>)
    ensures
        match child_request(*recipe, quantity, multiplier) {
            Ok(rate) => r is Ok && r->Ok_0@ == rate && rate.valid(),
            Err(failure) => r is Err && r->Err_0@ == failure,
        },
{
    if recipe.duration.is_zero() {
        return Err(FlowError::InvalidPayload);
    }
    let amount = match quantity.checked_mul(multiplier) {
        Some(amount) => amount,
        None => {
            return Err(FlowError::RateOverflow);
        },
    };
    let consumed = match Rate::from_integer(amount) {
        Some(consumed) => consumed,
        None => {
            return Err(FlowError::RateOverflow);
        },
    };
    match consumed.checked_div(&recipe.duration) {
        Some(rate) => Ok(rate),
        None => Err(FlowError::RateOverflow),
    }
}

/// Whether `path` can be the keys that a resolution is busy with: keys of
/// the graph, none of them twice.
pub open spec fn on_path(g: GraphModel<Recipe>, path: Seq<u64>) -> bool {
    &&& path.no_duplicates()
    &&& forall|i: int| 0 <= i < path.len() ==> g.keys.contains(#[trigger] path[i])
}

/// A path that lacks a key of the graph has fewer keys than the graph.
pub proof fn lemma_path_shorter(g: GraphModel<Recipe>, path: Seq<u64>, target: u64)
    requires
        on_path(g, path),
        g.keys.contains(target),
        !path.contains(target),
    ensures
        path.len() < g.keys.len(),
        on_path(g, path.push(target)),
{
    let longer = path.push(target);
    assert forall|i: int, j: int| 0 <= i < longer.len() && 0 <= j < longer.len() && i
        != j implies longer[i] != longer[j] by {
        if i < path.len() {
            assert(path.contains(path[i]));
        }
        if j < path.len() {
            assert(path.contains(path[j]));
        }
    }
    longer.unique_seq_to_set();
    assert forall|key: u64| longer.to_set().contains(key) implies g.keys.to_set().contains(
        key,
    ) by {
        let at = longer.index_of(key);
        assert(longer[at] == key);
        if at < path.len() {
            assert(g.keys.contains(path[at]));
        }
    }
    vstd::seq_lib::seq_to_set_is_finite(g.keys);
    vstd::set_lib::lemma_len_subset(longer.to_set(), g.keys.to_set());
    g.keys.lemma_cardinality_of_set();
}

/// The dependency tree of `target` at the rate `requested`, while the keys
/// of `path` are being resolved above it. Its root pairs the recipe of the
/// chosen edge with the number of its runs; below it stands one tree for
/// each reagent of that recipe, in the recipe's order, each resolved at the
/// rate at which those runs consume the reagent. Coming back to a key of
/// `path` is a cycle.
pub open spec fn resolution(g: GraphModel<Recipe>, target: u64, requested: Frac, path: Seq<u64>) -> Result<
    Rose<(EdgeIndex, u64)>,
    Failure,
>
    decreases g.keys.len() - path.len(), 0nat,
    when on_path(g, path)
    via resolution_ends
{
    if !g.keys.contains(target) {
        Err(Failure::NodeNotFound(target))
    } else if path.contains(target) {
        Err(Failure::CycleDetected(path.push(target)))
    } else {
        match selection(g, target, requested) {
            Err(failure) => Err(failure),
            Ok(pick) => match forest(
                g,
                g.edges[pick.edge].weight,
                pick.multiplier as u64,
                path.push(target),
                g.edges[pick.edge].weight.reagents@.len(),
            ) {
                Err(failure) => Err(failure),
                Ok(children) => Ok(
                    Rose { data: (pick.edge as EdgeIndex, pick.multiplier as u64), children },
                ),
            },
        }
    }
}

/// The dependency trees of the first `count` reagents of `recipe`, run
/// `multiplier` times in parallel; the failure of the first reagent that
/// cannot be resolved, if there is one.
pub open spec fn forest(
    g: GraphModel<Recipe>,
    recipe: Recipe,
    multiplier: u64,
    path: Seq<u64>,
    count: nat,
) -> Result<Seq<Rose<(EdgeIndex, u64)>>, Failure>
    decreases g.keys.len() - path.len(), count,
    when on_path(g, path)
    via forest_ends
{
    if count == 0 {
        Ok(Seq::empty())
    } else {
        let reagent = recipe.reagents@[count - 1];
        match forest(g, recipe, multiplier, path, (count - 1) as nat) {
            Err(failure) => Err(failure),
            Ok(elder) => match child_request(recipe, reagent.quantity, multiplier) {
                Err(failure) => Err(failure),
                Ok(rate) => match resolution(g, reagent.widget, rate, path) {
                    Err(failure) => Err(failure),
                    Ok(child) => Ok(elder.push(child)),
                },
            },
        }
    }
}

#[via_fn]
proof fn resolution_ends(g: GraphModel<Recipe>, target: u64, requested: Frac, path: Seq<u64>) {
    if g.keys.contains(target) && !path.contains(target) {
        lemma_path_shorter(g, path, target);
    }
}

#[via_fn]
proof fn forest_ends(
    g: GraphModel<Recipe>,
    recipe: Recipe,
    multiplier: u64,
    path: Seq<u64>,
    count: nat,
) {
}

/// Once a reagent could not be resolved, the failure stays.
pub proof fn lemma_forest_fails(
    g: GraphModel<Recipe>,
    recipe: Recipe,
    multiplier: u64,
    path: Seq<u64>,
    from: nat,
    upto: nat,
)
    requires
        on_path(g, path),
        from <= upto,
        forest(g, recipe, multiplier, path, from) is Err,
    ensures
        forest(g, recipe, multiplier, path, upto) == forest(g, recipe, multiplier, path, from),
    decreases upto - from,
{
    if from < upto {
        lemma_forest_fails(g, recipe, multiplier, path, from, (upto - 1) as nat);
    }
}

/// Whether `key` stands in `path`.
fn path_holds(path: &Vec<u64>, key: u64) -> (found: bool)
    ensures
        found == path@.contains(key),
{
    let mut i: usize = 0;
    while i < path.len()
        invariant
            i <= path.len(),
            forall|j: int| 0 <= j < i ==> path@[j] != key,
        decreases path.len() - i,
    {
        if path[i] == key {
            return true;
        }
        i += 1;
    }
    false
}

/// `path` with `key` behind it.
fn path_with(path: &Vec<u64>, key: u64) -> (longer: Vec<u64>)
    ensures
        longer@ == path@.push(key),
{
    let mut longer: Vec<u64> = Vec::new();
    let mut i: usize = 0;
    while i < path.len()
        invariant
            i <= path.len(),
            longer@ == path@.take(i as int),
        decreases path.len() - i,
    {
        longer.push(path[i]);
        assert(path@.take(i + 1) == path@.take(i as int).push(path@[i as int]));
        i += 1;
    }
    assert(path@.take(path@.len() as int) == path@);
    longer.push(key);
    longer
}

/// The dependency tree of `target` at the rate `requested`, while the keys
/// of `path` are being resolved above it.
pub fn dep_tree(graph: &Hypergraph<Recipe>, target: u64, requested: Rate, path: &Vec<u64>) -> (r:
    Result<NTree<(EdgeIndex, u64)>, FlowError>)
    requires
        graph.wf(),
        on_path(graph@, path@),
    ensures
        match resolution(graph@, target, requested@, path@) {
            Ok(plan) => r is Ok && r->Ok_0@ == plan,
            Err(failure) => r is Err && r->Err_0@ == failure,
        },
    decreases graph@.keys.len() - path@.len(), 0nat,
{
    match graph.neighbor_of(target) {
        Ok(_) => {},
        Err(error) => {
            return Err(error);
        },
    }
    if path_holds(path, target) {
        return Err(FlowError::CycleDetected(path_with(path, target)));
    }
    let (edge, multiplier) = match least_waste_heuristic(graph, target, &requested) {
        Ok(pick) => pick,
        Err(error) => {
            return Err(error);
        },
    };
    let recipe = match graph.get_weight(edge) {
        Ok(recipe) => recipe,
        Err(error) => {
            return Err(error);
        },
    };
    let deeper = path_with(path, target);
    proof {
        lemma_path_shorter(graph@, path@, target);
    }
    let mut tree = NTree::new((edge, multiplier));
    let mut i: usize = 0;
    while i < recipe.reagents.len()
        invariant
            graph.wf(),
            on_path(graph@, path@),
            on_path(graph@, deeper@),
            deeper@ == path@.push(target),
            path@.len() < graph@.keys.len(),
            graph@.keys.contains(target),
            !path@.contains(target),
            selection(graph@, target, requested@) is Ok,
            selection(graph@, target, requested@)->Ok_0.edge == edge,
            selection(graph@, target, requested@)->Ok_0.multiplier == multiplier,
            *recipe == graph@.edges[edge as int].weight,
            i <= recipe.reagents.len(),
            tree@.data == (edge, multiplier),
            forest(graph@, *recipe, multiplier, deeper@, i as nat) == Ok::<
                Seq<Rose<(EdgeIndex, u64)>>,
                Failure,
            >(tree@.children),
        decreases recipe.reagents.len() - i,
    {
        let reagent = recipe.reagents[i];
        let rate = match child_rate(recipe, reagent.quantity, multiplier) {
            Ok(rate) => rate,
            Err(error) => {
                proof {
                    lemma_forest_fails(
                        graph@,
                        *recipe,
                        multiplier,
                        deeper@,
                        (i + 1) as nat,
                        recipe.reagents@.len(),
                    );
                }
                return Err(error);
            },
        };
        match dep_tree(graph, reagent.widget, rate, &deeper) {
            Ok(child) => {
                tree.insert(child);
            },
            Err(error) => {
                proof {
                    lemma_forest_fails(
                        graph@,
                        *recipe,
                        multiplier,
                        deeper@,
                        (i + 1) as nat,
                        recipe.reagents@.len(),
                    );
                }
                return Err(error);
            },
        }
        i += 1;
    }
    Ok(tree)
}

/// The dependency tree of `target` at the rate `requested`: which recipe
/// makes the item with the least waste and in how many runs, and the same
/// for each reagent of that recipe at the rate at which the runs consume it.
pub fn resolve(graph: &Hypergraph<Recipe>, target: u64, requested: Rate) -> (r: Result<
    NTree<(EdgeIndex, u64)>,
    FlowError,
>)
    requires
        graph.wf(),
    ensures
        match resolution(graph@, target, requested@, Seq::empty()) {
            Ok(plan) => r is Ok && r->Ok_0@ == plan,
            Err(failure) => r is Err && r->Err_0@ == failure,
        },
{
    let path: Vec<u64> = Vec::new();
    dep_tree(graph, target, requested, &path)
}

/// Scaling: where a recipe makes the item at the rate `r` and the request is
/// `k` times `r` for a whole number `k`, the request is met by exactly `k`
/// runs and nothing is wasted.
pub proof fn lemma_scaled_request(recipe: Recipe, widget: u64, requested: Frac, k: int)
    requires
        recipe.duration@.valid(),
        requested.valid(),
        recipe.spec_rate(widget) is Ok,
        0 <= k < i64::MAX,
        requested.num * recipe.spec_rate(widget)->Ok_0.den == k * recipe.spec_rate(
            widget,
        )->Ok_0.num * requested.den,
        requested.quotient_fits(recipe.spec_rate(widget)->Ok_0),
    ensures
        appraise(recipe, widget, requested) == Ok::<Appraisal, Failure>(
            Appraisal { waste: Frac::from_int(0), multiplier: k },
        ),
{
    let rate = recipe.spec_rate(widget)->Ok_0;
    lemma_quotient_valid(Frac::from_int(recipe.produced(widget) as int), recipe.duration@);
    let m = requested.den * rate.num;
    assert(m > 0 && requested.num * rate.den == k * m) by (nonlinear_arith)
        requires
            requested.den > 0,
            rate.num > 0,
            m == requested.den * rate.num,
            requested.num * rate.den == k * rate.num * requested.den,
    ;
    lemma_lowest_of_multiple(k, m);
    assert(requested.quotient(rate) == Frac::from_int(k));
}

/// An item with one producer: the choice is that producer, appraised.
pub proof fn lemma_single_producer(g: GraphModel<Recipe>, target: u64, requested: Frac, e: int)
    requires
        g.keys.contains(target),
        0 <= e < g.edges.len(),
        forall|f: int| 0 <= f < g.edges.len() ==> (#[trigger] arrives(g, target, f) <==> f == e),
    ensures
        selection(g, target, requested) == match appraisal_of(g, target, requested, e) {
            Ok(appraisal) => Ok::<Pick, Failure>(
                Pick { edge: e, waste: appraisal.waste, multiplier: appraisal.multiplier },
            ),
            Err(failure) => Err::<Pick, Failure>(failure),
        },
{
    lemma_scan_skips(g, target, requested, 0, e);
    assert(arrives(g, target, e));
    if appraisal_of(g, target, requested, e) is Ok {
        lemma_scan_skips(g, target, requested, e + 1, g.edges.len() as int);
    } else {
        lemma_scan_fails(g, target, requested, e + 1, g.edges.len() as int);
    }
}

/// Scaling at an item with one producer: where the one edge that makes the
/// item makes it at the rate `r`, a request of `k` times `r` chooses that
/// edge with exactly `k` runs and no waste.
pub proof fn lemma_single_producer_scaled(
    g: GraphModel<Recipe>,
    target: u64,
    requested: Frac,
    e: int,
    k: int,
)
    requires
        g.keys.contains(target),
        0 <= e < g.edges.len(),
        forall|f: int| 0 <= f < g.edges.len() ==> (#[trigger] arrives(g, target, f) <==> f == e),
        g.edges[e].weight.duration@.valid(),
        requested.valid(),
        g.edges[e].weight.spec_rate(target) is Ok,
        0 <= k < i64::MAX,
        requested.num * g.edges[e].weight.spec_rate(target)->Ok_0.den == k
            * g.edges[e].weight.spec_rate(target)->Ok_0.num * requested.den,
        requested.quotient_fits(g.edges[e].weight.spec_rate(target)->Ok_0),
    ensures
        selection(g, target, requested) == Ok::<Pick, Failure>(
            Pick { edge: e, waste: Frac::from_int(0), multiplier: k },
        ),
{
    lemma_single_producer(g, target, requested, e);
    lemma_scaled_request(g.edges[e].weight, target, requested, k);
}

/// Least waste between two producers: of two edges that make an item, the
/// one that wastes less is chosen, whichever was inserted first.
pub proof fn lemma_lesser_waste_wins(
    g: GraphModel<Recipe>,
    target: u64,
    requested: Frac,
    a: int,
    b: int,
)
    requires
        requested.valid(),
        forall|e: int| 0 <= e < g.edges.len() ==> (#[trigger] g.edges[e]).weight.duration@.valid(),
        g.keys.contains(target),
        0 <= a < g.edges.len(),
        0 <= b < g.edges.len(),
        forall|f: int|
            0 <= f < g.edges.len() ==> (#[trigger] arrives(g, target, f) <==> f == a || f == b),
        appraisal_of(g, target, requested, a) is Ok,
        appraisal_of(g, target, requested, b) is Ok,
        appraisal_of(g, target, requested, b)->Ok_0.waste.lt(
            appraisal_of(g, target, requested, a)->Ok_0.waste,
        ),
    ensures
        selection(g, target, requested) is Ok,
        selection(g, target, requested)->Ok_0.edge == b,
        selection(g, target, requested)->Ok_0.multiplier == appraisal_of(
            g,
            target,
            requested,
            b,
        )->Ok_0.multiplier,
{
    lemma_scan_picks(g, target, requested, g.edges.len() as int);
    assert(arrives(g, target, a));
    assert(arrives(g, target, b));
    match scan(g, target, requested, g.edges.len() as int) {
        Err(failure) => {
            assert(is_first_failure(g, target, requested, g.edges.len() as int, failure));
        },
        Ok(None) => {},
        Ok(Some(pick)) => {
            assert(is_least_waste(g, target, requested, g.edges.len() as int, pick));
        },
    }
}

/// Exact propagation: the rate asked of a reagent, times the duration of one
/// run, is the quantity of the reagent times the number of runs; no rounding
/// takes place.
pub proof fn lemma_child_request_exact(recipe: Recipe, quantity: u64, multiplier: u64)
    requires
        recipe.duration@.valid(),
        child_request(recipe, quantity, multiplier) is Ok,
    ensures
        child_request(recipe, quantity, multiplier)->Ok_0.valid(),
        child_request(recipe, quantity, multiplier)->Ok_0.num * recipe.duration@.num
            == child_request(recipe, quantity, multiplier)->Ok_0.den * (quantity * multiplier
            * recipe.duration@.den),
{
    let consumed = Frac::from_int(quantity * multiplier);
    assert(quantity * multiplier >= 0) by (nonlinear_arith);
    lemma_quotient_valid(consumed, recipe.duration@);
    let rate = consumed.quotient(recipe.duration@);
    assert(rate.num * recipe.duration@.num == rate.den * (quantity * multiplier
        * recipe.duration@.den)) by (nonlinear_arith)
        requires
            rate.num * (1 * recipe.duration@.num) == rate.den * ((quantity * multiplier)
                * recipe.duration@.den),
    ;
}

/// The trees of a forest, one by one: each is the resolution of its reagent
/// at the rate at which the runs consume it.
pub proof fn lemma_forest_unfolds(
    g: GraphModel<Recipe>,
    recipe: Recipe,
    multiplier: u64,
    path: Seq<u64>,
    count: nat,
)
    requires
        on_path(g, path),
        forest(g, recipe, multiplier, path, count) is Ok,
    ensures
        forest(g, recipe, multiplier, path, count)->Ok_0.len() == count,
        forall|i: int|
            0 <= i < count ==> {
                &&& child_request(
                    recipe,
                    (#[trigger] recipe.reagents@[i]).quantity,
                    multiplier,
                ) is Ok
                &&& resolution(
                    g,
                    recipe.reagents@[i].widget,
                    child_request(recipe, recipe.reagents@[i].quantity, multiplier)->Ok_0,
                    path,
                ) == Ok::<Rose<(EdgeIndex, u64)>, Failure>(
                    forest(g, recipe, multiplier, path, count)->Ok_0[i],
                )
            },
    decreases count,
{
    if count > 0 {
        lemma_forest_unfolds(g, recipe, multiplier, path, (count - 1) as nat);
    }
}

/// What a dependency tree is: the root holds the edge of least waste for
/// the target and the number of its runs, there is one child for each
/// reagent of that edge's recipe, in the recipe's order, and each child is
/// the dependency tree of its reagent at exactly the rate at which the runs
/// consume it.
pub proof fn lemma_resolution_unfolds(
    g: GraphModel<Recipe>,
    target: u64,
    requested: Frac,
    path: Seq<u64>,
)
    requires
        on_path(g, path),
        resolution(g, target, requested, path) is Ok,
    ensures
        g.keys.contains(target),
        !path.contains(target),
        selection(g, target, requested) is Ok,
        ({
            let pick = selection(g, target, requested)->Ok_0;
            let plan = resolution(g, target, requested, path)->Ok_0;
            let recipe = g.edges[pick.edge].weight;
            &&& plan.data == (pick.edge as EdgeIndex, pick.multiplier as u64)
            &&& plan.children.len() == recipe.reagents@.len()
            &&& forall|i: int|
                0 <= i < recipe.reagents@.len() ==> {
                    &&& child_request(
                        recipe,
                        (#[trigger] recipe.reagents@[i]).quantity,
                        pick.multiplier as u64,
                    ) is Ok
                    &&& resolution(
                        g,
                        recipe.reagents@[i].widget,
                        child_request(
                            recipe,
                            recipe.reagents@[i].quantity,
                            pick.multiplier as u64,
                        )->Ok_0,
                        path.push(target),
                    ) == Ok::<Rose<(EdgeIndex, u64)>, Failure>(plan.children[i])
                }
        }),
{
    let pick = selection(g, target, requested)->Ok_0;
    let recipe = g.edges[pick.edge].weight;
    lemma_path_shorter(g, path, target);
    lemma_forest_unfolds(
        g,
        recipe,
        pick.multiplier as u64,
        path.push(target),
        recipe.reagents@.len(),
    );
}

/// A resolution that comes back to a key it is busy with reports the cycle;
/// it does not go on.
pub proof fn lemma_cycle_is_reported(
    g: GraphModel<Recipe>,
    target: u64,
    requested: Frac,
    path: Seq<u64>,
)
    requires
        on_path(g, path),
        path.contains(target),
    ensures
        resolution(g, target, requested, path) == Err::<Rose<(EdgeIndex, u64)>, Failure>(
            Failure::CycleDetected(path.push(target)),
        ),
{
    let at = path.index_of(target);
    assert(g.keys.contains(path[at]));
}

/// No dependency tree is deeper than the graph has nodes: the keys from the
/// root down to any node are keys of the graph, none of them twice.
pub proof fn lemma_depth_bounded(
    g: GraphModel<Recipe>,
    target: u64,
    requested: Frac,
    path: Seq<u64>,
)
    requires
        on_path(g, path),
        resolution(g, target, requested, path) is Ok,
    ensures
        path.len() < g.keys.len(),
        on_path(g, path.push(target)),
{
    lemma_resolution_unfolds(g, target, requested, path);
    lemma_path_shorter(g, path, target);
}

/// Whether `rank` shows the producer relation to be free of cycles: every
/// reagent of a recipe ranks below each item that the recipe's edge makes.
pub open spec fn ranked(g: GraphModel<Recipe>, rank: spec_fn(u64) -> nat) -> bool {
    forall|e: int, target: u64, i: int|
        0 <= e < g.edges.len() && g.keys.contains(target) && #[trigger] arrives(g, target, e) && 0
            <= i < g.edges[e].weight.reagents@.len() ==> rank(
            (#[trigger] g.edges[e].weight.reagents@[i]).widget,
        ) < rank(target)
}

/// Whether a failure is the report of a cycle.
pub open spec fn is_cycle(failure: Failure) -> bool {
    failure is CycleDetected
}

/// Where the producer relation is free of cycles, the reagents of an edge
/// resolve without the report of a cycle.
proof fn lemma_acyclic_forest(
    g: GraphModel<Recipe>,
    rank: spec_fn(u64) -> nat,
    e: int,
    multiplier: u64,
    path: Seq<u64>,
    count: nat,
)
    requires
        on_path(g, path),
        ranked(g, rank),
        forall|f: int| 0 <= f < g.edges.len() ==> (#[trigger] g.edges[f]).weight.duration@.valid(),
        0 <= e < g.edges.len(),
        count <= g.edges[e].weight.reagents@.len(),
        forall|i: int, j: int|
            0 <= i < count && 0 <= j < path.len() ==> rank(
                (#[trigger] g.edges[e].weight.reagents@[i]).widget,
            ) < rank(#[trigger] path[j]),
    ensures
        forest(g, g.edges[e].weight, multiplier, path, count) is Err ==> !is_cycle(
            forest(g, g.edges[e].weight, multiplier, path, count)->Err_0,
        ),
    decreases g.keys.len() - path.len(), count,
{
    if count > 0 {
        let recipe = g.edges[e].weight;
        let reagent = recipe.reagents@[count - 1];
        lemma_acyclic_forest(g, rank, e, multiplier, path, (count - 1) as nat);
        if forest(g, recipe, multiplier, path, (count - 1) as nat) is Ok {
            if child_request(recipe, reagent.quantity, multiplier) is Ok {
                lemma_child_request_exact(recipe, reagent.quantity, multiplier);
                let rate = child_request(recipe, reagent.quantity, multiplier)->Ok_0;
                assert forall|j: int| 0 <= j < path.len() implies rank(reagent.widget) < rank(
                    #[trigger] path[j],
                ) by {
                    assert(rank(recipe.reagents@[count - 1].widget) < rank(path[j]));
                }
                lemma_acyclic_resolution(g, rank, reagent.widget, rate, path);
            }
        }
    }
}

/// Termination without a cycle: where the producer relation is free of
/// cycles, a resolution ends in a tree or in a failure that is not the
/// report of a cycle.
pub proof fn lemma_acyclic_resolution(
    g: GraphModel<Recipe>,
    rank: spec_fn(u64) -> nat,
    target: u64,
    requested: Frac,
    path: Seq<u64>,
)
    requires
        on_path(g, path),
        ranked(g, rank),
        requested.valid(),
        forall|f: int| 0 <= f < g.edges.len() ==> (#[trigger] g.edges[f]).weight.duration@.valid(),
        forall|j: int| 0 <= j < path.len() ==> rank(target) < rank(#[trigger] path[j]),
    ensures
        resolution(g, target, requested, path) is Err ==> !is_cycle(
            resolution(g, target, requested, path)->Err_0,
        ),
    decreases g.keys.len() - path.len(), 0nat,
{
    if g.keys.contains(target) {
        if path.contains(target) {
            let at = path.index_of(target);
            assert(rank(target) < rank(path[at]));
        } else {
            lemma_path_shorter(g, path, target);
            lemma_scan_picks(g, target, requested, g.edges.len() as int);
            match scan(g, target, requested, g.edges.len() as int) {
                Err(failure) => {
                    assert(is_first_failure(g, target, requested, g.edges.len() as int, failure));
                },
                Ok(None) => {},
                Ok(Some(pick)) => {
                    assert(is_least_waste(g, target, requested, g.edges.len() as int, pick));
                    let recipe = g.edges[pick.edge].weight;
                    let deeper = path.push(target);
                    assert forall|i: int, j: int|
                        0 <= i < recipe.reagents@.len() && 0 <= j < deeper.len() implies rank(
                        (#[trigger] g.edges[pick.edge].weight.reagents@[i]).widget,
                    ) < rank(#[trigger] deeper[j]) by {
                        assert(arrives(g, target, pick.edge));
                        if j < path.len() {
                            assert(rank(target) < rank(path[j]));
                        }
                    }
                    lemma_acyclic_forest(
                        g,
                        rank,
                        pick.edge,
                        pick.multiplier as u64,
                        deeper,
                        recipe.reagents@.len(),
                    );
                },
            }
        }
    }
}

} // verus!
