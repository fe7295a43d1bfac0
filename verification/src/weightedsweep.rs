//! Weighted atom traversal: atom headers, the weighted random walk through a trie of
//! weighted atoms, and the chunked priority queue of the heaviest subtrees.
use vstd::prelude::*;
use vstd::multiset::Multiset;
use crate::pure::{lex_lt, dup};
use crate::trie::{
    WeightTrie, children_params, value_of, weight_under, weights_fit, max_len, has_child,
    lemma_params_below, lemma_child_depth, paths_distinct, atoms_nonneg, value_or_zero,
    lemma_weights_nonneg, lemma_atom_below_child, law_weight_is_value_plus_children, params_total,
    lemma_weight_bound, abs_total,
};

verus! {

/// The plain traversal, which walks the trie at random by weight.
#[derive(Default)]
pub struct Traverse;

/// An atom header carrying a weight.
#[derive(Debug, Clone, Copy, PartialEq, Eq, Structural, PartialOrd)]
pub struct U64AtomHeader(pub i32);

impl Default for U64AtomHeader {
    fn default() -> (r: Self)
        ensures
            r.0 == 0,
    {
        U64AtomHeader(0)
    }
}

impl From<i32> for U64AtomHeader {
    fn from(value: i32) -> (r: Self) {
        U64AtomHeader(value)
    }
}

impl vstd::std_specs::convert::FromSpecImpl<i32> for U64AtomHeader {
    open spec fn obeys_from_spec() -> bool {
        true
    }

    open spec fn from_spec(value: i32) -> Self {
        U64AtomHeader(value)
    }
}

impl From<U64AtomHeader> for i32 {
    fn from(header: U64AtomHeader) -> (r: i32) {
        header.0
    }
}

impl vstd::std_specs::convert::FromSpecImpl<U64AtomHeader> for i32 {
    open spec fn obeys_from_spec() -> bool {
        true
    }

    open spec fn from_spec(header: U64AtomHeader) -> i32 {
        header.0
    }
}

/// A header for atoms without weight; every one weighs zero.
#[derive(Debug, Clone, Copy, PartialEq, Eq, Structural, PartialOrd, Ord, Default)]
pub struct UnitHeader;

impl From<i32> for UnitHeader {
    fn from(value: i32) -> (r: Self) {
        UnitHeader
    }
}

impl vstd::std_specs::convert::FromSpecImpl<i32> for UnitHeader {
    open spec fn obeys_from_spec() -> bool {
        true
    }

    open spec fn from_spec(value: i32) -> Self {
        UnitHeader
    }
}

impl From<UnitHeader> for i32 {
    fn from(header: UnitHeader) -> (r: i32) {
        0
    }
}

impl vstd::std_specs::convert::FromSpecImpl<UnitHeader> for i32 {
    open spec fn obeys_from_spec() -> bool {
        true
    }

    open spec fn from_spec(header: UnitHeader) -> i32 {
        0
    }
}

// ---------------------------------------------------------------- the random walk

/// A walk stops at the value of the node or goes on into the child on a byte.
#[derive(Clone, Copy, Debug)]
pub enum PathChoice {
    Value(()),
    Path(u8),
}

/// Draws a number in `[0, n)` at random, from the thread's generator.
#[verifier::external_body]
fn random_below(n: i32) -> (r: i32)
    requires
        n > 0,
    ensures
        0 <= r < n,
{
    rand::random_range(0..n)
}

/// Goes down the weights from the first: the index of the first weight larger than
/// what is left of `r`, with what is left of `r` there; `None` with what is left
/// when no weight is.
pub open spec fn pick(params: Seq<(i32, u8)>, r: int) -> (Option<int>, int)
    decreases params.len(),
{
    if params.len() == 0 {
        (None, r)
    } else if r < params[0].0 {
        (Some(0), r)
    } else {
        match pick(params.drop_first(), r - params[0].0) {
            (Some(i), r2) => (Some(i + 1), r2),
            (None, r2) => (None, r2),
        }
    }
}

/// No subtraction of `pick` leaves the `i32` range.
pub open spec fn pick_fits(params: Seq<(i32, u8)>, r: int) -> bool
    decreases params.len(),
{
    if params.len() == 0 || r < params[0].0 {
        true
    } else {
        i32::MIN <= r - params[0].0 <= i32::MAX && pick_fits(params.drop_first(), r - params[0].0)
    }
}

/// What is left of `r` once the node's own value is passed: `r` minus the value,
/// or `r` itself at a node without one.
pub open spec fn past_value(here: Option<i32>, r: int) -> int {
    match here {
        Some(v) => r - v,
        None => r,
    }
}

/// The choice of one walk step, and what is left of the random number. The node's
/// own value takes the numbers below it: the step stops at the node when `r` is
/// less than the value. Otherwise the value is taken off `r`, and the step goes
/// into the child that `pick` finds, or the first child when it finds none.
pub open spec fn spec_choice(params: Seq<(i32, u8)>, here: Option<i32>, r: int) -> (PathChoice, int) {
    if here matches Some(v) && r < v {
        (PathChoice::Value(()), r)
    } else {
        match pick(params, past_value(here, r)) {
            (Some(i), r2) => (PathChoice::Path(params[i].1), r2),
            (None, r2) => (PathChoice::Path(params[0].1), r2),
        }
    }
}

/// A step can be taken without overflow, and finds a child when it needs one.
pub open spec fn choice_ok(params: Seq<(i32, u8)>, here: Option<i32>, r: int) -> bool {
    (here matches Some(v) && r < v) || (i32::MIN <= past_value(here, r) <= i32::MAX
        && pick_fits(params, past_value(here, r))
        && (pick(params, past_value(here, r)).0 is None ==> params.len() > 0))
}

/// `pick` on the weights from `i` on, in indices of the whole.
proof fn lemma_pick_skip(params: Seq<(i32, u8)>, i: int, r: int)
    requires
        0 <= i < params.len(),
        !(r < params[i].0),
    ensures
        params.skip(i)[0] == params[i],
        params.skip(i).drop_first() == params.skip(i + 1),
{
    assert(params.skip(i).drop_first() =~= params.skip(i + 1));
}

/// One step of the weighted walk: given the aggregate weight and byte of each child
/// of the node, and the node's own value, chooses the value or a child, using up
/// the random number `random_num` as it goes down the weights.
pub fn choice(choice_param: &Vec<(i32, u8)>, here: Option<i32>, random_num: &mut i32) -> (c: PathChoice)
    requires
        choice_ok(choice_param@, here, *old(random_num) as int),
    ensures
        (c, *final(random_num) as int) == spec_choice(choice_param@, here, *old(random_num) as int),
{
    if let Some(value) = here {
        if *random_num < value {
            return PathChoice::Value(());
        }
        *random_num = *random_num - value;
    }
    let ghost p = choice_param@;
    let ghost r0 = *random_num as int;
    let mut i: usize = 0;
    assert(p.skip(0) =~= p);
    while i < choice_param.len()
        invariant
            i <= p.len(),
            p == choice_param@,
            r0 == past_value(here, *old(random_num) as int),
            !(here matches Some(v) && *old(random_num) < v),
            choice_ok(p, here, *old(random_num) as int),
            pick_fits(p.skip(i as int), *random_num as int),
            pick(p, r0) == (match pick(p.skip(i as int), *random_num as int) {
                (Some(j), r2) => (Some(j + i), r2),
                (None, r2) => (None::<int>, r2),
            }),
        decreases p.len() - i,
    {
        let (weight, path_byte) = choice_param[i];
        assert(p.skip(i as int)[0] == p[i as int]);
        if *random_num < weight {
            assert(pick(p.skip(i as int), *random_num as int) == (Some(0int), *random_num as int));
            return PathChoice::Path(path_byte);
        }
        proof { lemma_pick_skip(p, i as int, *random_num as int); }
        *random_num = *random_num - weight;
        i = i + 1;
    }
    assert(p.skip(p.len() as int) =~= Seq::<(i32, u8)>::empty());
    PathChoice::Path(choice_param[0].1)
}

/// The weights before index `i`, summed.
pub open spec fn prefix_weight(params: Seq<(i32, u8)>, i: int) -> int
    decreases i,
{
    if i <= 0 { 0 } else { prefix_weight(params, i - 1) + params[i - 1].0 }
}

/// The weights are all non-negative.
pub open spec fn weights_nonneg(params: Seq<(i32, u8)>) -> bool {
    forall|i: int| 0 <= i < params.len() ==> #[trigger] params[i].0 >= 0
}

/// Sampling law of a walk step: with non-negative weights and a number `r` drawn
/// below their total, the step picks the child `i` exactly when `r` falls in the
/// `i`-th stretch `[w0 + .. + w(i-1), w0 + .. + wi)`, whose width is that child's
/// weight, leaving `r` minus the start of the stretch; and it never overflows.
pub proof fn lemma_pick_interval(params: Seq<(i32, u8)>, r: int)
    requires
        weights_nonneg(params),
        0 <= r < prefix_weight(params, params.len() as int),
        r <= i32::MAX,
    ensures
        pick_fits(params, r),
        pick(params, r).0 matches Some(i)
            && 0 <= i < params.len()
            && prefix_weight(params, i) <= r < prefix_weight(params, i + 1)
            && pick(params, r).1 == r - prefix_weight(params, i),
    decreases params.len(),
{
    lemma_prefix_weight_shift(params, params.len() as int);
    if r < params[0].0 {
        assert(prefix_weight(params, 0) == 0);
        assert(prefix_weight(params, 1) == params[0].0);
    } else {
        let rest = params.drop_first();
        assert(weights_nonneg(rest)) by {
            assert forall|i: int| 0 <= i < rest.len() implies #[trigger] rest[i].0 >= 0 by {
                assert(rest[i] == params[i + 1]);
            }
        }
        lemma_pick_interval(rest, r - params[0].0);
        let i = pick(rest, r - params[0].0).0.unwrap();
        lemma_prefix_weight_shift(params, i + 1);
        lemma_prefix_weight_shift(params, i + 2);
    }
}

/// The weights of `params` summed from the second, plus the first.
proof fn lemma_prefix_weight_shift(params: Seq<(i32, u8)>, i: int)
    requires
        1 <= i <= params.len(),
    ensures
        prefix_weight(params, i) == params[0].0 + prefix_weight(params.drop_first(), i - 1),
    decreases i,
{
    if i > 1 {
        lemma_prefix_weight_shift(params, i - 1);
        assert(params.drop_first()[i - 2] == params[i - 1]);
    } else {
        assert(prefix_weight(params, 1) == prefix_weight(params, 0) + params[0].0);
    }
}

// ---------------------------------------------------------------- walking the trie

/// `pick` finds an index of the weights, when it finds one.
pub proof fn lemma_pick_range(params: Seq<(i32, u8)>, r: int)
    ensures
        pick(params, r).0 matches Some(i) ==> 0 <= i < params.len(),
    decreases params.len(),
{
    if params.len() > 0 && !(r < params[0].0) {
        lemma_pick_range(params.drop_first(), r - params[0].0);
    }
}

/// The child that a step with `choice_ok` goes into is one of the listed children.
pub proof fn lemma_choice_child(params: Seq<(i32, u8)>, here: Option<i32>, r: int)
    requires
        choice_ok(params, here, r),
    ensures
        spec_choice(params, here, r).0 matches PathChoice::Path(b)
            ==> exists|i: int| 0 <= i < params.len() && params[i].1 == b,
{
    lemma_pick_range(params, past_value(here, r));
    if !(here matches Some(v) && r < v) {
        match pick(params, past_value(here, r)) {
            (Some(i), _) => { assert(params[i].1 == params[i].1); },
            (None, _) => { assert(params[0].1 == params[0].1); },
        }
    }
}

/// A listed child of `p` lies one byte below `p`, within the longest path.
pub proof fn lemma_listed_child(es: Seq<(Seq<u8>, i32)>, p: Seq<u8>, i: int)
    requires
        0 <= i < children_params(es, p).len(),
    ensures
        has_child(es, p, children_params(es, p)[i].1),
        p.len() + 1 <= max_len(es),
{
    lemma_params_below(es, p, 256);
    lemma_child_depth(es, p, children_params(es, p)[i].1);
}

/// Where `descend_until` stops when started at `p`: down the only child for as long
/// as there is exactly one, stopping early at the first node with a value.
pub open spec fn descended(es: Seq<(Seq<u8>, i32)>, p: Seq<u8>) -> Seq<u8>
    decreases max_len(es) - p.len(),
{
    let params = children_params(es, p);
    if params.len() == 1 {
        proof { lemma_listed_child(es, p, 0); }
        let c = p.push(params[0].1);
        if value_of(es, c) is Some { c } else { descended(es, c) }
    } else {
        p
    }
}

/// `descend_until` goes down, never up.
pub proof fn lemma_descended_len(es: Seq<(Seq<u8>, i32)>, p: Seq<u8>)
    ensures
        descended(es, p).len() >= p.len(),
    decreases max_len(es) - p.len(),
{
    let params = children_params(es, p);
    if params.len() == 1 {
        lemma_listed_child(es, p, 0);
        lemma_descended_len(es, p.push(params[0].1));
    }
}

/// The atom that a weighted walk from `p` with the random number `r` ends at, or
/// `None` when a step cannot be taken (a leaf is reached with `r` past its value, or
/// a subtraction leaves the `i32` range).
///
/// At a node with children the walk first goes down the single-child chain when the
/// node has no value, then makes a step of [spec_choice] over the children's
/// aggregate weights: it stops at the node, or goes on into the chosen child with
/// what is left of `r`. A node without children ends the walk.
pub open spec fn walk_result(es: Seq<(Seq<u8>, i32)>, p: Seq<u8>, r: int) -> Option<Seq<u8>>
    decreases max_len(es) - p.len(),
{
    if children_params(es, p).len() == 0 {
        Some(p)
    } else {
        let q = if value_of(es, p) is None { descended(es, p) } else { p };
        let params = children_params(es, q);
        let v = value_of(es, q);
        if !choice_ok(params, v, r) {
            None
        } else {
            match spec_choice(params, v, r) {
                (PathChoice::Value(_), _) => Some(q),
                (PathChoice::Path(b), r2) => {
                    proof {
                        lemma_descended_len(es, p);
                        lemma_choice_child(params, v, r);
                        let i = choose|i: int| 0 <= i < params.len() && params[i].1 == b;
                        lemma_listed_child(es, q, i);
                    }
                    walk_result(es, q.push(b), r2)
                },
            }
        }
    }
}

/// Being a prefix is transitive.
proof fn lemma_prefix_trans(a: Seq<u8>, b: Seq<u8>, c: Seq<u8>)
    requires
        a.is_prefix_of(b),
        b.is_prefix_of(c),
    ensures
        a.is_prefix_of(c),
{
    assert(a =~= c.subrange(0, a.len() as int));
}

/// A path is a prefix of itself and of itself followed by a byte.
proof fn lemma_prefix_push(a: Seq<u8>, b: u8)
    ensures
        a.is_prefix_of(a),
        a.is_prefix_of(a.push(b)),
{
    assert(a =~= a.subrange(0, a.len() as int));
    assert(a =~= a.push(b).subrange(0, a.len() as int));
}

/// `descend_until` ends below where it starts.
proof fn lemma_descended_prefix(es: Seq<(Seq<u8>, i32)>, p: Seq<u8>)
    ensures
        p.is_prefix_of(descended(es, p)),
    decreases max_len(es) - p.len(),
{
    lemma_prefix_push(p, 0);
    let params = children_params(es, p);
    if params.len() == 1 {
        lemma_listed_child(es, p, 0);
        let c = p.push(params[0].1);
        lemma_prefix_push(p, params[0].1);
        if value_of(es, c) is None {
            lemma_descended_prefix(es, c);
            lemma_prefix_trans(p, c, descended(es, c));
        }
    }
}

/// A walk that ends, ends at an atom below where it started: a node that holds a
/// value, or a node without children.
pub proof fn law_walk_ends_at_an_atom(es: Seq<(Seq<u8>, i32)>, p: Seq<u8>, r: int)
    ensures
        walk_result(es, p, r) matches Some(q) ==> p.is_prefix_of(q)
            && (value_of(es, q) is Some || children_params(es, q).len() == 0),
    decreases max_len(es) - p.len(),
{
    lemma_prefix_push(p, 0);
    if children_params(es, p).len() > 0 {
        let q = if value_of(es, p) is None { descended(es, p) } else { p };
        lemma_descended_prefix(es, p);
        let params = children_params(es, q);
        let v = value_of(es, q);
        if choice_ok(params, v, r) {
            match spec_choice(params, v, r) {
                (PathChoice::Value(_), _) => {},
                (PathChoice::Path(b), r2) => {
                    lemma_descended_len(es, p);
                    lemma_choice_child(params, v, r);
                    let i = choose|i: int| 0 <= i < params.len() && params[i].1 == b;
                    lemma_listed_child(es, q, i);
                    law_walk_ends_at_an_atom(es, q.push(b), r2);
                    lemma_prefix_push(q, b);
                    if let Some(end) = walk_result(es, q.push(b), r2) {
                        lemma_prefix_trans(q, q.push(b), end);
                        lemma_prefix_trans(p, q, end);
                    }
                },
            }
        }
    }
}

/// Prefix sums agree on sequences that agree up to where they are taken.
proof fn lemma_prefix_weight_agree(a: Seq<(i32, u8)>, b: Seq<(i32, u8)>, k: int)
    requires
        0 <= k <= a.len(),
        k <= b.len(),
        forall|i: int| 0 <= i < k ==> a[i] == b[i],
    ensures
        prefix_weight(a, k) == prefix_weight(b, k),
    decreases k,
{
    if k > 0 {
        lemma_prefix_weight_agree(a, b, k - 1);
    }
}

/// All the weights summed from the front are all the weights summed from the back.
proof fn lemma_prefix_weight_total(params: Seq<(i32, u8)>)
    ensures
        prefix_weight(params, params.len() as int) == params_total(params),
    decreases params.len(),
{
    if params.len() > 0 {
        let rest = params.drop_last();
        lemma_prefix_weight_total(rest);
        lemma_prefix_weight_agree(params, rest, rest.len() as int);
    }
}

/// With no negative weight, prefix sums only grow.
proof fn lemma_prefix_weight_mono(params: Seq<(i32, u8)>, i: int, j: int)
    requires
        weights_nonneg(params),
        0 <= i <= j <= params.len(),
    ensures
        prefix_weight(params, i) <= prefix_weight(params, j),
    decreases j - i,
{
    if i < j {
        lemma_prefix_weight_mono(params, i, j - 1);
        assert(params[j - 1].0 >= 0);
    }
}

/// The children's weights, as listed, are their aggregate weights, none negative,
/// and they sum, with the node's own value, to the node's aggregate weight.
proof fn lemma_children_weights(es: Seq<(Seq<u8>, i32)>, p: Seq<u8>)
    requires
        paths_distinct(es),
        weights_fit(es),
        atoms_nonneg(es),
    ensures
        weights_nonneg(children_params(es, p)),
        forall|i: int| 0 <= i < children_params(es, p).len() ==>
            #[trigger] children_params(es, p)[i].0 as int == weight_under(es, p.push(children_params(es, p)[i].1)),
        weight_under(es, p) == value_or_zero(es, p)
            + prefix_weight(children_params(es, p), children_params(es, p).len() as int),
        0 <= value_or_zero(es, p) <= weight_under(es, p) <= i32::MAX,
{
    let params = children_params(es, p);
    lemma_params_below(es, p, 256);
    assert forall|i: int| 0 <= i < params.len() implies
        #[trigger] params[i].0 as int == weight_under(es, p.push(params[i].1)) && params[i].0 >= 0 by {
        lemma_weight_bound(es, p.push(params[i].1));
        lemma_weights_nonneg(es, p.push(params[i].1));
    }
    law_weight_is_value_plus_children(es, p);
    lemma_prefix_weight_total(params);
    lemma_weights_nonneg(es, p);
    lemma_weight_bound(es, p);
    lemma_prefix_weight_mono(params, 0, params.len() as int);
}

/// One step of the walk, for a number below the node's aggregate weight and no
/// negative atom: the numbers below the node's own value end the walk at the node;
/// the others go, less the value, into the child whose stretch of the children's
/// weights they fall in, less the start of that stretch.
pub proof fn lemma_walk_step(es: Seq<(Seq<u8>, i32)>, p: Seq<u8>, r: int)
    requires
        paths_distinct(es),
        weights_fit(es),
        atoms_nonneg(es),
        0 <= r < weight_under(es, p),
    ensures
        r < value_or_zero(es, p) ==> walk_result(es, p, r) == Some(p),
        r >= value_or_zero(es, p) ==> ({
            let params = children_params(es, p);
            let r1 = r - value_or_zero(es, p);
            pick(params, r1).0 matches Some(i) && 0 <= i < params.len()
                && prefix_weight(params, i) <= r1 < prefix_weight(params, i + 1)
                && walk_result(es, p, r) == walk_result(es, p.push(params[i].1), r1 - prefix_weight(params, i))
        }),
{
    let params = children_params(es, p);
    let v = value_or_zero(es, p);
    lemma_children_weights(es, p);
    lemma_weight_bound(es, p);
    if params.len() == 0 {
        assert(prefix_weight(params, 0) == 0);
    } else if value_of(es, p) is Some || params.len() > 1 {
        let r1 = r - v;
        assert(past_value(value_of(es, p), r) == r1);
        if r >= v {
            lemma_pick_interval(params, r1);
        }
    } else {
        // no value and a single child: the walk goes down the chain at once
        let b = params[0].1;
        let c = p.push(b);
        assert(prefix_weight(params, 1) == prefix_weight(params, 0) + params[0].0);
        lemma_pick_interval(params, r);
        assert(pick(params, r).0 == Some(0int));
        lemma_listed_child(es, p, 0);
        lemma_children_weights(es, c);
        if children_params(es, c).len() == 0 {
            assert(value_of(es, c) is Some);
        }
    }
}

/// How many of the numbers in `[lo, hi)` satisfy `f`.
pub open spec fn count_true(f: spec_fn(int) -> bool, lo: int, hi: int) -> nat
    decreases hi - lo,
{
    if hi <= lo { 0 } else { count_true(f, lo, hi - 1) + if f(hi - 1) { 1nat } else { 0nat } }
}

/// Counting over two adjacent ranges adds up.
proof fn lemma_count_split(f: spec_fn(int) -> bool, lo: int, mid: int, hi: int)
    requires
        lo <= mid <= hi,
    ensures
        count_true(f, lo, hi) == count_true(f, lo, mid) + count_true(f, mid, hi),
    decreases hi - mid,
{
    if mid < hi {
        lemma_count_split(f, lo, mid, hi - 1);
    }
}

/// Counting a range of `f` shifted by `a` counts the range of what `f` says there.
proof fn lemma_count_shift(f: spec_fn(int) -> bool, g: spec_fn(int) -> bool, a: int, lo: int, hi: int)
    requires
        lo <= hi,
        forall|x: int| lo <= x < hi ==> f(x + a) == #[trigger] g(x),
    ensures
        count_true(f, lo + a, hi + a) == count_true(g, lo, hi),
    decreases hi - lo,
{
    if lo < hi {
        lemma_count_shift(f, g, a, lo, hi - 1);
        assert(f(hi - 1 + a) == g(hi - 1));
    }
}

/// Counting a predicate that is constant on the range.
proof fn lemma_count_const(f: spec_fn(int) -> bool, lo: int, hi: int, b: bool)
    requires
        lo <= hi,
        forall|x: int| lo <= x < hi ==> #[trigger] f(x) == b,
    ensures
        count_true(f, lo, hi) == if b { hi - lo } else { 0 },
    decreases hi - lo,
{
    if lo < hi {
        lemma_count_const(f, lo, hi - 1, b);
        assert(f(hi - 1) == b);
    }
}

/// The numbers for which the walk from `p` ends at `q`.
pub open spec fn reaches(es: Seq<(Seq<u8>, i32)>, p: Seq<u8>, q: Seq<u8>) -> spec_fn(int) -> bool {
    |r: int| walk_result(es, p, r) == Some(q)
}

/// The weight of `q` if `q` lies below the child `i` of `p`, else zero, summed over
/// the children before `k`.
pub open spec fn child_share(es: Seq<(Seq<u8>, i32)>, p: Seq<u8>, q: Seq<u8>, k: int) -> int
    decreases k,
{
    if k <= 0 {
        0
    } else {
        child_share(es, p, q, k - 1)
            + if p.push(children_params(es, p)[k - 1].1).is_prefix_of(q) { value_or_zero(es, q) } else { 0 }
    }
}

/// What the walk from each child gives, as the law states it for the child.
pub open spec fn children_counted(es: Seq<(Seq<u8>, i32)>, p: Seq<u8>, q: Seq<u8>) -> bool {
    forall|i: int| 0 <= i < children_params(es, p).len() ==> {
        let c = #[trigger] p.push(children_params(es, p)[i].1);
        &&& count_true(reaches(es, c, q), 0, weight_under(es, c))
            == if c.is_prefix_of(q) { value_or_zero(es, q) } else { 0 }
        &&& forall|x: int| 0 <= x < weight_under(es, c) ==> #[trigger] walk_result(es, c, x) is Some
    }
}

/// Over the children's stretches of the numbers, the walk from `p` counts what the
/// walks from the children count, and always ends.
proof fn lemma_children_region(es: Seq<(Seq<u8>, i32)>, p: Seq<u8>, q: Seq<u8>, k: int)
    requires
        paths_distinct(es),
        weights_fit(es),
        atoms_nonneg(es),
        children_counted(es, p, q),
        0 <= k <= children_params(es, p).len(),
    ensures
        count_true(reaches(es, p, q), value_or_zero(es, p),
            value_or_zero(es, p) + prefix_weight(children_params(es, p), k)) == child_share(es, p, q, k),
        forall|r: int| value_or_zero(es, p) <= r < value_or_zero(es, p) + prefix_weight(children_params(es, p), k)
            ==> #[trigger] walk_result(es, p, r) is Some,
    decreases k,
{
    let params = children_params(es, p);
    let v = value_or_zero(es, p);
    lemma_children_weights(es, p);
    if k == 0 {
        assert(prefix_weight(params, 0) == 0);
    } else {
        lemma_children_region(es, p, q, k - 1);
        let a = v + prefix_weight(params, k - 1);
        let w = params[k - 1].0 as int;
        assert(prefix_weight(params, k) == prefix_weight(params, k - 1) + w);
        lemma_prefix_weight_mono(params, k, params.len() as int);
        lemma_prefix_weight_mono(params, 0, k - 1);
        assert(prefix_weight(params, 0) == 0);
        assert(w >= 0);
        let c = p.push(params[k - 1].1);
        assert(weight_under(es, c) == w);
        assert forall|x: int| 0 <= x < w implies #[trigger] walk_result(es, p, x + a) == walk_result(es, c, x) by {
            let r = x + a;
            lemma_walk_step(es, p, r);
            let i = pick(params, r - v).0.unwrap();
            if i < k - 1 {
                lemma_prefix_weight_mono(params, i + 1, k - 1);
            } else if i > k - 1 {
                lemma_prefix_weight_mono(params, k, i);
            }
        }
        lemma_count_shift(reaches(es, p, q), reaches(es, c, q), a, 0, w);
        lemma_count_split(reaches(es, p, q), v, a, a + w);
        assert(children_counted(es, p, q));
        assert forall|r: int| v <= r < v + prefix_weight(params, k) implies #[trigger] walk_result(es, p, r) is Some by {
            if r >= a {
                assert(walk_result(es, p, (r - a) + a) == walk_result(es, c, r - a));
                assert(walk_result(es, c, r - a) is Some);
            }
        }
    }
}

/// The children's shares: `q`'s weight when `q` lies below one of the children
/// before `k` (at most one, the children being on distinct bytes), else zero.
proof fn lemma_child_share(es: Seq<(Seq<u8>, i32)>, p: Seq<u8>, q: Seq<u8>, k: int)
    requires
        0 <= k <= children_params(es, p).len(),
    ensures
        child_share(es, p, q, k) == if exists|i: int| 0 <= i < k && #[trigger] p.push(children_params(es, p)[i].1).is_prefix_of(q) {
            value_or_zero(es, q)
        } else {
            0
        },
    decreases k,
{
    let params = children_params(es, p);
    lemma_params_below(es, p, 256);
    if k > 0 {
        lemma_child_share(es, p, q, k - 1);
        let c = p.push(params[k - 1].1);
        if c.is_prefix_of(q) {
            assert forall|i: int| 0 <= i < k - 1 implies !(#[trigger] p.push(params[i].1).is_prefix_of(q)) by {
                crate::trie::lemma_push_prefix(p, params[i].1, q);
                crate::trie::lemma_push_prefix(p, params[k - 1].1, q);
                assert(params[i].1 < params[k - 1].1);
            }
        }
    }
}

/// Counting law of the weighted walk: with no negative atom, every number below the
/// aggregate weight of `p` gives a walk that ends, and the walk ends at an atom `q`
/// below `p` for exactly as many of those numbers as `q` weighs. So a number drawn
/// uniformly below the aggregate weight reaches each atom with the probability of
/// its weight over the total.
pub proof fn law_walk_counts(es: Seq<(Seq<u8>, i32)>, p: Seq<u8>, q: Seq<u8>)
    requires
        paths_distinct(es),
        weights_fit(es),
        atoms_nonneg(es),
    ensures
        forall|r: int| 0 <= r < weight_under(es, p) ==> #[trigger] walk_result(es, p, r) is Some,
        count_true(reaches(es, p, q), 0, weight_under(es, p))
            == if p.is_prefix_of(q) { value_or_zero(es, q) } else { 0 },
    decreases max_len(es) - p.len(),
{
    let params = children_params(es, p);
    let v = value_or_zero(es, p);
    let n = params.len() as int;
    lemma_children_weights(es, p);
    assert forall|i: int| 0 <= i < params.len() implies {
        let c = #[trigger] p.push(params[i].1);
        &&& count_true(reaches(es, c, q), 0, weight_under(es, c))
            == if c.is_prefix_of(q) { value_or_zero(es, q) } else { 0 }
        &&& forall|x: int| 0 <= x < weight_under(es, c) ==> #[trigger] walk_result(es, c, x) is Some
    } by {
        lemma_listed_child(es, p, i);
        law_walk_counts(es, p.push(params[i].1), q);
    }
    lemma_children_region(es, p, q, n);
    lemma_child_share(es, p, q, n);
    // the numbers below the node's value end at the node
    assert forall|x: int| 0 <= x < v implies #[trigger] reaches(es, p, q)(x) == (q == p) by {
        lemma_walk_step(es, p, x);
    }
    lemma_count_const(reaches(es, p, q), 0, v, q == p);
    lemma_count_split(reaches(es, p, q), 0, v, v + prefix_weight(params, n));
    assert forall|r: int| 0 <= r < weight_under(es, p) implies #[trigger] walk_result(es, p, r) is Some by {
        if r < v {
            lemma_walk_step(es, p, r);
        }
    }
    lemma_prefix_push(p, 0);
    let below = exists|i: int| 0 <= i < n && #[trigger] p.push(params[i].1).is_prefix_of(q);
    if q == p {
        assert(!below) by {
            if below {
                let i = choose|i: int| 0 <= i < n && #[trigger] p.push(params[i].1).is_prefix_of(q);
                assert(p.push(params[i].1).len() > q.len());
            }
        }
    } else if p.is_prefix_of(q) {
        assert(p.len() < q.len()) by {
            if p.len() == q.len() {
                assert(p =~= q);
            }
        }
        if value_of(es, q) is Some {
            lemma_atom_below_child(es, p, q);
            lemma_params_below(es, p, 256);
            let i = choose|i: int| 0 <= i < params.len() && #[trigger] params[i].1 == q[p.len() as int];
            assert(p.push(params[i].1).is_prefix_of(q));
        }
    } else {
        assert(!below) by {
            if below {
                let i = choose|i: int| 0 <= i < n && #[trigger] p.push(params[i].1).is_prefix_of(q);
                lemma_prefix_push(p, params[i].1);
                lemma_prefix_trans(p, p.push(params[i].1), q);
            }
        }
    }
}

/// Whether a step of the walk can be taken (see [choice_ok]).
pub fn choice_ok_exec(choice_param: &Vec<(i32, u8)>, here: Option<i32>, random_num: i32) -> (b: bool)
    ensures
        b == choice_ok(choice_param@, here, random_num as int),
{
    let mut r: i64 = random_num as i64;
    if let Some(value) = here {
        if random_num < value {
            return true;
        }
        r = r - value as i64;
        if r < i32::MIN as i64 || r > i32::MAX as i64 {
            return false;
        }
    }
    let ghost p = choice_param@;
    let ghost r0 = r as int;
    let mut i: usize = 0;
    assert(p.skip(0) =~= p);
    while i < choice_param.len()
        invariant
            i <= p.len(),
            p == choice_param@,
            r0 == past_value(here, random_num as int),
            i32::MIN <= r0 <= i32::MAX,
            !(here matches Some(v) && random_num < v),
            i32::MIN <= r <= i32::MAX,
            pick_fits(p, r0) == pick_fits(p.skip(i as int), r as int),
            (pick(p, r0).0 is None) == (pick(p.skip(i as int), r as int).0 is None),
        decreases p.len() - i,
    {
        let (weight, _) = choice_param[i];
        assert(p.skip(i as int)[0] == p[i as int]);
        if r < weight as i64 {
            return true;
        }
        proof { lemma_pick_skip(p, i as int, r as int); }
        let next = r - weight as i64;
        if next < i32::MIN as i64 || next > i32::MAX as i64 {
            return false;
        }
        r = next;
        i = i + 1;
    }
    assert(p.skip(p.len() as int) =~= Seq::<(i32, u8)>::empty());
    choice_param.len() > 0
}

/// `p` followed by `b`.
fn extended(p: &Vec<u8>, b: u8) -> (r: Vec<u8>)
    ensures
        r@ == p@.push(b),
{
    let mut r = dup(p);
    r.push(b);
    r
}

/// `descend_until`: from `p`, down the only child for as long as there is exactly
/// one, stopping early at the first node with a value (see [descended]).
pub fn descend_until(trie: &WeightTrie, p: &Vec<u8>) -> (q: Vec<u8>)
    requires
        weights_fit(trie@),
    ensures
        q@ == descended(trie@, p@),
{
    let ghost es = trie@;
    let mut q = dup(p);
    loop
        invariant
            es == trie@,
            weights_fit(es),
            descended(es, p@) == descended(es, q@),
        decreases max_len(es) - q@.len(),
    {
        let params = trie.children_agg_w(&q);
        if params.len() != 1 {
            return q;
        }
        proof { lemma_listed_child(es, q@, 0); }
        let c = extended(&q, params[0].1);
        if trie.value_at(c.as_slice()).is_some() {
            return c;
        }
        q = c;
    }
}

/// The weighted walk from `start` with the random number `r` (see [walk_result]).
pub fn walk(trie: &WeightTrie, start: &Vec<u8>, r: i32) -> (res: Option<Vec<u8>>)
    requires
        weights_fit(trie@),
    ensures
        res matches Some(v) ==> walk_result(trie@, start@, r as int) == Some(v@),
        res is None ==> walk_result(trie@, start@, r as int) is None,
{
    let ghost es = trie@;
    let mut p = dup(start);
    let mut random_num = r;
    loop
        invariant
            es == trie@,
            weights_fit(es),
            walk_result(es, start@, r as int) == walk_result(es, p@, random_num as int),
        decreases max_len(es) - p@.len(),
    {
        let here_params = trie.children_agg_w(&p);
        if here_params.len() == 0 {
            return Some(p);
        }
        let q = if trie.value_at(p.as_slice()).is_none() { descend_until(trie, &p) } else { p };
        let params = trie.children_agg_w(&q);
        let v = trie.value_at(q.as_slice());
        if !choice_ok_exec(&params, v, random_num) {
            return None;
        }
        let ghost r_before = random_num as int;
        match choice(&params, v, &mut random_num) {
            PathChoice::Value(_) => {
                return Some(q);
            },
            PathChoice::Path(b) => {
                proof {
                    lemma_descended_len(es, p@);
                    lemma_choice_child(params@, v, r_before);
                    let i = choose|i: int| 0 <= i < params@.len() && params@[i].1 == b;
                    lemma_listed_child(es, q@, i);
                }
                p = extended(&q, b);
            },
        }
    }
}

/// The next atom of a weighted random walk from `start`: `start` itself when
/// nothing below it weighs anything; otherwise the walk with a number drawn at random
/// below the aggregate weight. `None` where no walk can be made: a negative
/// aggregate weight, or a walk that cannot take a step.
pub fn next_atom(trie: &WeightTrie, start: &Vec<u8>) -> (res: Option<Vec<u8>>)
    requires
        weights_fit(trie@),
    ensures
        weight_under(trie@, start@) == 0 ==> (res matches Some(v) && v@ == start@),
        weight_under(trie@, start@) < 0 ==> res is None,
        weight_under(trie@, start@) > 0 ==> exists|n: int| 0 <= n < weight_under(trie@, start@) && (match res {
            Some(v) => walk_result(trie@, start@, n) == Some(v@),
            None => walk_result(trie@, start@, n) is None,
        }),
        atoms_nonneg(trie@) ==> res is Some,
{
    proof {
        use_type_invariant(trie);
        trie.lemma_distinct();
        if atoms_nonneg(trie@) {
            law_walk_counts(trie@, start@, start@);
            lemma_weights_nonneg(trie@, start@);
        }
    }
    let child_agg_w = trie.weight_under(start.as_slice());
    if child_agg_w == 0 {
        return Some(dup(start));
    }
    if child_agg_w < 0 {
        return None;
    }
    let n = random_below(child_agg_w);
    walk(trie, start, n)
}

// ---------------------------------------------------------------- chunked priority queue

/// A subtree root of the trie, scored by its aggregate weight.
#[derive(Clone, Debug)]
pub struct AtomChunk {
    pub path: Vec<u8>,
    pub score: i32,
}

/// The plain value of a chunk: its score and path.
pub open spec fn chunk_of(c: AtomChunk) -> (i32, Seq<u8>) {
    (c.score, c.path@)
}

/// The order of chunks: by score, and among equal scores the smaller path is the
/// greater chunk.
pub open spec fn chunk_lt(a: (i32, Seq<u8>), b: (i32, Seq<u8>)) -> bool {
    a.0 < b.0 || (a.0 == b.0 && lex_lt(b.1, a.1))
}

/// `a` is no smaller than any chunk in `m`.
pub open spec fn is_max_chunk(a: (i32, Seq<u8>), m: vstd::multiset::Multiset<(i32, Seq<u8>)>) -> bool {
    m.count(a) > 0 && forall|b: (i32, Seq<u8>)| m.count(b) > 0 ==> !chunk_lt(a, b)
}

/// The chunk `a` comes strictly before the chunk `b`.
pub fn chunk_less(a: &AtomChunk, b: &AtomChunk) -> (r: bool)
    ensures
        r == chunk_lt(chunk_of(*a), chunk_of(*b)),
{
    if a.score != b.score {
        a.score < b.score
    } else {
        crate::pure::lex_less(b.path.as_slice(), a.path.as_slice())
    }
}

/// Walks a trie in order of weight: the heaviest chunks at a given depth first,
/// collected anew whenever the queue runs dry.
pub struct ChunkedPQTraverse {
    heap: Vec<AtomChunk>,
    depth: usize,
}

/// The chunks that collecting at depth `target` finds below the node `p`, which lies
/// `cur` levels down: at the target depth, the node itself when it holds a value;
/// above it, the node itself when it has no children, else what its children give,
/// one level further down. Each chunk is scored by the aggregate weight of its node.
pub open spec fn collected(es: Seq<(Seq<u8>, i32)>, p: Seq<u8>, cur: int, target: int) -> Multiset<(i32, Seq<u8>)>
    decreases target - cur, 257int,
{
    if cur >= target {
        if value_of(es, p) is Some {
            Multiset::singleton((weight_under(es, p) as i32, p))
        } else {
            Multiset::empty()
        }
    } else if children_params(es, p).len() == 0 {
        Multiset::singleton((weight_under(es, p) as i32, p))
    } else {
        collect_children(es, p, 256, cur, target)
    }
}

/// What the children of `p` on the bytes below `k` give to [collected].
pub open spec fn collect_children(es: Seq<(Seq<u8>, i32)>, p: Seq<u8>, k: int, cur: int, target: int) -> Multiset<(i32, Seq<u8>)>
    decreases target - cur, k,
{
    if k <= 0 || cur >= target {
        Multiset::empty()
    } else {
        let b = (k - 1) as u8;
        let rest = collect_children(es, p, k - 1, cur, target);
        if has_child(es, p, b) { rest.add(collected(es, p.push(b), cur + 1, target)) } else { rest }
    }
}

/// A chunk that collecting `target - cur` levels below the node `p` may find: a node below `p`, scored by its aggregate
/// weight, that is either at that depth and holds a value, or above it and has no
/// children; and either `p` itself or a path that holds an atom.
pub open spec fn collectable(es: Seq<(Seq<u8>, i32)>, p: Seq<u8>, cur: int, target: int, c: (i32, Seq<u8>)) -> bool {
    &&& p.is_prefix_of(c.1)
    &&& c.1 == p || value_of(es, c.1) is Some
    &&& c.0 == weight_under(es, c.1) as i32
    &&& (c.1.len() == p.len() + (target - cur) && value_of(es, c.1) is Some)
        || (c.1.len() < p.len() + (target - cur) && children_params(es, c.1).len() == 0)
}

/// Collecting finds only chunks it may find (see [collectable]).
pub proof fn law_collected_chunks(es: Seq<(Seq<u8>, i32)>, p: Seq<u8>, cur: int, target: int)
    requires
        cur <= target,
    ensures
        forall|c: (i32, Seq<u8>)| #[trigger] collected(es, p, cur, target).count(c) > 0
            ==> collectable(es, p, cur, target, c),
    decreases target - cur, 257int,
{
    broadcast use vstd::multiset::group_multiset_axioms;
    lemma_prefix_push(p, 0);
    if cur < target && children_params(es, p).len() > 0 {
        lemma_collect_children_chunks(es, p, 256, cur, target);
        assert(collected(es, p, cur, target) == collect_children(es, p, 256, cur, target));
    } else {
        let x = (weight_under(es, p) as i32, p);
        assert forall|c: (i32, Seq<u8>)| #[trigger] collected(es, p, cur, target).count(c) > 0
            implies collectable(es, p, cur, target, c) by {
            if c != x {
                assert(Multiset::singleton(x).count(c) == 0);
            }
        }
    }
}

/// A child of `p` with no children of its own is where an atom ends.
proof fn lemma_childless_child_holds_atom(es: Seq<(Seq<u8>, i32)>, p: Seq<u8>, b: u8)
    requires
        has_child(es, p, b),
    ensures
        children_params(es, p.push(b)).len() == 0 ==> value_of(es, p.push(b)) is Some,
{
    let q = p.push(b);
    let i = choose|i: int| 0 <= i < es.len() && #[trigger] q.is_prefix_of(es[i].0);
    crate::trie::lemma_value_of_entry(es, i);
    if es[i].0 == q {
    } else {
        assert(q.len() < es[i].0.len()) by {
            if q.len() == es[i].0.len() {
                assert(q =~= es[i].0);
            }
        }
        lemma_atom_below_child(es, q, es[i].0);
        lemma_params_below(es, q, 256);
        let c = es[i].0[q.len() as int];
        assert(c < 256);
        assert(exists|j: int| 0 <= j < crate::trie::params_below(es, q, 256).len() && #[trigger] crate::trie::params_below(es, q, 256)[j].1 == c);
    }
}

/// What the children give to collecting are chunks it may find.
proof fn lemma_collect_children_chunks(es: Seq<(Seq<u8>, i32)>, p: Seq<u8>, k: int, cur: int, target: int)
    requires
        cur <= target,
    ensures
        forall|c: (i32, Seq<u8>)| #[trigger] collect_children(es, p, k, cur, target).count(c) > 0
            ==> collectable(es, p, cur, target, c),
    decreases target - cur, k,
{
    broadcast use vstd::multiset::group_multiset_axioms;
    if k > 0 && cur < target {
        lemma_collect_children_chunks(es, p, k - 1, cur, target);
        let b = (k - 1) as u8;
        let rest = collect_children(es, p, k - 1, cur, target);
        if has_child(es, p, b) {
            law_collected_chunks(es, p.push(b), cur + 1, target);
            lemma_prefix_push(p, b);
            assert(collect_children(es, p, k, cur, target) == rest.add(collected(es, p.push(b), cur + 1, target)));
            assert forall|c: (i32, Seq<u8>)| #[trigger] collect_children(es, p, k, cur, target).count(c) > 0
                implies collectable(es, p, cur, target, c) by {
                if collected(es, p.push(b), cur + 1, target).count(c) > 0 {
                    lemma_prefix_trans(p, p.push(b), c.1);
                    if c.1 == p.push(b) {
                        lemma_childless_child_holds_atom(es, p, b);
                    }
                } else {
                    assert(rest.count(c) > 0);
                }
            }
        } else {
            assert(collect_children(es, p, k, cur, target) == rest);
        }
    }
}

/// The chunks in a queue holding `m` once `next_atom` has filled it: those
/// collected at `depth` below `origin` when `m` is empty, `m` otherwise.
pub open spec fn filled(m: Multiset<(i32, Seq<u8>)>, es: Seq<(Seq<u8>, i32)>, origin: Seq<u8>, depth: usize) -> Multiset<(i32, Seq<u8>)> {
    if m.len() == 0 { collected(es, origin, 0, depth as int) } else { m }
}

impl ChunkedPQTraverse {
    /// The chunks in the queue.
    pub closed spec fn contents(&self) -> vstd::multiset::Multiset<(i32, Seq<u8>)> {
        self.heap@.map_values(|c: AtomChunk| chunk_of(c)).to_multiset()
    }

    /// The depth at which chunks are collected.
    pub closed spec fn spec_depth(&self) -> usize {
        self.depth
    }

    /// An empty queue collecting at `depth`.
    pub fn new(depth: usize) -> (r: Self)
        ensures
            r.contents() == vstd::multiset::Multiset::<(i32, Seq<u8>)>::empty(),
            r.spec_depth() == depth,
    {
        let r = ChunkedPQTraverse { heap: Vec::new(), depth };
        assert(r.heap@.map_values(|c: AtomChunk| chunk_of(c)) =~= Seq::<(i32, Seq<u8>)>::empty());
        proof { lemma_empty_multiset(); }
        r
    }

    /// An empty queue collecting at depth 3.
    pub fn default() -> (r: Self)
        ensures
            r.contents() == vstd::multiset::Multiset::<(i32, Seq<u8>)>::empty(),
            r.spec_depth() == 3,
    {
        ChunkedPQTraverse::new(3)
    }

    /// The depth at which chunks are collected.
    pub fn depth(&self) -> (r: usize)
        ensures
            r == self.spec_depth(),
    {
        self.depth
    }

    /// Whether the queue is empty, so that `next_atom` would collect anew.
    pub fn is_empty(&self) -> (r: bool)
        ensures
            r == (self.contents().len() == 0),
    {
        broadcast use vstd::seq_lib::group_to_multiset_ensures;
        self.heap.len() == 0
    }

    /// Empties the queue (the first half of `refresh`; the trie is then collected anew).
    pub fn clear(&mut self)
        ensures
            final(self).contents() == vstd::multiset::Multiset::<(i32, Seq<u8>)>::empty(),
            final(self).spec_depth() == old(self).spec_depth(),
    {
        self.heap = Vec::new();
        assert(self.heap@.map_values(|c: AtomChunk| chunk_of(c)) =~= Seq::<(i32, Seq<u8>)>::empty());
        proof { lemma_empty_multiset(); }
    }

    /// Queues the chunk at `path` with `score`.
    pub fn push(&mut self, path: Vec<u8>, score: i32)
        ensures
            final(self).contents() == old(self).contents().insert((score, path@)),
            final(self).spec_depth() == old(self).spec_depth(),
    {
        broadcast use vstd::seq_lib::group_to_multiset_ensures;
        let ghost old_heap = self.heap@;
        let chunk = AtomChunk { path, score };
        self.heap.push(chunk);
        assert(self.heap@.map_values(|c: AtomChunk| chunk_of(c))
            =~= old_heap.map_values(|c: AtomChunk| chunk_of(c)).push((score, chunk.path@)));
    }

    /// Takes the greatest chunk out of the queue and gives its path.
    pub fn pop(&mut self) -> (r: Option<Vec<u8>>)
        ensures
            final(self).spec_depth() == old(self).spec_depth(),
            old(self).contents().len() == 0 ==> r is None && final(self).contents() == old(self).contents(),
            old(self).contents().len() > 0 ==> r is Some,
            r matches Some(p) ==> exists|s: i32|
                #![trigger old(self).contents().count((s, p@))]
                is_max_chunk((s, p@), old(self).contents())
                && final(self).contents() == old(self).contents().remove((s, p@)),
    {
        broadcast use vstd::seq_lib::group_to_multiset_ensures;
        let ghost view = self.heap@.map_values(|c: AtomChunk| chunk_of(c));
        if self.heap.len() == 0 {
            return None;
        }
        let mut best: usize = 0;
        let mut i: usize = 1;
        proof { lemma_chunk_lt_order(view[0], view[0], view[0]); }
        while i < self.heap.len()
            invariant
                1 <= i <= self.heap@.len(),
                best < i,
                view == self.heap@.map_values(|c: AtomChunk| chunk_of(c)),
                forall|j: int| 0 <= j < i ==> !chunk_lt(view[best as int], #[trigger] view[j]),
            decreases self.heap@.len() - i,
        {
            if chunk_less(&self.heap[best], &self.heap[i]) {
                proof {
                    assert forall|j: int| 0 <= j < i + 1 implies !chunk_lt(view[i as int], #[trigger] view[j]) by {
                        lemma_chunk_lt_order(view[i as int], view[best as int], view[j]);
                    }
                }
                best = i;
            }
            i = i + 1;
        }
        let chunk = self.heap.remove(best);
        let ghost cp = chunk.path@;
        proof {
            let top = view[best as int];
            assert(self.heap@.map_values(|c: AtomChunk| chunk_of(c)) =~= view.remove(best as int));
            view.to_multiset_ensures();
            assert forall|b: (i32, Seq<u8>)| view.to_multiset().count(b) > 0 implies !chunk_lt(top, b) by {
                let j = view.index_of(b);
                assert(view.contains(b));
                assert(view[j] == b);
            }
            assert(chunk_of(chunk) == top);
            assert(view.to_multiset().count((chunk.score, chunk.path@)) > 0);
            assert(view.remove(best as int).to_multiset() == view.to_multiset().remove(view[best as int]));
            assert(is_max_chunk(top, view.to_multiset()));
            assert(old(self).contents() == view.to_multiset());
            assert(self.contents() == view.to_multiset().remove(top));
            assert(old(self).contents().count((chunk.score, chunk.path@)) > 0);
            assert(exists|s: i32| #![trigger old(self).contents().count((s, chunk.path@))]
                is_max_chunk((s, chunk.path@), old(self).contents())
                && self.contents() == old(self).contents().remove((s, chunk.path@)));
        }
        let r = Some(chunk.path);
        assert(r.unwrap()@ == cp);
        assert(r matches Some(p) ==> exists|s: i32|
                #![trigger old(self).contents().count((s, p@))]
                is_max_chunk((s, p@), old(self).contents())
                && self.contents() == old(self).contents().remove((s, p@)));
        r
    }

    /// `collect_atoms_of_length_d`: queues the chunks below the node `p`, which lies
    /// `cur` levels below where the collecting started (see [collected]).
    pub fn collect_atoms_of_length_d(&mut self, trie: &WeightTrie, p: Vec<u8>, cur: usize, target_depth: usize)
        requires
            weights_fit(trie@),
            cur <= target_depth,
        ensures
            final(self).contents() == old(self).contents().add(
                collected(trie@, p@, cur as int, target_depth as int)),
            final(self).spec_depth() == old(self).spec_depth(),
        decreases target_depth - cur,
    {
        broadcast use vstd::multiset::group_multiset_axioms;
        let ghost es = trie@;
        if cur == target_depth {
            if trie.value_at(p.as_slice()).is_some() {
                let score = trie.weight_under(p.as_slice());
                let ghost pv = p@;
                self.push(p, score);
                assert(self.contents() =~= old(self).contents().add(
                    collected(es, pv, cur as int, target_depth as int)));
            } else {
                assert(self.contents() =~= old(self).contents().add(
                    collected(es, p@, cur as int, target_depth as int)));
            }
            return;
        }
        let params = trie.children_agg_w(&p);
        if params.len() == 0 {
            let score = trie.weight_under(p.as_slice());
            let ghost pv = p@;
            self.push(p, score);
            assert(self.contents() =~= old(self).contents().add(
                collected(es, pv, cur as int, target_depth as int)));
            return;
        }
        let mut b: u16 = 0;
        assert(self.contents() =~= old(self).contents().add(
            collect_children(es, p@, 0, cur as int, target_depth as int)));
        while b < 256
            invariant
                b <= 256,
                es == trie@,
                weights_fit(es),
                cur < target_depth,
                self.spec_depth() == old(self).spec_depth(),
                self.contents() == old(self).contents().add(
                    collect_children(es, p@, b as int, cur as int, target_depth as int)),
            decreases 256 - b,
        {
            let byte = b as u8;
            assert(byte == (b + 1 - 1) as u8);
            if trie.has_child(&p, byte) {
                let c = extended(&p, byte);
                let ghost before = self.contents();
                self.collect_atoms_of_length_d(trie, c, cur + 1, target_depth);
                assert(self.contents() =~= old(self).contents().add(
                    collect_children(es, p@, b + 1, cur as int, target_depth as int)));
            } else {
                assert(self.contents() =~= old(self).contents().add(
                    collect_children(es, p@, b + 1, cur as int, target_depth as int)));
            }
            b = b + 1;
        }
        assert(collected(es, p@, cur as int, target_depth as int)
            == collect_children(es, p@, 256, cur as int, target_depth as int));
    }

    /// Empties the queue and collects the chunks at the queue's depth below `origin`.
    pub fn refresh(&mut self, trie: &WeightTrie, origin: &Vec<u8>)
        requires
            weights_fit(trie@),
        ensures
            final(self).contents() == collected(trie@, origin@, 0, old(self).spec_depth() as int),
            final(self).spec_depth() == old(self).spec_depth(),
    {
        broadcast use vstd::multiset::group_multiset_axioms;
        self.clear();
        let depth = self.depth;
        self.collect_atoms_of_length_d(trie, dup(origin), 0, depth);
        assert(self.contents() =~= collected(trie@, origin@, 0, old(self).spec_depth() as int));
    }

    /// The next atom: the path of the greatest chunk, the queue being first filled
    /// with the chunks at its depth below `origin` when it is empty; `origin` when
    /// there is no chunk even then.
    pub fn next_atom(&mut self, trie: &WeightTrie, origin: &Vec<u8>) -> (r: Vec<u8>)
        requires
            weights_fit(trie@),
        ensures
            final(self).spec_depth() == old(self).spec_depth(),
            filled(old(self).contents(), trie@, origin@, old(self).spec_depth()).len() == 0 ==> r@ == origin@
                && final(self).contents() == filled(old(self).contents(), trie@, origin@, old(self).spec_depth()),
            filled(old(self).contents(), trie@, origin@, old(self).spec_depth()).len() > 0 ==> exists|s: i32|
                #![trigger filled(old(self).contents(), trie@, origin@, old(self).spec_depth()).count((s, r@))]
                is_max_chunk((s, r@), filled(old(self).contents(), trie@, origin@, old(self).spec_depth()))
                && final(self).contents() == filled(old(self).contents(), trie@, origin@, old(self).spec_depth()).remove((s, r@)),
    {
        broadcast use vstd::multiset::group_multiset_axioms;
        let ghost m = filled(self.contents(), trie@, origin@, self.spec_depth());
        if self.is_empty() {
            let depth = self.depth;
            self.collect_atoms_of_length_d(trie, dup(origin), 0, depth);
            assert(self.contents() =~= collected(trie@, origin@, 0, old(self).spec_depth() as int));
        }
        assert(self.contents() == m);
        match self.pop() {
            Some(path) => path,
            None => dup(origin),
        }
    }
}

/// The empty sequence of chunks holds the empty multiset.
proof fn lemma_empty_multiset()
    ensures
        Seq::<(i32, Seq<u8>)>::empty().to_multiset() == vstd::multiset::Multiset::<(i32, Seq<u8>)>::empty(),
{
    broadcast use vstd::seq_lib::group_to_multiset_ensures;
    assert(Seq::<(i32, Seq<u8>)>::empty().to_multiset() =~= vstd::multiset::Multiset::<(i32, Seq<u8>)>::empty());
}

/// The chunk order is a strict order.
pub proof fn lemma_chunk_lt_order(a: (i32, Seq<u8>), b: (i32, Seq<u8>), c: (i32, Seq<u8>))
    ensures
        !chunk_lt(a, a),
        chunk_lt(a, b) ==> !chunk_lt(b, a),
        chunk_lt(a, b) && chunk_lt(b, c) ==> chunk_lt(a, c),
        !chunk_lt(a, b) && !chunk_lt(b, c) ==> !chunk_lt(a, c),
{
    crate::pure::lemma_lex_lt_order(a.1, b.1, c.1);
    crate::pure::lemma_lex_lt_order(c.1, b.1, a.1);
    crate::pure::lemma_lex_lt_order(b.1, a.1, c.1);
    crate::pure::lemma_lex_lt_order(a.1, c.1, b.1);
    crate::pure::lemma_lex_lt_order(b.1, c.1, a.1);
    crate::pure::lemma_lex_lt_order(c.1, a.1, b.1);
}

/// Chunks come out greatest first: of two chunks popped one after the other, the
/// first is no smaller than the second.
pub proof fn lemma_pops_descend(
    m: vstd::multiset::Multiset<(i32, Seq<u8>)>,
    a: (i32, Seq<u8>),
    b: (i32, Seq<u8>),
)
    requires
        is_max_chunk(a, m),
        is_max_chunk(b, m.remove(a)),
    ensures
        !chunk_lt(a, b),
{
    assert(m.remove(a).count(b) > 0);
    if b == a {
        lemma_chunk_lt_order(a, a, a);
    } else {
        assert(m.count(b) > 0);
    }
}

/// The chunks `xs`, in order, are what popping the greatest chunk again and again
/// takes out of a queue holding `m`.
pub open spec fn popped_in_turn(m: Multiset<(i32, Seq<u8>)>, xs: Seq<(i32, Seq<u8>)>) -> bool
    decreases xs.len(),
{
    xs.len() == 0 || (is_max_chunk(xs[0], m) && popped_in_turn(m.remove(xs[0]), xs.drop_first()))
}

/// Draining the queue: popping as many times as the queue holds chunks gives every
/// chunk back, as often as it was queued, greatest first.
pub proof fn law_queue_drains_in_order(m: Multiset<(i32, Seq<u8>)>, xs: Seq<(i32, Seq<u8>)>)
    requires
        popped_in_turn(m, xs),
        xs.len() == m.len(),
    ensures
        xs.to_multiset() == m,
        forall|i: int, j: int| 0 <= i < j < xs.len() ==> !chunk_lt(#[trigger] xs[i], #[trigger] xs[j]),
    decreases xs.len(),
{
    broadcast use vstd::multiset::group_multiset_axioms;
    broadcast use vstd::seq_lib::group_to_multiset_ensures;
    if xs.len() == 0 {
        assert(xs.to_multiset() =~= Multiset::<(i32, Seq<u8>)>::empty());
        assert(m =~= Multiset::<(i32, Seq<u8>)>::empty());
    } else {
        let x = xs[0];
        let rest = xs.drop_first();
        let m2 = m.remove(x);
        assert(m.count(x) > 0);
        assert(m2.len() == m.len() - 1);
        law_queue_drains_in_order(m2, rest);
        assert(xs.remove(0) =~= rest);
        assert(xs.to_multiset() =~= m) by {
            let ms = xs.to_multiset();
            assert(rest.to_multiset() == ms.remove(x));
            assert(xs.contains(x));
            assert(ms.count(x) > 0);
            assert forall|y: (i32, Seq<u8>)| ms.count(y) == m.count(y) by {
                assert(ms.remove(x).count(y) == m2.count(y));
            }
        }
        assert forall|i: int, j: int| 0 <= i < j < xs.len() implies !chunk_lt(#[trigger] xs[i], #[trigger] xs[j]) by {
            if i == 0 {
                assert(rest[j - 1] == xs[j]);
                assert(rest.contains(xs[j]));
                assert(m2.count(xs[j]) > 0);
                assert(m.count(xs[j]) > 0);
            } else {
                assert(rest[i - 1] == xs[i] && rest[j - 1] == xs[j]);
            }
        }
    }
}

/// After `refresh` a queue gives what a new queue gives: `next_atom` fills both with
/// the same chunks.
pub proof fn law_refresh_is_fresh(es: Seq<(Seq<u8>, i32)>, origin: Seq<u8>, depth: usize)
    ensures
        filled(collected(es, origin, 0, depth as int), es, origin, depth)
            == filled(Multiset::empty(), es, origin, depth),
{
    broadcast use vstd::multiset::group_multiset_axioms;
}

/// What the children below `k` give to collecting holds all that any one child
/// `b < k` gives.
proof fn lemma_collect_children_holds(es: Seq<(Seq<u8>, i32)>, p: Seq<u8>, k: int, b: u8, cur: int, target: int, c: (i32, Seq<u8>))
    requires
        b < k,
        cur < target,
        has_child(es, p, b),
    ensures
        collect_children(es, p, k, cur, target).count(c) >= collected(es, p.push(b), cur + 1, target).count(c),
    decreases k,
{
    broadcast use vstd::multiset::group_multiset_axioms;
    let b2 = (k - 1) as u8;
    let rest = collect_children(es, p, k - 1, cur, target);
    if b < k - 1 {
        lemma_collect_children_holds(es, p, k - 1, b, cur, target, c);
    }
    if has_child(es, p, b2) {
        assert(collect_children(es, p, k, cur, target) == rest.add(collected(es, p.push(b2), cur + 1, target)));
    } else {
        assert(collect_children(es, p, k, cur, target) == rest);
    }
}

/// Collecting misses nothing: every node below `p` that holds a value at the
/// target depth, and every atom without children above it, is collected, scored by
/// its aggregate weight.
pub proof fn law_collection_complete(es: Seq<(Seq<u8>, i32)>, p: Seq<u8>, cur: int, target: int, q: Seq<u8>)
    requires
        cur <= target,
        p.is_prefix_of(q),
        value_of(es, q) is Some,
        q.len() == p.len() + (target - cur) || (q.len() < p.len() + (target - cur)
            && children_params(es, q).len() == 0),
    ensures
        collected(es, p, cur, target).count((weight_under(es, q) as i32, q)) >= 1,
    decreases target - cur,
{
    broadcast use vstd::multiset::group_multiset_axioms;
    let c = (weight_under(es, q) as i32, q);
    if p.len() == q.len() {
        assert(p =~= q);
    } else {
        assert(p.len() < q.len());
        lemma_atom_below_child(es, p, q);
        let b = q[p.len() as int];
        lemma_params_below(es, p, 256);
        let i = choose|i: int| 0 <= i < children_params(es, p).len() && #[trigger] children_params(es, p)[i].1 == b;
        assert(children_params(es, p).len() > 0);
        law_collection_complete(es, p.push(b), cur + 1, target, q);
        lemma_collect_children_holds(es, p, 256, b, cur, target, c);
        assert(collected(es, p, cur, target) == collect_children(es, p, 256, cur, target));
    }
}

/// Collecting finds each chunk at most once.
pub proof fn law_collected_once(es: Seq<(Seq<u8>, i32)>, p: Seq<u8>, cur: int, target: int)
    requires
        cur <= target,
    ensures
        forall|c: (i32, Seq<u8>)| #[trigger] collected(es, p, cur, target).count(c) <= 1,
    decreases target - cur, 257int,
{
    broadcast use vstd::multiset::group_multiset_axioms;
    if cur < target && children_params(es, p).len() > 0 {
        lemma_collect_children_once(es, p, 256, cur, target);
        assert(collected(es, p, cur, target) == collect_children(es, p, 256, cur, target));
    } else {
        let x = (weight_under(es, p) as i32, p);
        assert forall|c: (i32, Seq<u8>)| #[trigger] collected(es, p, cur, target).count(c) <= 1 by {
            if c != x {
                assert(Multiset::singleton(x).count(c) == 0);
            }
        }
    }
}

/// What the children below `k` give holds each chunk at most once, and each lies
/// below a child on a byte under `k`.
proof fn lemma_collect_children_once(es: Seq<(Seq<u8>, i32)>, p: Seq<u8>, k: int, cur: int, target: int)
    requires
        cur <= target,
        k <= 256,
    ensures
        forall|c: (i32, Seq<u8>)| #[trigger] collect_children(es, p, k, cur, target).count(c) <= 1,
        forall|c: (i32, Seq<u8>)| #[trigger] collect_children(es, p, k, cur, target).count(c) > 0
            ==> p.len() < c.1.len() && c.1[p.len() as int] < k,
    decreases target - cur, k,
{
    broadcast use vstd::multiset::group_multiset_axioms;
    if k > 0 && cur < target {
        lemma_collect_children_once(es, p, k - 1, cur, target);
        let b = (k - 1) as u8;
        let rest = collect_children(es, p, k - 1, cur, target);
        if has_child(es, p, b) {
            let sub = collected(es, p.push(b), cur + 1, target);
            law_collected_once(es, p.push(b), cur + 1, target);
            law_collected_chunks(es, p.push(b), cur + 1, target);
            assert(collect_children(es, p, k, cur, target) == rest.add(sub));
            assert forall|c: (i32, Seq<u8>)| #[trigger] collect_children(es, p, k, cur, target).count(c) <= 1
                && (collect_children(es, p, k, cur, target).count(c) > 0
                    ==> p.len() < c.1.len() && c.1[p.len() as int] < k) by {
                if sub.count(c) > 0 {
                    assert(collectable(es, p.push(b), cur + 1, target, c));
                    assert(p.push(b).is_prefix_of(c.1));
                    assert(c.1.subrange(0, p.len() as int + 1) == p.push(b));
                    assert(c.1[p.len() as int] == c.1.subrange(0, p.len() as int + 1)[p.len() as int]);
                    assert(c.1[p.len() as int] == b);
                    assert(rest.count(c) == 0);
                }
            }
        } else {
            assert(collect_children(es, p, k, cur, target) == rest);
        }
    }
}

/// Popping a queue in which no chunk is held twice gives no chunk twice.
proof fn lemma_popped_distinct(m: Multiset<(i32, Seq<u8>)>, xs: Seq<(i32, Seq<u8>)>)
    requires
        popped_in_turn(m, xs),
        forall|c: (i32, Seq<u8>)| #[trigger] m.count(c) <= 1,
    ensures
        forall|i: int| 0 <= i < xs.len() ==> m.count(#[trigger] xs[i]) > 0,
        forall|i: int, j: int| 0 <= i < j < xs.len() ==> #[trigger] xs[i] != #[trigger] xs[j],
    decreases xs.len(),
{
    broadcast use vstd::multiset::group_multiset_axioms;
    if xs.len() > 0 {
        let x = xs[0];
        let rest = xs.drop_first();
        let m2 = m.remove(x);
        assert forall|c: (i32, Seq<u8>)| #[trigger] m2.count(c) <= 1 by {
            assert(m2.count(c) <= m.count(c));
        }
        lemma_popped_distinct(m2, rest);
        assert(m2.count(x) == 0);
        assert forall|i: int| 0 <= i < xs.len() implies m.count(#[trigger] xs[i]) > 0 by {
            if i > 0 {
                assert(rest[i - 1] == xs[i]);
                assert(m2.count(rest[i - 1]) > 0);
            }
        }
        assert forall|i: int, j: int| 0 <= i < j < xs.len() implies #[trigger] xs[i] != #[trigger] xs[j] by {
            assert(rest[j - 1] == xs[j]);
            assert(m2.count(rest[j - 1]) > 0);
            if i > 0 {
                assert(rest[i - 1] == xs[i]);
            }
        }
    }
}

/// One round of the queue: `next_atom` fills an empty queue with what collecting
/// finds, and popping it until it is empty gives each collected path exactly once,
/// heaviest first, with no path given twice. The queue is then empty again, so the
/// next call collects anew and the round starts over.
pub proof fn law_queue_round(es: Seq<(Seq<u8>, i32)>, origin: Seq<u8>, depth: usize, xs: Seq<(i32, Seq<u8>)>)
    requires
        popped_in_turn(filled(Multiset::empty(), es, origin, depth), xs),
        xs.len() == filled(Multiset::empty(), es, origin, depth).len(),
    ensures
        xs.to_multiset() == collected(es, origin, 0, depth as int),
        forall|i: int, j: int| 0 <= i < j < xs.len() ==> !chunk_lt(#[trigger] xs[i], #[trigger] xs[j]),
        forall|i: int, j: int| 0 <= i < j < xs.len() ==> (#[trigger] xs[i]).1 != (#[trigger] xs[j]).1,
{
    broadcast use vstd::multiset::group_multiset_axioms;
    let m = collected(es, origin, 0, depth as int);
    assert(filled(Multiset::empty(), es, origin, depth) == m);
    law_queue_drains_in_order(m, xs);
    law_collected_once(es, origin, 0, depth as int);
    law_collected_chunks(es, origin, 0, depth as int);
    lemma_popped_distinct(m, xs);
    assert forall|i: int, j: int| 0 <= i < j < xs.len() implies (#[trigger] xs[i]).1 != (#[trigger] xs[j]).1 by {
        assert(m.count(xs[i]) > 0 && m.count(xs[j]) > 0);
        assert(collectable(es, origin, 0, depth as int, xs[i]));
        assert(collectable(es, origin, 0, depth as int, xs[j]));
        assert(xs[i] != xs[j]);
    }
}

} // verus!
