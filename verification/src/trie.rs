//! A trie of weighted atoms, as the traversals read it: each atom is a path of
//! bytes with an `i32` weight, and every node of the trie (every prefix of an atom)
//! has the aggregate weight of the atoms below it.
use vstd::prelude::*;

verus! {

/// The atoms of a trie, one `(path, weight)` entry each.
pub struct WeightTrie {
    entries: Vec<(Vec<u8>, i32)>,
}

/// The plain value of an entry.
pub open spec fn entry_view(e: (Vec<u8>, i32)) -> (Seq<u8>, i32) {
    (e.0@, e.1)
}

impl View for WeightTrie {
    type V = Seq<(Seq<u8>, i32)>;

    closed spec fn view(&self) -> Seq<(Seq<u8>, i32)> {
        self.entries@.map_values(|e: (Vec<u8>, i32)| entry_view(e))
    }
}

/// No path occurs in two entries.
pub open spec fn paths_distinct(es: Seq<(Seq<u8>, i32)>) -> bool {
    forall|i: int, j: int| 0 <= i < es.len() && 0 <= j < es.len() && i != j ==> es[i].0 != es[j].0
}

/// The weight of the atom at `p`, `None` when no atom ends there.
pub open spec fn value_of(es: Seq<(Seq<u8>, i32)>, p: Seq<u8>) -> Option<i32>
    decreases es.len(),
{
    if es.len() == 0 {
        None
    } else if es.last().0 == p {
        Some(es.last().1)
    } else {
        value_of(es.drop_last(), p)
    }
}

/// The atoms after setting the weight of the atom at `p` to `w`: its entry
/// updated in place when there is one, a new entry at the end otherwise.
pub open spec fn set_path(es: Seq<(Seq<u8>, i32)>, p: Seq<u8>, w: i32) -> Seq<(Seq<u8>, i32)> {
    if exists|i: int| 0 <= i < es.len() && es[i].0 == p {
        es.update(choose|i: int| 0 <= i < es.len() && es[i].0 == p, (p, w))
    } else {
        es.push((p, w))
    }
}

/// The aggregate weight of the node `p`: the weights of the atoms at or below it, summed.
pub open spec fn weight_under(es: Seq<(Seq<u8>, i32)>, p: Seq<u8>) -> int
    decreases es.len(),
{
    if es.len() == 0 {
        0
    } else {
        weight_under(es.drop_last(), p) + if p.is_prefix_of(es.last().0) { es.last().1 as int } else { 0 }
    }
}

/// The absolute weights of the atoms, summed.
pub open spec fn abs_total(es: Seq<(Seq<u8>, i32)>) -> int
    decreases es.len(),
{
    if es.len() == 0 {
        0
    } else {
        abs_total(es.drop_last()) + if es.last().1 < 0 { -(es.last().1 as int) } else { es.last().1 as int }
    }
}

/// The node `p` has a child on the byte `b`: some atom lies below `p` followed by `b`.
pub open spec fn has_child(es: Seq<(Seq<u8>, i32)>, p: Seq<u8>, b: u8) -> bool {
    exists|i: int| 0 <= i < es.len() && #[trigger] p.push(b).is_prefix_of(es[i].0)
}

/// The length of the longest path.
pub open spec fn max_len(es: Seq<(Seq<u8>, i32)>) -> nat
    decreases es.len(),
{
    if es.len() == 0 {
        0
    } else if max_len(es.drop_last()) < es.last().0.len() {
        es.last().0.len()
    } else {
        max_len(es.drop_last())
    }
}

/// The children of `p` on the bytes below `k`, in byte order, each with its
/// aggregate weight.
pub open spec fn params_below(es: Seq<(Seq<u8>, i32)>, p: Seq<u8>, k: int) -> Seq<(i32, u8)>
    decreases k,
{
    if k <= 0 {
        Seq::empty()
    } else {
        let b = (k - 1) as u8;
        let rest = params_below(es, p, k - 1);
        if has_child(es, p, b) { rest.push((weight_under(es, p.push(b)) as i32, b)) } else { rest }
    }
}

/// The children of `p` in byte order, each with its aggregate weight.
pub open spec fn children_params(es: Seq<(Seq<u8>, i32)>, p: Seq<u8>) -> Seq<(i32, u8)> {
    params_below(es, p, 256)
}

/// The aggregate weights all fit an `i32`, whatever the order of summing: the
/// absolute weights sum to at most `i32::MAX`.
pub open spec fn weights_fit(es: Seq<(Seq<u8>, i32)>) -> bool {
    abs_total(es) <= i32::MAX
}

/// No path is longer than the longest.
pub proof fn lemma_max_len(es: Seq<(Seq<u8>, i32)>)
    ensures
        forall|i: int| 0 <= i < es.len() ==> #[trigger] es[i].0.len() <= max_len(es),
    decreases es.len(),
{
    if es.len() > 0 {
        lemma_max_len(es.drop_last());
        assert forall|i: int| 0 <= i < es.len() implies #[trigger] es[i].0.len() <= max_len(es) by {
            if i < es.len() - 1 {
                assert(es.drop_last()[i] == es[i]);
            }
        }
    }
}

/// A node with a child is shorter than the longest path.
pub proof fn lemma_child_depth(es: Seq<(Seq<u8>, i32)>, p: Seq<u8>, b: u8)
    requires
        has_child(es, p, b),
    ensures
        p.len() + 1 <= max_len(es),
{
    lemma_max_len(es);
    let i = choose|i: int| 0 <= i < es.len() && #[trigger] p.push(b).is_prefix_of(es[i].0);
    assert(es[i].0.len() <= max_len(es));
}

/// Every listed child is a child, listed in increasing byte order, below `k`.
pub proof fn lemma_params_below(es: Seq<(Seq<u8>, i32)>, p: Seq<u8>, k: int)
    requires
        0 <= k <= 256,
    ensures
        params_below(es, p, k).len() <= k,
        forall|i: int| 0 <= i < params_below(es, p, k).len() ==>
            has_child(es, p, #[trigger] params_below(es, p, k)[i].1) && params_below(es, p, k)[i].1 < k
            && params_below(es, p, k)[i].0 == weight_under(es, p.push(params_below(es, p, k)[i].1)) as i32,
        forall|i: int, j: int| 0 <= i < j < params_below(es, p, k).len() ==>
            #[trigger] params_below(es, p, k)[i].1 < #[trigger] params_below(es, p, k)[j].1,
        forall|b: u8| b < k && has_child(es, p, b) ==>
            exists|i: int| 0 <= i < params_below(es, p, k).len() && #[trigger] params_below(es, p, k)[i].1 == b,
    decreases k,
{
    if k > 0 {
        lemma_params_below(es, p, k - 1);
        let ps = params_below(es, p, k);
        let b0 = (k - 1) as u8;
        assert forall|b: u8| b < k && has_child(es, p, b) implies
            exists|i: int| 0 <= i < ps.len() && #[trigger] ps[i].1 == b by {
            if b < k - 1 {
                let i = choose|i: int| 0 <= i < params_below(es, p, k - 1).len() && #[trigger] params_below(es, p, k - 1)[i].1 == b;
                assert(ps[i] == params_below(es, p, k - 1)[i]);
            } else {
                assert(b == b0);
                assert(ps[ps.len() - 1].1 == b);
            }
        }
    }
}

/// Every atom weighs at least zero.
pub open spec fn atoms_nonneg(es: Seq<(Seq<u8>, i32)>) -> bool {
    forall|i: int| 0 <= i < es.len() ==> #[trigger] es[i].1 >= 0
}

/// The weight of the atom at `p`, zero when no atom ends there.
pub open spec fn value_or_zero(es: Seq<(Seq<u8>, i32)>, p: Seq<u8>) -> int {
    match value_of(es, p) {
        Some(v) => v as int,
        None => 0,
    }
}

/// With no negative atom, no node weighs less than zero, nor does any atom.
pub proof fn lemma_weights_nonneg(es: Seq<(Seq<u8>, i32)>, p: Seq<u8>)
    requires
        atoms_nonneg(es),
    ensures
        weight_under(es, p) >= 0,
        value_or_zero(es, p) >= 0,
    decreases es.len(),
{
    if es.len() > 0 {
        let rest = es.drop_last();
        assert(atoms_nonneg(rest)) by {
            assert forall|i: int| 0 <= i < rest.len() implies #[trigger] rest[i].1 >= 0 by {
                assert(rest[i] == es[i]);
            }
        }
        lemma_weights_nonneg(rest, p);
        assert(es[es.len() - 1].1 >= 0);
    }
}

/// An atom strictly below `p` lies below a child of `p`.
pub proof fn lemma_atom_below_child(es: Seq<(Seq<u8>, i32)>, p: Seq<u8>, q: Seq<u8>)
    requires
        p.is_prefix_of(q),
        p.len() < q.len(),
        value_of(es, q) is Some,
    ensures
        has_child(es, p, q[p.len() as int]),
        p.push(q[p.len() as int]).is_prefix_of(q),
{
    lemma_value_of_found(es, q);
    let i = choose|i: int| 0 <= i < es.len() && es[i].0 == q;
    lemma_push_prefix(p, q[p.len() as int], q);
    assert(p.push(q[p.len() as int]).is_prefix_of(es[i].0));
}

/// The absolute weights of a prefix of the atoms sum to no more than all of them.
pub proof fn lemma_abs_total_prefix(es: Seq<(Seq<u8>, i32)>, i: int)
    requires
        0 <= i <= es.len(),
    ensures
        0 <= abs_total(es.take(i)) <= abs_total(es),
    decreases es.len() - i,
{
    if i < es.len() {
        lemma_abs_total_prefix(es, i + 1);
        assert(es.take(i + 1).drop_last() =~= es.take(i));
    } else {
        assert(es.take(i) =~= es);
    }
    lemma_abs_total_nonneg(es.take(i));
}

/// Absolute weights sum to no less than zero.
pub proof fn lemma_abs_total_nonneg(es: Seq<(Seq<u8>, i32)>)
    ensures
        abs_total(es) >= 0,
    decreases es.len(),
{
    if es.len() > 0 {
        lemma_abs_total_nonneg(es.drop_last());
    }
}

/// An aggregate weight is no larger in size than the absolute total.
pub proof fn lemma_weight_bound(es: Seq<(Seq<u8>, i32)>, p: Seq<u8>)
    ensures
        -abs_total(es) <= weight_under(es, p) <= abs_total(es),
    decreases es.len(),
{
    if es.len() > 0 {
        lemma_weight_bound(es.drop_last(), p);
    }
}

/// The aggregate weights of the children of `p` on the bytes below `k`, summed.
pub open spec fn children_weight(es: Seq<(Seq<u8>, i32)>, p: Seq<u8>, k: int) -> int
    decreases k,
{
    if k <= 0 { 0 } else { children_weight(es, p, k - 1) + weight_under(es, p.push((k - 1) as u8)) }
}

/// The weights of a list of children, summed.
pub open spec fn params_total(params: Seq<(i32, u8)>) -> int
    decreases params.len(),
{
    if params.len() == 0 { 0 } else { params_total(params.drop_last()) + params.last().0 as int }
}

/// `p` followed by `b` starts `q` exactly when `p` starts `q` and `b` comes next.
pub proof fn lemma_push_prefix(p: Seq<u8>, b: u8, q: Seq<u8>)
    ensures
        p.push(b).is_prefix_of(q) <==> (p.is_prefix_of(q) && q.len() > p.len() && q[p.len() as int] == b),
{
    if p.push(b).is_prefix_of(q) {
        assert(q.subrange(0, p.len() as int) =~= q.subrange(0, p.len() as int + 1).take(p.len() as int));
        assert(p.push(b).take(p.len() as int) =~= p);
        assert(p.push(b)[p.len() as int] == b);
    }
    if p.is_prefix_of(q) && q.len() > p.len() && q[p.len() as int] == b {
        assert(p.push(b) =~= q.subrange(0, p.len() as int + 1));
    }
}

/// One more atom adds its weight to the children's total when it lies strictly
/// below `p`, on a byte below `k`.
proof fn lemma_children_weight_push(es: Seq<(Seq<u8>, i32)>, e: (Seq<u8>, i32), p: Seq<u8>, k: int)
    requires
        0 <= k <= 256,
    ensures
        children_weight(es.push(e), p, k) == children_weight(es, p, k) + if p.is_prefix_of(e.0)
            && e.0.len() > p.len() && e.0[p.len() as int] < k { e.1 as int } else { 0 },
    decreases k,
{
    if k > 0 {
        lemma_children_weight_push(es, e, p, k - 1);
        let b = (k - 1) as u8;
        assert(es.push(e).drop_last() =~= es);
        lemma_push_prefix(p, b, e.0);
    }
}

/// Nothing lies below a node without atoms.
proof fn lemma_weight_without_atoms(es: Seq<(Seq<u8>, i32)>, q: Seq<u8>)
    requires
        forall|i: int| 0 <= i < es.len() ==> !q.is_prefix_of(#[trigger] es[i].0),
    ensures
        weight_under(es, q) == 0,
    decreases es.len(),
{
    if es.len() > 0 {
        assert forall|i: int| 0 <= i < es.len() - 1 implies !q.is_prefix_of(#[trigger] es.drop_last()[i].0) by {
            assert(es.drop_last()[i] == es[i]);
        }
        lemma_weight_without_atoms(es.drop_last(), q);
        assert(!q.is_prefix_of(es[es.len() - 1].0));
    }
}

/// The listed children sum to what all children sum to.
proof fn lemma_params_total(es: Seq<(Seq<u8>, i32)>, p: Seq<u8>, k: int)
    requires
        0 <= k <= 256,
        weights_fit(es),
    ensures
        params_total(params_below(es, p, k)) == children_weight(es, p, k),
    decreases k,
{
    if k > 0 {
        lemma_params_total(es, p, k - 1);
        let b = (k - 1) as u8;
        if has_child(es, p, b) {
            lemma_weight_bound(es, p.push(b));
            let ps = params_below(es, p, k);
            assert(ps.drop_last() == params_below(es, p, k - 1));
        } else {
            lemma_weight_without_atoms(es, p.push(b));
        }
    }
}

/// The aggregate weight of a node is its own weight (zero without one) plus the
/// aggregate weights of its children: the fold, node by node, that the weights of
/// a trie are defined by.
pub proof fn law_weight_is_value_plus_children(es: Seq<(Seq<u8>, i32)>, p: Seq<u8>)
    requires
        paths_distinct(es),
        weights_fit(es),
    ensures
        weight_under(es, p) == (match value_of(es, p) { Some(v) => v as int, None => 0 })
            + params_total(children_params(es, p)),
        weight_under(es, p) == (match value_of(es, p) { Some(v) => v as int, None => 0 })
            + children_weight(es, p, 256),
    decreases es.len(),
{
    lemma_params_total(es, p, 256);
    if es.len() > 0 {
        let rest = es.drop_last();
        let e = es.last();
        assert(rest.push(e) =~= es);
        assert(paths_distinct(rest)) by {
            assert forall|i: int, j: int| 0 <= i < rest.len() && 0 <= j < rest.len() && i != j
                implies rest[i].0 != rest[j].0 by {
                assert(rest[i] == es[i] && rest[j] == es[j]);
            }
        }
        lemma_abs_total_prefix(es, rest.len() as int);
        assert(es.take(rest.len() as int) =~= rest);
        law_weight_is_value_plus_children(rest, p);
        lemma_children_weight_push(rest, e, p, 256);
        assert(weight_under(es, p) == weight_under(rest, p) + if p.is_prefix_of(e.0) { e.1 as int } else { 0 });
        assert(value_of(es, p) == if e.0 == p { Some(e.1) } else { value_of(rest, p) });
        if e.0 == p {
            assert(p.is_prefix_of(e.0)) by {
                assert(p =~= e.0.subrange(0, p.len() as int));
            }
            assert(value_of(rest, p) is None) by {
                lemma_value_of_found(rest, p);
                if value_of(rest, p) is Some {
                    let i = choose|i: int| 0 <= i < rest.len() && rest[i].0 == p;
                    assert(es[i].0 == es[es.len() - 1].0);
                }
            }
        } else if p.is_prefix_of(e.0) {
            assert(e.0.len() > p.len()) by {
                if e.0.len() == p.len() {
                    assert(e.0 =~= e.0.subrange(0, p.len() as int));
                }
            }
        }
    } else {
        assert(children_weight(es, p, 256) == 0) by {
            lemma_children_weight_empty(es, p, 256);
        }
    }
}

/// No child weighs anything in an empty trie.
proof fn lemma_children_weight_empty(es: Seq<(Seq<u8>, i32)>, p: Seq<u8>, k: int)
    requires
        es.len() == 0,
    ensures
        children_weight(es, p, k) == 0,
    decreases k,
{
    if k > 0 {
        lemma_children_weight_empty(es, p, k - 1);
    }
}

/// An atom found at `p` is one of the entries.
proof fn lemma_value_of_found(es: Seq<(Seq<u8>, i32)>, p: Seq<u8>)
    ensures
        value_of(es, p) is Some ==> exists|i: int| 0 <= i < es.len() && es[i].0 == p,
    decreases es.len(),
{
    if es.len() > 0 && es.last().0 != p {
        lemma_value_of_found(es.drop_last(), p);
        if value_of(es, p) is Some {
            let i = choose|i: int| 0 <= i < es.drop_last().len() && es.drop_last()[i].0 == p;
            assert(es[i] == es.drop_last()[i]);
        }
    }
}

/// An entry's path holds an atom.
pub proof fn lemma_value_of_entry(es: Seq<(Seq<u8>, i32)>, i: int)
    requires
        0 <= i < es.len(),
    ensures
        value_of(es, es[i].0) is Some,
    decreases es.len(),
{
    if es.last().0 != es[i].0 {
        assert(i != es.len() - 1);
        assert(es.drop_last()[i] == es[i]);
        lemma_value_of_entry(es.drop_last(), i);
    }
}

/// Whether `p` is a prefix of `q`.
fn is_prefix(p: &[u8], q: &[u8]) -> (r: bool)
    ensures
        r == p@.is_prefix_of(q@),
{
    if p.len() > q.len() {
        return false;
    }
    let mut i: usize = 0;
    while i < p.len()
        invariant
            i <= p@.len() <= q@.len(),
            forall|j: int| 0 <= j < i ==> p@[j] == q@[j],
        decreases p@.len() - i,
    {
        if p[i] != q[i] {
            assert(p@[i as int] != q@.subrange(0, p@.len() as int)[i as int]);
            return false;
        }
        i = i + 1;
    }
    assert(p@ =~= q@.subrange(0, p@.len() as int));
    true
}

/// `p` followed by `b`.
fn pushed(p: &Vec<u8>, b: u8) -> (r: Vec<u8>)
    ensures
        r@ == p@.push(b),
{
    let mut r = crate::pure::dup(p);
    r.push(b);
    r
}

impl WeightTrie {
    /// No path occurs in two entries.
    #[verifier::type_invariant]
    pub closed spec fn distinct(self) -> bool {
        paths_distinct(self.entries@.map_values(|e: (Vec<u8>, i32)| entry_view(e)))
    }

    /// A trie holds no path twice.
    pub proof fn lemma_distinct(self)
        requires
            self.distinct(),
        ensures
            paths_distinct(self@),
    {
    }

    /// The empty trie.
    pub fn new() -> (t: Self)
        ensures
            t@ == Seq::<(Seq<u8>, i32)>::empty(),
            paths_distinct(t@),
    {
        let t = WeightTrie { entries: Vec::new() };
        assert(t@ =~= Seq::<(Seq<u8>, i32)>::empty());
        t
    }

    /// The entry view at one index.
    proof fn lemma_view_index(&self, i: int)
        requires
            0 <= i < self.entries@.len(),
        ensures
            self@.len() == self.entries@.len(),
            self@[i] == (self.entries@[i].0@, self.entries@[i].1),
    {
    }

    /// Sets the weight of the atom at `path`, adding the atom when there is none.
    pub fn set_val_at(&mut self, path: &[u8], w: i32)
        ensures
            final(self)@ == set_path(old(self)@, path@, w),
            paths_distinct(final(self)@),
    {
        proof { use_type_invariant(&*self); }
        let ghost es = self@;
        assert(paths_distinct(es));
        let mut i: usize = 0;
        while i < self.entries.len()
            invariant
                i <= self.entries@.len(),
                es == self@,
                es.len() == self.entries@.len(),
                es == old(self)@,
                paths_distinct(es),
                forall|j: int| 0 <= j < i ==> es[j].0 != path@,
            decreases self.entries@.len() - i,
        {
            proof { self.lemma_view_index(i as int); }
            if is_prefix(self.entries[i].0.as_slice(), path) && self.entries[i].0.len() == path.len() {
                assert(self.entries@[i as int].0@ =~= path@);
                let ghost k = i as int;
                assert(es[k].0 == path@);
                let ghost c = choose|i: int| 0 <= i < es.len() && es[i].0 == path@;
                assert(c == k) by {
                    if c != k {
                        assert(es[c].0 == es[k].0);
                    }
                }
                let mut p: Vec<u8> = Vec::new();
                let mut j: usize = 0;
                while j < path.len()
                    invariant
                        j <= path@.len(),
                        p@ == path@.take(j as int),
                    decreases path@.len() - j,
                {
                    p.push(path[j]);
                    j = j + 1;
                    assert(p@ =~= path@.take(j as int));
                }
                assert(p@ =~= path@);
                let mut v: Vec<(Vec<u8>, i32)> = Vec::new();
                std::mem::swap(&mut self.entries, &mut v);
                let ghost before = v@;
                v.set(i, (p, w));
                assert(v@.map_values(|e: (Vec<u8>, i32)| entry_view(e)) =~= es.update(k, (path@, w)));
                assert(paths_distinct(es.update(k, (path@, w))));
                self.entries = v;
                assert(self@ == es.update(k, (path@, w)));
                assert(0 <= k < es.len() && es[k].0 == path@);
                assert(set_path(es, path@, w) == es.update(c, (path@, w)));
                assert(es == old(self)@);
                assert(self@ == set_path(old(self)@, path@, w));
                proof { use_type_invariant(&*self); }
                return;
            }
            proof {
                self.lemma_view_index(i as int);
                if es[i as int].0 == path@ {
                    assert(self.entries@[i as int].0@.is_prefix_of(path@));
                }
            }
            i = i + 1;
        }
        let mut p: Vec<u8> = Vec::new();
        let mut j: usize = 0;
        while j < path.len()
            invariant
                j <= path@.len(),
                p@ == path@.take(j as int),
            decreases path@.len() - j,
        {
            p.push(path[j]);
            j = j + 1;
            assert(p@ =~= path@.take(j as int));
        }
        assert(p@ =~= path@);
        let mut v: Vec<(Vec<u8>, i32)> = Vec::new();
        std::mem::swap(&mut self.entries, &mut v);
        v.push((p, w));
        assert(v@.map_values(|e: (Vec<u8>, i32)| entry_view(e)) =~= es.push((path@, w)));
        assert(paths_distinct(es.push((path@, w))));
        self.entries = v;
        assert(self@ == es.push((path@, w)));
        proof { use_type_invariant(&*self); }
    }

    /// The number of atoms.
    pub fn val_count(&self) -> (r: usize)
        ensures
            r == self@.len(),
    {
        self.entries.len()
    }

    /// The weight of the atom at `p`, `None` when no atom ends there.
    pub fn value_at(&self, p: &[u8]) -> (r: Option<i32>)
        ensures
            r == value_of(self@, p@),
    {
        let ghost es = self@;
        let mut r: Option<i32> = None;
        let mut i: usize = 0;
        assert(es.take(0) =~= Seq::<(Seq<u8>, i32)>::empty());
        while i < self.entries.len()
            invariant
                i <= self.entries@.len(),
                es == self@,
                es.len() == self.entries@.len(),
                r == value_of(es.take(i as int), p@),
            decreases self.entries@.len() - i,
        {
            proof { self.lemma_view_index(i as int); }
            assert(es.take(i + 1).drop_last() =~= es.take(i as int));
            if is_prefix(self.entries[i].0.as_slice(), p) && self.entries[i].0.len() == p.len() {
                assert(self.entries@[i as int].0@ =~= p@);
                r = Some(self.entries[i].1);
            } else {
                assert(self.entries@[i as int].0@ != p@ ) by {
                    if self.entries@[i as int].0@ == p@ {
                        assert(self.entries@[i as int].0@.is_prefix_of(p@));
                    }
                }
            }
            i = i + 1;
        }
        assert(es.take(es.len() as int) =~= es);
        r
    }

    /// Whether the aggregate weights fit an `i32` (see [weights_fit]).
    pub fn fits(&self) -> (r: bool)
        ensures
            r == weights_fit(self@),
    {
        let ghost es = self@;
        let mut total: i64 = 0;
        let mut i: usize = 0;
        assert(es.take(0) =~= Seq::<(Seq<u8>, i32)>::empty());
        while i < self.entries.len()
            invariant
                i <= self.entries@.len(),
                es == self@,
                es.len() == self.entries@.len(),
                total == abs_total(es.take(i as int)),
                total <= i32::MAX,
            decreases self.entries@.len() - i,
        {
            proof { self.lemma_view_index(i as int); }
            assert(es.take(i + 1).drop_last() =~= es.take(i as int));
            let w = self.entries[i].1;
            let a: i64 = if w < 0 { -(w as i64) } else { w as i64 };
            total = total + a;
            i = i + 1;
            if total > i32::MAX as i64 {
                proof { lemma_abs_total_prefix(es, i as int); }
                return false;
            }
        }
        assert(es.take(es.len() as int) =~= es);
        true
    }

    /// The aggregate weight of the node `p`.
    pub fn weight_under(&self, p: &[u8]) -> (r: i32)
        requires
            weights_fit(self@),
        ensures
            r == weight_under(self@, p@),
    {
        let ghost es = self@;
        let mut total: i32 = 0;
        let mut i: usize = 0;
        assert(es.take(0) =~= Seq::<(Seq<u8>, i32)>::empty());
        while i < self.entries.len()
            invariant
                i <= self.entries@.len(),
                es == self@,
                es.len() == self.entries@.len(),
                weights_fit(es),
                total == weight_under(es.take(i as int), p@),
            decreases self.entries@.len() - i,
        {
            proof {
                self.lemma_view_index(i as int);
                lemma_abs_total_prefix(es, i + 1);
                lemma_weight_bound(es.take(i + 1), p@);
            }
            assert(es.take(i + 1).drop_last() =~= es.take(i as int));
            if is_prefix(p, self.entries[i].0.as_slice()) {
                total = total + self.entries[i].1;
            }
            i = i + 1;
        }
        assert(es.take(es.len() as int) =~= es);
        total
    }

    /// Whether the node `p` has a child on the byte `b`.
    pub fn has_child(&self, p: &Vec<u8>, b: u8) -> (r: bool)
        ensures
            r == has_child(self@, p@, b),
    {
        let ghost es = self@;
        let q = pushed(p, b);
        let mut i: usize = 0;
        while i < self.entries.len()
            invariant
                i <= self.entries@.len(),
                es == self@,
                es.len() == self.entries@.len(),
                q@ == p@.push(b),
                forall|j: int| 0 <= j < i ==> !(#[trigger] p@.push(b).is_prefix_of(es[j].0)),
            decreases self.entries@.len() - i,
        {
            proof { self.lemma_view_index(i as int); }
            if is_prefix(q.as_slice(), self.entries[i].0.as_slice()) {
                assert(p@.push(b).is_prefix_of(es[i as int].0));
                return true;
            }
            i = i + 1;
        }
        false
    }

    /// The children of the node `p` in byte order, each with its aggregate weight.
    pub fn children_agg_w(&self, p: &Vec<u8>) -> (r: Vec<(i32, u8)>)
        requires
            weights_fit(self@),
        ensures
            r@ == children_params(self@, p@),
    {
        let mut r: Vec<(i32, u8)> = Vec::new();
        let mut b: u16 = 0;
        while b < 256
            invariant
                b <= 256,
                weights_fit(self@),
                r@ == params_below(self@, p@, b as int),
            decreases 256 - b,
        {
            let byte = b as u8;
            assert(byte == (b + 1 - 1) as u8);
            if self.has_child(p, byte) {
                let q = pushed(p, byte);
                let w = self.weight_under(q.as_slice());
                r.push((w, byte));
            }
            b = b + 1;
        }
        r
    }
}

} // verus!
