//! Sources of a query: which kind of source an expression names, the prefix under
//! which its factor is seen, and what a comparison source enrolls at a leaf.
//!
//! The zippers that a source builds live outside this library; the decisions they
//! are built from are made here, over the bytes of the expression.
use vstd::prelude::*;

verus! {

/// The comparison of a comparison source.
#[derive(PartialEq, Eq, Structural, Clone, Copy, Debug)]
pub enum Comparison {
    /// `(== a b)`
    Equal,
    /// `(!= a b)`
    NotEqual,
}

/// The kind of source an expression names.
#[derive(PartialEq, Eq, Structural, Clone, Copy, Debug)]
pub enum SourceKind {
    /// `(BTM pattern)`: the patterns of the space itself.
    Btm,
    /// `(== a b)` or `(!= a b)`: pairs compared on the space.
    Cmp(Comparison),
}

/// The head of a `BTM` source: a pair whose first child is the symbol `BTM`.
pub open spec fn btm_head() -> Seq<u8> {
    seq![2u8, 195u8, 66u8, 84u8, 77u8]
}

/// The kind of source the expression `e` names: a pair headed by the symbol `BTM`,
/// or a triple headed by the symbol `==` or `!=`; `None` for anything else.
pub open spec fn spec_source_kind(e: Seq<u8>) -> Option<SourceKind> {
    if e.len() >= 5 && e.take(5) == btm_head() {
        Some(SourceKind::Btm)
    } else if e.len() >= 4 && e[0] == 3 && e[1] == 194 && e[3] == 61 && (e[2] == 61 || e[2] == 33) {
        Some(SourceKind::Cmp(if e[2] == 61 { Comparison::Equal } else { Comparison::NotEqual }))
    } else {
        None
    }
}

/// The kind of source the expression `e` names (see [spec_source_kind]); `None`
/// for an expression that names no source this library knows.
pub fn source_kind(e: &[u8]) -> (r: Option<SourceKind>)
    ensures
        r == spec_source_kind(e@),
{
    if e.len() >= 5 && e[0] == 2 && e[1] == 195 && e[2] == 66 && e[3] == 84 && e[4] == 77 {
        assert(e@.take(5) =~= btm_head());
        return Some(SourceKind::Btm);
    }
    assert(e@.len() >= 5 ==> (e@.take(5) == btm_head() ==> e@[0] == 2 && e@[1] == 195 && e@[2] == 66
        && e@[3] == 84 && e@[4] == 77));
    if e.len() >= 4 && e[0] == 3 && e[1] == 194 && e[3] == 61 {
        if e[2] == 61 {
            return Some(SourceKind::Cmp(Comparison::Equal));
        } else if e[2] == 33 {
            return Some(SourceKind::Cmp(Comparison::NotEqual));
        }
    }
    None
}

/// The prefix of the paths that a source yields: its head, as it stands in the
/// source expression (`[2] BTM`, `[3] ==` or `[3] !=`).
pub open spec fn spec_source_prefix(k: SourceKind) -> Seq<u8> {
    match k {
        SourceKind::Btm => btm_head(),
        SourceKind::Cmp(Comparison::Equal) => seq![3u8, 194u8, 61u8, 61u8],
        SourceKind::Cmp(Comparison::NotEqual) => seq![3u8, 194u8, 33u8, 61u8],
    }
}

/// The prefix of the paths that a source of kind `k` yields.
pub fn source_prefix(k: SourceKind) -> (r: Vec<u8>)
    ensures
        r@ == spec_source_prefix(k),
{
    let r = match k {
        SourceKind::Btm => vec![2u8, 195u8, 66u8, 84u8, 77u8],
        SourceKind::Cmp(Comparison::Equal) => vec![3u8, 194u8, 61u8, 61u8],
        SourceKind::Cmp(Comparison::NotEqual) => vec![3u8, 194u8, 33u8, 61u8],
    };
    assert(r@ =~= spec_source_prefix(k));
    r
}

/// A source's prefix starts the expression that names it.
pub proof fn law_prefix_of_named_source(e: Seq<u8>)
    requires
        spec_source_kind(e) is Some,
    ensures
        spec_source_prefix(spec_source_kind(e).unwrap()).len() <= e.len(),
        e.take(spec_source_prefix(spec_source_kind(e).unwrap()).len() as int)
            == spec_source_prefix(spec_source_kind(e).unwrap()),
{
    let k = spec_source_kind(e).unwrap();
    assert(e.take(spec_source_prefix(k).len() as int) =~= spec_source_prefix(k));
}

/// What a comparison source puts under a pair of paths that agree up to a leaf.
#[derive(PartialEq, Eq, Structural, Clone, Copy, Debug)]
pub enum Enrollment {
    /// The leaf's own path, alone.
    Same,
    /// Every path of the space but the leaf's.
    AllBut,
}

/// What a comparison source enrolls at a path with `children` pending children:
/// nothing until the path is complete; then the path itself for `==`, every other
/// path for `!=`.
pub fn enrollment(cmp: Comparison, children: usize) -> (r: Option<Enrollment>)
    ensures
        children != 0 ==> r is None,
        children == 0 && cmp == Comparison::Equal ==> r == Some(Enrollment::Same),
        children == 0 && cmp == Comparison::NotEqual ==> r == Some(Enrollment::AllBut),
{
    if children != 0 {
        return None;
    }
    match cmp {
        Comparison::Equal => Some(Enrollment::Same),
        Comparison::NotEqual => Some(Enrollment::AllBut),
    }
}

} // verus!
