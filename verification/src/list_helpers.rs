//! Reading tuples apart and putting them together.
use vstd::prelude::*;
use crate::error::EvalError;
use crate::expr::{Tag, byte_item, item_byte, expr_len};
use crate::expr::{is_expr, items_len, first_expr, split_items, tuple_children, encode_tuple, spec_byte_item};
use crate::expr::{lemma_items_len_bounds, lemma_items_len_split, lemma_split_items};

verus! {

/// The byte views of a sequence of byte vectors.
pub open spec fn views(v: Seq<Vec<u8>>) -> Seq<Seq<u8>> {
    v.map_values(|x: Vec<u8>| x@)
}

/// Pushing a vector pushes its view.
pub proof fn lemma_views_push(v: Seq<Vec<u8>>, x: Vec<u8>)
    ensures
        views(v.push(x)) == views(v).push(x@),
{
    assert(views(v.push(x)) =~= views(v).push(x@));
}

/// The bytes `s[i..j]`.
pub fn copy_range(s: &[u8], i: usize, j: usize) -> (r: Vec<u8>)
    requires
        i <= j <= s@.len(),
    ensures
        r@ == s@.subrange(i as int, j as int),
{
    let mut r: Vec<u8> = Vec::new();
    let mut k = i;
    while k < j
        invariant
            i <= k <= j <= s@.len(),
            r@ == s@.subrange(i as int, k as int),
        decreases j - k,
    {
        r.push(s[k]);
        k = k + 1;
        assert(r@ =~= s@.subrange(i as int, k as int));
    }
    r
}

/// The span of the expression at the start of `s`, `None` when `s` does not
/// start with a complete expression.
pub fn expr_span(s: &[u8]) -> (r: Option<Vec<u8>>)
    ensures
        r matches Some(v) ==> first_expr(s@) == Some(v@),
        r is None ==> first_expr(s@) is None,
{
    match expr_len(s, 0) {
        Some(n) => {
            assert(s@.skip(0) =~= s@);
            proof { lemma_items_len_bounds(s@, 1); }
            let v = copy_range(s, 0, n);
            assert(v@ =~= s@.take(n as int));
            Some(v)
        },
        None => {
            assert(s@.skip(0) =~= s@);
            None
        },
    }
}

/// The content bytes of a symbol, or `None` when `e` is not a symbol.
pub open spec fn symbol_content(e: Seq<u8>) -> Option<Seq<u8>> {
    if e.len() > 0 {
        match spec_byte_item(e[0]) {
            Some(Tag::SymbolSize(n)) => Some(e.subrange(1, 1 + n)),
            _ => None,
        }
    } else {
        None
    }
}

/// The content bytes of a symbol expression (without its tag byte), or `None`
/// when the expression is not a symbol.
pub fn expr_symbol_content(e: &[u8]) -> (r: Option<Vec<u8>>)
    requires
        is_expr(e@),
    ensures
        r matches Some(v) ==> symbol_content(e@) == Some(v@),
        r is None ==> symbol_content(e@) is None,
{
    match byte_item(e[0]) {
        Some(Tag::SymbolSize(n)) => {
            proof { lemma_symbol_len(e@); }
            Some(copy_range(e, 1, 1 + n as usize))
        },
        _ => None,
    }
}

/// A symbol expression is its tag byte and its content.
pub proof fn lemma_symbol_len(e: Seq<u8>)
    requires
        is_expr(e),
        e.len() > 0,
        spec_byte_item(e[0]) matches Some(Tag::SymbolSize(n)),
    ensures
        spec_byte_item(e[0]) matches Some(Tag::SymbolSize(n)) && e.len() == 1 + n,
{
    reveal_with_fuel(items_len, 2);
}

/// The children of a tuple, or `ExpectsTuple` when the expression is not one.
pub fn exp_to_vec(tuple_expr: &[u8]) -> (r: Result<Vec<Vec<u8>>, EvalError>)
    requires
        is_expr(tuple_expr@),
    ensures
        match tuple_children(tuple_expr@) {
            Some(c) => r matches Ok(v) && views(v@) == c,
            None => r == Err::<Vec<Vec<u8>>, EvalError>(EvalError::ExpectsTuple),
        },
{
    let e = tuple_expr;
    match byte_item(e[0]) {
        Some(Tag::Arity(a)) => {
            let ghost body = e@.drop_first();
            proof {
                reveal_with_fuel(items_len, 1);
                assert(items_len(body, a as nat) == Some((e@.len() - 1) as nat));
                lemma_split_items(body, a as nat);
            }
            let mut out: Vec<Vec<u8>> = Vec::new();
            let mut pos: usize = 1;
            let mut i: u8 = 0;
            while i < a
                invariant
                    1 <= pos <= e@.len(),
                    i <= a,
                    body == e@.drop_first(),
                    items_len(e@.skip(pos as int), (a - i) as nat) == Some((e@.len() - pos) as nat),
                    split_items(body, a as nat) == views(out@) + split_items(e@.skip(pos as int), (a - i) as nat),
                decreases a - i,
            {
                proof {
                    lemma_items_len_split(e@.skip(pos as int), 1, (a - i - 1) as nat);
                    assert((1 + (a - i - 1)) as nat == (a - i) as nat);
                }
                let n = expr_len(e, pos).unwrap();
                proof { lemma_items_len_bounds(e@.skip(pos as int), 1); }
                assert(items_len(e@.skip(pos as int), 1) == Some(n as nat));
                assert(n <= e@.len() - pos);
                let len = e.len();
                assert(pos + n <= len);
                let item = copy_range(e, pos, pos + n);
                let ghost old_out = out@;
                let ghost rest = e@.skip(pos as int);
                assert(item@ =~= rest.take(n as int));
                assert(rest.skip(n as int) =~= e@.skip(pos + n));
                out.push(item);
                assert(views(out@) =~= views(old_out).push(item@));
                assert(split_items(rest, (a - i) as nat) =~= seq![item@] + split_items(e@.skip(pos + n), (a - i - 1) as nat));
                pos = pos + n;
                i = i + 1;
                assert(views(out@) + split_items(e@.skip(pos as int), (a - i) as nat)
                    =~= views(old_out) + split_items(rest, (a - i + 1) as nat));
            }
            assert(split_items(e@.skip(pos as int), 0) =~= Seq::<Seq<u8>>::empty());
            assert(views(out@) + Seq::<Seq<u8>>::empty() =~= views(out@));
            Ok(out)
        },
        _ => Err(EvalError::ExpectsTuple),
    }
}

/// The tuple of the given expressions.
pub fn vec_to_exp(items: &Vec<Vec<u8>>) -> (r: Vec<u8>)
    requires
        items@.len() < 64,
    ensures
        r@ == encode_tuple(views(items@)),
{
    let mut r: Vec<u8> = Vec::new();
    r.push(item_byte(Tag::Arity(items.len() as u8)));
    let mut i: usize = 0;
    while i < items.len()
        invariant
            i <= items@.len() < 64,
            r@ == seq![items@.len() as u8] + views(items@).take(i as int).flatten(),
        decreases items@.len() - i,
    {
        let ghost before = r@;
        append_bytes(&mut r, &items[i]);
        proof { lemma_flatten_push(views(items@), i as int); }
        i = i + 1;
    }
    assert(views(items@).take(items@.len() as int) =~= views(items@));
    r
}

/// Appends the bytes of `b` to `r`.
pub fn append_bytes(r: &mut Vec<u8>, b: &Vec<u8>)
    ensures
        final(r)@ == old(r)@ + b@,
{
    let mut k: usize = 0;
    while k < b.len()
        invariant
            k <= b@.len(),
            r@ == old(r)@ + b@.take(k as int),
        decreases b@.len() - k,
    {
        r.push(b[k]);
        k = k + 1;
        assert(r@ =~= old(r)@ + b@.take(k as int));
    }
    assert(b@.take(b@.len() as int) =~= b@);
}

/// Flattening one more member appends its bytes.
pub proof fn lemma_flatten_push(s: Seq<Seq<u8>>, i: int)
    requires
        0 <= i < s.len(),
    ensures
        s.take(i + 1).flatten() == s.take(i).flatten() + s[i],
{
    let t = s.take(i + 1);
    assert(t.drop_last() =~= s.take(i));
    t.lemma_flatten_and_flatten_alt_are_equivalent();
    s.take(i).lemma_flatten_and_flatten_alt_are_equivalent();
}

} // verus!
