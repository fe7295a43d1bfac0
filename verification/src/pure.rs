//! The pure list and symbol functions, over the byte encoding of expressions.
//!
//! Each function takes the argument expressions of its call, one span each, and
//! gives back either the expression it writes, or, for the functions that write a
//! symbol, the symbol's content bytes.
use vstd::prelude::*;
use crate::error::EvalError;
use crate::expr::{self, Tag, item_byte};
use crate::list_helpers::{self, exp_to_vec, vec_to_exp, append_bytes, expr_symbol_content};

verus! {

/// The byte view of a result.
pub open spec fn res_view(r: Result<Vec<u8>, EvalError>) -> Result<Seq<u8>, EvalError> {
    match r {
        Ok(v) => Ok(v@),
        Err(e) => Err(e),
    }
}

/// Every argument is one expression.
pub open spec fn args_ok(args: Seq<Vec<u8>>) -> bool {
    expr::all_exprs(list_helpers::views(args))
}

/// The children of the only argument, which must be a tuple.
pub open spec fn tuple_arg(args: Seq<Seq<u8>>) -> Result<Seq<Seq<u8>>, EvalError> {
    if args.len() != 1 {
        Err(EvalError::TakesOneArgument)
    } else {
        match expr::tuple_children(args[0]) {
            Some(c) => Ok(c),
            None => Err(EvalError::ExpectsTuple),
        }
    }
}

/// A copy of `v`.
pub fn dup(v: &Vec<u8>) -> (r: Vec<u8>)
    ensures
        r@ == v@,
{
    let mut r: Vec<u8> = Vec::new();
    append_bytes(&mut r, v);
    assert(r@ =~= v@);
    r
}

/// The children of a tuple expression are expressions, fewer than 64, that make
/// the tuple back.
pub proof fn lemma_tuple_children(e: Seq<u8>)
    requires
        expr::is_expr(e),
        expr::tuple_children(e) is Some,
    ensures
        expr::tuple_children(e).unwrap().len() < 64,
        expr::all_exprs(expr::tuple_children(e).unwrap()),
        expr::encode_tuple(expr::tuple_children(e).unwrap()) == e,
{
    reveal_with_fuel(expr::items_len, 1);
    let a = e[0];
    let body = e.drop_first();
    assert(expr::items_len(body, a as nat) == Some((e.len() - 1) as nat));
    expr::lemma_split_items(body, a as nat);
    assert(body.take(body.len() as int) =~= body);
    assert(expr::encode_tuple(expr::tuple_children(e).unwrap()) =~= e);
}

/// A tuple of fewer than 64 expressions is one expression whose children they are.
pub proof fn lemma_encode_tuple(items: Seq<Seq<u8>>)
    requires
        expr::all_exprs(items),
        items.len() < 64,
    ensures
        expr::is_expr(expr::encode_tuple(items)),
        expr::tuple_children(expr::encode_tuple(items)) == Some(items),
{
    let e = expr::encode_tuple(items);
    expr::lemma_flatten_items(items, Seq::empty());
    assert(items.flatten() + Seq::<u8>::empty() =~= items.flatten());
    assert(e.drop_first() =~= items.flatten());
    reveal_with_fuel(expr::items_len, 1);
    assert(expr::items_len(e.drop_first(), (1 - 1 + items.len()) as nat) == Some(items.flatten().len()));
}

/// The children of the only argument (see [tuple_arg]).
pub fn one_tuple_arg(args: &Vec<Vec<u8>>) -> (r: Result<Vec<Vec<u8>>, EvalError>)
    requires
        args_ok(args@),
    ensures
        match tuple_arg(list_helpers::views(args@)) {
            Ok(c) => r matches Ok(v) && list_helpers::views(v@) == c && c.len() < 64 && expr::all_exprs(c),
            Err(e) => r == Err::<Vec<Vec<u8>>, EvalError>(e),
        },
{
    if args.len() != 1 {
        return Err(EvalError::TakesOneArgument);
    }
    assert(expr::is_expr(list_helpers::views(args@)[0]));
    let r = exp_to_vec(&args[0]);
    proof {
        if expr::tuple_children(args@[0]@) is Some {
            lemma_tuple_children(args@[0]@);
        }
    }
    r
}

/// The children of the `i`-th of two arguments.
pub fn tuple_of(args: &Vec<Vec<u8>>, i: usize) -> (r: Result<Vec<Vec<u8>>, EvalError>)
    requires
        args_ok(args@),
        i < args@.len(),
    ensures
        match expr::tuple_children(args@[i as int]@) {
            Some(c) => r matches Ok(v) && list_helpers::views(v@) == c && c.len() < 64 && expr::all_exprs(c),
            None => r == Err::<Vec<Vec<u8>>, EvalError>(EvalError::ExpectsTuple),
        },
{
    assert(expr::is_expr(list_helpers::views(args@)[i as int]));
    let r = exp_to_vec(&args[i]);
    proof {
        if expr::tuple_children(args@[i as int]@) is Some {
            lemma_tuple_children(args@[i as int]@);
        }
    }
    r
}

// ---------------------------------------------------------------- numbers as text

/// The decimal digits of `n`.
pub open spec fn decimal(n: nat) -> Seq<u8>
    decreases n,
{
    if n < 10 {
        seq![(48 + n) as u8]
    } else {
        decimal(n / 10).push((48 + n % 10) as u8)
    }
}

/// The decimal text of a small number.
pub fn decimal_bytes(n: u8) -> (r: Vec<u8>)
    ensures
        r@ == decimal(n as nat),
{
    let mut r: Vec<u8> = Vec::new();
    if n >= 100 {
        let q = n / 10;
        r.push(48 + q / 10);
        r.push(48 + q % 10);
        r.push(48 + n % 10);
        assert(decimal(n as nat) == decimal(q as nat).push((48 + n % 10) as u8));
        assert(decimal(q as nat) == decimal((q / 10) as nat).push((48 + q % 10) as u8));
        assert(decimal((q / 10) as nat) == seq![(48 + q / 10) as u8]);
        assert(r@ =~= seq![(48 + q / 10) as u8, (48 + q % 10) as u8, (48 + n % 10) as u8]);
        assert(decimal(q as nat) =~= seq![(48 + q / 10) as u8, (48 + q % 10) as u8]);
        assert(decimal(n as nat) =~= seq![(48 + q / 10) as u8, (48 + q % 10) as u8].push((48 + n % 10) as u8));
    } else if n >= 10 {
        r.push(48 + n / 10);
        r.push(48 + n % 10);
        assert(decimal(n as nat) == decimal((n / 10) as nat).push((48 + n % 10) as u8));
        assert(decimal((n / 10) as nat) == seq![(48 + n / 10) as u8]);
        assert(r@ =~= decimal(n as nat));
    } else {
        r.push(48 + n);
        assert(r@ =~= decimal(n as nat));
    }
    r
}

// ---------------------------------------------------------------- tuples

/// `(length t)`: the number of children of `t`, as decimal text.
pub open spec fn spec_length(args: Seq<Seq<u8>>) -> Result<Seq<u8>, EvalError> {
    match tuple_arg(args) {
        Ok(c) => Ok(decimal(c.len())),
        Err(e) => Err(e),
    }
}

/// Writes the number of children of the tuple argument, as a decimal symbol.
pub fn length(args: &Vec<Vec<u8>>) -> (r: Result<Vec<u8>, EvalError>)
    requires
        args_ok(args@),
    ensures
        res_view(r) == spec_length(list_helpers::views(args@)),
{
    let items = one_tuple_arg(args)?;
    Ok(decimal_bytes(items.len() as u8))
}

/// `(size-atom t)`: the same as `length`.
pub fn size_atom(args: &Vec<Vec<u8>>) -> (r: Result<Vec<u8>, EvalError>)
    requires
        args_ok(args@),
    ensures
        res_view(r) == spec_length(list_helpers::views(args@)),
{
    let items = one_tuple_arg(args)?;
    Ok(decimal_bytes(items.len() as u8))
}

/// The first child of the tuple argument.
pub open spec fn spec_car(args: Seq<Seq<u8>>) -> Result<Seq<u8>, EvalError> {
    match tuple_arg(args) {
        Ok(c) => if c.len() == 0 { Err(EvalError::EmptyTuple) } else { Ok(c[0]) },
        Err(e) => Err(e),
    }
}

/// The first child of the tuple argument.
pub fn first_child(args: &Vec<Vec<u8>>) -> (r: Result<Vec<u8>, EvalError>)
    requires
        args_ok(args@),
    ensures
        res_view(r) == spec_car(list_helpers::views(args@)),
{
    let items = one_tuple_arg(args)?;
    if items.len() == 0 {
        return Err(EvalError::EmptyTuple);
    }
    Ok(dup(&items[0]))
}

/// `(car t)`: the first child of `t`.
pub fn car(args: &Vec<Vec<u8>>) -> (r: Result<Vec<u8>, EvalError>)
    requires
        args_ok(args@),
    ensures
        res_view(r) == spec_car(list_helpers::views(args@)),
{
    first_child(args)
}

/// `(first t)`: the first child of `t`.
pub fn first(args: &Vec<Vec<u8>>) -> (r: Result<Vec<u8>, EvalError>)
    requires
        args_ok(args@),
    ensures
        res_view(r) == spec_car(list_helpers::views(args@)),
{
    first_child(args)
}

/// `(first-from-pair t)`: the first child of `t`.
pub fn first_from_pair(args: &Vec<Vec<u8>>) -> (r: Result<Vec<u8>, EvalError>)
    requires
        args_ok(args@),
    ensures
        res_view(r) == spec_car(list_helpers::views(args@)),
{
    first_child(args)
}

/// `(car-atom t)`: the first child of `t`.
pub fn car_atom(args: &Vec<Vec<u8>>) -> (r: Result<Vec<u8>, EvalError>)
    requires
        args_ok(args@),
    ensures
        res_view(r) == spec_car(list_helpers::views(args@)),
{
    first_child(args)
}

/// The second child of the tuple argument.
pub open spec fn spec_second(args: Seq<Seq<u8>>) -> Result<Seq<u8>, EvalError> {
    match tuple_arg(args) {
        Ok(c) => if c.len() < 2 { Err(EvalError::FewerThanTwoElements) } else { Ok(c[1]) },
        Err(e) => Err(e),
    }
}

/// `(second-from-pair t)`: the second child of `t`.
pub fn second_from_pair(args: &Vec<Vec<u8>>) -> (r: Result<Vec<u8>, EvalError>)
    requires
        args_ok(args@),
    ensures
        res_view(r) == spec_second(list_helpers::views(args@)),
{
    let items = one_tuple_arg(args)?;
    if items.len() < 2 {
        return Err(EvalError::FewerThanTwoElements);
    }
    Ok(dup(&items[1]))
}

/// The last child of the tuple argument.
pub open spec fn spec_last(args: Seq<Seq<u8>>) -> Result<Seq<u8>, EvalError> {
    match tuple_arg(args) {
        Ok(c) => if c.len() == 0 { Err(EvalError::EmptyTuple) } else { Ok(c.last()) },
        Err(e) => Err(e),
    }
}

/// `(last t)`: the last child of `t`.
pub fn last(args: &Vec<Vec<u8>>) -> (r: Result<Vec<u8>, EvalError>)
    requires
        args_ok(args@),
    ensures
        res_view(r) == spec_last(list_helpers::views(args@)),
{
    let items = one_tuple_arg(args)?;
    if items.len() == 0 {
        return Err(EvalError::EmptyTuple);
    }
    Ok(dup(&items[items.len() - 1]))
}

/// The tuple argument without its first child.
pub open spec fn spec_cdr(args: Seq<Seq<u8>>) -> Result<Seq<u8>, EvalError> {
    match tuple_arg(args) {
        Ok(c) => if c.len() == 0 { Err(EvalError::EmptyTuple) } else { Ok(expr::encode_tuple(c.drop_first())) },
        Err(e) => Err(e),
    }
}

/// The tuple of `items[from..]`.
pub fn tuple_from(items: &Vec<Vec<u8>>, from: usize) -> (r: Vec<u8>)
    requires
        from <= items@.len(),
        items@.len() - from < 64,
    ensures
        r@ == expr::encode_tuple(list_helpers::views(items@).skip(from as int)),
{
    let mut rest: Vec<Vec<u8>> = Vec::new();
    let mut i = from;
    while i < items.len()
        invariant
            from <= i <= items@.len(),
            list_helpers::views(rest@) == list_helpers::views(items@).subrange(from as int, i as int),
        decreases items@.len() - i,
    {
        let ghost old = rest@;
        let x = dup(&items[i]);
        proof { list_helpers::lemma_views_push(old, x); }
        rest.push(x);
        i = i + 1;
        assert(list_helpers::views(rest@) =~= list_helpers::views(items@).subrange(from as int, i as int));
    }
    assert(list_helpers::views(items@).subrange(from as int, items@.len() as int)
        =~= list_helpers::views(items@).skip(from as int));
    vec_to_exp(&rest)
}

/// Writes the tuple argument without its first child.
pub fn rest_of(args: &Vec<Vec<u8>>) -> (r: Result<Vec<u8>, EvalError>)
    requires
        args_ok(args@),
    ensures
        res_view(r) == spec_cdr(list_helpers::views(args@)),
{
    let items = one_tuple_arg(args)?;
    if items.len() == 0 {
        return Err(EvalError::EmptyTuple);
    }
    let r = tuple_from(&items, 1);
    assert(list_helpers::views(items@).skip(1) =~= list_helpers::views(items@).drop_first());
    Ok(r)
}

/// `(cdr t)`: `t` without its first child.
pub fn cdr(args: &Vec<Vec<u8>>) -> (r: Result<Vec<u8>, EvalError>)
    requires
        args_ok(args@),
    ensures
        res_view(r) == spec_cdr(list_helpers::views(args@)),
{
    rest_of(args)
}

/// `(cdr-atom t)`: `t` without its first child.
pub fn cdr_atom(args: &Vec<Vec<u8>>) -> (r: Result<Vec<u8>, EvalError>)
    requires
        args_ok(args@),
    ensures
        res_view(r) == spec_cdr(list_helpers::views(args@)),
{
    rest_of(args)
}

/// `(cons h t)`: the tuple of `h` followed by the children of `t`.
pub open spec fn spec_cons(args: Seq<Seq<u8>>) -> Result<Seq<u8>, EvalError> {
    if args.len() != 2 {
        Err(EvalError::TakesTwoArguments)
    } else {
        match expr::tuple_children(args[1]) {
            Some(c) => Ok(expr::encode_tuple(seq![args[0]] + c)),
            None => Err(EvalError::ExpectsTuple),
        }
    }
}

/// `cons` has no room for a 64th child.
pub open spec fn cons_fits(args: Seq<Seq<u8>>) -> bool {
    args.len() == 2 ==> (expr::tuple_children(args[1]) matches Some(c) ==> c.len() < 63)
}

/// `(cons h t)`: the tuple of `h` followed by the children of `t`.
pub fn cons(args: &Vec<Vec<u8>>) -> (r: Result<Vec<u8>, EvalError>)
    requires
        args_ok(args@),
        cons_fits(list_helpers::views(args@)),
    ensures
        res_view(r) == spec_cons(list_helpers::views(args@)),
{
    if args.len() != 2 {
        return Err(EvalError::TakesTwoArguments);
    }
    let tail = tuple_of(args, 1)?;
    let mut all: Vec<Vec<u8>> = Vec::new();
    let h = dup(&args[0]);
    proof { list_helpers::lemma_views_push(all@, h); }
    all.push(h);
    let mut i: usize = 0;
    while i < tail.len()
        invariant
            i <= tail@.len(),
            args@.len() == 2,
            list_helpers::views(all@) == seq![args@[0]@] + list_helpers::views(tail@).take(i as int),
        decreases tail@.len() - i,
    {
        let ghost old = all@;
        let x = dup(&tail[i]);
        proof { list_helpers::lemma_views_push(old, x); }
        all.push(x);
        i = i + 1;
        assert(list_helpers::views(all@) =~= seq![args@[0]@] + list_helpers::views(tail@).take(i as int));
    }
    assert(list_helpers::views(tail@).take(tail@.len() as int) =~= list_helpers::views(tail@));
    assert(list_helpers::views(args@)[0] == args@[0]@);
    Ok(vec_to_exp(&all))
}

/// `(decons t)`: the pair of the first child of `t` and the rest of `t`.
pub open spec fn spec_decons(args: Seq<Seq<u8>>) -> Result<Seq<u8>, EvalError> {
    match tuple_arg(args) {
        Ok(c) => if c.len() == 0 {
            Err(EvalError::EmptyTuple)
        } else {
            Ok(seq![2u8] + c[0] + expr::encode_tuple(c.drop_first()))
        },
        Err(e) => Err(e),
    }
}

/// `(decons t)`: the pair of the first child of `t` and the rest of `t`.
pub fn decons(args: &Vec<Vec<u8>>) -> (r: Result<Vec<u8>, EvalError>)
    requires
        args_ok(args@),
    ensures
        res_view(r) == spec_decons(list_helpers::views(args@)),
{
    let items = one_tuple_arg(args)?;
    if items.len() == 0 {
        return Err(EvalError::EmptyTuple);
    }
    let mut r: Vec<u8> = Vec::new();
    r.push(item_byte(Tag::Arity(2)));
    append_bytes(&mut r, &items[0]);
    let rest = tuple_from(&items, 1);
    append_bytes(&mut r, &rest);
    assert(list_helpers::views(items@).skip(1) =~= list_helpers::views(items@).drop_first());
    assert(r@ =~= seq![2u8] + items@[0]@ + rest@);
    Ok(r)
}

/// `(reverse t)`: `t` with its children in reverse order.
pub open spec fn spec_reverse(args: Seq<Seq<u8>>) -> Result<Seq<u8>, EvalError> {
    match tuple_arg(args) {
        Ok(c) => Ok(expr::encode_tuple(c.reverse())),
        Err(e) => Err(e),
    }
}

/// `(reverse t)`: `t` with its children in reverse order.
pub fn reverse(args: &Vec<Vec<u8>>) -> (r: Result<Vec<u8>, EvalError>)
    requires
        args_ok(args@),
    ensures
        res_view(r) == spec_reverse(list_helpers::views(args@)),
{
    let items = one_tuple_arg(args)?;
    let ghost c = list_helpers::views(items@);
    let mut out: Vec<Vec<u8>> = Vec::new();
    let mut i: usize = items.len();
    while i > 0
        invariant
            i <= items@.len(),
            c == list_helpers::views(items@),
            list_helpers::views(out@) == c.reverse().take((c.len() - i) as int),
        decreases i,
    {
        i = i - 1;
        let ghost old = out@;
        let x = dup(&items[i]);
        proof { list_helpers::lemma_views_push(old, x); }
        out.push(x);
        assert(list_helpers::views(out@) =~= c.reverse().take((c.len() - i) as int));
    }
    assert(c.reverse().take(c.len() as int) =~= c.reverse());
    Ok(vec_to_exp(&out))
}

/// The children of two tuple arguments, one after the other.
pub open spec fn spec_append(args: Seq<Seq<u8>>) -> Result<Seq<u8>, EvalError> {
    if args.len() != 2 {
        Err(EvalError::TakesTwoArguments)
    } else {
        match (expr::tuple_children(args[0]), expr::tuple_children(args[1])) {
            (Some(a), Some(b)) => Ok(expr::encode_tuple(a + b)),
            (None, _) => Err(EvalError::ExpectsTuple),
            (_, None) => Err(EvalError::ExpectsTuple),
        }
    }
}

/// Two tuples whose children together fit one tuple.
pub open spec fn append_fits(args: Seq<Seq<u8>>) -> bool {
    args.len() == 2 ==> (
        expr::tuple_children(args[0]) matches Some(a) ==>
            (expr::tuple_children(args[1]) matches Some(b) ==> a.len() + b.len() < 64))
}

/// Writes the children of two tuple arguments, one after the other.
pub fn concat_tuples(args: &Vec<Vec<u8>>) -> (r: Result<Vec<u8>, EvalError>)
    requires
        args_ok(args@),
        append_fits(list_helpers::views(args@)),
    ensures
        res_view(r) == spec_append(list_helpers::views(args@)),
{
    if args.len() != 2 {
        return Err(EvalError::TakesTwoArguments);
    }
    let items1 = tuple_of(args, 0)?;
    let items2 = tuple_of(args, 1)?;
    let ghost a = list_helpers::views(items1@);
    let ghost b = list_helpers::views(items2@);
    let mut all: Vec<Vec<u8>> = Vec::new();
    let mut i: usize = 0;
    while i < items1.len()
        invariant
            i <= items1@.len(),
            a == list_helpers::views(items1@),
            list_helpers::views(all@) == a.take(i as int),
        decreases items1@.len() - i,
    {
        let ghost old = all@;
        let x = dup(&items1[i]);
        proof { list_helpers::lemma_views_push(old, x); }
        all.push(x);
        i = i + 1;
        assert(list_helpers::views(all@) =~= a.take(i as int));
    }
    let mut j: usize = 0;
    while j < items2.len()
        invariant
            j <= items2@.len(),
            a == list_helpers::views(items1@),
            b == list_helpers::views(items2@),
            list_helpers::views(all@) == a + b.take(j as int),
        decreases items2@.len() - j,
    {
        let ghost old = all@;
        let x = dup(&items2[j]);
        proof { list_helpers::lemma_views_push(old, x); }
        all.push(x);
        j = j + 1;
        assert(list_helpers::views(all@) =~= a + b.take(j as int));
    }
    assert(b.take(b.len() as int) =~= b);
    Ok(vec_to_exp(&all))
}

/// `(append a b)`: the children of `a` and then of `b`.
pub fn append(args: &Vec<Vec<u8>>) -> (r: Result<Vec<u8>, EvalError>)
    requires
        args_ok(args@),
        append_fits(list_helpers::views(args@)),
    ensures
        res_view(r) == spec_append(list_helpers::views(args@)),
{
    concat_tuples(args)
}

/// `(union-atom a b)`: the children of `a` and then of `b`, duplicates kept.
pub fn union_atom(args: &Vec<Vec<u8>>) -> (r: Result<Vec<u8>, EvalError>)
    requires
        args_ok(args@),
        append_fits(list_helpers::views(args@)),
    ensures
        res_view(r) == spec_append(list_helpers::views(args@)),
{
    concat_tuples(args)
}


// ---------------------------------------------------------------- comparing atoms

/// `a` and `b` hold the same bytes.
pub fn bytes_eq(a: &Vec<u8>, b: &Vec<u8>) -> (r: bool)
    ensures
        r == (a@ == b@),
{
    if a.len() != b.len() {
        return false;
    }
    let mut i: usize = 0;
    while i < a.len()
        invariant
            i <= a@.len() == b@.len(),
            a@.take(i as int) == b@.take(i as int),
        decreases a@.len() - i,
    {
        if a[i] != b[i] {
            return false;
        }
        i = i + 1;
        assert(a@.take(i as int) =~= b@.take(i as int));
    }
    assert(a@.take(a@.len() as int) =~= a@);
    assert(b@.take(b@.len() as int) =~= b@);
    true
}

/// The first index in `v` whose bytes are those of `x`.
pub fn position_of(v: &Vec<Vec<u8>>, x: &Vec<u8>) -> (r: Option<usize>)
    ensures
        r matches Some(p) ==> p < v@.len() && v@[p as int]@ == x@
            && forall|j: int| 0 <= j < p ==> v@[j]@ != x@,
        r is None ==> !list_helpers::views(v@).contains(x@),
{
    let mut i: usize = 0;
    while i < v.len()
        invariant
            i <= v@.len(),
            forall|j: int| 0 <= j < i ==> v@[j]@ != x@,
        decreases v@.len() - i,
    {
        if bytes_eq(&v[i], x) {
            return Some(i);
        }
        i = i + 1;
    }
    proof {
        if list_helpers::views(v@).contains(x@) {
            let j = choose|j: int| 0 <= j < v@.len() && list_helpers::views(v@)[j] == x@;
            assert(v@[j]@ == x@);
        }
    }
    None
}

// ---------------------------------------------------------------- lists as collections

/// `(unique-atom t)`: the children of `t`, each kept at its first occurrence only.
pub open spec fn spec_unique(args: Seq<Seq<u8>>) -> Result<Seq<u8>, EvalError> {
    match tuple_arg(args) {
        Ok(c) => Ok(expr::encode_tuple(c.remove_duplicates(Seq::empty()))),
        Err(e) => Err(e),
    }
}

/// `(unique-atom t)`: the children of `t`, each kept at its first occurrence only.
pub fn unique_atom(args: &Vec<Vec<u8>>) -> (r: Result<Vec<u8>, EvalError>)
    requires
        args_ok(args@),
    ensures
        res_view(r) == spec_unique(list_helpers::views(args@)),
{
    let items = one_tuple_arg(args)?;
    let ghost c = list_helpers::views(items@);
    let mut unique: Vec<Vec<u8>> = Vec::new();
    let mut i: usize = 0;
    assert(c.skip(0) =~= c);
    assert(list_helpers::views(unique@) =~= Seq::<Seq<u8>>::empty());
    while i < items.len()
        invariant
            i <= items@.len() < 64,
            c == list_helpers::views(items@),
            unique@.len() <= i,
            c.remove_duplicates(Seq::empty()) == c.skip(i as int).remove_duplicates(list_helpers::views(unique@)),
        decreases items@.len() - i,
    {
        let ghost rest = c.skip(i as int);
        assert(rest[0] == c[i as int]);
        assert(rest.skip(1) =~= c.skip(i + 1));
        match position_of(&unique, &items[i]) {
            Some(p) => {
                assert(list_helpers::views(unique@)[p as int] == c[i as int]);
                assert(list_helpers::views(unique@).contains(c[i as int]));
            },
            None => {
                let ghost old = unique@;
                let x = dup(&items[i]);
                proof { list_helpers::lemma_views_push(old, x); }
                unique.push(x);
                assert(list_helpers::views(old) + seq![c[i as int]] =~= list_helpers::views(unique@));
            },
        }
        i = i + 1;
    }
    assert(c.skip(items@.len() as int) =~= Seq::<Seq<u8>>::empty());
    Ok(vec_to_exp(&unique))
}

/// The bytes of the symbol `true` or `false`.
pub open spec fn bool_text(b: bool) -> Seq<u8> {
    if b { seq![116u8, 114u8, 117u8, 101u8] } else { seq![102u8, 97u8, 108u8, 115u8, 101u8] }
}

/// The symbol `true` or `false`.
pub fn bool_bytes(b: bool) -> (r: Vec<u8>)
    ensures
        r@ == bool_text(b),
{
    let mut r: Vec<u8> = Vec::new();
    if b {
        r.push(116); r.push(114); r.push(117); r.push(101);
    } else {
        r.push(102); r.push(97); r.push(108); r.push(115); r.push(101);
    }
    assert(r@ =~= bool_text(b));
    r
}

/// `(is-member x t)`: whether `x` is a child of `t`.
pub open spec fn spec_is_member(args: Seq<Seq<u8>>) -> Result<Seq<u8>, EvalError> {
    if args.len() != 2 {
        Err(EvalError::TakesTwoArguments)
    } else {
        match expr::tuple_children(args[1]) {
            Some(c) => Ok(bool_text(c.contains(args[0]))),
            None => Err(EvalError::ExpectsTuple),
        }
    }
}

/// `(is-member x t)`: the symbol `true` when `x` is a child of `t`, `false` otherwise.
pub fn is_member(args: &Vec<Vec<u8>>) -> (r: Result<Vec<u8>, EvalError>)
    requires
        args_ok(args@),
    ensures
        res_view(r) == spec_is_member(list_helpers::views(args@)),
{
    if args.len() != 2 {
        return Err(EvalError::TakesTwoArguments);
    }
    let items = tuple_of(args, 1)?;
    let found = position_of(&items, &args[0]).is_some();
    proof {
        let c = list_helpers::views(items@);
        if found {
            let p = position_of_witness(items@, args@[0]@);
        }
        assert(list_helpers::views(args@)[0] == args@[0]@);
    }
    Ok(bool_bytes(found))
}

/// An index found in `v` witnesses membership.
proof fn position_of_witness(v: Seq<Vec<u8>>, x: Seq<u8>) -> (p: int)
    requires
        exists|j: int| 0 <= j < v.len() && v[j]@ == x,
    ensures
        0 <= p < v.len(),
        list_helpers::views(v).contains(x),
{
    let j = choose|j: int| 0 <= j < v.len() && v[j]@ == x;
    assert(list_helpers::views(v)[j] == x);
    j
}

/// The children of `c` that are not matched, one occurrence for one, by `rem`.
pub open spec fn subtract(c: Seq<Seq<u8>>, rem: vstd::multiset::Multiset<Seq<u8>>) -> Seq<Seq<u8>>
    decreases c.len(),
{
    if c.len() == 0 {
        Seq::empty()
    } else if rem.count(c[0]) > 0 {
        subtract(c.drop_first(), rem.remove(c[0]))
    } else {
        seq![c[0]] + subtract(c.drop_first(), rem)
    }
}

/// The children of `c` that are matched, one occurrence for one, by `rem`.
pub open spec fn intersect(c: Seq<Seq<u8>>, rem: vstd::multiset::Multiset<Seq<u8>>) -> Seq<Seq<u8>>
    decreases c.len(),
{
    if c.len() == 0 {
        Seq::empty()
    } else if rem.count(c[0]) > 0 {
        seq![c[0]] + intersect(c.drop_first(), rem.remove(c[0]))
    } else {
        intersect(c.drop_first(), rem)
    }
}

/// `(subtraction-atom a b)` and `(intersection-atom a b)`: the children of `a`
/// without, or only, those matched by a child of `b`, each child of `b` matching once.
pub open spec fn spec_multiset_op(args: Seq<Seq<u8>>, keep_matched: bool) -> Result<Seq<u8>, EvalError> {
    if args.len() != 2 {
        Err(EvalError::TakesTwoArguments)
    } else {
        match (expr::tuple_children(args[0]), expr::tuple_children(args[1])) {
            (Some(a), Some(b)) => Ok(expr::encode_tuple(
                if keep_matched { intersect(a, b.to_multiset()) } else { subtract(a, b.to_multiset()) })),
            (None, _) => Err(EvalError::ExpectsTuple),
            (_, None) => Err(EvalError::ExpectsTuple),
        }
    }
}

/// Removing a vector removes its view.
proof fn lemma_views_remove(v: Seq<Vec<u8>>, i: int)
    requires
        0 <= i < v.len(),
    ensures
        list_helpers::views(v.remove(i)) == list_helpers::views(v).remove(i),
{
    assert(list_helpers::views(v.remove(i)) =~= list_helpers::views(v).remove(i));
}

/// Writes the children of the first tuple argument that are (or are not)
/// matched by those of the second.
pub fn multiset_op(args: &Vec<Vec<u8>>, keep_matched: bool) -> (r: Result<Vec<u8>, EvalError>)
    requires
        args_ok(args@),
    ensures
        res_view(r) == spec_multiset_op(list_helpers::views(args@), keep_matched),
{
    broadcast use vstd::seq_lib::group_to_multiset_ensures;
    if args.len() != 2 {
        return Err(EvalError::TakesTwoArguments);
    }
    let items1 = tuple_of(args, 0)?;
    let mut to_remove = tuple_of(args, 1)?;
    let ghost a = list_helpers::views(items1@);
    let ghost b = list_helpers::views(to_remove@);
    let ghost target = if keep_matched { intersect(a, b.to_multiset()) } else { subtract(a, b.to_multiset()) };
    let mut result: Vec<Vec<u8>> = Vec::new();
    let mut i: usize = 0;
    assert(a.skip(0) =~= a);
    assert(list_helpers::views(result@) + target =~= target);
    while i < items1.len()
        invariant
            i <= items1@.len() < 64,
            a == list_helpers::views(items1@),
            result@.len() <= i,
            target == list_helpers::views(result@) + (if keep_matched {
                intersect(a.skip(i as int), list_helpers::views(to_remove@).to_multiset())
            } else {
                subtract(a.skip(i as int), list_helpers::views(to_remove@).to_multiset())
            }),
        decreases items1@.len() - i,
    {
        let ghost rest = a.skip(i as int);
        let ghost rem = list_helpers::views(to_remove@).to_multiset();
        assert(rest[0] == a[i as int]);
        assert(rest.drop_first() =~= a.skip(i + 1));
        let ghost old_result = list_helpers::views(result@);
        match position_of(&to_remove, &items1[i]) {
            Some(pos) => {
                let ghost old_rem = to_remove@;
                to_remove.remove(pos);
                proof {
                    lemma_views_remove(old_rem, pos as int);
                    assert(list_helpers::views(old_rem)[pos as int] == a[i as int]);
                    list_helpers::views(old_rem).to_multiset_ensures();
                    assert(rem.count(a[i as int]) > 0);
                }
                if keep_matched {
                    let x = dup(&items1[i]);
                    proof { list_helpers::lemma_views_push(result@, x); }
                    result.push(x);
                    assert(list_helpers::views(result@) =~= old_result + seq![a[i as int]]);
                }
            },
            None => {
                proof {
                    list_helpers::views(to_remove@).to_multiset_ensures();
                    assert(rem.count(a[i as int]) == 0);
                }
                if !keep_matched {
                    let x = dup(&items1[i]);
                    proof { list_helpers::lemma_views_push(result@, x); }
                    result.push(x);
                    assert(list_helpers::views(result@) =~= old_result + seq![a[i as int]]);
                }
            },
        }
        i = i + 1;
    }
    assert(a.skip(items1@.len() as int) =~= Seq::<Seq<u8>>::empty());
    assert(list_helpers::views(result@) + Seq::<Seq<u8>>::empty() =~= list_helpers::views(result@));
    Ok(vec_to_exp(&result))
}

/// `(subtraction-atom a b)`: the children of `a` not matched by those of `b`.
pub fn subtraction_atom(args: &Vec<Vec<u8>>) -> (r: Result<Vec<u8>, EvalError>)
    requires
        args_ok(args@),
    ensures
        res_view(r) == spec_multiset_op(list_helpers::views(args@), false),
{
    multiset_op(args, false)
}

/// `(intersection-atom a b)`: the children of `a` matched by those of `b`.
pub fn intersection_atom(args: &Vec<Vec<u8>>) -> (r: Result<Vec<u8>, EvalError>)
    requires
        args_ok(args@),
    ensures
        res_view(r) == spec_multiset_op(list_helpers::views(args@), true),
{
    multiset_op(args, true)
}

/// `(exclude-item x t)`: the children of `t` other than `x`.
pub open spec fn spec_exclude(args: Seq<Seq<u8>>) -> Result<Seq<u8>, EvalError> {
    if args.len() != 2 {
        Err(EvalError::TakesTwoArguments)
    } else {
        match expr::tuple_children(args[1]) {
            Some(c) => Ok(expr::encode_tuple(c.filter(|y: Seq<u8>| y != args[0]))),
            None => Err(EvalError::ExpectsTuple),
        }
    }
}

/// `(exclude-item x t)`: the children of `t` other than `x`.
pub fn exclude_item(args: &Vec<Vec<u8>>) -> (r: Result<Vec<u8>, EvalError>)
    requires
        args_ok(args@),
    ensures
        res_view(r) == spec_exclude(list_helpers::views(args@)),
{
    broadcast use Seq::lemma_filter_push;
    if args.len() != 2 {
        return Err(EvalError::TakesTwoArguments);
    }
    let items = tuple_of(args, 1)?;
    let ghost c = list_helpers::views(items@);
    let ghost x = args@[0]@;
    let ghost pred = |y: Seq<u8>| y != x;
    let mut result: Vec<Vec<u8>> = Vec::new();
    let mut i: usize = 0;
    assert(c.take(0).filter(pred) =~= Seq::<Seq<u8>>::empty());
    while i < items.len()
        invariant
            i <= items@.len() < 64,
            c == list_helpers::views(items@),
            args@.len() == 2,
            x == args@[0]@,
            pred == (|y: Seq<u8>| y != x),
            list_helpers::views(result@) == c.take(i as int).filter(pred),
            result@.len() <= i,
        decreases items@.len() - i,
    {
        assert(c.take(i + 1) =~= c.take(i as int).push(c[i as int]));
        if !bytes_eq(&items[i], &args[0]) {
            let y = dup(&items[i]);
            proof { list_helpers::lemma_views_push(result@, y); }
            result.push(y);
        }
        proof { c.take(i as int).lemma_filter_push(c[i as int], pred); }
        i = i + 1;
    }
    assert(c.take(items@.len() as int) =~= c);
    assert(list_helpers::views(args@)[0] == x);
    assert((|y: Seq<u8>| y != list_helpers::views(args@)[0]) =~= pred);
    Ok(vec_to_exp(&result))
}

// ---------------------------------------------------------------- indexing

/// `d` is made of decimal digits only.
pub open spec fn all_digits(d: Seq<u8>) -> bool {
    forall|i: int| 0 <= i < d.len() ==> 48 <= #[trigger] d[i] <= 57
}

/// The number the decimal digits `d` spell.
pub open spec fn digits_value(d: Seq<u8>) -> nat
    decreases d.len(),
{
    if d.len() == 0 {
        0
    } else {
        digits_value(d.drop_last()) * 10 + (d.last() - 48) as nat
    }
}

/// The digits of a decimal number, after an optional `+`.
pub open spec fn unsigned_digits(s: Seq<u8>) -> Seq<u8> {
    if s.len() > 0 && s[0] == 43 { s.drop_first() } else { s }
}

/// The `usize` that the text `s` spells in decimal (with an optional leading
/// `+`), or `None` when it spells none.
pub open spec fn parse_usize(s: Seq<u8>) -> Option<nat> {
    let d = unsigned_digits(s);
    if d.len() == 0 || !all_digits(d) || digits_value(d) > usize::MAX as nat {
        None
    } else {
        Some(digits_value(d))
    }
}

/// More digits never spell a smaller number.
pub proof fn lemma_digits_value_monotone(d: Seq<u8>, i: int)
    requires
        0 <= i <= d.len(),
        all_digits(d),
    ensures
        digits_value(d.take(i)) <= digits_value(d),
    decreases d.len() - i,
{
    if i < d.len() {
        lemma_digits_value_monotone(d, i + 1);
        let t = d.take(i + 1);
        assert(t.drop_last() =~= d.take(i));
        assert(48 <= d[i] <= 57);
    } else {
        assert(d.take(i) =~= d);
    }
}

/// Reads a decimal `usize` (see [parse_usize]).
pub fn parse_usize_bytes(s: &[u8]) -> (r: Option<usize>)
    ensures
        r matches Some(n) ==> parse_usize(s@) == Some(n as nat),
        r is None ==> parse_usize(s@) is None,
{
    let mut start: usize = 0;
    if s.len() > 0 && s[0] == 43 {
        start = 1;
    }
    let ghost d = unsigned_digits(s@);
    assert(d =~= s@.skip(start as int));
    if start == s.len() {
        return None;
    }
    let mut value: usize = 0;
    let mut i = start;
    assert(d.take(0) =~= Seq::<u8>::empty());
    while i < s.len()
        invariant
            start <= i <= s@.len(),
            d == s@.skip(start as int),
            d == unsigned_digits(s@),
            all_digits(d.take((i - start) as int)),
            value as nat == digits_value(d.take((i - start) as int)),
        decreases s@.len() - i,
    {
        let c = s[i];
        let ghost k = (i - start) as int;
        assert(d[k] == c);
        if c < 48 || c > 57 {
            assert(!all_digits(d)) by {
                assert(!(48 <= d[k] <= 57));
            }
            assert(unsigned_digits(s@) == d);
            assert(parse_usize(s@) is None);
            return None;
        }
        let ghost t = d.take(k + 1);
        assert(t.drop_last() =~= d.take(k));
        assert(all_digits(t)) by {
            assert forall|j: int| 0 <= j < t.len() implies 48 <= #[trigger] t[j] <= 57 by {
                if j < k {
                    assert(t[j] == d.take(k)[j]);
                }
            }
        }
        assert(t.last() == c);
        assert(digits_value(t) == digits_value(d.take(k)) * 10 + (c - 48) as nat);
        if value > (usize::MAX - (c - 48) as usize) / 10 {
            proof {
                assert(digits_value(t) > usize::MAX) by (nonlinear_arith)
                    requires
                        digits_value(t) == value * 10 + (c - 48) as nat,
                        value > (usize::MAX - (c - 48) as usize) / 10,
                        0 <= c - 48 <= 9;
                if all_digits(d) {
                    lemma_digits_value_monotone(d, k + 1);
                }
            }
            return None;
        }
        proof {
            assert(value * 10 + (c - 48) as nat <= usize::MAX) by (nonlinear_arith)
                requires
                    value <= (usize::MAX - (c - 48) as usize) / 10,
                    0 <= c - 48 <= 9;
        }
        value = value * 10 + (c - 48) as usize;
        i = i + 1;
    }
    assert(d.take((i - start) as int) =~= d);
    Some(value)
}

/// `(index-atom t i)`: the child of `t` at the decimal index spelled by the
/// bytes of `i` after its tag byte.
pub open spec fn spec_index_atom(args: Seq<Seq<u8>>) -> Result<Seq<u8>, EvalError> {
    if args.len() != 2 {
        Err(EvalError::TakesTwoArguments)
    } else {
        match expr::tuple_children(args[0]) {
            Some(c) => match parse_usize(args[1].drop_first()) {
                Some(i) => if i >= c.len() { Err(EvalError::IndexOutOfBounds) } else { Ok(c[i as int]) },
                None => Err(EvalError::InvalidIndex),
            },
            None => Err(EvalError::ExpectsTuple),
        }
    }
}

/// `(index-atom t i)`: the child of `t` at index `i`.
pub fn index_atom(args: &Vec<Vec<u8>>) -> (r: Result<Vec<u8>, EvalError>)
    requires
        args_ok(args@),
    ensures
        res_view(r) == spec_index_atom(list_helpers::views(args@)),
{
    if args.len() != 2 {
        return Err(EvalError::TakesTwoArguments);
    }
    let items = tuple_of(args, 0)?;
    assert(expr::is_expr(list_helpers::views(args@)[1]));
    proof { expr::lemma_items_len_bounds(args@[1]@, 1); }
    let digits = list_helpers::copy_range(args[1].as_slice(), 1, args[1].len());
    assert(digits@ =~= args@[1]@.drop_first());
    match parse_usize_bytes(digits.as_slice()) {
        Some(index) => {
            if index >= items.len() {
                return Err(EvalError::IndexOutOfBounds);
            }
            Ok(dup(&items[index]))
        },
        None => Err(EvalError::InvalidIndex),
    }
}


// ---------------------------------------------------------------- sorting

/// `a` comes strictly before `b` in lexicographic byte order.
pub open spec fn lex_lt(a: Seq<u8>, b: Seq<u8>) -> bool
    decreases a.len(),
{
    if a.len() == 0 {
        b.len() > 0
    } else if b.len() == 0 {
        false
    } else if a[0] != b[0] {
        a[0] < b[0]
    } else {
        lex_lt(a.drop_first(), b.drop_first())
    }
}

/// Lexicographic order is a strict order.
pub proof fn lemma_lex_lt_order(a: Seq<u8>, b: Seq<u8>, c: Seq<u8>)
    ensures
        !lex_lt(a, a),
        lex_lt(a, b) ==> !lex_lt(b, a),
        lex_lt(a, b) && lex_lt(b, c) ==> lex_lt(a, c),
        a != b ==> lex_lt(a, b) || lex_lt(b, a),
{
    lemma_lex_irreflexive(a);
    lemma_lex_asymmetric(a, b);
    lemma_lex_transitive(a, b, c);
    lemma_lex_total(a, b);
}

proof fn lemma_lex_irreflexive(a: Seq<u8>)
    ensures
        !lex_lt(a, a),
    decreases a.len(),
{
    if a.len() > 0 {
        lemma_lex_irreflexive(a.drop_first());
    }
}

proof fn lemma_lex_asymmetric(a: Seq<u8>, b: Seq<u8>)
    ensures
        lex_lt(a, b) ==> !lex_lt(b, a),
    decreases a.len(),
{
    if a.len() > 0 && b.len() > 0 {
        lemma_lex_asymmetric(a.drop_first(), b.drop_first());
    }
}

proof fn lemma_lex_transitive(a: Seq<u8>, b: Seq<u8>, c: Seq<u8>)
    ensures
        lex_lt(a, b) && lex_lt(b, c) ==> lex_lt(a, c),
    decreases a.len(),
{
    if a.len() > 0 && b.len() > 0 && c.len() > 0 {
        lemma_lex_transitive(a.drop_first(), b.drop_first(), c.drop_first());
    }
}

proof fn lemma_lex_total(a: Seq<u8>, b: Seq<u8>)
    ensures
        a != b ==> lex_lt(a, b) || lex_lt(b, a),
    decreases a.len(),
{
    if a.len() > 0 && b.len() > 0 {
        lemma_lex_total(a.drop_first(), b.drop_first());
        if a[0] == b[0] && a.drop_first() == b.drop_first() {
            assert(a =~= seq![a[0]] + a.drop_first());
            assert(b =~= seq![b[0]] + b.drop_first());
        }
    }
    if a.len() == 0 && b.len() == 0 {
        assert(a =~= b);
    }
}

/// The order `sort-atom` sorts by: symbols by content, before everything else;
/// everything else by its bytes.
pub open spec fn atom_lt(a: Seq<u8>, b: Seq<u8>) -> bool {
    match (list_helpers::symbol_content(a), list_helpers::symbol_content(b)) {
        (Some(x), Some(y)) => lex_lt(x, y),
        (None, None) => lex_lt(a, b),
        (Some(_), None) => true,
        (None, Some(_)) => false,
    }
}

/// The atom order is a strict order.
pub proof fn lemma_atom_lt_order(a: Seq<u8>, b: Seq<u8>, c: Seq<u8>)
    ensures
        !atom_lt(a, a),
        atom_lt(a, b) ==> !atom_lt(b, a),
        atom_lt(a, b) && atom_lt(b, c) ==> atom_lt(a, c),
{
    let (sa, sb, sc) = (list_helpers::symbol_content(a), list_helpers::symbol_content(b), list_helpers::symbol_content(c));
    lemma_lex_lt_order(a, b, c);
    if sa is Some && sb is Some && sc is Some {
        lemma_lex_lt_order(sa.unwrap(), sb.unwrap(), sc.unwrap());
    }
    if sa is Some && sb is Some {
        lemma_lex_lt_order(sa.unwrap(), sb.unwrap(), sb.unwrap());
    }
    if sa is Some {
        lemma_lex_lt_order(sa.unwrap(), sa.unwrap(), sa.unwrap());
    }
}

/// `s` is in atom order.
pub open spec fn atoms_sorted(s: Seq<Seq<u8>>) -> bool {
    forall|i: int, j: int| 0 <= i < j < s.len() ==> !atom_lt(#[trigger] s[j], #[trigger] s[i])
}

/// `a` comes strictly before `b` in lexicographic byte order.
pub fn lex_less(a: &[u8], b: &[u8]) -> (r: bool)
    ensures
        r == lex_lt(a@, b@),
{
    let mut i: usize = 0;
    assert(a@.skip(0) =~= a@ && b@.skip(0) =~= b@);
    while i < a.len() && i < b.len()
        invariant
            i <= a@.len(),
            i <= b@.len(),
            lex_lt(a@, b@) == lex_lt(a@.skip(i as int), b@.skip(i as int)),
        decreases a@.len() - i,
    {
        let ghost (x, y) = (a@.skip(i as int), b@.skip(i as int));
        assert(x[0] == a@[i as int] && y[0] == b@[i as int]);
        if a[i] != b[i] {
            return a[i] < b[i];
        }
        assert(x.drop_first() =~= a@.skip(i + 1));
        assert(y.drop_first() =~= b@.skip(i + 1));
        i = i + 1;
    }
    i < b.len()
}

/// `a` comes strictly before `b` in atom order.
pub fn atom_less(a: &Vec<u8>, b: &Vec<u8>) -> (r: bool)
    requires
        expr::is_expr(a@),
        expr::is_expr(b@),
    ensures
        r == atom_lt(a@, b@),
{
    match (expr_symbol_content(a.as_slice()), expr_symbol_content(b.as_slice())) {
        (Some(x), Some(y)) => lex_less(x.as_slice(), y.as_slice()),
        (None, None) => lex_less(a.as_slice(), b.as_slice()),
        (Some(_), None) => true,
        (None, Some(_)) => false,
    }
}

/// `(sort-atom t)`: the children of `t` in atom order.
pub open spec fn spec_sort_atom_ok(args: Seq<Seq<u8>>, r: Seq<u8>) -> bool {
    match tuple_arg(args) {
        Ok(c) => exists|s: Seq<Seq<u8>>| #![trigger expr::encode_tuple(s)]
            r == expr::encode_tuple(s) && atoms_sorted(s) && s.to_multiset() == c.to_multiset(),
        Err(_) => false,
    }
}

/// `(sort-atom t)`: the children of `t` rearranged into atom order (symbols by
/// content first, then the rest by bytes).
pub fn sort_atom(args: &Vec<Vec<u8>>) -> (r: Result<Vec<u8>, EvalError>)
    requires
        args_ok(args@),
    ensures
        match tuple_arg(list_helpers::views(args@)) {
            Ok(c) => r matches Ok(v) && spec_sort_atom_ok(list_helpers::views(args@), v@),
            Err(e) => r == Err::<Vec<u8>, EvalError>(e),
        },
{
    broadcast use vstd::seq_lib::group_to_multiset_ensures;
    let items = one_tuple_arg(args)?;
    let ghost c = list_helpers::views(items@);
    let mut sorted: Vec<Vec<u8>> = Vec::new();
    let mut i: usize = 0;
    assert(c.take(0) =~= Seq::<Seq<u8>>::empty());
    while i < items.len()
        invariant
            i <= items@.len() < 64,
            c == list_helpers::views(items@),
            expr::all_exprs(c),
            expr::all_exprs(list_helpers::views(sorted@)),
            atoms_sorted(list_helpers::views(sorted@)),
            list_helpers::views(sorted@).to_multiset() == c.take(i as int).to_multiset(),
            sorted@.len() == i,
        decreases items@.len() - i,
    {
        let ghost old = list_helpers::views(sorted@);
        let ghost old_vec = sorted@;
        let x = dup(&items[i]);
        assert(expr::is_expr(c[i as int]));
        assert forall|q: int| 0 <= q < sorted@.len() implies expr::is_expr(#[trigger] sorted@[q]@) by {
            assert(old[q] == sorted@[q]@);
        }
        // the first position whose atom comes after x
        let mut p: usize = 0;
        while p < sorted.len() && !atom_less(&x, &sorted[p])
            invariant
                p <= sorted@.len(),
                old == list_helpers::views(sorted@),
                i < c.len(),
                x@ == c[i as int],
                expr::is_expr(x@),
                expr::all_exprs(old),
                forall|q: int| 0 <= q < sorted@.len() ==> expr::is_expr(#[trigger] sorted@[q]@),
                forall|q: int| 0 <= q < p ==> !atom_lt(x@, #[trigger] old[q]),
            decreases sorted@.len() - p,
        {
            p = p + 1;
        }
        sorted.insert(p, x);
        proof {
            let new = list_helpers::views(sorted@);
            assert(new =~= old.insert(p as int, x@));
            assert forall|a: int, b: int| 0 <= a < b < new.len() implies !atom_lt(#[trigger] new[b], #[trigger] new[a]) by {
                if b == p {
                    assert(!atom_lt(x@, old[a]));
                    lemma_atom_lt_order(x@, old[a], old[a]);
                } else if a == p {
                    // x comes before old[p], which comes no later than old[b - 1]
                    assert(atom_lt(x@, old[p as int]));
                    lemma_atom_lt_order(old[b - 1], x@, old[p as int]);
                    if b - 1 > p {
                        assert(!atom_lt(old[b - 1], old[p as int]));
                    } else {
                        lemma_atom_lt_order(x@, old[p as int], old[p as int]);
                    }
                } else {
                    let oa = if a < p { a } else { a - 1 };
                    let ob = if b < p { b } else { b - 1 };
                    assert(new[a] == old[oa] && new[b] == old[ob]);
                }
            }
            assert forall|q: int| 0 <= q < new.len() implies #[trigger] expr::is_expr(new[q]) by {
                if q < p { assert(new[q] == old[q]); } else if q > p { assert(new[q] == old[q - 1]); }
            }
            old.insert_ensures(p as int, x@);
            assert(old.insert(p as int, x@) =~= old.subrange(0, p as int).push(x@) + old.subrange(p as int, old.len() as int));
            lemma_insert_multiset(old, p as int, x@);
            assert(c.take(i + 1) =~= c.take(i as int).push(c[i as int]));
            c.take(i as int).to_multiset_ensures();
            assert(c.take(i + 1).to_multiset() == c.take(i as int).to_multiset().insert(c[i as int]));
        }
        i = i + 1;
    }
    assert(c.take(items@.len() as int) =~= c);
    let r = vec_to_exp(&sorted);
    assert(expr::encode_tuple(list_helpers::views(sorted@)) == r@);
    Ok(r)
}

/// Inserting an element adds it to the multiset.
pub proof fn lemma_insert_multiset(s: Seq<Seq<u8>>, p: int, x: Seq<u8>)
    requires
        0 <= p <= s.len(),
    ensures
        s.insert(p, x).to_multiset() == s.to_multiset().insert(x),
{
    broadcast use vstd::seq_lib::group_to_multiset_ensures;
    let t = s.insert(p, x);
    assert(t.remove(p) =~= s);
    t.to_multiset_ensures();
    assert(t[p] == x);
    assert(t.to_multiset().remove(x) == s.to_multiset());
    assert(t.to_multiset().count(x) > 0);
    assert(t.to_multiset() =~= s.to_multiset().insert(x));
}

// ---------------------------------------------------------------- folding

/// The expression `(f (f (f init c0) c1) ...)` over the items `c`.
pub open spec fn fold_exprs(func: Seq<u8>, acc: Seq<u8>, c: Seq<Seq<u8>>) -> Seq<u8>
    decreases c.len(),
{
    if c.len() == 0 {
        acc
    } else {
        fold_exprs(func, seq![3u8] + func + acc + c[0], c.drop_first())
    }
}

/// `(foldl f init t)`: the expression applying `f` from the left over the children of `t`.
pub open spec fn spec_foldl(args: Seq<Seq<u8>>) -> Result<Seq<u8>, EvalError> {
    if args.len() != 3 {
        Err(EvalError::TakesThreeArguments)
    } else {
        match expr::tuple_children(args[2]) {
            Some(c) => Ok(fold_exprs(args[0], args[1], c)),
            None => Err(EvalError::ExpectsTuple),
        }
    }
}

/// Builds the nested expression `(f (f (f init c0) c1) ...)` over the children of
/// the list; the expression is evaluated later, by whoever reads it.
pub fn foldl_impl(args: &Vec<Vec<u8>>) -> (r: Result<Vec<u8>, EvalError>)
    requires
        args_ok(args@),
    ensures
        res_view(r) == spec_foldl(list_helpers::views(args@)),
{
    if args.len() != 3 {
        return Err(EvalError::TakesThreeArguments);
    }
    let items = tuple_of(args, 2)?;
    let ghost c = list_helpers::views(items@);
    let func = &args[0];
    let mut accum_bytes = dup(&args[1]);
    let mut i: usize = 0;
    assert(c.skip(0) =~= c);
    while i < items.len()
        invariant
            i <= items@.len(),
            args@.len() == 3,
            func == &args@[0],
            c == list_helpers::views(items@),
            fold_exprs(args@[0]@, args@[1]@, c) == fold_exprs(args@[0]@, accum_bytes@, c.skip(i as int)),
        decreases items@.len() - i,
    {
        let mut new_accum: Vec<u8> = Vec::new();
        new_accum.push(item_byte(Tag::Arity(3)));
        append_bytes(&mut new_accum, func);
        append_bytes(&mut new_accum, &accum_bytes);
        append_bytes(&mut new_accum, &items[i]);
        assert(c.skip(i as int)[0] == c[i as int]);
        assert(c.skip(i as int).drop_first() =~= c.skip(i + 1));
        assert(new_accum@ =~= seq![3u8] + args@[0]@ + accum_bytes@ + c[i as int]);
        accum_bytes = new_accum;
        i = i + 1;
    }
    assert(c.skip(items@.len() as int) =~= Seq::<Seq<u8>>::empty());
    Ok(accum_bytes)
}

/// `(foldl f init t)`.
pub fn foldl(args: &Vec<Vec<u8>>) -> (r: Result<Vec<u8>, EvalError>)
    requires
        args_ok(args@),
    ensures
        res_view(r) == spec_foldl(list_helpers::views(args@)),
{
    foldl_impl(args)
}

/// `(foldl-atom f init t)`: the same as `foldl`.
pub fn foldl_atom(args: &Vec<Vec<u8>>) -> (r: Result<Vec<u8>, EvalError>)
    requires
        args_ok(args@),
    ensures
        res_view(r) == spec_foldl(list_helpers::views(args@)),
{
    foldl_impl(args)
}

// ---------------------------------------------------------------- symbols

/// The content of the only argument, which must be a symbol.
pub open spec fn symbol_arg(args: Seq<Seq<u8>>) -> Result<Seq<u8>, EvalError> {
    if args.len() != 1 {
        Err(EvalError::TakesOneArgument)
    } else {
        match list_helpers::symbol_content(args[0]) {
            Some(s) => Ok(s),
            None => Err(EvalError::ExpectsSymbol),
        }
    }
}

/// `(reverse_symbol s)`: the bytes of `s` in reverse order.
pub open spec fn spec_reverse_symbol(args: Seq<Seq<u8>>) -> Result<Seq<u8>, EvalError> {
    match symbol_arg(args) {
        Ok(s) => Ok(s.reverse()),
        Err(e) => Err(e),
    }
}

/// `(reverse_symbol s)`: the symbol with the bytes of `s` in reverse order
/// (its content bytes).
pub fn reverse_symbol(args: &Vec<Vec<u8>>) -> (r: Result<Vec<u8>, EvalError>)
    requires
        args_ok(args@),
    ensures
        res_view(r) == spec_reverse_symbol(list_helpers::views(args@)),
{
    if args.len() != 1 {
        return Err(EvalError::TakesOneArgument);
    }
    assert(expr::is_expr(list_helpers::views(args@)[0]));
    let symbol = match expr_symbol_content(args[0].as_slice()) {
        Some(s) => s,
        None => return Err(EvalError::ExpectsSymbol),
    };
    let mut out: Vec<u8> = Vec::new();
    let mut i = symbol.len();
    while i > 0
        invariant
            i <= symbol@.len(),
            out@ == symbol@.reverse().take((symbol@.len() - i) as int),
        decreases i,
    {
        i = i - 1;
        out.push(symbol[i]);
        assert(out@ =~= symbol@.reverse().take((symbol@.len() - i) as int));
    }
    assert(symbol@.reverse().take(symbol@.len() as int) =~= symbol@.reverse());
    Ok(out)
}

/// The contents of the symbols `c`, concatenated after `acc`; errors on the
/// first child that is not a symbol or that would make the result 64 bytes or more.
pub open spec fn collapse(c: Seq<Seq<u8>>, acc: Seq<u8>) -> Result<Seq<u8>, EvalError>
    decreases c.len(),
{
    if c.len() == 0 {
        Ok(acc)
    } else {
        match list_helpers::symbol_content(c[0]) {
            None => Err(EvalError::ExpectsSymbol),
            Some(s) => if acc.len() + s.len() >= 64 {
                Err(EvalError::SymbolTooLong)
            } else {
                collapse(c.drop_first(), acc + s)
            },
        }
    }
}

/// `(collapse_symbol (s1 s2 ...))`: the symbol made of the bytes of `s1`, `s2`, ...
pub open spec fn spec_collapse_symbol(args: Seq<Seq<u8>>) -> Result<Seq<u8>, EvalError> {
    match tuple_arg(args) {
        Ok(c) => collapse(c, Seq::empty()),
        Err(e) => Err(e),
    }
}

/// `(collapse_symbol (s1 s2 ...))`: the content of the symbol made of the bytes of
/// `s1`, `s2`, ..., which must be symbols and together shorter than 64 bytes.
pub fn collapse_symbol(args: &Vec<Vec<u8>>) -> (r: Result<Vec<u8>, EvalError>)
    requires
        args_ok(args@),
    ensures
        res_view(r) == spec_collapse_symbol(list_helpers::views(args@)),
{
    let items = one_tuple_arg(args)?;
    let ghost c = list_helpers::views(items@);
    let mut buf: Vec<u8> = Vec::new();
    assert(tuple_arg(list_helpers::views(args@)) == Ok::<Seq<Seq<u8>>, EvalError>(c));
    let mut k: usize = 0;
    assert(c.skip(0) =~= c);
    while k < items.len()
        invariant
            k <= items@.len(),
            c == list_helpers::views(items@),
            expr::all_exprs(c),
            buf@.len() < 64,
            tuple_arg(list_helpers::views(args@)) == Ok::<Seq<Seq<u8>>, EvalError>(c),
            collapse(c, Seq::empty()) == collapse(c.skip(k as int), buf@),
        decreases items@.len() - k,
    {
        let ghost rest = c.skip(k as int);
        assert(rest[0] == c[k as int]);
        assert(rest.drop_first() =~= c.skip(k + 1));
        assert(expr::is_expr(c[k as int]));
        assert(items@[k as int]@ == c[k as int]);
        let symbol = match expr_symbol_content(items[k].as_slice()) {
            Some(s) => s,
            None => return Err(EvalError::ExpectsSymbol),
        };
        if buf.len() + symbol.len() >= 64 {
            return Err(EvalError::SymbolTooLong);
        }
        append_bytes(&mut buf, &symbol);
        k = k + 1;
    }
    assert(c.skip(items@.len() as int) =~= Seq::<Seq<u8>>::empty());
    Ok(buf)
}

/// The one-byte symbols of the bytes of `s`, laid end to end.
pub open spec fn exploded(s: Seq<u8>) -> Seq<u8>
    decreases s.len(),
{
    if s.len() == 0 {
        Seq::empty()
    } else {
        seq![193u8, s[0]] + exploded(s.drop_first())
    }
}

/// `(explode_symbol s)`: the tuple of the one-byte symbols of the bytes of `s`.
pub open spec fn spec_explode_symbol(args: Seq<Seq<u8>>) -> Result<Seq<u8>, EvalError> {
    match symbol_arg(args) {
        Ok(s) => Ok(seq![s.len() as u8] + exploded(s)),
        Err(e) => Err(e),
    }
}

/// `exploded` of a longer prefix appends one symbol.
pub proof fn lemma_exploded_push(s: Seq<u8>, b: u8)
    ensures
        exploded(s.push(b)) == exploded(s) + seq![193u8, b],
    decreases s.len(),
{
    if s.len() == 0 {
        assert(s.push(b).drop_first() =~= Seq::<u8>::empty());
        assert(exploded(s.push(b)) =~= seq![193u8, b] + exploded(Seq::<u8>::empty()));
    } else {
        lemma_exploded_push(s.drop_first(), b);
        assert(s.push(b).drop_first() =~= s.drop_first().push(b));
        assert(exploded(s.push(b)) =~= exploded(s) + seq![193u8, b]);
    }
}

/// `(explode_symbol s)`: the tuple of the one-byte symbols of the bytes of `s`.
pub fn explode_symbol(args: &Vec<Vec<u8>>) -> (r: Result<Vec<u8>, EvalError>)
    requires
        args_ok(args@),
    ensures
        res_view(r) == spec_explode_symbol(list_helpers::views(args@)),
{
    if args.len() != 1 {
        return Err(EvalError::TakesOneArgument);
    }
    assert(expr::is_expr(list_helpers::views(args@)[0]));
    let symbol = match expr_symbol_content(args[0].as_slice()) {
        Some(s) => s,
        None => return Err(EvalError::ExpectsSymbol),
    };
    proof { list_helpers::lemma_symbol_len(args@[0]@); }
    let mut out: Vec<u8> = Vec::new();
    out.push(item_byte(Tag::Arity(symbol.len() as u8)));
    let mut i: usize = 0;
    assert(symbol@.take(0) =~= Seq::<u8>::empty());
    while i < symbol.len()
        invariant
            i <= symbol@.len() < 64,
            out@ == seq![symbol@.len() as u8] + exploded(symbol@.take(i as int)),
        decreases symbol@.len() - i,
    {
        out.push(item_byte(Tag::SymbolSize(1)));
        out.push(symbol[i]);
        proof {
            lemma_exploded_push(symbol@.take(i as int), symbol@[i as int]);
            assert(symbol@.take(i + 1) =~= symbol@.take(i as int).push(symbol@[i as int]));
        }
        i = i + 1;
        assert(out@ =~= seq![symbol@.len() as u8] + exploded(symbol@.take(i as int)));
    }
    assert(symbol@.take(symbol@.len() as int) =~= symbol@);
    Ok(out)
}

/// The symbol `then`.
pub open spec fn then_text() -> Seq<u8> {
    seq![116u8, 104u8, 101u8, 110u8]
}

/// The symbol `else`.
pub open spec fn else_text() -> Seq<u8> {
    seq![101u8, 108u8, 115u8, 101u8]
}

/// A symbol is non-zero when one of its bytes is not zero.
pub open spec fn nonzero(s: Seq<u8>) -> bool {
    exists|i: int| 0 <= i < s.len() && s[i] != 0
}

/// `(ifnz c then t)` or `(ifnz c then t else f)`: `t` when the symbol `c` has a
/// non-zero byte, else `f`. Only these two shapes are accepted: the keywords are
/// checked before the condition decides.
pub open spec fn spec_ifnz(args: Seq<Seq<u8>>) -> Result<Seq<u8>, EvalError> {
    if args.len() != 3 && args.len() != 5 {
        Err(EvalError::IfnzShape)
    } else {
        match list_helpers::symbol_content(args[0]) {
            None => Err(EvalError::ExpectsSymbol),
            Some(cond) => if list_helpers::symbol_content(args[1]) != Some(then_text()) {
                Err(EvalError::ExpectedThen)
            } else if args.len() == 5 && list_helpers::symbol_content(args[3]) != Some(else_text()) {
                Err(EvalError::ExpectedElse)
            } else if nonzero(cond) {
                Ok(args[2])
            } else if args.len() == 5 {
                Ok(args[4])
            } else {
                Err(EvalError::NoElseBranch)
            },
        }
    }
}

/// Whether the content of a symbol is `w`.
fn symbol_is(e: &Vec<u8>, w0: u8, w1: u8, w2: u8, w3: u8) -> (r: bool)
    requires
        expr::is_expr(e@),
    ensures
        r == (list_helpers::symbol_content(e@) == Some(seq![w0, w1, w2, w3])),
{
    match expr_symbol_content(e.as_slice()) {
        Some(s) => {
            let r = s.len() == 4 && s[0] == w0 && s[1] == w1 && s[2] == w2 && s[3] == w3;
            assert(r ==> s@ =~= seq![w0, w1, w2, w3]);
            r
        },
        None => false,
    }
}

/// `(ifnz c then t)` or `(ifnz c then t else f)`: `t` when the symbol `c` has a
/// non-zero byte, else `f`.
pub fn ifnz(args: &Vec<Vec<u8>>) -> (r: Result<Vec<u8>, EvalError>)
    requires
        args_ok(args@),
    ensures
        res_view(r) == spec_ifnz(list_helpers::views(args@)),
{
    if args.len() != 3 && args.len() != 5 {
        return Err(EvalError::IfnzShape);
    }
    assert(expr::is_expr(list_helpers::views(args@)[0]));
    assert(expr::is_expr(list_helpers::views(args@)[1]));
    let symbol = match expr_symbol_content(args[0].as_slice()) {
        Some(s) => s,
        None => return Err(EvalError::ExpectsSymbol),
    };
    if !symbol_is(&args[1], 116, 104, 101, 110) {
        return Err(EvalError::ExpectedThen);
    }
    if args.len() == 5 {
        assert(expr::is_expr(list_helpers::views(args@)[3]));
        if !symbol_is(&args[3], 101, 108, 115, 101) {
            return Err(EvalError::ExpectedElse);
        }
    }
    let mut is_nz = false;
    let mut i: usize = 0;
    while i < symbol.len()
        invariant
            i <= symbol@.len(),
            is_nz == exists|j: int| 0 <= j < i && symbol@[j] != 0,
        decreases symbol@.len() - i,
    {
        if symbol[i] != 0 {
            is_nz = true;
        }
        i = i + 1;
    }
    if is_nz {
        Ok(dup(&args[2]))
    } else if args.len() == 5 {
        Ok(dup(&args[4]))
    } else {
        Err(EvalError::NoElseBranch)
    }
}

/// `(tuple x ...)`: the tuple of the arguments.
pub fn tuple(args: &Vec<Vec<u8>>) -> (r: Vec<u8>)
    requires
        args@.len() < 64,
    ensures
        r@ == expr::encode_tuple(list_helpers::views(args@)),
{
    vec_to_exp(args)
}

} // verus!
