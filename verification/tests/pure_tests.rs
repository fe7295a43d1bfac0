use kernel::error::EvalError;
use kernel::pure::{
    append, car, car_atom, cdr, cdr_atom, collapse_symbol, cons, decons, exclude_item, explode_symbol, first,
    first_from_pair, foldl, foldl_atom, ifnz, index_atom, intersection_atom, is_member, last, length, reverse,
    reverse_symbol, second_from_pair, size_atom, sort_atom, subtraction_atom, tuple, union_atom, unique_atom,
};

fn sym(s: &[u8]) -> Vec<u8> {
    let mut v = vec![192u8 + s.len() as u8];
    v.extend_from_slice(s);
    v
}

fn tup(items: &[Vec<u8>]) -> Vec<u8> {
    let mut v = vec![items.len() as u8];
    for i in items {
        v.extend_from_slice(i);
    }
    v
}

fn abc() -> Vec<u8> {
    tup(&[sym(b"a"), sym(b"b"), sym(b"c")])
}

#[test]
fn length_counts_children() {
    assert_eq!(length(&vec![abc()]), Ok(b"3".to_vec()));
    assert_eq!(length(&vec![tup(&[])]), Ok(b"0".to_vec()));
    let twelve: Vec<Vec<u8>> = (0..12).map(|_| sym(b"x")).collect();
    assert_eq!(size_atom(&vec![tup(&twelve)]), Ok(b"12".to_vec()));
}

#[test]
fn length_errors() {
    assert_eq!(length(&vec![abc(), abc()]), Err(EvalError::TakesOneArgument));
    assert_eq!(length(&vec![sym(b"a")]), Err(EvalError::ExpectsTuple));
}

#[test]
fn car_and_friends_give_the_first_child() {
    for f in [car, first, first_from_pair, car_atom] {
        assert_eq!(f(&vec![abc()]), Ok(sym(b"a")));
        assert_eq!(f(&vec![tup(&[])]), Err(EvalError::EmptyTuple));
        assert_eq!(f(&vec![sym(b"a")]), Err(EvalError::ExpectsTuple));
    }
}

#[test]
fn second_from_pair_gives_the_second_child() {
    assert_eq!(second_from_pair(&vec![abc()]), Ok(sym(b"b")));
    assert_eq!(second_from_pair(&vec![tup(&[sym(b"a")])]), Err(EvalError::FewerThanTwoElements));
}

#[test]
fn last_gives_the_last_child() {
    assert_eq!(last(&vec![abc()]), Ok(sym(b"c")));
    assert_eq!(last(&vec![tup(&[])]), Err(EvalError::EmptyTuple));
}

#[test]
fn cdr_drops_the_first_child() {
    for f in [cdr, cdr_atom] {
        assert_eq!(f(&vec![abc()]), Ok(tup(&[sym(b"b"), sym(b"c")])));
        assert_eq!(f(&vec![tup(&[sym(b"a")])]), Ok(tup(&[])));
        assert_eq!(f(&vec![tup(&[])]), Err(EvalError::EmptyTuple));
    }
}

#[test]
fn cons_puts_a_head_in_front() {
    let nested = tup(&[sym(b"x"), sym(b"y")]);
    assert_eq!(
        cons(&vec![nested.clone(), abc()]),
        Ok(tup(&[nested, sym(b"a"), sym(b"b"), sym(b"c")]))
    );
    assert_eq!(cons(&vec![sym(b"x")]), Err(EvalError::TakesTwoArguments));
    assert_eq!(cons(&vec![sym(b"x"), sym(b"y")]), Err(EvalError::ExpectsTuple));
}

#[test]
fn decons_splits_head_and_tail() {
    assert_eq!(
        decons(&vec![abc()]),
        Ok(tup(&[sym(b"a"), tup(&[sym(b"b"), sym(b"c")])]))
    );
    assert_eq!(decons(&vec![tup(&[])]), Err(EvalError::EmptyTuple));
}

#[test]
fn reverse_reverses_children() {
    assert_eq!(reverse(&vec![abc()]), Ok(tup(&[sym(b"c"), sym(b"b"), sym(b"a")])));
    assert_eq!(reverse(&vec![tup(&[])]), Ok(tup(&[])));
}

#[test]
fn append_and_union_concatenate() {
    let x = tup(&[sym(b"a"), sym(b"b")]);
    let y = tup(&[sym(b"b"), sym(b"c")]);
    let both = tup(&[sym(b"a"), sym(b"b"), sym(b"b"), sym(b"c")]);
    assert_eq!(append(&vec![x.clone(), y.clone()]), Ok(both.clone()));
    assert_eq!(union_atom(&vec![x.clone(), y.clone()]), Ok(both));
    assert_eq!(append(&vec![x.clone()]), Err(EvalError::TakesTwoArguments));
    assert_eq!(append(&vec![sym(b"a"), y]), Err(EvalError::ExpectsTuple));
    assert_eq!(append(&vec![x, sym(b"a")]), Err(EvalError::ExpectsTuple));
}

#[test]
fn unique_atom_keeps_first_occurrences() {
    let t = tup(&[sym(b"a"), sym(b"b"), sym(b"a"), sym(b"c"), sym(b"b")]);
    assert_eq!(unique_atom(&vec![t]), Ok(abc()));
}

#[test]
fn is_member_answers_true_or_false() {
    assert_eq!(is_member(&vec![sym(b"b"), abc()]), Ok(b"true".to_vec()));
    assert_eq!(is_member(&vec![sym(b"d"), abc()]), Ok(b"false".to_vec()));
    assert_eq!(is_member(&vec![abc(), tup(&[abc()])]), Ok(b"true".to_vec()));
    assert_eq!(is_member(&vec![sym(b"d"), sym(b"d")]), Err(EvalError::ExpectsTuple));
}

#[test]
fn subtraction_and_intersection_match_once_each() {
    let a = tup(&[sym(b"a"), sym(b"b"), sym(b"a"), sym(b"c")]);
    let b = tup(&[sym(b"a"), sym(b"c"), sym(b"d")]);
    assert_eq!(subtraction_atom(&vec![a.clone(), b.clone()]), Ok(tup(&[sym(b"b"), sym(b"a")])));
    assert_eq!(intersection_atom(&vec![a.clone(), b.clone()]), Ok(tup(&[sym(b"a"), sym(b"c")])));
    assert_eq!(subtraction_atom(&vec![a.clone()]), Err(EvalError::TakesTwoArguments));
    assert_eq!(intersection_atom(&vec![a, sym(b"x")]), Err(EvalError::ExpectsTuple));
}

#[test]
fn exclude_item_drops_every_occurrence() {
    let t = tup(&[sym(b"a"), sym(b"b"), sym(b"a"), sym(b"c")]);
    assert_eq!(exclude_item(&vec![sym(b"a"), t]), Ok(tup(&[sym(b"b"), sym(b"c")])));
}

#[test]
fn index_atom_reads_a_decimal_index() {
    assert_eq!(index_atom(&vec![abc(), sym(b"0")]), Ok(sym(b"a")));
    assert_eq!(index_atom(&vec![abc(), sym(b"2")]), Ok(sym(b"c")));
    assert_eq!(index_atom(&vec![abc(), sym(b"+1")]), Ok(sym(b"b")));
    assert_eq!(index_atom(&vec![abc(), sym(b"3")]), Err(EvalError::IndexOutOfBounds));
    assert_eq!(index_atom(&vec![abc(), sym(b"x")]), Err(EvalError::InvalidIndex));
    assert_eq!(index_atom(&vec![abc(), sym(b"-1")]), Err(EvalError::InvalidIndex));
    assert_eq!(index_atom(&vec![abc()]), Err(EvalError::TakesTwoArguments));
}

#[test]
fn sort_atom_puts_symbols_first_in_byte_order() {
    let t = tup(&[sym(b"b"), tup(&[]), sym(b"ab"), tup(&[sym(b"a")])]);
    assert_eq!(
        sort_atom(&vec![t]),
        Ok(tup(&[sym(b"ab"), sym(b"b"), tup(&[]), tup(&[sym(b"a")])]))
    );
    assert_eq!(sort_atom(&vec![sym(b"a")]), Err(EvalError::ExpectsTuple));
}

#[test]
fn foldl_builds_the_nested_application() {
    let f = sym(b"f");
    let init = sym(b"0");
    let t = tup(&[sym(b"a"), sym(b"b")]);
    let inner = tup(&[f.clone(), init.clone(), sym(b"a")]);
    let expected = tup(&[f.clone(), inner, sym(b"b")]);
    assert_eq!(foldl(&vec![f.clone(), init.clone(), t.clone()]), Ok(expected.clone()));
    assert_eq!(foldl_atom(&vec![f.clone(), init.clone(), t]), Ok(expected));
    assert_eq!(foldl(&vec![f.clone(), init.clone(), tup(&[])]), Ok(init.clone()));
    assert_eq!(foldl(&vec![f, init]), Err(EvalError::TakesThreeArguments));
}

#[test]
fn reverse_symbol_reverses_bytes() {
    assert_eq!(reverse_symbol(&vec![sym(b"abc")]), Ok(b"cba".to_vec()));
    assert_eq!(reverse_symbol(&vec![abc()]), Err(EvalError::ExpectsSymbol));
    assert_eq!(reverse_symbol(&vec![]), Err(EvalError::TakesOneArgument));
}

#[test]
fn collapse_symbol_joins_symbols() {
    let t = tup(&[sym(b"ab"), sym(b"c")]);
    assert_eq!(collapse_symbol(&vec![t]), Ok(b"abc".to_vec()));
    assert_eq!(collapse_symbol(&vec![tup(&[])]), Ok(Vec::new()));
    assert_eq!(collapse_symbol(&vec![tup(&[sym(b"a"), tup(&[])])]), Err(EvalError::ExpectsSymbol));
    let long = tup(&[sym(&[b'x'; 32]), sym(&[b'y'; 32])]);
    assert_eq!(collapse_symbol(&vec![long]), Err(EvalError::SymbolTooLong));
    let fits = tup(&[sym(&[b'x'; 32]), sym(&[b'y'; 31])]);
    assert_eq!(collapse_symbol(&vec![fits]).map(|v| v.len()), Ok(63));
}

#[test]
fn explode_symbol_makes_one_byte_symbols() {
    assert_eq!(explode_symbol(&vec![sym(b"ab")]), Ok(tup(&[sym(b"a"), sym(b"b")])));
    assert_eq!(explode_symbol(&vec![abc()]), Err(EvalError::ExpectsSymbol));
}

#[test]
fn ifnz_picks_a_branch() {
    let one = sym(&[0, 1]);
    let zero = sym(&[0, 0]);
    let then = sym(b"then");
    let els = sym(b"else");
    let t = sym(b"yes");
    let f = sym(b"no");
    assert_eq!(ifnz(&vec![one.clone(), then.clone(), t.clone()]), Ok(t.clone()));
    assert_eq!(ifnz(&vec![one.clone(), then.clone(), t.clone(), els.clone(), f.clone()]), Ok(t.clone()));
    assert_eq!(ifnz(&vec![zero.clone(), then.clone(), t.clone(), els.clone(), f.clone()]), Ok(f.clone()));
    assert_eq!(ifnz(&vec![zero.clone(), then.clone(), t.clone()]), Err(EvalError::NoElseBranch));
    assert_eq!(ifnz(&vec![zero.clone(), then.clone(), t.clone(), then.clone(), f.clone()]), Err(EvalError::ExpectedElse));
    assert_eq!(ifnz(&vec![one.clone(), then.clone(), t.clone(), sym(b"foo"), f.clone()]), Err(EvalError::ExpectedElse));
    assert_eq!(ifnz(&vec![one.clone(), els.clone(), t.clone()]), Err(EvalError::ExpectedThen));
    assert_eq!(ifnz(&vec![abc(), then.clone(), t.clone()]), Err(EvalError::ExpectsSymbol));
    assert_eq!(ifnz(&vec![one, then, t, els]), Err(EvalError::IfnzShape));
}

#[test]
fn tuple_wraps_its_arguments() {
    assert_eq!(tuple(&vec![sym(b"a"), tup(&[])]), tup(&[sym(b"a"), tup(&[])]));
    assert_eq!(tuple(&vec![]), vec![0u8]);
}
