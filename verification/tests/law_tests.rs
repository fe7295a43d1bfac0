use kernel::codec::{decode_hex, encode_hex};
use kernel::pure::{
    append, car, cdr, collapse_symbol, cons, explode_symbol, foldl, index_atom, intersection_atom, length, reverse,
    reverse_symbol, sort_atom, subtraction_atom, unique_atom,
};
use kernel::expr::expr_len;
use kernel::list_helpers::exp_to_vec;

fn sym(s: &[u8]) -> Vec<u8> {
    let mut v = vec![192u8 + s.len() as u8];
    v.extend_from_slice(s);
    v
}

fn tup(items: &[Vec<u8>]) -> Vec<u8> {
    let mut v = vec![items.len() as u8];
    for i in items {
        v.extend_from_slice(i);
    }
    v
}

#[test]
fn car_cdr_of_cons_give_back_the_parts() {
    let h = tup(&[sym(b"k"), sym(b"v")]);
    let t = tup(&[sym(b"a"), sym(b"b")]);
    let x = cons(&vec![h.clone(), t.clone()]).unwrap();
    assert_eq!(car(&vec![x.clone()]), Ok(h));
    assert_eq!(cdr(&vec![x]), Ok(t));
}

#[test]
fn cons_of_car_and_cdr_gives_back_the_tuple() {
    let t = tup(&[sym(b"a"), tup(&[]), sym(b"c")]);
    let h = car(&vec![t.clone()]).unwrap();
    let rest = cdr(&vec![t.clone()]).unwrap();
    assert_eq!(cons(&vec![h, rest]), Ok(t));
}

#[test]
fn reverse_twice_is_identity() {
    let t = tup(&[sym(b"a"), tup(&[sym(b"b")]), sym(b"c"), sym(b"d")]);
    let r = reverse(&vec![t.clone()]).unwrap();
    assert_ne!(r, t);
    assert_eq!(reverse(&vec![r]), Ok(t));
}

#[test]
fn reverse_symbol_twice_is_identity() {
    let r = reverse_symbol(&vec![sym(b"kernel")]).unwrap();
    assert_eq!(reverse_symbol(&vec![sym(&r)]), Ok(b"kernel".to_vec()));
}

#[test]
fn collapse_of_explode_is_identity() {
    let x = explode_symbol(&vec![sym(b"atoms")]).unwrap();
    assert_eq!(collapse_symbol(&vec![x]), Ok(b"atoms".to_vec()));
}

#[test]
fn decode_of_encode_hex_is_identity() {
    let content = vec![0u8, 1, 127, 128, 255];
    let h = encode_hex(&vec![sym(&content)]).unwrap();
    assert_eq!(decode_hex(&vec![sym(&h)]), Ok(content));
}

#[test]
fn subtraction_and_intersection_partition_the_first_tuple() {
    let a = tup(&[sym(b"a"), sym(b"b"), sym(b"a"), sym(b"c"), sym(b"a")]);
    let b = tup(&[sym(b"a"), sym(b"a"), sym(b"d")]);
    let s = exp_to_vec(&subtraction_atom(&vec![a.clone(), b.clone()]).unwrap()).unwrap();
    let i = exp_to_vec(&intersection_atom(&vec![a.clone(), b.clone()]).unwrap()).unwrap();
    let mut together = s.clone();
    together.extend(i.clone());
    together.sort();
    let mut all = exp_to_vec(&a).unwrap();
    all.sort();
    assert_eq!(together, all);
    assert_eq!(i, vec![sym(b"a"), sym(b"a")]);
}

#[test]
fn unique_atom_is_idempotent_and_duplicate_free() {
    let t = tup(&[sym(b"b"), sym(b"a"), sym(b"b"), sym(b"b"), sym(b"a")]);
    let u = unique_atom(&vec![t]).unwrap();
    assert_eq!(u, tup(&[sym(b"b"), sym(b"a")]));
    assert_eq!(unique_atom(&vec![u.clone()]), Ok(u));
}

#[test]
fn sort_atom_is_idempotent() {
    let t = tup(&[sym(b"zz"), tup(&[sym(b"q")]), sym(b"a"), tup(&[]), sym(b"m")]);
    let s = sort_atom(&vec![t]).unwrap();
    assert_eq!(sort_atom(&vec![s.clone()]), Ok(s));
}

#[test]
fn foldl_result_is_one_expression() {
    let f = tup(&[sym(b"plus"), sym(b"1")]);
    let t = tup(&[sym(b"1"), sym(b"2"), sym(b"3")]);
    let r = foldl(&vec![f, sym(b"0"), t]).unwrap();
    assert_eq!(expr_len(&r, 0), Some(r.len()));
}

#[test]
fn index_atom_at_length_minus_one_is_last() {
    let items: Vec<Vec<u8>> = (0..12u8).map(|k| sym(&[b'a' + k])).collect();
    let t = tup(&items);
    let n = length(&vec![t.clone()]).unwrap();
    assert_eq!(n, b"12".to_vec());
    assert_eq!(index_atom(&vec![t.clone(), sym(b"11")]), Ok(sym(b"l")));
    assert_eq!(index_atom(&vec![t, sym(&n)]), Err(kernel::error::EvalError::IndexOutOfBounds));
}

#[test]
fn append_lengths_add_up() {
    let x = tup(&[sym(b"a"), sym(b"b")]);
    let y = tup(&[sym(b"c"), sym(b"d"), sym(b"e")]);
    let r = append(&vec![x, y]).unwrap();
    assert_eq!(length(&vec![r]), Ok(b"5".to_vec()));
}

#[test]
fn decode_of_encode_base64url_is_identity() {
    let content: Vec<u8> = (0..47u8).map(|k| k.wrapping_mul(37)).collect();
    let t = kernel::codec::encode_base64url(&vec![sym(&content)]).unwrap();
    assert_eq!(t.len(), 63);
    assert_eq!(kernel::codec::decode_base64url(&vec![sym(&t)]), Ok(content));
}

#[test]
fn non_canonical_base64_is_refused() {
    // "aGVsbG9" and "aGVsbG8" differ only in bits past the last byte
    assert_eq!(kernel::codec::decode_base64url(&vec![sym(b"aGVsbG9")]), Err(kernel::error::EvalError::InvalidBase64));
    // a length of one more than a multiple of four
    assert_eq!(kernel::codec::decode_base64url(&vec![sym(b"aGVsb")]), Err(kernel::error::EvalError::InvalidBase64));
}

#[test]
fn node_weight_is_its_value_plus_its_children() {
    let mut t = kernel::trie::WeightTrie::new();
    t.set_val_at(&[1], 4);
    t.set_val_at(&[1, 2], 10);
    t.set_val_at(&[1, 3, 7], 6);
    let children: i32 = t.children_agg_w(&vec![1]).iter().map(|(w, _)| *w).sum();
    assert_eq!(t.weight_under(&[1]), t.value_at(&[1]).unwrap_or(0) + children);
    assert_eq!(t.weight_under(&[1]), 20);
}

#[test]
fn walks_end_at_atoms_below_the_start() {
    let mut t = kernel::trie::WeightTrie::new();
    t.set_val_at(&[1], 4);
    t.set_val_at(&[1, 2], 10);
    t.set_val_at(&[1, 3, 7], 6);
    t.set_val_at(&[2, 2], 5);
    for r in 0..25 {
        if let Some(p) = kernel::weightedsweep::walk(&t, &vec![1], r) {
            assert!(p.starts_with(&[1]));
            assert!(t.value_at(&p).is_some() || t.children_agg_w(&p).is_empty());
        }
    }
}

#[test]
fn decons_of_cons_gives_back_head_and_tail() {
    let h = sym(b"h");
    let t = tup(&[sym(b"a"), tup(&[sym(b"b")])]);
    let x = cons(&vec![h.clone(), t.clone()]).unwrap();
    assert_eq!(kernel::pure::decons(&vec![x]), Ok(tup(&[h, t])));
}
