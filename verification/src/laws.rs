//! What holds across the list and symbol functions: the round trips between them
//! and the properties of their results, stated over the specifications that their
//! contracts use.
use vstd::prelude::*;
use crate::error::EvalError;
use crate::expr::{is_expr, tuple_children, encode_tuple, all_exprs, items_len};
use crate::list_helpers::symbol_content;
use crate::pure::{
    spec_car, spec_cdr, spec_cons, spec_reverse, spec_decons, lemma_tuple_children, lemma_encode_tuple,
    spec_reverse_symbol, spec_explode_symbol, spec_collapse_symbol, exploded, collapse,
};
use crate::pure::{
    subtract, intersect, spec_multiset_op, spec_unique, spec_append, spec_length, decimal,
    spec_index_atom, parse_usize, all_digits, digits_value, unsigned_digits, fold_exprs, spec_foldl,
    atom_lt, atoms_sorted, spec_sort_atom_ok, lemma_lex_lt_order, tuple_arg,
};
use crate::pure::{lex_lt, spec_ifnz, then_text, else_text};
use crate::list_helpers::lemma_symbol_len;
use vstd::multiset::Multiset;
use crate::codec::{spec_encode_hex, spec_decode_hex, hex_lower, hex_decoded, hex_digit, hex_val};
use crate::codec::{spec_encode_base64url, spec_decode_base64url, b64url, b64_len, lemma_b64url_len, lemma_b64url_injective};

verus! {

/// The symbol expression with content `s`.
pub open spec fn symbol_expr(s: Seq<u8>) -> Seq<u8> {
    seq![(192 + s.len()) as u8] + s
}

/// A content of 1 to 63 bytes makes one symbol expression, and reads back.
pub proof fn lemma_symbol_expr(s: Seq<u8>)
    requires
        0 < s.len() < 64,
    ensures
        is_expr(symbol_expr(s)),
        symbol_content(symbol_expr(s)) == Some(s),
        tuple_children(symbol_expr(s)) is None,
{
    let e = symbol_expr(s);
    reveal_with_fuel(items_len, 2);
    assert(e.skip(1 + s.len() as int) =~= Seq::<u8>::empty());
    assert(e.subrange(1, 1 + s.len() as int) =~= s);
}

/// Taking apart what `cons` built gives back its parts: the `car` of `(cons h t)`
/// is `h`, and its `cdr` is `t`.
pub proof fn law_car_cdr_of_cons(h: Seq<u8>, t: Seq<u8>)
    requires
        is_expr(h),
        is_expr(t),
        tuple_children(t) matches Some(c) && c.len() < 63,
    ensures
        spec_cons(seq![h, t]) matches Ok(x) && spec_car(seq![x]) == Ok::<Seq<u8>, EvalError>(h)
            && spec_cdr(seq![x]) == Ok::<Seq<u8>, EvalError>(t),
{
    let c = tuple_children(t).unwrap();
    lemma_tuple_children(t);
    let items = seq![h] + c;
    assert(all_exprs(items)) by {
        assert forall|i: int| 0 <= i < items.len() implies #[trigger] is_expr(items[i]) by {
            if i > 0 {
                assert(items[i] == c[i - 1]);
            }
        }
    }
    lemma_encode_tuple(items);
    let x = encode_tuple(items);
    assert(seq![h, t][0] == h && seq![h, t][1] == t);
    assert(spec_cons(seq![h, t]) == Ok::<Seq<u8>, EvalError>(x));
    assert(seq![x][0] == x);
    assert(items.drop_first() =~= c);
}

/// `decons` splits what `cons` joined: `(decons (cons h t))` is the pair `(h t)`.
pub proof fn law_decons_of_cons(h: Seq<u8>, t: Seq<u8>)
    requires
        is_expr(h),
        is_expr(t),
        tuple_children(t) matches Some(c) && c.len() < 63,
    ensures
        spec_cons(seq![h, t]) matches Ok(x)
            && spec_decons(seq![x]) == Ok::<Seq<u8>, EvalError>(encode_tuple(seq![h, t])),
{
    let c = tuple_children(t).unwrap();
    lemma_tuple_children(t);
    let items = seq![h] + c;
    assert(all_exprs(items)) by {
        assert forall|i: int| 0 <= i < items.len() implies #[trigger] is_expr(items[i]) by {
            if i > 0 {
                assert(items[i] == c[i - 1]);
            }
        }
    }
    lemma_encode_tuple(items);
    let x = encode_tuple(items);
    assert(seq![h, t][0] == h && seq![h, t][1] == t);
    assert(spec_cons(seq![h, t]) == Ok::<Seq<u8>, EvalError>(x));
    assert(seq![x][0] == x);
    assert(items.drop_first() =~= c);
    let pair = seq![h, t];
    assert(pair.drop_first().drop_first() =~= Seq::<Seq<u8>>::empty());
    assert(pair.drop_first().drop_first().flatten() =~= Seq::<u8>::empty());
    assert(pair.drop_first().first() == t);
    assert(pair.first() == h);
    assert(pair.drop_first().flatten() =~= t);
    assert(pair.flatten() =~= h + t);
    assert(encode_tuple(pair) =~= seq![2u8] + h + t);
}

/// Putting back together what was taken apart gives the tuple: `(cons (car t) (cdr t))`
/// is `t` for every tuple `t` with a child.
pub proof fn law_cons_of_car_cdr(t: Seq<u8>)
    requires
        is_expr(t),
        tuple_children(t) matches Some(c) && c.len() > 0,
    ensures
        spec_car(seq![t]) matches Ok(h) && spec_cdr(seq![t]) matches Ok(rest)
            && spec_cons(seq![h, rest]) == Ok::<Seq<u8>, EvalError>(t),
{
    let c = tuple_children(t).unwrap();
    lemma_tuple_children(t);
    assert(seq![t][0] == t);
    let rest = c.drop_first();
    assert(all_exprs(rest)) by {
        assert forall|i: int| 0 <= i < rest.len() implies #[trigger] is_expr(rest[i]) by {
            assert(rest[i] == c[i + 1]);
        }
    }
    lemma_encode_tuple(rest);
    let r = encode_tuple(rest);
    assert(spec_cdr(seq![t]) == Ok::<Seq<u8>, EvalError>(r));
    assert(seq![c[0], r][0] == c[0] && seq![c[0], r][1] == r);
    assert(seq![c[0]] + rest =~= c);
}

/// Reversing twice gives back the tuple.
pub proof fn law_reverse_twice(t: Seq<u8>)
    requires
        is_expr(t),
        tuple_children(t) is Some,
    ensures
        spec_reverse(seq![t]) matches Ok(x) && spec_reverse(seq![x]) == Ok::<Seq<u8>, EvalError>(t),
{
    let c = tuple_children(t).unwrap();
    lemma_tuple_children(t);
    assert(seq![t][0] == t);
    let rc = c.reverse();
    assert(all_exprs(rc)) by {
        assert forall|i: int| 0 <= i < rc.len() implies #[trigger] is_expr(rc[i]) by {
            assert(rc[i] == c[c.len() - 1 - i]);
        }
    }
    lemma_encode_tuple(rc);
    let x = encode_tuple(rc);
    assert(seq![x][0] == x);
    assert(rc.reverse() =~= c);
}

/// Reversing a symbol twice gives back the symbol.
pub proof fn law_reverse_symbol_twice(s: Seq<u8>)
    requires
        0 < s.len() < 64,
    ensures
        spec_reverse_symbol(seq![symbol_expr(s)]) matches Ok(r)
            && spec_reverse_symbol(seq![symbol_expr(r)]) == Ok::<Seq<u8>, EvalError>(s),
{
    lemma_symbol_expr(s);
    let r = s.reverse();
    lemma_symbol_expr(r);
    assert(seq![symbol_expr(s)][0] == symbol_expr(s));
    assert(seq![symbol_expr(r)][0] == symbol_expr(r));
    assert(r.reverse() =~= s);
}

/// The one-byte symbols of the bytes of `s`.
pub open spec fn byte_symbols(s: Seq<u8>) -> Seq<Seq<u8>> {
    Seq::new(s.len(), |i: int| seq![193u8, s[i]])
}

/// The one-byte symbols laid end to end are what `explode_symbol` writes after
/// its arity byte.
proof fn lemma_exploded_flatten(s: Seq<u8>)
    ensures
        exploded(s) == byte_symbols(s).flatten(),
    decreases s.len(),
{
    if s.len() > 0 {
        lemma_exploded_flatten(s.drop_first());
        assert(byte_symbols(s).drop_first() =~= byte_symbols(s.drop_first()));
        assert(byte_symbols(s).first() == seq![193u8, s[0]]);
    }
}

/// Collapsing one-byte symbols appends their bytes.
proof fn lemma_collapse_byte_symbols(t: Seq<u8>, acc: Seq<u8>)
    requires
        acc.len() + t.len() < 64,
    ensures
        collapse(byte_symbols(t), acc) == Ok::<Seq<u8>, EvalError>(acc + t),
    decreases t.len(),
{
    if t.len() == 0 {
        assert(acc + t =~= acc);
    } else {
        let b = byte_symbols(t);
        lemma_symbol_expr(seq![t[0]]);
        assert(b[0] =~= symbol_expr(seq![t[0]]));
        assert(b.drop_first() =~= byte_symbols(t.drop_first()));
        lemma_collapse_byte_symbols(t.drop_first(), acc + seq![t[0]]);
        assert(acc + seq![t[0]] + t.drop_first() =~= acc + t);
    }
}

/// Collapsing what `explode_symbol` made of a symbol gives back the symbol.
pub proof fn law_collapse_of_explode(s: Seq<u8>)
    requires
        0 < s.len() < 64,
    ensures
        spec_explode_symbol(seq![symbol_expr(s)]) matches Ok(x)
            && spec_collapse_symbol(seq![x]) == Ok::<Seq<u8>, EvalError>(s),
{
    lemma_symbol_expr(s);
    assert(seq![symbol_expr(s)][0] == symbol_expr(s));
    let b = byte_symbols(s);
    assert(all_exprs(b)) by {
        assert forall|i: int| 0 <= i < b.len() implies #[trigger] is_expr(b[i]) by {
            lemma_symbol_expr(seq![s[i]]);
            assert(b[i] =~= symbol_expr(seq![s[i]]));
        }
    }
    lemma_exploded_flatten(s);
    lemma_encode_tuple(b);
    let x = seq![s.len() as u8] + exploded(s);
    assert(x == encode_tuple(b));
    assert(seq![x][0] == x);
    lemma_collapse_byte_symbols(s, Seq::empty());
    assert(Seq::<u8>::empty() + s =~= s);
}

/// Decoding the lowercase hexadecimal text of `s` gives back `s`.
pub proof fn lemma_hex_round_trip(s: Seq<u8>)
    ensures
        hex_lower(s).len() == 2 * s.len(),
        hex_decoded(hex_lower(s)) == Some(s),
    decreases s.len(),
{
    if s.len() > 0 {
        lemma_hex_round_trip(s.drop_first());
        let h = hex_lower(s);
        let hi = (s[0] / 16) as nat;
        let lo = (s[0] % 16) as nat;
        assert(hex_val(hex_digit(hi)) == Some(hi));
        assert(hex_val(hex_digit(lo)) == Some(lo));
        assert(h.skip(2) =~= hex_lower(s.drop_first()));
        assert((hi * 16 + lo) as u8 == s[0]);
        assert(seq![s[0]] + s.drop_first() =~= s);
    }
}

/// Decoding the hexadecimal text that `encode_hex` writes for a symbol gives back
/// the symbol.
pub proof fn law_decode_of_encode_hex(s: Seq<u8>)
    requires
        0 < s.len() < 32,
    ensures
        spec_encode_hex(seq![symbol_expr(s)]) matches Ok(h)
            && spec_decode_hex(seq![symbol_expr(h)]) == Ok::<Seq<u8>, EvalError>(s),
{
    lemma_symbol_expr(s);
    lemma_hex_round_trip(s);
    let h = hex_lower(s);
    lemma_symbol_expr(h);
    assert(seq![symbol_expr(s)][0] == symbol_expr(s));
    assert(seq![symbol_expr(h)][0] == symbol_expr(h));
}

/// Decoding the base64 text that `encode_base64url` writes for a symbol gives back
/// the symbol, whenever that text fits a symbol (at most 47 bytes of content).
pub proof fn law_decode_of_encode_base64url(s: Seq<u8>)
    requires
        0 < s.len() <= 47,
    ensures
        spec_encode_base64url(seq![symbol_expr(s)]) matches Ok(t)
            && spec_decode_base64url(seq![symbol_expr(t)]) == Ok::<Seq<u8>, EvalError>(s),
{
    lemma_symbol_expr(s);
    assert(seq![symbol_expr(s)][0] == symbol_expr(s));
    lemma_b64url_len(s);
    let t = b64url(s);
    assert(0 < b64_len(s.len()) < 64);
    lemma_symbol_expr(t);
    assert(seq![symbol_expr(t)][0] == symbol_expr(t));
    assert(exists|x: Seq<u8>| #[trigger] b64url(x) == t);
    let x = choose|x: Seq<u8>| #[trigger] b64url(x) == t;
    lemma_b64url_injective(x, s);
}

/// The bag of a sequence with one more member in front.
proof fn lemma_to_multiset_cons(x: Seq<u8>, s: Seq<Seq<u8>>)
    ensures
        (seq![x] + s).to_multiset() == s.to_multiset().insert(x),
{
    broadcast use vstd::seq_lib::group_to_multiset_ensures;
    broadcast use vstd::multiset::group_multiset_axioms;
    vstd::seq_lib::lemma_multiset_commutative(seq![x], s);
    assert(seq![x] =~= Seq::<Seq<u8>>::empty().push(x));
    assert(Seq::<Seq<u8>>::empty().to_multiset() =~= Multiset::<Seq<u8>>::empty());
    assert((seq![x] + s).to_multiset() =~= s.to_multiset().insert(x));
}

/// What `subtract` keeps and what `intersect` keeps make up `c` between them, and
/// what `intersect` keeps is taken out of `m`.
proof fn lemma_partition(c: Seq<Seq<u8>>, m: Multiset<Seq<u8>>)
    ensures
        subtract(c, m).to_multiset().add(intersect(c, m).to_multiset()) == c.to_multiset(),
        intersect(c, m).to_multiset().subset_of(m),
    decreases c.len(),
{
    broadcast use vstd::seq_lib::group_to_multiset_ensures;
    broadcast use vstd::multiset::group_multiset_axioms;
    if c.len() == 0 {
        assert(Seq::<Seq<u8>>::empty().to_multiset() =~= Multiset::<Seq<u8>>::empty());
        assert(subtract(c, m) =~= Seq::<Seq<u8>>::empty());
        assert(intersect(c, m) =~= Seq::<Seq<u8>>::empty());
        assert(c =~= Seq::<Seq<u8>>::empty());
        assert(Multiset::<Seq<u8>>::empty().add(Multiset::<Seq<u8>>::empty()) =~= Multiset::<Seq<u8>>::empty());
    } else {
        let x = c[0];
        let rest = c.drop_first();
        assert(c =~= seq![x] + rest);
        lemma_to_multiset_cons(x, rest);
        if m.count(x) > 0 {
            let m2 = m.remove(x);
            lemma_partition(rest, m2);
            lemma_to_multiset_cons(x, intersect(rest, m2));
            assert(subtract(c, m).to_multiset().add(intersect(c, m).to_multiset())
                =~= c.to_multiset());
            assert(intersect(c, m).to_multiset().subset_of(m));
        } else {
            lemma_partition(rest, m);
            lemma_to_multiset_cons(x, subtract(rest, m));
            assert(subtract(c, m).to_multiset().add(intersect(c, m).to_multiset())
                =~= c.to_multiset());
        }
    }
}

/// The members of a sequence whose bag lies within that of `c` are members of `c`.
proof fn lemma_members_within(s: Seq<Seq<u8>>, c: Seq<Seq<u8>>)
    requires
        forall|e: Seq<u8>| s.to_multiset().count(e) <= c.to_multiset().count(e),
        all_exprs(c),
    ensures
        all_exprs(s),
{
    broadcast use vstd::seq_lib::group_to_multiset_ensures;
    broadcast use vstd::multiset::group_multiset_axioms;
    assert forall|i: int| 0 <= i < s.len() implies #[trigger] is_expr(s[i]) by {
        assert(s.contains(s[i]));
        assert(c.to_multiset().count(s[i]) > 0);
        let j = choose|j: int| 0 <= j < c.len() && c[j] == s[i];
    }
}

/// `subtraction-atom` and `intersection-atom` split the first tuple: each child of
/// `x` lands in exactly one of the two results (as often as it occurs in `x`), and
/// the intersection holds no child more often than `y` does.
pub proof fn law_subtraction_intersection_partition(x: Seq<u8>, y: Seq<u8>)
    requires
        is_expr(x),
        is_expr(y),
        tuple_children(x) is Some,
        tuple_children(y) is Some,
    ensures
        spec_multiset_op(seq![x, y], false) matches Ok(rs)
            && spec_multiset_op(seq![x, y], true) matches Ok(ri)
            && tuple_children(rs) matches Some(s)
            && tuple_children(ri) matches Some(i)
            && s.to_multiset().add(i.to_multiset()) == tuple_children(x).unwrap().to_multiset()
            && i.to_multiset().subset_of(tuple_children(y).unwrap().to_multiset()),
{
    broadcast use vstd::multiset::group_multiset_axioms;
    let a = tuple_children(x).unwrap();
    let b = tuple_children(y).unwrap();
    lemma_tuple_children(x);
    let m = b.to_multiset();
    let s = subtract(a, m);
    let i = intersect(a, m);
    lemma_partition(a, m);
    assert forall|e: Seq<u8>| s.to_multiset().count(e) <= a.to_multiset().count(e) by {
        assert(s.to_multiset().add(i.to_multiset()).count(e) == a.to_multiset().count(e));
    }
    assert forall|e: Seq<u8>| i.to_multiset().count(e) <= a.to_multiset().count(e) by {
        assert(s.to_multiset().add(i.to_multiset()).count(e) == a.to_multiset().count(e));
    }
    lemma_members_within(s, a);
    lemma_members_within(i, a);
    assert(s.len() + i.len() == a.len()) by {
        broadcast use vstd::seq_lib::group_to_multiset_ensures;
        assert(s.to_multiset().add(i.to_multiset()).len() == a.to_multiset().len());
    }
    lemma_encode_tuple(s);
    lemma_encode_tuple(i);
    assert(seq![x, y][0] == x && seq![x, y][1] == y);
}

/// Skipping the duplicates of a sequence, after a `seen` prefix without
/// duplicates, leaves no duplicates.
proof fn lemma_remove_duplicates_distinct(s: Seq<Seq<u8>>, seen: Seq<Seq<u8>>)
    requires
        seen.no_duplicates(),
    ensures
        s.remove_duplicates(seen).no_duplicates(),
    decreases s.len(),
{
    if s.len() > 0 {
        if seen.contains(s[0]) {
            lemma_remove_duplicates_distinct(s.skip(1), seen);
        } else {
            let seen2 = seen + seq![s[0]];
            assert(seen2.no_duplicates()) by {
                assert forall|i: int, j: int| 0 <= i < seen2.len() && 0 <= j < seen2.len() && i != j
                    implies seen2[i] != seen2[j] by {
                    if i == seen.len() as int {
                        assert(!seen.contains(s[0]));
                        assert(seen2[j] == seen[j]);
                    } else if j == seen.len() as int {
                        assert(!seen.contains(s[0]));
                        assert(seen2[i] == seen[i]);
                    }
                }
            }
            lemma_remove_duplicates_distinct(s.skip(1), seen2);
        }
    }
}

/// A sequence without duplicates, after a prefix it shares nothing with, loses
/// nothing to `remove_duplicates`.
proof fn lemma_remove_duplicates_of_distinct(s: Seq<Seq<u8>>, seen: Seq<Seq<u8>>)
    requires
        (seen + s).no_duplicates(),
    ensures
        s.remove_duplicates(seen) == seen + s,
    decreases s.len(),
{
    if s.len() == 0 {
        assert(seen + s =~= seen);
    } else {
        let all = seen + s;
        assert(!seen.contains(s[0])) by {
            if seen.contains(s[0]) {
                let k = choose|k: int| 0 <= k < seen.len() && seen[k] == s[0];
                assert(all[k] == all[seen.len() as int]);
            }
        }
        let seen2 = seen + seq![s[0]];
        assert(seen2 + s.skip(1) =~= all);
        lemma_remove_duplicates_of_distinct(s.skip(1), seen2);
    }
}

/// `unique-atom` keeps each child once: its result has no duplicate children, has
/// the same children as the tuple, and is left as it is by `unique-atom`.
pub proof fn law_unique_atom(t: Seq<u8>)
    requires
        is_expr(t),
        tuple_children(t) is Some,
    ensures
        spec_unique(seq![t]) matches Ok(u)
            && tuple_children(u) matches Some(d)
            && d.no_duplicates()
            && (forall|e: Seq<u8>| d.contains(e) <==> tuple_children(t).unwrap().contains(e))
            && spec_unique(seq![u]) == Ok::<Seq<u8>, EvalError>(u),
{
    let c = tuple_children(t).unwrap();
    lemma_tuple_children(t);
    assert(seq![t][0] == t);
    let d = c.remove_duplicates(Seq::empty());
    c.lemma_remove_duplicates_properties(Seq::empty());
    assert(c + Seq::<Seq<u8>>::empty() =~= c);
    lemma_remove_duplicates_distinct(c, Seq::empty());
    assert(all_exprs(d)) by {
        assert forall|i: int| 0 <= i < d.len() implies #[trigger] is_expr(d[i]) by {
            assert(d.contains(d[i]));
            let j = choose|j: int| 0 <= j < c.len() && c[j] == d[i];
        }
    }
    lemma_encode_tuple(d);
    let u = encode_tuple(d);
    assert(seq![u][0] == u);
    assert(Seq::<Seq<u8>>::empty() + d =~= d);
    lemma_remove_duplicates_of_distinct(d, Seq::empty());
}

/// On expressions the atom order is total: of two different expressions one comes
/// before the other.
proof fn lemma_atom_lt_total(a: Seq<u8>, b: Seq<u8>)
    requires
        is_expr(a),
        is_expr(b),
        a != b,
    ensures
        atom_lt(a, b) || atom_lt(b, a),
{
    let (sa, sb) = (symbol_content(a), symbol_content(b));
    lemma_lex_lt_order(a, b, b);
    if sa is Some && sb is Some {
        lemma_symbol_len(a);
        lemma_symbol_len(b);
        let (x, y) = (sa.unwrap(), sb.unwrap());
        if x == y {
            assert(a =~= seq![a[0]] + x);
            assert(b =~= seq![b[0]] + y);
        }
        lemma_lex_lt_order(x, y, y);
    }
}

/// Two orderings of the same bag of expressions that are both in atom order are
/// the same sequence.
proof fn lemma_sorted_unique(s1: Seq<Seq<u8>>, s2: Seq<Seq<u8>>)
    requires
        all_exprs(s1),
        atoms_sorted(s1),
        atoms_sorted(s2),
        s1.to_multiset() == s2.to_multiset(),
    ensures
        s1 == s2,
    decreases s1.len(),
{
    broadcast use vstd::seq_lib::group_to_multiset_ensures;
    broadcast use vstd::multiset::group_multiset_axioms;
    if s1.len() == 0 || s2.len() == 0 {
        vstd::seq_lib::to_multiset_len(s1);
        vstd::seq_lib::to_multiset_len(s2);
        assert(s1.len() == s2.len());
        assert(s1 =~= s2);
    } else {
        assert(s1.to_multiset().count(s2[0]) > 0);
        assert(s2.to_multiset().count(s1[0]) > 0);
        assert(s1.contains(s2[0]));
        assert(s2.contains(s1[0]));
        let i = choose|i: int| 0 <= i < s1.len() && s1[i] == s2[0];
        let j = choose|j: int| 0 <= j < s2.len() && s2[j] == s1[0];
        if s1[0] != s2[0] {
            assert(i != 0 && j != 0);
            assert(!atom_lt(s1[i], s1[0]));
            assert(!atom_lt(s2[j], s2[0]));
            lemma_atom_lt_total(s1[0], s2[0]);
        }
        let (r1, r2) = (s1.drop_first(), s2.drop_first());
        assert(s1.remove(0) =~= r1);
        assert(s2.remove(0) =~= r2);
        assert(all_exprs(r1)) by {
            assert forall|k: int| 0 <= k < r1.len() implies #[trigger] is_expr(r1[k]) by {
                assert(r1[k] == s1[k + 1]);
            }
        }
        assert(atoms_sorted(r1)) by {
            assert forall|p: int, q: int| 0 <= p < q < r1.len() implies !atom_lt(#[trigger] r1[q], #[trigger] r1[p]) by {
                assert(r1[q] == s1[q + 1] && r1[p] == s1[p + 1]);
            }
        }
        assert(atoms_sorted(r2)) by {
            assert forall|p: int, q: int| 0 <= p < q < r2.len() implies !atom_lt(#[trigger] r2[q], #[trigger] r2[p]) by {
                assert(r2[q] == s2[q + 1] && r2[p] == s2[p + 1]);
            }
        }
        lemma_sorted_unique(r1, r2);
        assert(s1 =~= seq![s1[0]] + r1);
        assert(s2 =~= seq![s2[0]] + r2);
    }
}

/// `sort-atom` has one possible result: any two results that its contract allows
/// for the same arguments are equal.
pub proof fn law_sort_atom_result_unique(args: Seq<Seq<u8>>, r1: Seq<u8>, r2: Seq<u8>)
    requires
        all_exprs(args),
        spec_sort_atom_ok(args, r1),
        spec_sort_atom_ok(args, r2),
    ensures
        r1 == r2,
{
    let c = tuple_arg(args).unwrap();
    lemma_tuple_children(args[0]);
    let s1 = choose|s: Seq<Seq<u8>>| #![trigger encode_tuple(s)]
        r1 == encode_tuple(s) && atoms_sorted(s) && s.to_multiset() == c.to_multiset();
    let s2 = choose|s: Seq<Seq<u8>>| #![trigger encode_tuple(s)]
        r2 == encode_tuple(s) && atoms_sorted(s) && s.to_multiset() == c.to_multiset();
    assert(all_exprs(s1)) by {
        lemma_members_within(s1, c);
    }
    lemma_sorted_unique(s1, s2);
}

/// Sorting is idempotent: the result of `sort-atom` is a tuple that `sort-atom`
/// can only give back unchanged.
pub proof fn law_sort_atom_idempotent(t: Seq<u8>, r: Seq<u8>, r2: Seq<u8>)
    requires
        is_expr(t),
        spec_sort_atom_ok(seq![t], r),
        spec_sort_atom_ok(seq![r], r2),
    ensures
        is_expr(r),
        spec_sort_atom_ok(seq![r], r),
        r2 == r,
{
    assert(seq![t][0] == t);
    let c = tuple_arg(seq![t]).unwrap();
    lemma_tuple_children(t);
    let s = choose|s: Seq<Seq<u8>>| #![trigger encode_tuple(s)]
        r == encode_tuple(s) && atoms_sorted(s) && s.to_multiset() == c.to_multiset();
    lemma_members_within(s, c);
    assert(s.len() == c.len()) by {
        broadcast use vstd::seq_lib::group_to_multiset_ensures;
        assert(s.to_multiset().len() == c.to_multiset().len());
    }
    lemma_encode_tuple(s);
    assert(seq![r][0] == r);
    assert(tuple_arg(seq![r]) == Ok::<Seq<Seq<u8>>, EvalError>(s));
    assert(spec_sort_atom_ok(seq![r], r));
    assert(all_exprs(seq![r])) by {
        assert forall|k: int| 0 <= k < seq![r].len() implies #[trigger] is_expr(seq![r][k]) by {}
    }
    law_sort_atom_result_unique(seq![r], r, r2);
}

/// The expression that `foldl` builds is one expression when the function, the
/// start value and the children are.
proof fn lemma_fold_exprs_is_expr(f: Seq<u8>, acc: Seq<u8>, c: Seq<Seq<u8>>)
    requires
        is_expr(f),
        is_expr(acc),
        all_exprs(c),
    ensures
        is_expr(fold_exprs(f, acc, c)),
    decreases c.len(),
{
    if c.len() > 0 {
        let items = seq![f, acc, c[0]];
        assert(all_exprs(items)) by {
            assert forall|k: int| 0 <= k < items.len() implies #[trigger] is_expr(items[k]) by {}
        }
        let i1 = items.drop_first();
        let i2 = i1.drop_first();
        assert(i2.drop_first() =~= Seq::<Seq<u8>>::empty());
        assert(i2.drop_first().flatten() =~= Seq::<u8>::empty());
        assert(i2.first() == c[0]);
        assert(i1.first() == acc);
        assert(items.first() == f);
        assert(i2.flatten() =~= c[0]);
        assert(i1.flatten() =~= acc + c[0]);
        assert(items.flatten() =~= f + acc + c[0]);
        lemma_encode_tuple(items);
        assert(encode_tuple(items) =~= seq![3u8] + f + acc + c[0]);
        let rest = c.drop_first();
        assert(all_exprs(rest)) by {
            assert forall|k: int| 0 <= k < rest.len() implies #[trigger] is_expr(rest[k]) by {
                assert(rest[k] == c[k + 1]);
            }
        }
        lemma_fold_exprs_is_expr(f, seq![3u8] + f + acc + c[0], rest);
    }
}

/// `foldl` builds one expression: whatever its arguments, a successful `foldl`
/// gives a single well-formed expression, to be evaluated in turn.
pub proof fn law_foldl_is_expr(args: Seq<Seq<u8>>)
    requires
        all_exprs(args),
    ensures
        spec_foldl(args) matches Ok(r) ==> is_expr(r),
{
    if args.len() == 3 {
        if let Some(c) = tuple_children(args[2]) {
            lemma_tuple_children(args[2]);
            lemma_fold_exprs_is_expr(args[0], args[1], c);
        }
    }
}

/// The decimal text of `n` starts with a digit, is made of digits, and spells `n`.
proof fn lemma_decimal_digits(n: nat)
    ensures
        decimal(n).len() > 0,
        48 <= decimal(n)[0] <= 57,
        all_digits(decimal(n)),
        digits_value(decimal(n)) == n,
        n < 100 ==> decimal(n).len() <= 2,
    decreases n,
{
    let d = decimal(n);
    if n < 10 {
        assert(d.drop_last() =~= Seq::<u8>::empty());
        assert(digits_value(Seq::<u8>::empty()) == 0);
    } else {
        lemma_decimal_digits(n / 10);
        let q = decimal(n / 10);
        assert(d == q.push((48 + n % 10) as u8));
        assert(d.drop_last() =~= q);
        assert(d[0] == q[0]);
        assert(all_digits(d)) by {
            assert forall|i: int| 0 <= i < d.len() implies 48 <= #[trigger] d[i] <= 57 by {
                if i < q.len() {
                    assert(d[i] == q[i]);
                }
            }
        }
        assert(digits_value(d) == digits_value(q) * 10 + n % 10);
        assert((n / 10) * 10 + n % 10 == n);
        if n < 100 {
            assert(n / 10 < 10);
        }
    }
}

/// `parse_usize` reads back what `decimal` writes.
proof fn lemma_parse_decimal(n: nat)
    requires
        n <= usize::MAX,
    ensures
        parse_usize(decimal(n)) == Some(n),
{
    lemma_decimal_digits(n);
    assert(unsigned_digits(decimal(n)) == decimal(n));
}

/// `index-atom` at the decimal index `k` of a child gives that child; in
/// particular the index `length - 1` gives the last child.
pub proof fn law_index_atom_at_decimal(t: Seq<u8>, k: nat)
    requires
        is_expr(t),
        tuple_children(t) matches Some(c) && k < c.len(),
    ensures
        spec_index_atom(seq![t, symbol_expr(decimal(k))]) == Ok::<Seq<u8>, EvalError>(tuple_children(t).unwrap()[k as int]),
{
    lemma_tuple_children(t);
    lemma_decimal_digits(k);
    lemma_parse_decimal(k);
    let e = symbol_expr(decimal(k));
    assert(e.drop_first() =~= decimal(k));
    assert(seq![t, e][0] == t && seq![t, e][1] == e);
}

/// `append` puts the children of the second tuple after those of the first, so
/// that the length of the result is the sum of the two lengths.
pub proof fn law_append_children(x: Seq<u8>, y: Seq<u8>)
    requires
        is_expr(x),
        is_expr(y),
        tuple_children(x) matches Some(a) && tuple_children(y) matches Some(b) && a.len() + b.len() < 64,
    ensures
        spec_append(seq![x, y]) matches Ok(r)
            && tuple_children(r) == Some(tuple_children(x).unwrap() + tuple_children(y).unwrap())
            && spec_length(seq![r]) == Ok::<Seq<u8>, EvalError>(
                decimal(tuple_children(x).unwrap().len() + tuple_children(y).unwrap().len())),
{
    let a = tuple_children(x).unwrap();
    let b = tuple_children(y).unwrap();
    lemma_tuple_children(x);
    lemma_tuple_children(y);
    let ab = a + b;
    assert(all_exprs(ab)) by {
        assert forall|k: int| 0 <= k < ab.len() implies #[trigger] is_expr(ab[k]) by {
            if k < a.len() {
                assert(ab[k] == a[k]);
            } else {
                assert(ab[k] == b[k - a.len()]);
            }
        }
    }
    lemma_encode_tuple(ab);
    let r = encode_tuple(ab);
    assert(seq![x, y][0] == x && seq![x, y][1] == y);
    assert(seq![r][0] == r);
}

/// How often `subtract` and `intersect` keep each child: the children of `c` that
/// `m` does not match stay, as many times as `c` has more of them than `m`; those it
/// matches are kept by `intersect` as many times as both have them.
proof fn lemma_op_counts(c: Seq<Seq<u8>>, m: Multiset<Seq<u8>>, e: Seq<u8>)
    ensures
        subtract(c, m).to_multiset().count(e)
            == if c.to_multiset().count(e) > m.count(e) { c.to_multiset().count(e) - m.count(e) } else { 0 },
        intersect(c, m).to_multiset().count(e)
            == if c.to_multiset().count(e) < m.count(e) { c.to_multiset().count(e) } else { m.count(e) },
    decreases c.len(),
{
    broadcast use vstd::seq_lib::group_to_multiset_ensures;
    broadcast use vstd::multiset::group_multiset_axioms;
    if c.len() == 0 {
        assert(c =~= Seq::<Seq<u8>>::empty());
        assert(subtract(c, m) =~= Seq::<Seq<u8>>::empty());
        assert(intersect(c, m) =~= Seq::<Seq<u8>>::empty());
        assert(Seq::<Seq<u8>>::empty().to_multiset() =~= Multiset::<Seq<u8>>::empty());
    } else {
        let x = c[0];
        let rest = c.drop_first();
        assert(c =~= seq![x] + rest);
        lemma_to_multiset_cons(x, rest);
        if m.count(x) > 0 {
            let m2 = m.remove(x);
            lemma_op_counts(rest, m2, e);
            lemma_to_multiset_cons(x, intersect(rest, m2));
        } else {
            lemma_op_counts(rest, m, e);
            lemma_to_multiset_cons(x, subtract(rest, m));
        }
    }
}

/// `subtraction-atom` and `intersection-atom` count each child: of a child that
/// occurs `i` times in `x` and `j` times in `y`, the subtraction keeps `i - j`
/// (none when `j >= i`) and the intersection keeps the smaller of `i` and `j`.
pub proof fn law_multiset_op_counts(x: Seq<u8>, y: Seq<u8>, e: Seq<u8>)
    requires
        is_expr(x),
        is_expr(y),
        tuple_children(x) is Some,
        tuple_children(y) is Some,
    ensures
        ({
            let i = tuple_children(x).unwrap().to_multiset().count(e);
            let j = tuple_children(y).unwrap().to_multiset().count(e);
            &&& spec_multiset_op(seq![x, y], false) matches Ok(rs)
                && tuple_children(rs) matches Some(s)
                && s.to_multiset().count(e) == (if i > j { i - j } else { 0 })
            &&& spec_multiset_op(seq![x, y], true) matches Ok(ri)
                && tuple_children(ri) matches Some(t)
                && t.to_multiset().count(e) == (if i < j { i } else { j })
        }),
{
    broadcast use vstd::multiset::group_multiset_axioms;
    let a = tuple_children(x).unwrap();
    let b = tuple_children(y).unwrap();
    lemma_tuple_children(x);
    let m = b.to_multiset();
    lemma_op_counts(a, m, e);
    let s = subtract(a, m);
    let t = intersect(a, m);
    lemma_partition(a, m);
    assert forall|f: Seq<u8>| s.to_multiset().count(f) <= a.to_multiset().count(f) by {
        assert(s.to_multiset().add(t.to_multiset()).count(f) == a.to_multiset().count(f));
    }
    assert forall|f: Seq<u8>| t.to_multiset().count(f) <= a.to_multiset().count(f) by {
        assert(s.to_multiset().add(t.to_multiset()).count(f) == a.to_multiset().count(f));
    }
    lemma_members_within(s, a);
    lemma_members_within(t, a);
    assert(s.len() + t.len() == a.len()) by {
        broadcast use vstd::seq_lib::group_to_multiset_ensures;
        assert(s.to_multiset().add(t.to_multiset()).len() == a.to_multiset().len());
    }
    lemma_encode_tuple(s);
    lemma_encode_tuple(t);
    assert(seq![x, y][0] == x && seq![x, y][1] == y);
    assert(spec_multiset_op(seq![x, y], false) == Ok::<Seq<u8>, EvalError>(encode_tuple(s)));
    assert(spec_multiset_op(seq![x, y], true) == Ok::<Seq<u8>, EvalError>(encode_tuple(t)));
}

/// A proper prefix comes first: when `a` is a proper prefix of `b`, `a` is before
/// `b` and `b` is not before `a`.
pub proof fn law_lex_prefix_first(a: Seq<u8>, b: Seq<u8>)
    requires
        a.len() < b.len(),
        b.take(a.len() as int) == a,
    ensures
        lex_lt(a, b),
        !lex_lt(b, a),
    decreases a.len(),
{
    if a.len() > 0 {
        assert(a[0] == b.take(a.len() as int)[0]);
        assert(b.drop_first().take(a.drop_first().len() as int) =~= a.drop_first()) by {
            assert forall|k: int| 0 <= k < a.len() - 1 implies
                #[trigger] b.drop_first().take(a.len() - 1)[k] == a.drop_first()[k] by {
                assert(b.take(a.len() as int)[k + 1] == a[k + 1]);
            }
        }
        law_lex_prefix_first(a.drop_first(), b.drop_first());
    }
}

/// Otherwise the first byte where two sequences differ decides: when `a` and `b`
/// agree on their first `k` bytes and differ at byte `k`, `a` is before `b` exactly
/// when its byte there is smaller.
pub proof fn law_lex_first_difference(a: Seq<u8>, b: Seq<u8>, k: int)
    requires
        0 <= k < a.len(),
        k < b.len(),
        a.take(k) == b.take(k),
        a[k] != b[k],
    ensures
        lex_lt(a, b) == (a[k] < b[k]),
        lex_lt(b, a) == (b[k] < a[k]),
    decreases k,
{
    if k > 0 {
        assert(a[0] == a.take(k)[0] && b[0] == b.take(k)[0]);
        assert(a.drop_first().take(k - 1) =~= b.drop_first().take(k - 1)) by {
            assert forall|j: int| 0 <= j < k - 1 implies #[trigger] a.drop_first().take(k - 1)[j] == b.drop_first().take(k - 1)[j] by {
                assert(a.take(k)[j + 1] == b.take(k)[j + 1]);
                assert(a.drop_first().take(k - 1)[j] == a[j + 1]);
                assert(b.drop_first().take(k - 1)[j] == b[j + 1]);
                assert(a.take(k)[j + 1] == a[j + 1]);
                assert(b.take(k)[j + 1] == b[j + 1]);
            }
        }
        law_lex_first_difference(a.drop_first(), b.drop_first(), k - 1);
    }
}

/// `ifnz` tests whether any byte of the condition is non-zero: on a well-shaped call
/// with condition symbol `c`, it gives the then-expression when some byte of `c` is
/// not zero; when every byte is zero it gives the else-expression, or the error for
/// a missing else branch.
pub proof fn law_ifnz_any_byte(args: Seq<Seq<u8>>, c: Seq<u8>)
    requires
        args.len() == 3 || args.len() == 5,
        symbol_content(args[0]) == Some(c),
        symbol_content(args[1]) == Some(then_text()),
        args.len() == 5 ==> symbol_content(args[3]) == Some(else_text()),
    ensures
        (exists|i: int| 0 <= i < c.len() && c[i] != 0) ==> spec_ifnz(args) == Ok::<Seq<u8>, EvalError>(args[2]),
        (forall|i: int| 0 <= i < c.len() ==> c[i] == 0) ==> spec_ifnz(args) == (if args.len() == 5 {
            Ok::<Seq<u8>, EvalError>(args[4])
        } else {
            Err(EvalError::NoElseBranch)
        }),
{
}

} // verus!
