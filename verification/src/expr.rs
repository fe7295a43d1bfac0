//! The prefix byte encoding of expressions.
//!
//! Every expression starts with a tag byte:
//! * `0b00xx_xxxx`: a tuple of arity `x`, followed by its `x` children;
//! * `0b10xx_xxxx`: a reference to variable `x`;
//! * `0b1100_0000`: a new variable;
//! * `0b11xx_xxxx` (`x > 0`): a symbol of `x` bytes, followed by those bytes.
//! Bytes `0b01xx_xxxx` are reserved and start no expression.
use vstd::prelude::*;

verus! {

/// The meaning of a tag byte.
#[derive(PartialEq, Eq, Structural, Clone, Copy, Debug)]
pub enum Tag {
    NewVar,
    VarRef(u8),
    SymbolSize(u8),
    Arity(u8),
}

/// The tag a byte stands for, `None` for a reserved byte.
pub open spec fn spec_byte_item(b: u8) -> Option<Tag> {
    if b >= 192 {
        if b == 192 { Some(Tag::NewVar) } else { Some(Tag::SymbolSize((b - 192) as u8)) }
    } else if b >= 128 {
        Some(Tag::VarRef((b - 128) as u8))
    } else if b < 64 {
        Some(Tag::Arity(b))
    } else {
        None
    }
}

/// A tag that has a byte: payloads below 64, symbols of at least one byte.
pub open spec fn tag_fits(t: Tag) -> bool {
    match t {
        Tag::NewVar => true,
        Tag::VarRef(i) => i < 64,
        Tag::SymbolSize(s) => 0 < s < 64,
        Tag::Arity(a) => a < 64,
    }
}

/// The byte of a tag.
pub open spec fn spec_item_byte(t: Tag) -> u8 {
    match t {
        Tag::NewVar => 192,
        Tag::VarRef(i) => (128 + i) as u8,
        Tag::SymbolSize(s) => (192 + s) as u8,
        Tag::Arity(a) => a,
    }
}

/// Decodes a tag byte; `None` for a reserved byte.
pub fn byte_item(b: u8) -> (t: Option<Tag>)
    ensures
        t == spec_byte_item(b),
{
    if b >= 192 {
        if b == 192 { Some(Tag::NewVar) } else { Some(Tag::SymbolSize(b - 192)) }
    } else if b >= 128 {
        Some(Tag::VarRef(b - 128))
    } else if b < 64 {
        Some(Tag::Arity(b))
    } else {
        None
    }
}

/// Encodes a tag as its byte.
pub fn item_byte(t: Tag) -> (b: u8)
    requires
        tag_fits(t),
    ensures
        b == spec_item_byte(t),
        spec_byte_item(b) == Some(t),
{
    match t {
        Tag::NewVar => 192,
        Tag::VarRef(i) => 128 + i,
        Tag::SymbolSize(s) => 192 + s,
        Tag::Arity(a) => a,
    }
}

/// The number of bytes taken by `k` consecutive expressions at the start of `s`,
/// or `None` when `s` does not start with `k` complete expressions.
pub open spec fn items_len(s: Seq<u8>, k: nat) -> Option<nat>
    decreases s.len(),
{
    if k == 0 {
        Some(0)
    } else if s.len() == 0 {
        None
    } else {
        match spec_byte_item(s[0]) {
            None => None,
            Some(Tag::Arity(a)) => match items_len(s.drop_first(), (k - 1 + a) as nat) {
                Some(n) => Some(n + 1),
                None => None,
            },
            Some(Tag::SymbolSize(n)) => if 1 + n <= s.len() {
                match items_len(s.skip(1 + n), (k - 1) as nat) {
                    Some(m) => Some((1 + n + m) as nat),
                    None => None,
                }
            } else {
                None
            },
            Some(_) => match items_len(s.drop_first(), (k - 1) as nat) {
                Some(n) => Some(n + 1),
                None => None,
            },
        }
    }
}

/// `s` holds exactly one expression.
pub open spec fn is_expr(s: Seq<u8>) -> bool {
    items_len(s, 1) == Some(s.len())
}

/// The span of the expression at the start of `s`.
pub open spec fn first_expr(s: Seq<u8>) -> Option<Seq<u8>> {
    match items_len(s, 1) {
        Some(n) => Some(s.take(n as int)),
        None => None,
    }
}

/// Each expression takes at least one byte, and no more than there are.
pub proof fn lemma_items_len_bounds(s: Seq<u8>, k: nat)
    ensures
        items_len(s, k) matches Some(n) ==> k <= n <= s.len(),
        k > s.len() ==> items_len(s, k) is None,
    decreases s.len(),
{
    if k != 0 && s.len() != 0 {
        match spec_byte_item(s[0]) {
            None => {},
            Some(Tag::Arity(a)) => lemma_items_len_bounds(s.drop_first(), (k - 1 + a) as nat),
            Some(Tag::SymbolSize(n)) => if 1 + n <= s.len() {
                lemma_items_len_bounds(s.skip(1 + n), (k - 1) as nat);
            },
            Some(_) => lemma_items_len_bounds(s.drop_first(), (k - 1) as nat),
        }
    }
}

/// `k + j` expressions are `k` expressions followed by `j` more.
pub proof fn lemma_items_len_split(s: Seq<u8>, k: nat, j: nat)
    ensures
        match items_len(s, k) {
            Some(n) => items_len(s, k + j) == (match items_len(s.skip(n as int), j) {
                Some(m) => Some(n + m),
                None => None::<nat>,
            }),
            None => items_len(s, k + j) is None,
        },
    decreases s.len(), k,
{
    lemma_items_len_bounds(s, k);
    if k == 0 {
        assert(s.skip(0) =~= s);
    } else if s.len() == 0 {
    } else {
        match spec_byte_item(s[0]) {
            None => {},
            Some(Tag::Arity(a)) => {
                lemma_items_len_split(s.drop_first(), (k - 1 + a) as nat, j);
                assert((k - 1 + a) as nat + j == (k + j - 1 + a) as nat);
                if let Some(n) = items_len(s, k) {
                    assert(s.drop_first().skip((n - 1) as int) =~= s.skip(n as int));
                }
            },
            Some(Tag::SymbolSize(n)) => if 1 + n <= s.len() {
                lemma_items_len_split(s.skip(1 + n), (k - 1) as nat, j);
                assert((k - 1) as nat + j == (k + j - 1) as nat);
                if let Some(m) = items_len(s, k) {
                    assert(s.skip(1 + n).skip((m - 1 - n) as int) =~= s.skip(m as int));
                }
            },
            Some(_) => {
                lemma_items_len_split(s.drop_first(), (k - 1) as nat, j);
                assert((k - 1) as nat + j == (k + j - 1) as nat);
                if let Some(n) = items_len(s, k) {
                    assert(s.drop_first().skip((n - 1) as int) =~= s.skip(n as int));
                }
            },
        }
    }
}

/// The length of the first expression of `s[start..]`, when there is one.
pub fn expr_len(s: &[u8], start: usize) -> (r: Option<usize>)
    requires
        start <= s@.len(),
    ensures
        r matches Some(n) ==> items_len(s@.skip(start as int), 1) == Some(n as nat),
        r is None ==> items_len(s@.skip(start as int), 1) is None,
{
    let mut pos = start;
    let mut pending: usize = 1;
    proof { lemma_items_len_bounds(s@.skip(start as int), 1); }
    if pending > s.len() - pos {
        return None;
    }
    while pending > 0
        invariant
            start <= pos <= s@.len(),
            pending <= s@.len() - pos,
            items_len(s@.skip(start as int), 1) == (match items_len(s@.skip(pos as int), pending as nat) {
                Some(m) => Some((m + pos - start) as nat),
                None => None::<nat>,
            }),
        decreases s@.len() - pos,
    {
        let ghost rest = s@.skip(pos as int);
        assert(rest[0] == s@[pos as int]);
        match byte_item(s[pos]) {
            None => {
                return None;
            },
            Some(Tag::Arity(a)) => {
                assert(rest.drop_first() =~= s@.skip(pos + 1));
                let remaining = s.len() - pos - 1;
                if a as usize > remaining - (pending - 1) {
                    proof { lemma_items_len_bounds(rest.drop_first(), (pending - 1 + a) as nat); }
                    return None;
                }
                pending = pending - 1 + a as usize;
                pos = pos + 1;
            },
            Some(Tag::SymbolSize(n)) => {
                if n as usize > s.len() - pos - 1 {
                    return None;
                }
                assert(rest.skip(1 + n) =~= s@.skip(pos + 1 + n));
                pos = pos + 1 + n as usize;
                pending = pending - 1;
                if pending > s.len() - pos {
                    proof { lemma_items_len_bounds(s@.skip(pos as int), pending as nat); }
                    return None;
                }
            },
            Some(_) => {
                assert(rest.drop_first() =~= s@.skip(pos + 1));
                pos = pos + 1;
                pending = pending - 1;
            },
        }
    }
    Some(pos - start)
}


/// `k` items at the start of `s` stay `k` items of the same length when bytes follow.
pub proof fn lemma_items_len_extend(s: Seq<u8>, t: Seq<u8>, k: nat)
    ensures
        items_len(s, k) matches Some(n) ==> items_len(s + t, k) == Some(n),
    decreases s.len(),
{
    if k != 0 && s.len() != 0 {
        assert((s + t)[0] == s[0]);
        match spec_byte_item(s[0]) {
            None => {},
            Some(Tag::Arity(a)) => {
                lemma_items_len_extend(s.drop_first(), t, (k - 1 + a) as nat);
                assert((s + t).drop_first() =~= s.drop_first() + t);
            },
            Some(Tag::SymbolSize(n)) => if 1 + n <= s.len() {
                lemma_items_len_extend(s.skip(1 + n), t, (k - 1) as nat);
                assert((s + t).skip(1 + n) =~= s.skip(1 + n) + t);
            },
            Some(_) => {
                lemma_items_len_extend(s.drop_first(), t, (k - 1) as nat);
                assert((s + t).drop_first() =~= s.drop_first() + t);
            },
        }
    }
}

/// The first `k` expressions of `s`, one span each.
pub open spec fn split_items(s: Seq<u8>, k: nat) -> Seq<Seq<u8>>
    decreases k,
{
    if k == 0 {
        Seq::empty()
    } else {
        match items_len(s, 1) {
            Some(n) => seq![s.take(n as int)] + split_items(s.skip(n as int), (k - 1) as nat),
            None => Seq::empty(),
        }
    }
}

/// The children of a tuple expression, `None` when `e` is no tuple.
pub open spec fn tuple_children(e: Seq<u8>) -> Option<Seq<Seq<u8>>> {
    if e.len() > 0 {
        match spec_byte_item(e[0]) {
            Some(Tag::Arity(a)) => Some(split_items(e.drop_first(), a as nat)),
            _ => None,
        }
    } else {
        None
    }
}

/// The tuple whose children are `items`.
pub open spec fn encode_tuple(items: Seq<Seq<u8>>) -> Seq<u8> {
    seq![items.len() as u8] + items.flatten()
}

/// Every member of `items` is one expression.
pub open spec fn all_exprs(items: Seq<Seq<u8>>) -> bool {
    forall|i: int| 0 <= i < items.len() ==> #[trigger] is_expr(items[i])
}

/// Expressions laid end to end are read back one by one.
pub proof fn lemma_flatten_items(items: Seq<Seq<u8>>, rest: Seq<u8>)
    requires
        all_exprs(items),
    ensures
        items_len(items.flatten() + rest, items.len()) == Some(items.flatten().len()),
        split_items(items.flatten() + rest, items.len()) == items,
    decreases items.len(),
{
    if items.len() > 0 {
        let x = items[0];
        let tail = items.drop_first();
        assert(all_exprs(tail)) by {
            assert forall|i: int| 0 <= i < tail.len() implies #[trigger] is_expr(tail[i]) by {
                assert(tail[i] == items[i + 1]);
            }
        }
        assert(is_expr(items[0]));
        lemma_flatten_items(tail, rest);
        let s = items.flatten() + rest;
        assert(items.flatten() == x + tail.flatten());
        assert(s =~= x + (tail.flatten() + rest));
        lemma_items_len_extend(x, tail.flatten() + rest, 1);
        lemma_items_len_split(s, 1, (items.len() - 1) as nat);
        assert(s.skip(x.len() as int) =~= tail.flatten() + rest);
        assert(s.take(x.len() as int) =~= x);
        assert((1 + (items.len() - 1)) as nat == items.len());
        assert(split_items(s, items.len()) =~= seq![x] + tail);
        assert(seq![x] + tail =~= items);
    } else {
        assert(items.flatten() + rest =~= rest);
    }
}

/// Splitting `k` expressions and laying them end to end gives back their bytes.
pub proof fn lemma_split_items(s: Seq<u8>, k: nat)
    requires
        items_len(s, k) is Some,
    ensures
        split_items(s, k).len() == k,
        all_exprs(split_items(s, k)),
        split_items(s, k).flatten() == s.take(items_len(s, k).unwrap() as int),
    decreases k,
{
    if k > 0 {
        lemma_items_len_split(s, 1, (k - 1) as nat);
        assert((1 + (k - 1)) as nat == k);
        let n = items_len(s, 1).unwrap();
        lemma_items_len_bounds(s, 1);
        let x = s.take(n as int);
        lemma_items_len_extend(x, s.skip(n as int), 1);
        assert(x + s.skip(n as int) =~= s);
        lemma_items_len_bounds(x, 1);
        // the first item read from its own bytes is the whole item
        assert(items_len(x, 1) == Some(n)) by {
            lemma_items_len_prefix(s, n);
        }
        lemma_split_items(s.skip(n as int), (k - 1) as nat);
        let rest = split_items(s.skip(n as int), (k - 1) as nat);
        let all = split_items(s, k);
        assert(all =~= seq![x] + rest);
        assert(all.drop_first() =~= rest);
        assert forall|i: int| 0 <= i < all.len() implies #[trigger] is_expr(all[i]) by {
            if i > 0 {
                assert(all[i] == rest[i - 1]);
            }
        }
        let m = items_len(s.skip(n as int), (k - 1) as nat).unwrap();
        lemma_items_len_bounds(s.skip(n as int), (k - 1) as nat);
        assert(all.flatten() == x + rest.flatten());
        assert(x + s.skip(n as int).take(m as int) =~= s.take((n + m) as int));
    } else {
        assert(s.take(0) =~= Seq::<u8>::empty());
    }
}

/// An expression read from `s` is read the same from its own span.
pub proof fn lemma_items_len_prefix(s: Seq<u8>, n: nat)
    requires
        items_len(s, 1) == Some(n),
    ensures
        items_len(s.take(n as int), 1) == Some(n),
{
    lemma_items_len_prefix_k(s, 1);
}

/// `k` expressions read from `s` are read the same from their own span.
pub proof fn lemma_items_len_prefix_k(s: Seq<u8>, k: nat)
    ensures
        items_len(s, k) matches Some(n) ==> items_len(s.take(n as int), k) == Some(n),
    decreases s.len(),
{
    if k != 0 && s.len() != 0 {
        lemma_items_len_bounds(s, k);
        if let Some(n) = items_len(s, k) {
            let p = s.take(n as int);
            assert(p[0] == s[0]);
            match spec_byte_item(s[0]) {
                None => {},
                Some(Tag::Arity(a)) => {
                    lemma_items_len_prefix_k(s.drop_first(), (k - 1 + a) as nat);
                    assert(p.drop_first() =~= s.drop_first().take(n - 1));
                },
                Some(Tag::SymbolSize(b)) => {
                    lemma_items_len_prefix_k(s.skip(1 + b), (k - 1) as nat);
                    assert(p.skip(1 + b) =~= s.skip(1 + b).take(n - 1 - b));
                },
                Some(_) => {
                    lemma_items_len_prefix_k(s.drop_first(), (k - 1) as nat);
                    assert(p.drop_first() =~= s.drop_first().take(n - 1));
                },
            }
        }
    }
}

} // verus!
