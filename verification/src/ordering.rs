//! Case-insensitive ordering of names: lowercase keys, their lexicographic
//! order (the order of `String`), and a stable sort by key.
use vstd::prelude::*;
use crate::text::{chars_to_string, str_to_chars};

verus! {

/// The result of `str::to_lowercase` on a text (Unicode lowercase mapping).
pub uninterp spec fn lowercased(s: Seq<char>) -> Seq<char>;

/// Calls `str::to_lowercase`. Its result is taken to be a function of the
/// text alone, named `lowercased`; nothing more is claimed of it.
#[verifier::external_body]
pub(crate) fn to_lowercase(s: &str) -> (r: String)
    ensures
        r@ == lowercased(s@),
{
    s.to_lowercase()
}

/// The lowercase form of a character vector.
pub fn lowercase_chars(s: &Vec<char>) -> (r: Vec<char>)
    ensures
        r@ == lowercased(s@),
{
    let text = chars_to_string(s);
    let lower = to_lowercase(text.as_str());
    str_to_chars(lower.as_str())
}

/// Lexicographic order on character sequences, as `String`'s `Ord` compares
/// (UTF-8 byte order agrees with code point order).
pub open spec fn seq_lt(a: Seq<char>, b: Seq<char>) -> bool
    decreases a.len(),
{
    if a.len() == 0 {
        b.len() > 0
    } else if b.len() == 0 {
        false
    } else if a[0] != b[0] {
        a[0] < b[0]
    } else {
        seq_lt(a.drop_first(), b.drop_first())
    }
}

/// `a < b` in the order of `String`.
pub fn seq_less(a: &Vec<char>, b: &Vec<char>) -> (r: bool)
    ensures
        r == seq_lt(a@, b@),
{
    let mut i: usize = 0;
    assert(a@.skip(0) =~= a@);
    assert(b@.skip(0) =~= b@);
    while i < a.len() && i < b.len() && a[i] == b[i]
        invariant
            i <= a.len(),
            i <= b.len(),
            seq_lt(a@, b@) == seq_lt(a@.skip(i as int), b@.skip(i as int)),
        decreases a.len() - i,
    {
        assert(a@.skip(i as int).drop_first() =~= a@.skip(i + 1));
        assert(b@.skip(i as int).drop_first() =~= b@.skip(i + 1));
        i = i + 1;
    }
    if i == a.len() {
        b.len() > i
    } else if i == b.len() {
        false
    } else {
        a[i] < b[i]
    }
}

pub proof fn lemma_lt_irreflexive(a: Seq<char>)
    ensures
        !seq_lt(a, a),
    decreases a.len(),
{
    if a.len() > 0 {
        lemma_lt_irreflexive(a.drop_first());
    }
}

pub proof fn lemma_lt_transitive(a: Seq<char>, b: Seq<char>, c: Seq<char>)
    requires
        seq_lt(a, b),
        seq_lt(b, c),
    ensures
        seq_lt(a, c),
    decreases a.len(),
{
    if a.len() > 0 && b.len() > 0 && c.len() > 0 && a[0] == b[0] && b[0] == c[0] {
        lemma_lt_transitive(a.drop_first(), b.drop_first(), c.drop_first());
    }
}

pub proof fn lemma_lt_total(a: Seq<char>, b: Seq<char>)
    ensures
        seq_lt(a, b) || seq_lt(b, a) || a == b,
    decreases a.len(),
{
    if a.len() > 0 && b.len() > 0 {
        if a[0] == b[0] {
            lemma_lt_total(a.drop_first(), b.drop_first());
            if a.drop_first() == b.drop_first() {
                assert(a.drop_first().len() == b.drop_first().len());
                assert(a.len() == b.len());
                assert forall|k: int| 0 <= k < a.len() implies a[k] == b[k] by {
                    if k > 0 {
                        assert(a[k] == a.drop_first()[k - 1]);
                        assert(b[k] == b.drop_first()[k - 1]);
                    }
                }
                assert(a =~= b);
            }
        }
    } else if a.len() == 0 && b.len() == 0 {
        assert(a =~= b);
    }
}

pub proof fn lemma_lt_asymmetric(a: Seq<char>, b: Seq<char>)
    requires
        seq_lt(a, b),
    ensures
        !seq_lt(b, a),
{
    if seq_lt(b, a) {
        lemma_lt_transitive(a, b, a);
        lemma_lt_irreflexive(a);
    }
}

/// `order` lists each index below `n` exactly once.
pub open spec fn is_permutation(order: Seq<usize>, n: nat) -> bool {
    &&& order.len() == n
    &&& forall|a: int| 0 <= a < n ==> #[trigger] order[a] < n
    &&& forall|a: int, b: int| 0 <= a < b < n ==> #[trigger] order[a] != #[trigger] order[b]
}

/// Listed in `order`, the keys never decrease, and entries with equal keys
/// keep their original relative order.
pub open spec fn stably_sorted(keys: Seq<Seq<char>>, order: Seq<usize>) -> bool {
    &&& forall|a: int, b: int|
        0 <= a < b < order.len() ==> !seq_lt(
            keys[#[trigger] order[b] as int],
            keys[#[trigger] order[a] as int],
        )
    &&& forall|a: int, b: int|
        0 <= a < b < order.len() && keys[order[a] as int] == keys[order[b] as int] ==> (
        #[trigger] order[a]) < #[trigger] order[b]
}

/// The order that sorts the keys stably (`sort_by_key`): a permutation of
/// the indices under which the keys never decrease and equal keys keep
/// their relative order.
pub fn stable_sort_order(keys: &Vec<Vec<char>>) -> (order: Vec<usize>)
    ensures
        is_permutation(order@, keys.len() as nat),
        stably_sorted(crate::text::seq_views(keys@), order@),
{
    let ghost ks = crate::text::seq_views(keys@);
    let mut order: Vec<usize> = Vec::new();
    let mut i: usize = 0;
    while i < keys.len()
        invariant
            ks == crate::text::seq_views(keys@),
            i <= keys.len(),
            is_permutation(order@, i as nat),
            stably_sorted(ks, order@),
        decreases keys.len() - i,
    {
        // Find the first position whose key is greater than key i.
        let mut p: usize = 0;
        while p < order.len() && !seq_less(&keys[i], &keys[order[p]])
            invariant
                ks == crate::text::seq_views(keys@),
                i < keys.len(),
                is_permutation(order@, i as nat),
                p <= order.len(),
                forall|a: int| 0 <= a < p ==> !seq_lt(ks[i as int], #[trigger] ks[order@[a] as int]),
            decreases order.len() - p,
        {
            p = p + 1;
        }
        let ghost old_order = order@;
        proof {
            assert forall|a: int| p <= a < old_order.len() implies seq_lt(
                ks[i as int],
                #[trigger] ks[old_order[a] as int],
            ) by {
                if a > p {
                    assert(!seq_lt(ks[old_order[a] as int], ks[old_order[p as int] as int]));
                    lemma_lt_total(ks[old_order[a] as int], ks[old_order[p as int] as int]);
                    if seq_lt(ks[old_order[p as int] as int], ks[old_order[a] as int]) {
                        lemma_lt_transitive(
                            ks[i as int],
                            ks[old_order[p as int] as int],
                            ks[old_order[a] as int],
                        );
                    }
                }
            }
        }
        order.insert(p, i);
        proof {
            let o = order@;
            assert(o == old_order.insert(p as int, i));
            assert forall|a: int| 0 <= a < i + 1 implies #[trigger] o[a] < i + 1 by {
                if a < p {
                    assert(o[a] == old_order[a]);
                } else if a > p {
                    assert(o[a] == old_order[a - 1]);
                }
            }
            assert forall|a: int, b: int| 0 <= a < b < i + 1 implies #[trigger] o[a]
                != #[trigger] o[b] by {
                if a < p && b < p {
                    assert(o[a] == old_order[a] && o[b] == old_order[b]);
                } else if a < p && b == p {
                    assert(o[a] == old_order[a]);
                } else if a < p && b > p {
                    assert(o[a] == old_order[a] && o[b] == old_order[b - 1]);
                } else if a == p {
                    assert(o[b] == old_order[b - 1]);
                } else {
                    assert(o[a] == old_order[a - 1] && o[b] == old_order[b - 1]);
                }
            }
            assert forall|a: int, b: int| 0 <= a < b < o.len() implies !seq_lt(
                ks[#[trigger] o[b] as int],
                ks[#[trigger] o[a] as int],
            ) by {
                if a < p && b < p {
                    assert(o[a] == old_order[a] && o[b] == old_order[b]);
                } else if a < p && b == p {
                    assert(o[a] == old_order[a]);
                } else if a < p && b > p {
                    assert(o[a] == old_order[a] && o[b] == old_order[b - 1]);
                    assert(seq_lt(ks[i as int], ks[old_order[b - 1] as int]));
                    assert(!seq_lt(ks[i as int], ks[old_order[a] as int]));
                    lemma_lt_total(ks[i as int], ks[old_order[a] as int]);
                    if seq_lt(ks[old_order[b - 1] as int], ks[old_order[a] as int]) {
                        if seq_lt(ks[old_order[a] as int], ks[i as int]) {
                            lemma_lt_transitive(
                                ks[old_order[b - 1] as int],
                                ks[old_order[a] as int],
                                ks[i as int],
                            );
                            lemma_lt_asymmetric(ks[i as int], ks[old_order[b - 1] as int]);
                        } else {
                            lemma_lt_asymmetric(ks[i as int], ks[old_order[b - 1] as int]);
                        }
                    }
                } else if a == p {
                    assert(o[b] == old_order[b - 1]);
                    lemma_lt_asymmetric(ks[i as int], ks[old_order[b - 1] as int]);
                } else {
                    assert(o[a] == old_order[a - 1] && o[b] == old_order[b - 1]);
                }
            }
            assert forall|a: int, b: int|
                0 <= a < b < o.len() && ks[o[a] as int] == ks[o[b] as int] implies (
            #[trigger] o[a]) < #[trigger] o[b] by {
                if a < p && b < p {
                    assert(o[a] == old_order[a] && o[b] == old_order[b]);
                } else if a < p && b == p {
                    assert(o[a] == old_order[a]);
                } else if a < p && b > p {
                    assert(o[a] == old_order[a] && o[b] == old_order[b - 1]);
                    assert(seq_lt(ks[i as int], ks[old_order[b - 1] as int]));
                    assert(!seq_lt(ks[i as int], ks[old_order[a] as int]));
                    lemma_lt_total(ks[i as int], ks[old_order[a] as int]);
                    if seq_lt(ks[old_order[a] as int], ks[i as int]) {
                        lemma_lt_transitive(
                            ks[old_order[a] as int],
                            ks[i as int],
                            ks[old_order[b - 1] as int],
                        );
                    }
                    lemma_lt_irreflexive(ks[old_order[a] as int]);
                } else if a == p {
                    assert(o[b] == old_order[b - 1]);
                    lemma_lt_irreflexive(ks[i as int]);
                } else {
                    assert(o[a] == old_order[a - 1] && o[b] == old_order[b - 1]);
                }
            }
        }
        i = i + 1;
    }
    order
}

/// `output` is `input` sorted stably by the given keys (`keys[i]` belongs
/// to `input[i]`).
pub open spec fn sorted_under<A>(input: Seq<A>, keys: Seq<Seq<char>>, output: Seq<A>) -> bool {
    exists|order: Seq<usize>|
        {
            &&& is_permutation(order, input.len())
            &&& stably_sorted(keys, order)
            &&& output == order.map_values(|i: usize| input[i as int])
        }
}

/// The lowercase forms of names.
pub open spec fn lower_keys(names: Seq<Seq<char>>) -> Seq<Seq<char>> {
    names.map_values(|n: Seq<char>| lowercased(n))
}

/// Sorts names stably by a key each: `keys[i]` belongs to `names[i]`.
pub fn sort_names_by(names: &Vec<Vec<char>>, keys: &Vec<Vec<char>>) -> (r: Vec<Vec<char>>)
    requires
        keys.len() == names.len(),
    ensures
        sorted_under(crate::text::seq_views(names@), crate::text::seq_views(keys@), crate::text::seq_views(r@)),
{
    let ghost input = crate::text::seq_views(names@);
    let order = stable_sort_order(keys);
    let mut r: Vec<Vec<char>> = Vec::new();
    let mut j: usize = 0;
    while j < order.len()
        invariant
            input == crate::text::seq_views(names@),
            is_permutation(order@, names.len() as nat),
            keys.len() == names.len(),
            j <= order.len(),
            r.len() == j,
            forall|k: int| 0 <= k < j ==> #[trigger] r@[k]@ == input[order@[k] as int],
        decreases order.len() - j,
    {
        let n = &names[order[j]];
        let copy = crate::text::copy_range(n, 0, n.len());
        assert(copy@ =~= n@);
        r.push(copy);
        j = j + 1;
    }
    assert(crate::text::seq_views(r@) =~= order@.map_values(|i: usize| input[i as int]));
    r
}

/// The lowercase forms of names (executable).
pub fn lower_keys_exec(names: &Vec<Vec<char>>) -> (r: Vec<Vec<char>>)
    ensures
        crate::text::seq_views(r@) == lower_keys(crate::text::seq_views(names@)),
        r.len() == names.len(),
{
    let mut r: Vec<Vec<char>> = Vec::new();
    let mut i: usize = 0;
    while i < names.len()
        invariant
            i <= names.len(),
            r.len() == i,
            forall|k: int| 0 <= k < i ==> #[trigger] r@[k]@ == lowercased(names@[k]@),
        decreases names.len() - i,
    {
        let l = lowercase_chars(&names[i]);
        r.push(l);
        i = i + 1;
    }
    assert(crate::text::seq_views(r@) =~= lower_keys(crate::text::seq_views(names@)));
    r
}

} // verus!
