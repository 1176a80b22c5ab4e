//! Cluster labels: the dense encoding of label tokens.
//!
//! Labels are encoded to `0..k` over their sorted distinct set, as
//! scikit-learn's `LabelEncoder` does: when every token reads as an integer,
//! tokens are grouped and ordered by the integer they denote (so `-0`, `0`,
//! `00` and `+0` are one label); otherwise they are grouped by their text and
//! ordered lexicographically by chars, which is the order of `str`.
use vstd::prelude::*;
use crate::number::{integer_value, parse_integer};

verus! {

/// Lexicographic order on sequences of integers: a proper prefix comes first.
pub open spec fn lex_lt(a: Seq<i64>, b: Seq<i64>) -> bool
    decreases a.len(),
{
    if b.len() == 0 {
        false
    } else if a.len() == 0 {
        true
    } else if a[0] != b[0] {
        a[0] < b[0]
    } else {
        lex_lt(a.drop_first(), b.drop_first())
    }
}

/// No sequence comes before itself.
pub proof fn lemma_lex_irreflexive(a: Seq<i64>)
    ensures
        !lex_lt(a, a),
    decreases a.len(),
{
    if a.len() > 0 {
        lemma_lex_irreflexive(a.drop_first());
    }
}

/// The lexicographic order is transitive.
pub proof fn lemma_lex_transitive(a: Seq<i64>, b: Seq<i64>, c: Seq<i64>)
    requires
        lex_lt(a, b),
        lex_lt(b, c),
    ensures
        lex_lt(a, c),
    decreases a.len(),
{
    if a.len() > 0 && b.len() > 0 && c.len() > 0 && a[0] == b[0] && b[0] == c[0] {
        lemma_lex_transitive(a.drop_first(), b.drop_first(), c.drop_first());
    }
}

/// Of two different sequences, one comes before the other.
pub proof fn lemma_lex_total(a: Seq<i64>, b: Seq<i64>)
    ensures
        a == b || lex_lt(a, b) || lex_lt(b, a),
    decreases a.len(),
{
    if a.len() == 0 && b.len() == 0 {
        assert(a =~= b);
    } else if a.len() > 0 && b.len() > 0 && a[0] == b[0] {
        lemma_lex_total(a.drop_first(), b.drop_first());
        if a.drop_first() == b.drop_first() {
            assert(a =~= seq![a[0]] + a.drop_first());
            assert(b =~= seq![b[0]] + b.drop_first());
        }
    }
}

/// Whether `a` comes before `b` lexicographically.
pub fn lex_less(a: &Vec<i64>, b: &Vec<i64>) -> (r: bool)
    ensures
        r == lex_lt(a@, b@),
{
    let mut i: usize = 0;
    proof {
        assert(a@.skip(0) =~= a@);
        assert(b@.skip(0) =~= b@);
    }
    while i < a.len() && i < b.len()
        invariant
            i <= a@.len(),
            i <= b@.len(),
            lex_lt(a@, b@) == lex_lt(a@.skip(i as int), b@.skip(i as int)),
        decreases a@.len() - i,
    {
        proof {
            assert(a@.skip(i as int).drop_first() =~= a@.skip(i + 1));
            assert(b@.skip(i as int).drop_first() =~= b@.skip(i + 1));
        }
        if a[i] != b[i] {
            return a[i] < b[i];
        }
        i = i + 1;
    }
    i < b.len()
}

/// `labels` encode `keys` densely: labels lie in `0..k`, follow the order of
/// the keys, are equal for equal keys, and every label in `0..k` is used.
pub open spec fn is_dense_rank(keys: Seq<Seq<i64>>, labels: Seq<usize>, k: nat) -> bool {
    &&& labels.len() == keys.len()
    &&& forall|i: int| 0 <= i < labels.len() ==> #[trigger] labels[i] < k
    &&& forall|i: int, j: int|
        0 <= i < keys.len() && 0 <= j < keys.len() && lex_lt(keys[i], keys[j])
            ==> #[trigger] labels[i] < #[trigger] labels[j]
    &&& forall|i: int, j: int|
        0 <= i < keys.len() && 0 <= j < keys.len() && keys[i] == keys[j]
            ==> #[trigger] labels[i] == #[trigger] labels[j]
    &&& forall|c: int| 0 <= c < k ==> #[trigger] label_used(labels, c)
}

/// Some sample carries label `c`.
pub open spec fn label_used(labels: Seq<usize>, c: int) -> bool {
    exists|i: int| 0 <= i < labels.len() && labels[i] == c
}

/// Below label `c`, every label of `a` is at most the label of `b` at the
/// same place.
proof fn lemma_dense_rank_below(
    keys: Seq<Seq<i64>>,
    a: Seq<usize>,
    ka: nat,
    b: Seq<usize>,
    kb: nat,
    c: nat,
)
    requires
        is_dense_rank(keys, a, ka),
        is_dense_rank(keys, b, kb),
    ensures
        forall|i: int| 0 <= i < keys.len() && a[i] == c ==> a[i] <= #[trigger] b[i],
    decreases c,
{
    if c > 0 {
        lemma_dense_rank_below(keys, a, ka, b, kb, (c - 1) as nat);
        assert forall|i: int| 0 <= i < keys.len() && a[i] == c implies a[i] <= #[trigger] b[i] by {
            assert(label_used(a, c - 1));
            let j = choose|j: int| 0 <= j < a.len() && a[j] == c - 1;
            lemma_lex_total(keys[i], keys[j]);
            if keys[i] == keys[j] {
                assert(a[i] == a[j]);
            } else if lex_lt(keys[i], keys[j]) {
                assert(a[i] < a[j]);
            } else {
                assert(b[j] < b[i]);
                assert(a[j] <= b[j]);
            }
        }
    }
}

/// The dense encoding of a sequence of keys is unique: any two agree on
/// every label and on the number of labels.
pub proof fn lemma_dense_rank_unique(keys: Seq<Seq<i64>>, a: Seq<usize>, ka: nat, b: Seq<usize>, kb: nat)
    requires
        is_dense_rank(keys, a, ka),
        is_dense_rank(keys, b, kb),
    ensures
        a == b,
        ka == kb,
{
    assert forall|i: int| 0 <= i < keys.len() implies a[i] == b[i] by {
        lemma_dense_rank_below(keys, a, ka, b, kb, a[i] as nat);
        lemma_dense_rank_below(keys, b, kb, a, ka, b[i] as nat);
    }
    assert(a =~= b);
    if ka > 0 {
        assert(label_used(a, ka - 1));
    }
    if kb > 0 {
        assert(label_used(b, kb - 1));
    }
}

/// The key at `uniq[p]`.
spec fn key_at(keys: Seq<Vec<i64>>, uniq: Seq<usize>, p: int) -> Seq<i64> {
    keys[uniq[p] as int]@
}

/// Some position of `uniq` holds key `k`.
spec fn key_seen(keys: Seq<Vec<i64>>, uniq: Seq<usize>, k: Seq<i64>) -> bool {
    exists|q: int| 0 <= q < uniq.len() && key_at(keys, uniq, q) == k
}

/// The views of the keys, in order.
pub open spec fn key_views(keys: Seq<Vec<i64>>) -> Seq<Seq<i64>> {
    keys.map_values(|k: Vec<i64>| k@)
}

/// The first position in `uniq` whose key does not come before `keys[i]`.
fn first_not_before(keys: &Vec<Vec<i64>>, uniq: &Vec<usize>, i: usize) -> (p: usize)
    requires
        i < keys@.len(),
        forall|q: int| 0 <= q < uniq@.len() ==> (#[trigger] uniq@[q]) < keys@.len(),
    ensures
        p <= uniq@.len(),
        forall|q: int| 0 <= q < p ==> lex_lt(#[trigger] key_at(keys@, uniq@, q), keys@[i as int]@),
        p < uniq@.len() ==> !lex_lt(key_at(keys@, uniq@, p as int), keys@[i as int]@),
{
    let mut p: usize = 0;
    while p < uniq.len() && lex_less(&keys[uniq[p]], &keys[i])
        invariant
            i < keys@.len(),
            forall|q: int| 0 <= q < uniq@.len() ==> (#[trigger] uniq@[q]) < keys@.len(),
            p <= uniq@.len(),
            forall|q: int|
                0 <= q < p ==> lex_lt(#[trigger] key_at(keys@, uniq@, q), keys@[i as int]@),
        decreases uniq@.len() - p,
    {
        p = p + 1;
    }
    p
}

/// Dense ranks of `keys`: `labels[i]` is the position of `keys[i]` among the
/// distinct keys in increasing order, and `k` is the number of distinct keys.
pub fn dense_rank(keys: &Vec<Vec<i64>>) -> (res: (Vec<usize>, usize))
    ensures
        is_dense_rank(key_views(keys@), res.0@, res.1 as nat),
{
    let n = keys.len();
    let mut uniq: Vec<usize> = Vec::new();
    let mut i: usize = 0;
    while i < n
        invariant
            n == keys@.len(),
            i <= n,
            forall|q: int| 0 <= q < uniq@.len() ==> (#[trigger] uniq@[q]) < i,
            forall|q: int, r: int|
                0 <= q < r < uniq@.len() ==> lex_lt(
                    #[trigger] key_at(keys@, uniq@, q),
                    #[trigger] key_at(keys@, uniq@, r),
                ),
            forall|w: int| 0 <= w < i ==> #[trigger] key_seen(keys@, uniq@, keys@[w]@),
        decreases n - i,
    {
        let p = first_not_before(keys, &uniq, i);
        let ghost key = keys@[i as int]@;
        if p < uniq.len() && !lex_less(&keys[i], &keys[uniq[p]]) {
            proof {
                lemma_lex_total(key_at(keys@, uniq@, p as int), key);
                assert(key_at(keys@, uniq@, p as int) == key);
            }
        } else {
            let ghost old_uniq = uniq@;
            uniq.insert(p, i);
            proof {
                assert forall|q: int, r: int|
                    0 <= q < r < uniq@.len() implies lex_lt(
                    #[trigger] key_at(keys@, uniq@, q),
                    #[trigger] key_at(keys@, uniq@, r),
                ) by {
                    if q < p && r < p {
                        assert(key_at(keys@, uniq@, q) == key_at(keys@, old_uniq, q));
                        assert(key_at(keys@, uniq@, r) == key_at(keys@, old_uniq, r));
                    } else if q < p && r == p {
                        assert(key_at(keys@, uniq@, q) == key_at(keys@, old_uniq, q));
                    } else if q < p && r > p {
                        assert(key_at(keys@, uniq@, q) == key_at(keys@, old_uniq, q));
                        assert(key_at(keys@, uniq@, r) == key_at(keys@, old_uniq, r - 1));
                        assert(lex_lt(key_at(keys@, old_uniq, q), key));
                        assert(lex_lt(key, key_at(keys@, old_uniq, p as int)));
                        if r - 1 > p {
                            lemma_lex_transitive(
                                key,
                                key_at(keys@, old_uniq, p as int),
                                key_at(keys@, old_uniq, r - 1),
                            );
                        }
                        lemma_lex_transitive(
                            key_at(keys@, old_uniq, q),
                            key,
                            key_at(keys@, old_uniq, r - 1),
                        );
                    } else if q == p {
                        assert(key_at(keys@, uniq@, r) == key_at(keys@, old_uniq, r - 1));
                        assert(lex_lt(key, key_at(keys@, old_uniq, p as int)));
                        if r - 1 > p {
                            lemma_lex_transitive(
                                key,
                                key_at(keys@, old_uniq, p as int),
                                key_at(keys@, old_uniq, r - 1),
                            );
                        }
                    } else {
                        assert(key_at(keys@, uniq@, q) == key_at(keys@, old_uniq, q - 1));
                        assert(key_at(keys@, uniq@, r) == key_at(keys@, old_uniq, r - 1));
                    }
                }
                assert forall|w: int| 0 <= w < i + 1 implies #[trigger] key_seen(
                    keys@,
                    uniq@,
                    keys@[w]@,
                ) by {
                    if w == i {
                        assert(key_at(keys@, uniq@, p as int) == key);
                    } else {
                        assert(key_seen(keys@, old_uniq, keys@[w]@));
                        let q0 = choose|q: int|
                            0 <= q < old_uniq.len() && #[trigger] key_at(keys@, old_uniq, q)
                                == keys@[w]@;
                        if q0 < p {
                            assert(key_at(keys@, uniq@, q0) == keys@[w]@);
                        } else {
                            assert(key_at(keys@, uniq@, q0 + 1) == keys@[w]@);
                        }
                    }
                }
            }
        }
        i = i + 1;
    }
    let k = uniq.len();
    let mut labels: Vec<usize> = Vec::new();
    let mut j: usize = 0;
    while j < n
        invariant
            n == keys@.len(),
            k == uniq@.len(),
            j <= n,
            labels@.len() == j,
            forall|q: int| 0 <= q < uniq@.len() ==> (#[trigger] uniq@[q]) < n,
            forall|q: int, r: int|
                0 <= q < r < uniq@.len() ==> lex_lt(
                    #[trigger] key_at(keys@, uniq@, q),
                    #[trigger] key_at(keys@, uniq@, r),
                ),
            forall|w: int| 0 <= w < n ==> #[trigger] key_seen(keys@, uniq@, keys@[w]@),
            forall|w: int|
                0 <= w < j ==> #[trigger] labels@[w] < k && key_at(keys@, uniq@, labels@[w] as int)
                    == keys@[w]@,
        decreases n - j,
    {
        let p = first_not_before(keys, &uniq, j);
        proof {
            let key = keys@[j as int]@;
            assert(key_seen(keys@, uniq@, key));
            let q0 = choose|q: int|
                0 <= q < uniq@.len() && #[trigger] key_at(keys@, uniq@, q) == key;
            lemma_lex_irreflexive(key);
            if q0 < p {
                assert(lex_lt(key_at(keys@, uniq@, q0), key));
            }
            if (p as int) < q0 {
                assert(lex_lt(key_at(keys@, uniq@, p as int), key_at(keys@, uniq@, q0)));
            }
            assert(p == q0);
        }
        labels.push(p);
        j = j + 1;
    }
    proof {
        let kv = key_views(keys@);
        assert forall|a: int, b: int|
            0 <= a < kv.len() && 0 <= b < kv.len() && lex_lt(kv[a], kv[b]) implies #[trigger] labels@[a]
            < #[trigger] labels@[b] by {
            let pa = labels@[a] as int;
            let pb = labels@[b] as int;
            lemma_lex_irreflexive(kv[a]);
            if pa == pb {
            } else if pb < pa {
                assert(lex_lt(key_at(keys@, uniq@, pb), key_at(keys@, uniq@, pa)));
                lemma_lex_transitive(kv[a], kv[b], kv[a]);
            }
        }
        assert forall|a: int, b: int|
            0 <= a < kv.len() && 0 <= b < kv.len() && kv[a] == kv[b] implies #[trigger] labels@[a]
            == #[trigger] labels@[b] by {
            let pa = labels@[a] as int;
            let pb = labels@[b] as int;
            lemma_lex_irreflexive(kv[a]);
            if pa < pb {
                assert(lex_lt(key_at(keys@, uniq@, pa), key_at(keys@, uniq@, pb)));
            } else if pb < pa {
                assert(lex_lt(key_at(keys@, uniq@, pb), key_at(keys@, uniq@, pa)));
            }
        }
        assert forall|c: int| 0 <= c < k implies #[trigger] label_used(labels@, c) by {
            let w = uniq@[c] as int;
            let pw = labels@[w] as int;
            assert(key_at(keys@, uniq@, pw) == key_at(keys@, uniq@, c));
            lemma_lex_irreflexive(key_at(keys@, uniq@, c));
            if pw < c {
                assert(lex_lt(key_at(keys@, uniq@, pw), key_at(keys@, uniq@, c)));
            } else if c < pw {
                assert(lex_lt(key_at(keys@, uniq@, c), key_at(keys@, uniq@, pw)));
            }
            assert(labels@[w] == c);
        }
    }
    (labels, k)
}

/// Every token reads as an integer.
pub open spec fn all_integers(tokens: Seq<Seq<char>>) -> bool {
    forall|i: int| 0 <= i < tokens.len() ==> (#[trigger] integer_value(tokens[i])) is Some
}

/// The code points of the chars of `t`, in order; comparing these
/// lexicographically is comparing the `str`s.
pub open spec fn char_codes(t: Seq<char>) -> Seq<i64> {
    t.map_values(|c: char| (c as u32) as i64)
}

/// What a token is ordered and grouped by: the integer it denotes when the
/// labels are all integers, its chars otherwise.
pub open spec fn label_key(numeric: bool, t: Seq<char>) -> Seq<i64> {
    if numeric {
        seq![integer_value(t)->0 as i64]
    } else {
        char_codes(t)
    }
}

/// The keys of all tokens.
pub open spec fn label_keys(tokens: Seq<Seq<char>>) -> Seq<Seq<i64>> {
    let numeric = all_integers(tokens);
    tokens.map_values(|t: Seq<char>| label_key(numeric, t))
}

/// Different chars have different code points.
proof fn lemma_char_code_injective(x: char, y: char)
    requires
        (x as u32) as i64 == (y as u32) as i64,
    ensures
        x == y,
{
    assert((x as u32) as char == x);
    assert((y as u32) as char == y);
}

/// Text tokens have equal keys exactly when they are equal.
pub proof fn lemma_char_codes_injective(a: Seq<char>, b: Seq<char>)
    ensures
        char_codes(a) == char_codes(b) <==> a == b,
{
    if char_codes(a) == char_codes(b) {
        assert(a.len() == char_codes(a).len());
        assert forall|i: int| 0 <= i < a.len() implies a[i] == b[i] by {
            assert(char_codes(a)[i] == char_codes(b)[i]);
            lemma_char_code_injective(a[i], b[i]);
        }
        assert(a =~= b);
    }
}

/// The code points of the chars of `t`.
fn codes_of(t: &Vec<char>) -> (r: Vec<i64>)
    ensures
        r@ == char_codes(t@),
{
    let mut r: Vec<i64> = Vec::new();
    let mut i: usize = 0;
    while i < t.len()
        invariant
            i <= t@.len(),
            r@ == char_codes(t@.take(i as int)),
        decreases t@.len() - i,
    {
        let c = t[i];
        r.push(c as u32 as i64);
        i = i + 1;
        proof {
            assert(char_codes(t@.take(i as int)) =~= char_codes(t@.take(i - 1)).push((c as u32) as i64));
        }
    }
    proof {
        assert(t@.take(i as int) =~= t@);
    }
    r
}

/// `a` comes before `b` as text, as `str`s compare: at the first place where
/// they differ `a` has the smaller char, or `a` is a proper prefix of `b`.
pub open spec fn text_before(a: Seq<char>, b: Seq<char>) -> bool {
    exists|k: int|
        0 <= k <= a.len() && k <= b.len() && #[trigger] a.take(k) == b.take(k) && ((k == a.len()
            && k < b.len()) || (k < a.len() && k < b.len() && (a[k] as u32) < (b[k] as u32)))
}

/// Comparing the code points lexicographically is comparing as text.
pub proof fn lemma_char_codes_order(a: Seq<char>, b: Seq<char>)
    ensures
        lex_lt(char_codes(a), char_codes(b)) <==> text_before(a, b),
    decreases a.len(),
{
    let ca = char_codes(a);
    let cb = char_codes(b);
    if b.len() == 0 {
        assert forall|k: int|
            0 <= k <= a.len() && k <= b.len() && #[trigger] a.take(k) == b.take(k) implies !((k
            == a.len() && k < b.len()) || (k < a.len() && k < b.len() && (a[k] as u32) < (
            b[k] as u32))) by {}
    } else if a.len() == 0 {
        assert(a.take(0) =~= b.take(0));
    } else if a[0] != b[0] {
        assert(ca[0] == (a[0] as u32) as i64);
        assert(cb[0] == (b[0] as u32) as i64);
        if ca[0] == cb[0] {
            lemma_char_code_injective(a[0], b[0]);
        }
        assert(a.take(0) =~= b.take(0));
        assert forall|k: int|
            0 < k <= a.len() && k <= b.len() implies #[trigger] a.take(k) != b.take(k) by {
            assert(a.take(k)[0] == a[0]);
            assert(b.take(k)[0] == b[0]);
        }
    } else {
        let a1 = a.drop_first();
        let b1 = b.drop_first();
        lemma_char_codes_order(a1, b1);
        assert(ca.drop_first() =~= char_codes(a1));
        assert(cb.drop_first() =~= char_codes(b1));
        assert(ca[0] == cb[0]);
        if text_before(a, b) {
            let k = choose|k: int|
                0 <= k <= a.len() && k <= b.len() && #[trigger] a.take(k) == b.take(k) && ((k
                    == a.len() && k < b.len()) || (k < a.len() && k < b.len() && (a[k] as u32) < (
                b[k] as u32)));
            assert(k >= 1);
            assert(a1.take(k - 1) =~= a.take(k).drop_first());
            assert(b1.take(k - 1) =~= b.take(k).drop_first());
            assert(a1.take(k - 1) == b1.take(k - 1));
        }
        if text_before(a1, b1) {
            let k = choose|k: int|
                0 <= k <= a1.len() && k <= b1.len() && #[trigger] a1.take(k) == b1.take(k) && ((k
                    == a1.len() && k < b1.len()) || (k < a1.len() && k < b1.len() && (
                a1[k] as u32) < (b1[k] as u32)));
            assert(a.take(k + 1) =~= seq![a[0]] + a1.take(k));
            assert(b.take(k + 1) =~= seq![b[0]] + b1.take(k));
            assert(a.take(k + 1) == b.take(k + 1));
        }
    }
}

/// A dense encoding follows its keys both ways: one label is below another
/// exactly when its key comes first, and labels are equal exactly when keys
/// are.
pub proof fn lemma_dense_rank_iff(keys: Seq<Seq<i64>>, labels: Seq<usize>, k: nat)
    requires
        is_dense_rank(keys, labels, k),
    ensures
        forall|i: int, j: int|
            0 <= i < keys.len() && 0 <= j < keys.len() ==> (lex_lt(keys[i], keys[j])
                <==> #[trigger] labels[i] < #[trigger] labels[j]),
        forall|i: int, j: int|
            0 <= i < keys.len() && 0 <= j < keys.len() ==> (keys[i] == keys[j]
                <==> #[trigger] labels[i] == #[trigger] labels[j]),
{
    assert forall|i: int, j: int| 0 <= i < keys.len() && 0 <= j < keys.len() implies (lex_lt(
        keys[i],
        keys[j],
    ) <==> #[trigger] labels[i] < #[trigger] labels[j]) && (keys[i] == keys[j] <==> labels[i]
        == labels[j]) by {
        lemma_lex_total(keys[i], keys[j]);
        lemma_lex_irreflexive(keys[i]);
        if lex_lt(keys[j], keys[i]) {
            assert(labels[j] < labels[i]);
        }
        if lex_lt(keys[i], keys[j]) {
            assert(labels[i] < labels[j]);
        }
    }
}

/// The labels of tokens follow the tokens: when every token is an integer,
/// one label is below another exactly when its integer is smaller, and labels
/// are equal exactly when the integers are; otherwise the same holds of the
/// tokens as text. Every label lies below `k` and every label below `k` is
/// carried by some token.
pub proof fn lemma_labels_follow_tokens(tokens: Seq<Seq<char>>, labels: Seq<usize>, k: nat)
    requires
        is_dense_rank(label_keys(tokens), labels, k),
    ensures
        labels.len() == tokens.len(),
        forall|i: int| 0 <= i < labels.len() ==> #[trigger] labels[i] < k,
        forall|c: int| 0 <= c < k ==> #[trigger] label_used(labels, c),
        all_integers(tokens) ==> forall|i: int, j: int|
            0 <= i < tokens.len() && 0 <= j < tokens.len() ==> (integer_value(tokens[i])->0
                < integer_value(tokens[j])->0 <==> #[trigger] labels[i] < #[trigger] labels[j]),
        all_integers(tokens) ==> forall|i: int, j: int|
            0 <= i < tokens.len() && 0 <= j < tokens.len() ==> (integer_value(tokens[i])
                == integer_value(tokens[j]) <==> #[trigger] labels[i] == #[trigger] labels[j]),
        !all_integers(tokens) ==> forall|i: int, j: int|
            0 <= i < tokens.len() && 0 <= j < tokens.len() ==> (text_before(tokens[i], tokens[j])
                <==> #[trigger] labels[i] < #[trigger] labels[j]),
        !all_integers(tokens) ==> forall|i: int, j: int|
            0 <= i < tokens.len() && 0 <= j < tokens.len() ==> (tokens[i] == tokens[j]
                <==> #[trigger] labels[i] == #[trigger] labels[j]),
{
    let keys = label_keys(tokens);
    lemma_dense_rank_iff(keys, labels, k);
    if all_integers(tokens) {
        assert forall|i: int, j: int| 0 <= i < tokens.len() && 0 <= j < tokens.len() implies (
        integer_value(tokens[i])->0 < integer_value(tokens[j])->0 <==> #[trigger] labels[i]
            < #[trigger] labels[j]) && (integer_value(tokens[i]) == integer_value(tokens[j])
            <==> labels[i] == labels[j]) by {
            assert(integer_value(tokens[i]) is Some);
            assert(integer_value(tokens[j]) is Some);
            let x = integer_value(tokens[i])->0;
            let y = integer_value(tokens[j])->0;
            assert(keys[i] == seq![x as i64]);
            assert(keys[j] == seq![y as i64]);
            assert(seq![x as i64].drop_first() =~= Seq::<i64>::empty());
            assert(seq![y as i64].drop_first() =~= Seq::<i64>::empty());
            if x == y {
                lemma_lex_irreflexive(keys[i]);
            } else {
                assert(keys[i][0] != keys[j][0]);
            }
        }
    } else {
        assert forall|i: int, j: int| 0 <= i < tokens.len() && 0 <= j < tokens.len() implies (
        text_before(tokens[i], tokens[j]) <==> #[trigger] labels[i] < #[trigger] labels[j]) && (
        tokens[i] == tokens[j] <==> labels[i] == labels[j]) by {
            assert(keys[i] == char_codes(tokens[i]));
            assert(keys[j] == char_codes(tokens[j]));
            lemma_char_codes_order(tokens[i], tokens[j]);
            lemma_char_codes_injective(tokens[i], tokens[j]);
        }
    }
}

/// Encodes label tokens to dense cluster indices `0..k` over their sorted
/// distinct set, and returns them with `k`, the number of distinct labels.
/// All-integer tokens are grouped and ordered by value, other tokens by text.
pub fn encode_labels(tokens: &Vec<Vec<char>>) -> (res: (Vec<usize>, usize))
    ensures
        is_dense_rank(label_keys(tokens.deep_view()), res.0@, res.1 as nat),
        res.0@.len() == tokens@.len(),
        all_integers(tokens.deep_view()) ==> forall|i: int, j: int|
            0 <= i < tokens@.len() && 0 <= j < tokens@.len() ==> (integer_value(
                tokens.deep_view()[i],
            )->0 < integer_value(tokens.deep_view()[j])->0 <==> #[trigger] res.0@[i]
                < #[trigger] res.0@[j]),
        !all_integers(tokens.deep_view()) ==> forall|i: int, j: int|
            0 <= i < tokens@.len() && 0 <= j < tokens@.len() ==> (text_before(
                tokens.deep_view()[i],
                tokens.deep_view()[j],
            ) <==> #[trigger] res.0@[i] < #[trigger] res.0@[j]),
{
    let ghost ts = tokens.deep_view();
    let n = tokens.len();
    let mut values: Vec<i64> = Vec::new();
    let mut numeric = true;
    let mut i: usize = 0;
    while i < n
        invariant
            n == tokens@.len(),
            ts == tokens.deep_view(),
            i <= n,
            numeric ==> values@.len() == i,
            numeric ==> forall|w: int|
                0 <= w < i ==> integer_value(ts[w]) == Some(#[trigger] values@[w] as int),
            !numeric ==> !all_integers(ts),
        decreases n - i,
    {
        proof {
            assert(tokens@[i as int]@ == ts[i as int]);
        }
        match parse_integer(&tokens[i]) {
            Some(v) => {
                if numeric {
                    values.push(v);
                }
            },
            None => {
                numeric = false;
            },
        }
        i = i + 1;
    }
    proof {
        if numeric {
            assert forall|w: int| 0 <= w < ts.len() implies (#[trigger] integer_value(
                ts[w],
            )) is Some by {
                assert(integer_value(ts[w]) == Some(values@[w] as int));
            }
        }
    }
    let ghost keys_spec = label_keys(ts);
    let mut keys: Vec<Vec<i64>> = Vec::new();
    let mut j: usize = 0;
    while j < n
        invariant
            n == tokens@.len(),
            ts == tokens.deep_view(),
            keys_spec == label_keys(ts),
            numeric == all_integers(ts),
            numeric ==> values@.len() == n,
            numeric ==> forall|w: int|
                0 <= w < n ==> integer_value(ts[w]) == Some(#[trigger] values@[w] as int),
            j <= n,
            keys@.len() == j,
            forall|w: int| 0 <= w < j ==> (#[trigger] keys@[w])@ == keys_spec[w],
        decreases n - j,
    {
        proof {
            assert(tokens@[j as int]@ == ts[j as int]);
        }
        if numeric {
            let mut k: Vec<i64> = Vec::new();
            k.push(values[j]);
            proof {
                assert(k@ =~= seq![values@[j as int]]);
            }
            keys.push(k);
        } else {
            let k = codes_of(&tokens[j]);
            keys.push(k);
        }
        j = j + 1;
    }
    proof {
        assert(key_views(keys@) =~= keys_spec);
    }
    let res = dense_rank(&keys);
    proof {
        lemma_labels_follow_tokens(ts, res.0@, res.1 as nat);
    }
    res
}

} // verus!
