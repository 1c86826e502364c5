//! Minimal-length unique hint-code generation over a bounded alphabet.
//!
//! For a batch of `max_count` codes over an alphabet of `A` characters, every
//! code has the same length `L`: the smallest positive integer with
//! `A^L >= max_count`. The candidates of length `L` are enumerated as the
//! Cartesian product of the alphabet consulted in reversed order, and the
//! *last* candidate of the whole enumeration that is not yet used is the one
//! returned; the generator keeps no state, so the caller accumulates the
//! growing set of used codes between requests.

use vstd::prelude::*;
use vstd::arithmetic::power::{
    pow, lemma_pow0, lemma_pow1, lemma_pow_adds, lemma_pow_positive, lemma_pow_increases,
    lemma_pow_strictly_increases_converse,
};
use vstd::arithmetic::power2::lemma2_to64;
use vstd::arithmetic::div_mod::lemma_fundamental_div_mod;
use vstd::set_lib::{set_int_range, lemma_int_range, lemma_map_size, lemma_len_subset};
use vstd::relations::injective_on;

verus! {

/// Failure of the hint-code generator.
#[derive(Debug, Clone, Copy, PartialEq, Eq, Structural)]
pub enum HintError {
    /// The alphabet holds no character at all, so no code can be formed.
    EmptyAlphabet,
}

/// `l` is the smallest positive length whose capacity `a^l` reaches `n`.
pub open spec fn is_min_len(a: nat, n: nat, l: nat) -> bool {
    &&& l >= 1
    &&& pow(a as int, l) >= n
    &&& (l == 1 || pow(a as int, (l - 1) as nat) < n)
}

/// The word the enumeration places at index `i`: the base-`alpha.len()`
/// digits of `i`, most significant first, each digit written as the alphabet
/// character it indexes, padded with leading `alpha[0]` to length `len`.
pub open spec fn word_at(alpha: Seq<char>, len: nat, i: nat) -> Seq<char>
    decreases len,
{
    if len == 0 {
        Seq::empty()
    } else {
        word_at(alpha, (len - 1) as nat, i / alpha.len()).push(alpha[(i % alpha.len()) as int])
    }
}

/// The views of the codes already assigned.
pub open spec fn hints_view(hints: Seq<&String>) -> Seq<Seq<char>> {
    hints.map_values(|s: &String| s@)
}

/// `w` occurs among the used codes.
pub open spec fn used_contains(used: Seq<Seq<char>>, w: Seq<char>) -> bool {
    exists|k: int| 0 <= k < used.len() && used[k] == w
}

/// The last word among the first `k` of the enumeration that is not used,
/// or `None` when every one of them is used.
pub open spec fn pick_last_free(alpha: Seq<char>, len: nat, used: Seq<Seq<char>>, k: nat) -> Option<
    Seq<char>,
>
    decreases k,
{
    if k == 0 {
        None
    } else if !used_contains(used, word_at(alpha, len, (k - 1) as nat)) {
        Some(word_at(alpha, len, (k - 1) as nat))
    } else {
        pick_last_free(alpha, len, used, (k - 1) as nat)
    }
}

/// The code the generator hands out: the last unused word of length `len`
/// in the enumeration over the reversed alphabet, or — only when every word
/// of the enumeration is used up — the first alphabet character alone.
pub open spec fn spec_next_hint(used: Seq<Seq<char>>, alphabet: Seq<char>, len: nat) -> Seq<char> {
    let rev = alphabet.reverse();
    let cap = pow(alphabet.len() as int, len) as nat;
    match pick_last_free(rev, len, used, cap) {
        Some(w) => w,
        None => seq![alphabet[0]],
    }
}

/// Relies on String::push: it appends exactly the one character at the end.
#[verifier::external_body]
fn push_char(s: &mut String, c: char)
    ensures
        final(s)@ == old(s)@.push(c),
{
    s.push(c);
}

/// Determine the minimal code length for `max_count` codes over an alphabet
/// of `alphabet_len` characters, together with the capacity it offers.
///
/// A one-character alphabet reaches no count above one, so that pair of
/// inputs is excluded.
fn min_len_cap(alphabet_len: usize, max_count: usize) -> (r: (usize, u128))
    requires
        alphabet_len >= 1,
        max_count >= 1,
        alphabet_len >= 2 || max_count == 1,
    ensures
        is_min_len(alphabet_len as nat, max_count as nat, r.0 as nat),
        r.1 == pow(alphabet_len as int, r.0 as nat),
{
    let a: u128 = alphabet_len as u128;
    let mut l: usize = 1;
    let mut p: u128 = a;
    proof {
        lemma_pow1(alphabet_len as int);
        lemma_pow1(2);
    }
    while p < max_count as u128
        invariant
            1 <= l,
            a == alphabet_len as u128,
            alphabet_len >= 1,
            max_count >= 1,
            alphabet_len >= 2 || max_count == 1,
            p == pow(alphabet_len as int, l as nat),
            l == 1 || pow(alphabet_len as int, (l - 1) as nat) < max_count,
            alphabet_len >= 2 ==> pow(2, l as nat) <= p,
            l <= 64,
        decreases 64 - l as int,
    {
        proof {
            // A one-character alphabet never enters the loop: there p == 1 >= max_count.
            if alphabet_len == 1 {
                lemma_pow1(1);
                vstd::arithmetic::power::lemma1_pow(l as nat);
            }
            assert(alphabet_len >= 2);
            lemma_pow_positive(alphabet_len as int, l as nat);
            // The exponent stays far below any machine bound: 2^l <= p < 2^64.
            lemma2_to64();
            lemma_pow_positive(2, 64);
            assert(pow(2, 64) == 0x10000000000000000);
            assert(pow(2, l as nat) <= p as int);
            assert(p < max_count as u128);
            assert(max_count as int <= usize::MAX as int);
            assert(usize::MAX as int <= 0xFFFF_FFFF_FFFF_FFFFint);
            assert(pow(2, l as nat) < pow(2, 64));
            lemma_pow_strictly_increases_converse(2, l as nat, 64);
            // The next capacity still fits in the word: p * a < 2^64 * 2^64.
            assert((p as int) * (a as int) <= (0xFFFF_FFFF_FFFF_FFFFint) * (0xFFFF_FFFF_FFFF_FFFFint))
                by (nonlinear_arith)
                requires
                    0 <= p <= 0xFFFF_FFFF_FFFF_FFFF,
                    0 <= a <= 0xFFFF_FFFF_FFFF_FFFF,
            ;
            lemma_pow_adds(alphabet_len as int, l as nat, 1);
            lemma_pow1(alphabet_len as int);
            // The capacity strictly grows, so the loop ends.
            assert(p < (p as int) * (a as int)) by (nonlinear_arith)
                requires
                    p >= 1,
                    a >= 2,
            ;
            lemma_pow_positive(2, l as nat);
            assert((pow(2, l as nat) as int) * 2 <= (p as int) * (a as int)) by (nonlinear_arith)
                requires
                    0 < pow(2, l as nat) <= p as int,
                    2 <= a,
            ;
            lemma_pow_adds(2, l as nat, 1);
            lemma_pow1(2);
        }
        p = p * a;
        l = l + 1;
    }
    (l, p)
}

/// The minimal code length for a batch: the smallest positive `L` such that
/// `alphabet_len ^ L >= max_count`. Every code of the batch gets this length.
pub fn required_length(alphabet_len: usize, max_count: usize) -> (r: usize)
    requires
        alphabet_len >= 1,
        max_count >= 1,
        alphabet_len >= 2 || max_count == 1,
    ensures
        is_min_len(alphabet_len as nat, max_count as nat, r as nat),
{
    let (l, _) = min_len_cap(alphabet_len, max_count);
    l
}

/// Build the word of the enumeration at index `i` as a string.
fn word_of(alpha: &Vec<char>, len: usize, i: u128) -> (r: String)
    requires
        alpha@.len() >= 1,
    ensures
        r@ == word_at(alpha@, len as nat, i as nat),
{
    let a: u128 = alpha.len() as u128;
    let mut digits: Vec<char> = Vec::new();
    let mut rem: u128 = i;
    let mut j: usize = 0;
    while j < len
        invariant
            a as nat == alpha@.len(),
            a >= 1,
            a <= usize::MAX as u128,
            j <= len,
            digits@.len() == j,
            word_at(alpha@, len as nat, i as nat) == word_at(
                alpha@,
                (len - j) as nat,
                rem as nat,
            ) + digits@.reverse(),
        decreases len - j,
    {
        let ghost pre_digits = digits@;
        let ghost pre_rem = rem as nat;
        proof {
            assert(rem % a < a);
        }
        let d = (rem % a) as usize;
        proof {
            assert(d as nat == pre_rem % alpha@.len());
        }
        digits.push(alpha[d]);
        rem = rem / a;
        j += 1;
        proof {
            let av = alpha@;
            let c = av[(pre_rem % av.len()) as int];
            assert(word_at(av, (len - j + 1) as nat, pre_rem) == word_at(
                av,
                (len - j) as nat,
                pre_rem / av.len(),
            ).push(c));
            assert(rem as nat == pre_rem / av.len());
            assert(digits@ == pre_digits.push(c));
            assert(digits@.reverse() =~= seq![c] + pre_digits.reverse());
            assert(word_at(av, (len - j) as nat, pre_rem / av.len()).push(c)
                + pre_digits.reverse() =~= word_at(av, (len - j) as nat, pre_rem / av.len()) + (
            seq![c] + pre_digits.reverse()));
            assert(word_at(av, len as nat, i as nat) == word_at(av, (len - j) as nat, rem as nat)
                + digits@.reverse());
        }
    }
    let mut s = String::new();
    let mut k: usize = len;
    while k > 0
        invariant
            k <= len,
            digits@.len() == len,
            s@.len() == len - k,
            forall|t: int| 0 <= t < s@.len() ==> s@[t] == digits@[len - 1 - t],
        decreases k,
    {
        k -= 1;
        push_char(&mut s, digits[k]);
    }
    proof {
        assert(word_at(alpha@, 0, rem as nat) + digits@.reverse() =~= digits@.reverse());
        assert(s@ =~= digits@.reverse());
    }
    s
}

/// Is the candidate code already among the assigned ones?
fn hints_contain(hints: &Vec<&String>, w: &String) -> (r: bool)
    ensures
        r == used_contains(hints_view(hints@), w@),
{
    let ghost used = hints_view(hints@);
    let mut k: usize = 0;
    while k < hints.len()
        invariant
            k <= hints.len(),
            used == hints_view(hints@),
            used.len() == hints@.len(),
            forall|t: int| 0 <= t < used.len() ==> used[t] == hints@[t]@,
            forall|t: int| 0 <= t < k ==> used[t] != w@,
        decreases hints.len() - k,
    {
        if *hints[k] == *w {
            proof {
                assert(used[k as int] == hints@[k as int]@);
                assert(used_contains(used, w@));
            }
            return true;
        }
        k += 1;
    }
    false
}

/// Given the list of `current_hints` and the alphabet `hint_chars`, find the
/// code that comes next: all words of the minimal length for `max_count` are
/// enumerated as the Cartesian product of the reversed alphabet, and the last
/// enumerated word not yet assigned wins. When every word of the enumeration
/// is already taken — which a caller observing the capacity rule never lets
/// happen — the first alphabet character alone comes back, a value that is
/// not guaranteed unique.
///
/// An empty alphabet is reported as an error, never answered with a value.
pub fn get_next_hint(current_hints: Vec<&String>, hint_chars: &str, max_count: usize) -> (r: Result<
    String,
    HintError,
>)
    requires
        max_count >= 1,
        hint_chars@.len() != 1 || max_count == 1,
    ensures
        r is Err <==> hint_chars@.len() == 0,
        r is Err ==> r->Err_0 == HintError::EmptyAlphabet,
        hint_chars@.len() >= 1 ==> exists|l: nat|
            is_min_len(hint_chars@.len(), max_count as nat, l),
        forall|l: nat|
            is_min_len(hint_chars@.len(), max_count as nat, l) && r is Ok ==> r->Ok_0@
                == spec_next_hint(hints_view(current_hints@), hint_chars@, l),
{
    let n = hint_chars.unicode_len();
    if n == 0 {
        return Err(HintError::EmptyAlphabet);
    }
    let (len, cap) = min_len_cap(n, max_count);
    let mut rev: Vec<char> = Vec::new();
    let mut i: usize = n;
    while i > 0
        invariant
            i <= n,
            n == hint_chars@.len(),
            rev@.len() == n - i,
            forall|k: int| 0 <= k < rev@.len() ==> rev@[k] == hint_chars@[n - 1 - k],
        decreases i,
    {
        i -= 1;
        rev.push(hint_chars.get_char(i));
    }
    proof {
        assert(rev@ =~= hint_chars@.reverse());
    }
    let mut ret = String::new();
    push_char(&mut ret, hint_chars.get_char(0));
    proof {
        assert(ret@ =~= seq![hint_chars@[0]]);
    }
    let ghost used = hints_view(current_hints@);
    let mut j: u128 = 0;
    while j < cap
        invariant
            j <= cap,
            n == hint_chars@.len(),
            n >= 1,
            rev@ == hint_chars@.reverse(),
            rev@.len() == n,
            used == hints_view(current_hints@),
            cap == pow(n as int, len as nat),
            match pick_last_free(rev@, len as nat, used, j as nat) {
                Some(w) => ret@ == w,
                None => ret@ == seq![hint_chars@[0]],
            },
        decreases cap - j,
    {
        let cand = word_of(&rev, len, j);
        if !hints_contain(&current_hints, &cand) {
            ret = cand;
        }
        j += 1;
        proof {
            assert(pick_last_free(rev@, len as nat, used, j as nat) == (
            if !used_contains(used, word_at(rev@, len as nat, (j - 1) as nat)) {
                Some(word_at(rev@, len as nat, (j - 1) as nat))
            } else {
                pick_last_free(rev@, len as nat, used, (j - 1) as nat)
            }));
        }
    }
    proof {
        lemma_min_len_unique_all(n as nat, max_count as nat, len as nat);
    }
    Ok(ret)
}

/// Minimality is proper: there is exactly one minimal length.
proof fn lemma_min_len_unique_all(a: nat, n: nat, l: nat)
    requires
        a >= 1,
        is_min_len(a, n, l),
    ensures
        forall|l2: nat| is_min_len(a, n, l2) ==> l2 == l,
{
    assert forall|l2: nat| is_min_len(a, n, l2) implies l2 == l by {
        lemma_min_len_unique(a, n, l, l2);
    }
}

/// Two minimal lengths for the same alphabet size and count are equal.
pub proof fn lemma_min_len_unique(a: nat, n: nat, l1: nat, l2: nat)
    requires
        a >= 1,
        is_min_len(a, n, l1),
        is_min_len(a, n, l2),
    ensures
        l1 == l2,
{
    if l1 < l2 {
        lemma_pow_increases(a, l1, (l2 - 1) as nat);
        assert(false);
    }
    if l2 < l1 {
        lemma_pow_increases(a, l2, (l1 - 1) as nat);
        assert(false);
    }
}

/// The minimal length is the smallest: the capacity of every shorter positive
/// length falls short of the count.
pub proof fn lemma_min_len_least(a: nat, n: nat, l: nat, shorter: nat)
    requires
        a >= 1,
        is_min_len(a, n, l),
        1 <= shorter < l,
    ensures
        pow(a as int, shorter) < n,
{
    lemma_pow_increases(a, shorter, (l - 1) as nat);
}

/// Every word of the enumeration has exactly the enumeration's length.
pub proof fn lemma_word_at_len(alpha: Seq<char>, len: nat, i: nat)
    requires
        alpha.len() >= 1,
    ensures
        word_at(alpha, len, i).len() == len,
    decreases len,
{
    if len > 0 {
        lemma_word_at_len(alpha, (len - 1) as nat, i / alpha.len());
    }
}

/// No two characters of the sequence are equal.
pub open spec fn distinct_chars(s: Seq<char>) -> bool {
    forall|p: int, q: int| 0 <= p < q < s.len() ==> s[p] != s[q]
}

/// Over an alphabet of pairwise distinct characters, distinct indices of the
/// enumeration give distinct words.
pub proof fn lemma_word_at_injective(alpha: Seq<char>, len: nat, i: nat, j: nat)
    requires
        alpha.len() >= 1,
        distinct_chars(alpha),
        i < pow(alpha.len() as int, len),
        j < pow(alpha.len() as int, len),
        i != j,
    ensures
        word_at(alpha, len, i) != word_at(alpha, len, j),
    decreases len,
{
    let a = alpha.len();
    if len == 0 {
        lemma_pow0(a as int);
    } else {
        lemma_pow_adds(a as int, (len - 1) as nat, 1);
        lemma_pow1(a as int);
        lemma_pow_positive(a as int, (len - 1) as nat);
        let wi = word_at(alpha, len, i);
        let wj = word_at(alpha, len, j);
        lemma_word_at_len(alpha, len, i);
        lemma_word_at_len(alpha, len, j);
        let powm1 = pow(a as int, (len - 1) as nat) as nat;
        assert(pow(a as int, len) == powm1 * a);
        if i % a == j % a {
            lemma_fundamental_div_mod(i as int, a as int);
            lemma_fundamental_div_mod(j as int, a as int);
            assert(i / a != j / a);
            assert(i < powm1 * a);
            assert(a * powm1 == powm1 * a) by (nonlinear_arith);
            assert(i < a * powm1);
            assert(j < a * powm1);
            lemma_div_below(i, a, powm1);
            lemma_div_below(j, a, powm1);
            assert(i / a < pow(a as int, (len - 1) as nat));
            assert(j / a < pow(a as int, (len - 1) as nat));
            lemma_word_at_injective(alpha, (len - 1) as nat, i / a, j / a);
            let pi = word_at(alpha, (len - 1) as nat, i / a);
            let pj = word_at(alpha, (len - 1) as nat, j / a);
            lemma_word_at_len(alpha, (len - 1) as nat, i / a);
            lemma_word_at_len(alpha, (len - 1) as nat, j / a);
            if wi == wj {
                assert(pi =~= pj) by {
                    assert forall|t: int| 0 <= t < pi.len() implies pi[t] == pj[t] by {
                        assert(wi[t] == pi[t]);
                        assert(wj[t] == pj[t]);
                    }
                }
                assert(false);
            }
        } else {
            assert(wi[len - 1] == alpha[(i % a) as int]);
            assert(wj[len - 1] == alpha[(j % a) as int]);
            assert(alpha[(i % a) as int] != alpha[(j % a) as int]) by {
                if (i % a) < (j % a) {
                    assert(0 <= (i % a) < (j % a) < a);
                } else {
                    assert(0 <= (j % a) < (i % a) < a);
                }
            }
        }
    }
}

/// If `x < a * b` then `x / a < b` (all quantities non-negative, `a > 0`).
proof fn lemma_div_below(x: nat, a: nat, b: nat)
    requires
        a >= 1,
        x < a * b,
    ensures
        x / a < b,
{
    lemma_fundamental_div_mod(x as int, a as int);
    if x / a >= b {
        assert((a as int) * ((x / a) as int) >= (a as int) * (b as int)) by (nonlinear_arith)
            requires
                a >= 1,
                (x / a) as int >= b as int,
        ;
        assert((a as int) * (b as int) == (a * b) as int) by (nonlinear_arith);
        assert(false);
    }
}

/// Fewer used codes than the enumeration's capacity leave some word of the
/// enumeration unused.
pub proof fn lemma_unused_word_exists(alpha: Seq<char>, len: nat, used: Seq<Seq<char>>)
    requires
        alpha.len() >= 1,
        distinct_chars(alpha),
        used.len() < pow(alpha.len() as int, len),
    ensures
        exists|i: nat|
            i < pow(alpha.len() as int, len) && !used_contains(used, word_at(alpha, len, i)),
{
    let cap = pow(alpha.len() as int, len);
    lemma_pow_positive(alpha.len() as int, len);
    if forall|i: nat| i < cap ==> used_contains(used, #[trigger] word_at(alpha, len, i)) {
        let idxs = set_int_range(0, cap);
        lemma_int_range(0, cap);
        let f = |i: int| word_at(alpha, len, i as nat);
        let words = idxs.map(f);
        assert(injective_on(f, idxs)) by {
            assert forall|p: int, q: int|
                idxs.contains(p) && idxs.contains(q) && #[trigger] f(p) == #[trigger] f(q)
                implies p == q by {
                if p != q {
                    lemma_word_at_injective(alpha, len, p as nat, q as nat);
                }
            }
        }
        lemma_map_size(idxs, words, f);
        let used_set = used.to_set();
        used.lemma_cardinality_of_set();
        assert(words.subset_of(used_set)) by {
            assert forall|w: Seq<char>| words.contains(w) implies used_set.contains(w) by {
                let i = choose|i: int| idxs.contains(i) && f(i) == w;
                assert(used_contains(used, word_at(alpha, len, i as nat)));
                let k = choose|k: int| 0 <= k < used.len() && used[k] == w;
                assert(used.contains(w));
            }
        }
        lemma_len_subset(words, used_set);
        assert(false);
    }
}

/// The scan finds a free word exactly when one exists among the first `k`,
/// and what it finds is a free word of the enumeration.
pub proof fn lemma_pick_finds_free(alpha: Seq<char>, len: nat, used: Seq<Seq<char>>, k: nat)
    ensures
        (exists|i: nat| i < k && !used_contains(used, #[trigger] word_at(alpha, len, i)))
            <==> pick_last_free(alpha, len, used, k) is Some,
        pick_last_free(alpha, len, used, k) matches Some(w) ==> !used_contains(used, w)
            && exists|i: nat| i < k && w == word_at(alpha, len, i),
    decreases k,
{
    if k > 0 {
        lemma_pick_finds_free(alpha, len, used, (k - 1) as nat);
        if !used_contains(used, word_at(alpha, len, (k - 1) as nat)) {
            assert(((k - 1) as nat) < k && !used_contains(
                used,
                word_at(alpha, len, (k - 1) as nat),
            ));
        } else {
            if exists|i: nat| i < k && !used_contains(used, #[trigger] word_at(alpha, len, i)) {
                let i = choose|i: nat|
                    i < k && !used_contains(used, #[trigger] word_at(alpha, len, i));
                assert(i < (k - 1) as nat + 1);
                assert(i != (k - 1) as nat);
                assert(i < (k - 1) as nat && !used_contains(used, word_at(alpha, len, i)));
            }
        }
    }
}

/// While the used codes stay below the enumeration's capacity, the generator's
/// selection is a fresh word: not yet used, and of exactly the required
/// length. The alphabet is an ordered set, so its characters are pairwise
/// distinct.
pub proof fn lemma_next_hint_fresh(used: Seq<Seq<char>>, alphabet: Seq<char>, len: nat)
    requires
        alphabet.len() >= 1,
        distinct_chars(alphabet),
        used.len() < pow(alphabet.len() as int, len),
    ensures
        !used_contains(used, spec_next_hint(used, alphabet, len)),
        spec_next_hint(used, alphabet, len).len() == len,
{
    let rev = alphabet.reverse();
    assert(rev.len() == alphabet.len());
    assert(distinct_chars(rev)) by {
        assert forall|p: int, q: int| 0 <= p < q < rev.len() implies rev[p] != rev[q] by {
            assert(rev[p] == alphabet[rev.len() - 1 - p]);
            assert(rev[q] == alphabet[rev.len() - 1 - q]);
        }
    }
    let cap = pow(alphabet.len() as int, len) as nat;
    lemma_pow_positive(alphabet.len() as int, len);
    lemma_unused_word_exists(rev, len, used);
    lemma_pick_finds_free(rev, len, used, cap);
    let w = pick_last_free(rev, len, used, cap)->0;
    let i = choose|i: nat| i < cap && w == word_at(rev, len, i);
    lemma_word_at_len(rev, len, i);
}

/// The codes of a batch, starting from the codes in `used`: each code is the
/// generator's selection over all codes seen so far, and is fed back before
/// the next one is drawn.
pub open spec fn spec_batch(used: Seq<Seq<char>>, alphabet: Seq<char>, len: nat, k: nat) -> Seq<
    Seq<char>,
>
    decreases k,
{
    if k == 0 {
        Seq::empty()
    } else {
        let prev = spec_batch(used, alphabet, len, (k - 1) as nat);
        prev.push(spec_next_hint(used + prev, alphabet, len))
    }
}

/// Sequential batch uniqueness: feeding each generated code back before the
/// next request yields pairwise distinct codes, each of the required length
/// and none of them used before, for any batch that stays within the
/// enumeration's capacity.
pub proof fn lemma_batch_unique(used: Seq<Seq<char>>, alphabet: Seq<char>, len: nat, k: nat)
    requires
        alphabet.len() >= 1,
        distinct_chars(alphabet),
        used.len() + k <= pow(alphabet.len() as int, len),
    ensures
        spec_batch(used, alphabet, len, k).len() == k,
        forall|p: int|
            0 <= p < k ==> (#[trigger] spec_batch(used, alphabet, len, k)[p]).len() == len,
        forall|p: int| 0 <= p < k ==> !used_contains(used, spec_batch(used, alphabet, len, k)[p]),
        forall|p: int, q: int|
            0 <= p < q < k ==> spec_batch(used, alphabet, len, k)[p] != spec_batch(
                used,
                alphabet,
                len,
                k,
            )[q],
    decreases k,
{
    if k > 0 {
        lemma_batch_unique(used, alphabet, len, (k - 1) as nat);
        let prev = spec_batch(used, alphabet, len, (k - 1) as nat);
        let fresh = spec_next_hint(used + prev, alphabet, len);
        lemma_next_hint_fresh(used + prev, alphabet, len);
        let cur = spec_batch(used, alphabet, len, k);
        assert(cur == prev.push(fresh));
        assert forall|p: int| 0 <= p < k implies !used_contains(used, cur[p]) by {
            if p < k - 1 {
                assert(cur[p] == prev[p]);
            } else {
                assert(cur[p] == fresh);
                if used_contains(used, fresh) {
                    let t = choose|t: int| 0 <= t < used.len() && used[t] == fresh;
                    assert((used + prev)[t] == fresh);
                    assert(used_contains(used + prev, fresh));
                }
            }
        }
        assert forall|p: int, q: int| 0 <= p < q < k implies cur[p] != cur[q] by {
            if q < k - 1 {
                assert(cur[p] == prev[p] && cur[q] == prev[q]);
            } else {
                assert(cur[q] == fresh && cur[p] == prev[p]);
                if prev[p] == fresh {
                    assert((used + prev)[used.len() + p] == fresh);
                    assert(used_contains(used + prev, fresh));
                }
            }
        }
    }
}

} // verus!
