//! Token extraction for the spam-filter text pipeline: lowercased
//! alphanumeric words of three to fifty characters, duplicates removed,
//! sorted.
//!
//! Lowercasing and the word classes are ASCII: text beyond ASCII passes
//! through unchanged and never enters a token, so results can differ
//! from a Unicode-aware tokenizer on non-ASCII text.

use vstd::prelude::*;

use crate::chars::{chars_to_string, lower, str_to_chars, subvec, to_lower_chars};

verus! {

/// A word character of the tokenizer: a lowercase letter, a digit, or
/// an underscore (underscores bind runs together but disqualify them).
pub open spec fn is_word_char(c: char) -> bool {
    ('a' <= c && c <= 'z') || ('0' <= c && c <= '9') || c == '_'
}

/// The end of the maximal run of word characters starting at `b`.
pub open spec fn word_end(s: Seq<char>, b: int) -> int
    decreases s.len() - b,
{
    if 0 <= b < s.len() && is_word_char(s[b]) {
        word_end(s, b + 1)
    } else {
        b
    }
}

/// `word_end` points past the last word character of the run.
pub proof fn lemma_word_end(s: Seq<char>, b: int)
    requires
        0 <= b <= s.len(),
    ensures
        b <= word_end(s, b) <= s.len(),
        forall|j: int| b <= j < word_end(s, b) ==> is_word_char(#[trigger] s[j]),
        word_end(s, b) < s.len() ==> !is_word_char(s[word_end(s, b)]),
    decreases s.len() - b,
{
    if 0 <= b < s.len() && is_word_char(s[b]) {
        lemma_word_end(s, b + 1);
    }
}

/// A keepable token: three to fifty characters, no underscore.
pub open spec fn token_ok(t: Seq<char>) -> bool {
    3 <= t.len() <= 50 && (forall|i: int| 0 <= i < t.len() ==> #[trigger] t[i] != '_')
}

/// The keepable tokens of a lowered text from position `i` on, in order
/// of appearance: each maximal word-character run that qualifies.
pub open spec fn tokens_from(s: Seq<char>, i: int) -> Seq<Seq<char>>
    decreases s.len() - i,
{
    if !(0 <= i < s.len()) {
        Seq::empty()
    } else if !is_word_char(s[i]) {
        tokens_from(s, i + 1)
    } else {
        let e0 = word_end(s, i + 1);
        let e = if i < e0 <= s.len() {
            e0
        } else {
            i + 1
        };
        let tok = s.subrange(i, e);
        (if token_ok(tok) {
            seq![tok]
        } else {
            Seq::<Seq<char>>::empty()
        }) + tokens_from(s, e)
    }
}

/// The keepable tokens of a text, after ASCII lowercasing, in order of
/// appearance.
pub open spec fn tokens_of(s: Seq<char>) -> Seq<Seq<char>> {
    tokens_from(lower(s), 0)
}

/// Strict lexicographic order on character sequences, by code point: a
/// proper prefix comes first, otherwise the first differing character
/// decides.
pub open spec fn lex_lt(a: Seq<char>, b: Seq<char>) -> bool
    decreases a.len(),
{
    if b.len() == 0 {
        false
    } else if a.len() == 0 {
        true
    } else if a[0] != b[0] {
        (a[0] as u32) < (b[0] as u32)
    } else {
        lex_lt(a.drop_first(), b.drop_first())
    }
}

/// Ordered insertion into a sorted, duplicate-free token list: the
/// token is dropped if already present, else placed before the first
/// element not below it.
pub open spec fn insert_sorted(ts: Seq<Seq<char>>, t: Seq<char>) -> Seq<Seq<char>>
    decreases ts.len(),
{
    if ts.len() == 0 {
        seq![t]
    } else if lex_lt(ts[0], t) {
        seq![ts[0]] + insert_sorted(ts.drop_first(), t)
    } else if ts[0] == t {
        ts
    } else {
        seq![t] + ts
    }
}

/// The sorted, duplicate-free form of a token list.
pub open spec fn sort_dedup(ts: Seq<Seq<char>>) -> Seq<Seq<char>>
    decreases ts.len(),
{
    if ts.len() == 0 {
        Seq::empty()
    } else {
        insert_sorted(sort_dedup(ts.drop_last()), ts.last())
    }
}

/// Inserting after exactly the elements below `t` is what ordered
/// insertion does: the list is unchanged when `t` already stands at the
/// scan position, else `t` enters there.
proof fn lemma_insert_sorted_at(ts: Seq<Seq<char>>, t: Seq<char>, p: int)
    requires
        0 <= p <= ts.len(),
        forall|j: int| 0 <= j < p ==> lex_lt(#[trigger] ts[j], t),
        p < ts.len() ==> !lex_lt(ts[p], t),
    ensures
        (p < ts.len() && ts[p] == t) ==> insert_sorted(ts, t) == ts,
        !(p < ts.len() && ts[p] == t) ==> insert_sorted(ts, t) == ts.take(p) + seq![t] + ts.skip(
            p,
        ),
    decreases p,
{
    if p == 0 {
        if ts.len() == 0 {
            assert(ts.take(0) + seq![t] + ts.skip(0) =~= seq![t]);
        } else if ts[0] == t {
        } else {
            assert(ts.take(0) + seq![t] + ts.skip(0) =~= seq![t] + ts);
        }
    } else {
        assert(lex_lt(ts[0], t));
        assert(ts.drop_first() =~= ts.skip(1));
        assert forall|j: int| 0 <= j < p - 1 implies lex_lt(#[trigger] ts.skip(1)[j], t) by {
            assert(ts.skip(1)[j] == ts[j + 1]);
        }
        if p - 1 < ts.skip(1).len() {
            assert(ts.skip(1)[p - 1] == ts[p]);
        }
        lemma_insert_sorted_at(ts.skip(1), t, p - 1);
        if p < ts.len() && ts[p] == t {
            assert(insert_sorted(ts.skip(1), t) == ts.skip(1));
            assert(seq![ts[0]] + ts.skip(1) =~= ts);
        } else {
            assert(insert_sorted(ts.skip(1), t) == ts.skip(1).take(p - 1) + seq![t] + ts.skip(
                1,
            ).skip(p - 1));
            assert(seq![ts[0]] + (ts.skip(1).take(p - 1) + seq![t] + ts.skip(1).skip(p - 1)) =~= ts.take(
                p,
            ) + seq![t] + ts.skip(p));
        }
    }
}

/// Whether a character is a word character.
fn is_word_char_exec(c: char) -> (r: bool)
    ensures
        r == is_word_char(c),
{
    ('a' <= c && c <= 'z') || ('0' <= c && c <= '9') || c == '_'
}

/// Compares two character vectors.
fn chars_eq(a: &Vec<char>, b: &Vec<char>) -> (r: bool)
    ensures
        r == (a@ == b@),
{
    if a.len() != b.len() {
        return false;
    }
    let mut i: usize = 0;
    while i < a.len()
        invariant
            i <= a@.len(),
            a@.len() == b@.len(),
            forall|j: int| 0 <= j < i ==> a@[j] == b@[j],
        decreases a@.len() - i,
    {
        if a[i] != b[i] {
            return false;
        }
        i += 1;
    }
    proof {
        assert(a@ =~= b@);
    }
    true
}

/// Compares two character vectors in the lexicographic order.
fn lex_lt_exec(a: &Vec<char>, b: &Vec<char>) -> (r: bool)
    ensures
        r == lex_lt(a@, b@),
{
    let mut i: usize = 0;
    proof {
        assert(a@.skip(0) =~= a@);
        assert(b@.skip(0) =~= b@);
    }
    while i < a.len() && i < b.len()
        invariant
            i <= a@.len(),
            i <= b@.len(),
            lex_lt(a@, b@) == lex_lt(a@.skip(i as int), b@.skip(i as int)),
        decreases a@.len() - i,
    {
        proof {
            assert(a@.skip(i as int)[0] == a@[i as int]);
            assert(b@.skip(i as int)[0] == b@[i as int]);
        }
        if a[i] != b[i] {
            return (a[i] as u32) < (b[i] as u32);
        }
        proof {
            assert(a@.skip(i as int).drop_first() =~= a@.skip(i as int + 1));
            assert(b@.skip(i as int).drop_first() =~= b@.skip(i as int + 1));
        }
        i += 1;
    }
    proof {
        let ra = a@.skip(i as int);
        let rb = b@.skip(i as int);
        if i == b@.len() {
            assert(rb.len() == 0);
            assert(!lex_lt(ra, rb));
        } else {
            assert(ra.len() == 0 && rb.len() > 0);
            assert(lex_lt(ra, rb));
        }
    }
    a.len() < b.len()
}

/// Whether a collected run qualifies as a token.
fn token_ok_exec(t: &Vec<char>) -> (r: bool)
    ensures
        r == token_ok(t@),
{
    if t.len() < 3 || t.len() > 50 {
        return false;
    }
    let mut i: usize = 0;
    while i < t.len()
        invariant
            i <= t@.len(),
            forall|j: int| 0 <= j < i ==> #[trigger] t@[j] != '_',
        decreases t@.len() - i,
    {
        if t[i] == '_' {
            return false;
        }
        i += 1;
    }
    true
}

/// Extracts the unique keepable tokens of a text: the text is
/// ASCII-lowercased (characters beyond ASCII are kept as they are),
/// split into maximal runs of letters, digits and underscores, and each
/// run of three to fifty characters without an underscore is kept once,
/// in ascending lexicographic (code point) order.
pub fn extract_tokens(text: &str) -> (r: Vec<String>)
    ensures
        r@.map_values(|t: String| t@) == sort_dedup(tokens_of(text@)),
{
    let chars = str_to_chars(text);
    let lowered = to_lower_chars(&chars);
    let ghost ls = lowered@;
    let mut toks: Vec<Vec<char>> = Vec::new();
    let mut i: usize = 0;
    proof {
        assert(toks@.map_values(|t: Vec<char>| t@) + tokens_from(ls, 0) =~= tokens_from(ls, 0));
    }
    while i < lowered.len()
        invariant
            i <= lowered@.len(),
            ls == lowered@,
            toks@.map_values(|t: Vec<char>| t@) + tokens_from(ls, i as int) == tokens_from(ls, 0),
        decreases lowered@.len() - i,
    {
        let ghost pre = toks@.map_values(|t: Vec<char>| t@);
        if is_word_char_exec(lowered[i]) {
            let mut e: usize = i + 1;
            while e < lowered.len() && is_word_char_exec(lowered[e])
                invariant
                    i + 1 <= e <= lowered@.len(),
                    ls == lowered@,
                    word_end(ls, i as int + 1) == word_end(ls, e as int),
                decreases lowered@.len() - e,
            {
                e += 1;
            }
            proof {
                assert(word_end(ls, e as int) == e);
            }
            let tok = subvec(&lowered, i, e);
            let keep = token_ok_exec(&tok);
            if keep {
                toks.push(tok);
            }
            proof {
                let e0 = word_end(ls, i as int + 1);
                assert(e0 == e);
                assert(ls.subrange(i as int, e as int) == tok@);
                if keep {
                    assert(tokens_from(ls, i as int) == seq![tok@] + tokens_from(ls, e as int));
                    assert(toks@.map_values(|t: Vec<char>| t@) =~= pre + seq![tok@]);
                    assert(toks@.map_values(|t: Vec<char>| t@) + tokens_from(ls, e as int)
                        =~= pre + tokens_from(ls, i as int));
                } else {
                    assert(tokens_from(ls, i as int) =~= Seq::<Seq<char>>::empty() + tokens_from(
                        ls,
                        e as int,
                    ));
                    assert(tokens_from(ls, i as int) =~= tokens_from(ls, e as int));
                }
            }
            i = e;
        } else {
            proof {
                assert(tokens_from(ls, i as int) == tokens_from(ls, i as int + 1));
            }
            i += 1;
        }
    }
    proof {
        assert(tokens_from(ls, ls.len() as int) =~= Seq::<Seq<char>>::empty());
        assert(toks@.map_values(|t: Vec<char>| t@) + Seq::<Seq<char>>::empty() =~= toks@.map_values(
            |t: Vec<char>| t@,
        ));
        assert(lower(chars@) == ls);
        assert(toks@.map_values(|t: Vec<char>| t@) == tokens_of(text@));
    }
    let ghost all = toks@.map_values(|t: Vec<char>| t@);
    let mut uniq: Vec<Vec<char>> = Vec::new();
    let mut k: usize = 0;
    proof {
        assert(all.take(0) =~= Seq::<Seq<char>>::empty());
        assert(uniq@.map_values(|t: Vec<char>| t@) =~= sort_dedup(all.take(0)));
    }
    while k < toks.len()
        invariant
            k <= toks@.len(),
            all == toks@.map_values(|t: Vec<char>| t@),
            uniq@.map_values(|t: Vec<char>| t@) == sort_dedup(all.take(k as int)),
        decreases toks@.len() - k,
    {
        let ghost pre = uniq@.map_values(|t: Vec<char>| t@);
        proof {
            assert(all.take(k as int + 1).drop_last() =~= all.take(k as int));
            assert(all.take(k as int + 1).last() == all[k as int]);
        }
        let tok = &toks[k];
        let mut p: usize = 0;
        while p < uniq.len() && lex_lt_exec(&uniq[p], tok)
            invariant
                p <= uniq@.len(),
                k < all.len(),
                tok@ == all[k as int],
                pre == uniq@.map_values(|t: Vec<char>| t@),
                forall|j: int| 0 <= j < p ==> lex_lt(#[trigger] pre[j], all[k as int]),
            decreases uniq@.len() - p,
        {
            proof {
                assert(pre[p as int] == uniq@[p as int]@);
            }
            p += 1;
        }
        proof {
            if p < uniq.len() {
                assert(pre[p as int] == uniq@[p as int]@);
            }
            lemma_insert_sorted_at(pre, all[k as int], p as int);
        }
        if p < uniq.len() && chars_eq(&uniq[p], tok) {
            proof {
                assert(pre[p as int] == all[k as int]);
                assert(insert_sorted(pre, all[k as int]) == pre);
            }
        } else {
            let copy = subvec(tok, 0, tok.len());
            proof {
                let ghost tk = toks@[k as int]@;
                assert(tk.subrange(0, tk.len() as int) =~= tk);
            }
            uniq.insert(p, copy);
            proof {
                assert(uniq@.map_values(|t: Vec<char>| t@) =~= pre.take(p as int) + seq![
                    all[k as int],
                ] + pre.skip(p as int));
            }
        }
        k += 1;
    }
    proof {
        assert(all.take(all.len() as int) =~= all);
    }
    let mut out: Vec<String> = Vec::new();
    let mut m: usize = 0;
    let ghost u = uniq@.map_values(|t: Vec<char>| t@);
    proof {
        assert(out@.map_values(|t: String| t@) =~= u.take(0));
    }
    while m < uniq.len()
        invariant
            m <= uniq@.len(),
            u == uniq@.map_values(|t: Vec<char>| t@),
            out@.map_values(|t: String| t@) == u.take(m as int),
        decreases uniq@.len() - m,
    {
        let ghost pre = out@.map_values(|t: String| t@);
        let s = chars_to_string(&uniq[m]);
        out.push(s);
        proof {
            assert(out@.map_values(|t: String| t@) =~= pre + seq![u[m as int]]);
            assert(pre + seq![u[m as int]] =~= u.take(m as int + 1));
        }
        m += 1;
    }
    proof {
        assert(u.take(u.len() as int) =~= u);
    }
    out
}

} // verus!
