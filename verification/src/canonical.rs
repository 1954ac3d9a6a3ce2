//! DKIM "simple" body canonicalization: CRLF line endings, trailing
//! horizontal whitespace stripped from every line, trailing blank lines
//! dropped, and exactly one terminating CRLF — an empty or all-blank
//! body canonicalizes to a single CRLF.

use vstd::prelude::*;

use crate::chars::{
    all_ws, chars_to_string, is_hws, is_hws_char, is_ws, rest_all_ws, str_to_chars, trim_end_hws,
    lemma_trim_end_hws_take, subvec,
};
use crate::normalize::{crlf, is_normalized, lemma_normalize_fixed, lemma_normalize_is_normalized,
    normalize_chars, normalize_crlf};

verus! {

/// The index of the first carriage return, or the length if there is
/// none.
pub open spec fn first_cr(s: Seq<char>) -> nat
    decreases s.len(),
{
    if s.len() == 0 {
        0
    } else if s[0] == '\r' {
        0
    } else {
        1 + first_cr(s.skip(1))
    }
}

/// `first_cr` points at the first carriage return.
pub proof fn lemma_first_cr(s: Seq<char>)
    ensures
        first_cr(s) <= s.len(),
        first_cr(s) < s.len() ==> s[first_cr(s) as int] == '\r',
        forall|j: int| 0 <= j < first_cr(s) ==> s[j] != '\r',
    decreases s.len(),
{
    if s.len() == 0 {
    } else if s[0] == '\r' {
    } else {
        lemma_first_cr(s.skip(1));
        assert forall|j: int| 0 <= j < first_cr(s) implies s[j] != '\r' by {
            if j > 0 {
                assert(s.skip(1)[j - 1] == s[j]);
            }
        }
        if first_cr(s) < s.len() {
            assert(s.skip(1)[first_cr(s.skip(1)) as int] == s[first_cr(s) as int]);
        }
    }
}

/// A carriage-return-free prefix shifts `first_cr` past itself.
pub proof fn lemma_first_cr_concat(x: Seq<char>, y: Seq<char>)
    requires
        forall|j: int| 0 <= j < x.len() ==> #[trigger] x[j] != '\r',
        y.len() > 0 && y[0] == '\r',
    ensures
        first_cr(x + y) == x.len(),
    decreases x.len(),
{
    if x.len() == 0 {
        assert(x + y =~= y);
    } else {
        assert((x + y)[0] == x[0]);
        assert((x + y).skip(1) =~= x.skip(1) + y);
        assert forall|j: int| 0 <= j < x.skip(1).len() implies #[trigger] x.skip(1)[j] != '\r' by {
            assert(x.skip(1)[j] == x[j + 1]);
        }
        lemma_first_cr_concat(x.skip(1), y);
    }
}

/// The boundary that trimming trailing horizontal whitespace leaves:
/// everything from here on is a space or tab, and the character just
/// before is not.
pub open spec fn hws_end(t: Seq<char>) -> int
    decreases t.len(),
{
    if t.len() > 0 && is_hws(t.last()) {
        hws_end(t.drop_last())
    } else {
        t.len() as int
    }
}

/// `trim_end_hws` keeps exactly the prefix up to `hws_end`.
pub proof fn lemma_hws_end(t: Seq<char>)
    ensures
        0 <= hws_end(t) <= t.len(),
        trim_end_hws(t) == t.take(hws_end(t)),
        forall|j: int| hws_end(t) <= j < t.len() ==> is_hws(#[trigger] t[j]),
        hws_end(t) > 0 ==> !is_hws(t[hws_end(t) - 1]),
    decreases t.len(),
{
    if t.len() > 0 && is_hws(t.last()) {
        lemma_hws_end(t.drop_last());
        assert(t.drop_last().take(hws_end(t.drop_last())) =~= t.take(hws_end(t))) by {
            assert(hws_end(t) == hws_end(t.drop_last()));
        }
        assert forall|j: int| hws_end(t) <= j < t.len() implies is_hws(#[trigger] t[j]) by {
            if j < t.len() - 1 {
                assert(t.drop_last()[j] == t[j]);
            }
        }
    } else {
        assert(t.take(t.len() as int) =~= t);
    }
}

/// The canonical form of a normalized body tail: blank tails vanish;
/// otherwise the first line is trimmed and terminated with CRLF and the
/// rest follows canonically.
pub open spec fn canon_rest(s: Seq<char>) -> Seq<char>
    decreases s.len(),
{
    if all_ws(s) {
        Seq::empty()
    } else {
        let e = first_cr(s) as int;
        if e + 2 <= s.len() {
            trim_end_hws(s.take(e)) + crlf() + canon_rest(s.skip(e + 2))
        } else {
            trim_end_hws(s.take(e)) + crlf()
        }
    }
}

/// The "simple" body canonicalization of an arbitrary body: normalize
/// line endings, trim every line end, drop trailing blank lines, and
/// guarantee a single terminating CRLF (a blank body becomes one CRLF).
pub open spec fn canonical_simple(s: Seq<char>) -> Seq<char> {
    let c = canon_rest(normalize_crlf(s));
    if c.len() == 0 {
        crlf()
    } else {
        c
    }
}

/// Dropping a leading CRLF-terminated line of a normalized sequence
/// leaves a normalized sequence.
proof fn lemma_normalized_skip(s: Seq<char>, k: int)
    requires
        is_normalized(s),
        0 <= k <= s.len(),
        k >= 2 && s[k - 1] == '\n',
    ensures
        is_normalized(s.skip(k)),
{
    assert forall|i: int|
        0 <= i < s.skip(k).len() && #[trigger] s.skip(k)[i] == '\r' implies i + 1 < s.skip(k).len()
        && s.skip(k)[i + 1] == '\n' by {
        assert(s[i + k] == '\r');
    }
    assert forall|i: int|
        0 <= i < s.skip(k).len() && #[trigger] s.skip(k)[i] == '\n' implies i > 0 && s.skip(k)[i - 1]
        == '\r' by {
        assert(s[i + k] == '\n');
        assert(s[i + k - 1] == '\r');
        if i == 0 {
            assert(s[k - 1] == '\n' && s[k - 1] == '\r');
        }
    }
}

/// A normalized, not-all-blank tail keeps a non-whitespace character
/// through canonicalization.
proof fn lemma_canon_rest_nonws(s: Seq<char>)
    requires
        is_normalized(s),
        !all_ws(s),
    ensures
        canon_rest(s).len() > 0,
        !all_ws(canon_rest(s)),
    decreases s.len(),
{
    lemma_first_cr(s);
    let e = first_cr(s) as int;
    let t = s.take(e);
    lemma_hws_end(t);
    let b = hws_end(t);
    let tt = trim_end_hws(t);
    let c = canon_rest(s);
    if e + 2 <= s.len() {
        assert(s[e] == '\r');
        assert(s[e + 1] == '\n');
        if all_ws(s.skip(e + 2)) {
            let k = choose|k: int| 0 <= k < s.len() && !is_ws(s[k]);
            assert(!is_ws(s[k]));
            assert(k != e && k != e + 1);
            if k > e + 1 {
                assert(is_ws(s.skip(e + 2)[k - e - 2]));
                assert(false);
            }
            assert(k < e);
            assert(k < b) by {
                if k >= b {
                    assert(is_hws(t[k]));
                }
            }
            assert(c[k] == tt[k] && tt[k] == t[k] && t[k] == s[k]);
            assert(!is_ws(c[k]) && 0 <= k < c.len());
            assert(!all_ws(c));
        } else {
            lemma_normalized_skip(s, e + 2);
            lemma_canon_rest_nonws(s.skip(e + 2));
            let c2 = canon_rest(s.skip(e + 2));
            let k2 = choose|k: int| 0 <= k < c2.len() && !is_ws(c2[k]);
            assert(c[tt.len() + 2 + k2] == c2[k2]);
            assert(!is_ws(c[tt.len() + 2 + k2]));
            assert(!all_ws(c));
        }
    } else {
        assert(e == s.len()) by {
            if e < s.len() {
                assert(s[e] == '\r');
                assert(e + 1 < s.len() && s[e + 1] == '\n');
            }
        }
        assert(t =~= s);
        let k = choose|k: int| 0 <= k < s.len() && !is_ws(s[k]);
        assert(!is_ws(s[k]));
        assert(k < b) by {
            if k >= b {
                assert(is_hws(t[k]));
            }
        }
        assert(c[k] == tt[k] && tt[k] == t[k]);
        assert(!is_ws(c[k]) && 0 <= k < c.len());
        assert(!all_ws(c));
    }
}

/// A break-free trimmed line, CRLF, and a canonical normalized tail
/// together form a normalized fixed point of canonicalization.
proof fn lemma_canon_rest_line(tt: Seq<char>, c2: Seq<char>)
    requires
        forall|j: int| 0 <= j < tt.len() ==> #[trigger] tt[j] != '\r' && tt[j] != '\n',
        trim_end_hws(tt) == tt,
        !all_ws(tt + crlf() + c2),
        canon_rest(c2) == c2,
        is_normalized(c2),
    ensures
        is_normalized(tt + crlf() + c2),
        canon_rest(tt + crlf() + c2) == tt + crlf() + c2,
{
    let c = tt + crlf() + c2;
    assert(is_normalized(c)) by {
        assert forall|i: int|
            0 <= i < c.len() && #[trigger] c[i] == '\r' implies i + 1 < c.len() && c[i + 1]
            == '\n' by {
            if i < tt.len() {
                assert(c[i] == tt[i]);
            } else if i == tt.len() {
                assert(c[i + 1] == '\n');
            } else if i == tt.len() + 1 {
                assert(c[i] == '\n');
            } else {
                assert(c[i] == c2[i - tt.len() - 2]);
                assert(c2[i - tt.len() - 2 + 1] == '\n');
                assert(c[i + 1] == c2[i - tt.len() - 1]);
            }
        }
        assert forall|i: int|
            0 <= i < c.len() && #[trigger] c[i] == '\n' implies i > 0 && c[i - 1] == '\r' by {
            if i < tt.len() {
                assert(c[i] == tt[i]);
            } else if i == tt.len() {
                assert(c[i] == '\r');
            } else if i == tt.len() + 1 {
                assert(c[i - 1] == '\r');
            } else {
                assert(c[i] == c2[i - tt.len() - 2]);
                assert(i - tt.len() - 2 > 0 && c2[i - tt.len() - 3] == '\r');
                assert(c[i - 1] == c2[i - tt.len() - 3]);
            }
        }
    }
    assert(first_cr(c) == tt.len()) by {
        assert((crlf() + c2).len() > 0 && (crlf() + c2)[0] == '\r');
        lemma_first_cr_concat(tt, crlf() + c2);
        assert(tt + (crlf() + c2) =~= c);
    }
    assert(tt.len() + 2 <= c.len());
    assert(c.take(tt.len() as int) =~= tt);
    assert(c.skip(tt.len() as int + 2) =~= c2);
    assert(canon_rest(c) == trim_end_hws(c.take(first_cr(c) as int)) + crlf() + canon_rest(
        c.skip(first_cr(c) as int + 2),
    ));
    assert(canon_rest(c) == c);
}

/// The canonical form of a normalized sequence is itself normalized and
/// a fixed point of canonicalization.
proof fn lemma_canon_rest_fixed(s: Seq<char>)
    requires
        is_normalized(s),
    ensures
        is_normalized(canon_rest(s)),
        canon_rest(canon_rest(s)) == canon_rest(s),
    decreases s.len(),
{
    if all_ws(s) {
        assert(canon_rest(s) =~= Seq::<char>::empty());
        assert(all_ws(Seq::<char>::empty()));
        assert(canon_rest(Seq::<char>::empty()) =~= Seq::<char>::empty());
    } else {
        lemma_first_cr(s);
        let e = first_cr(s) as int;
        let t = s.take(e);
        lemma_hws_end(t);
        let b = hws_end(t);
        let tt = trim_end_hws(t);
        let c = canon_rest(s);
        // the trimmed line holds no break characters
        assert forall|j: int| 0 <= j < tt.len() implies #[trigger] tt[j] != '\r' && tt[j] != '\n' by {
            assert(tt[j] == t[j] && t[j] == s[j] && j < e);
            if s[j] == '\n' {
                assert(j > 0 && s[j - 1] == '\r');
            }
        }
        // trimming is idempotent on the trimmed line
        assert(trim_end_hws(tt) == tt) by {
            if b > 0 {
                assert(tt.last() == t[b - 1]);
                assert(!is_hws(tt.last()));
            }
        }
        lemma_canon_rest_nonws(s);
        if e + 2 <= s.len() {
            assert(s[e] == '\r');
            lemma_normalized_skip(s, e + 2);
            lemma_canon_rest_fixed(s.skip(e + 2));
            let c2 = canon_rest(s.skip(e + 2));
            assert(c == tt + crlf() + c2);
            lemma_canon_rest_line(tt, c2);
        } else {
            assert(e == s.len()) by {
                if e < s.len() {
                    assert(s[e] == '\r');
                    assert(e + 1 < s.len() && s[e + 1] == '\n');
                }
            }
            assert(t =~= s);
            assert(c == tt + crlf());
            assert(all_ws(Seq::<char>::empty()));
            assert(canon_rest(Seq::<char>::empty()) =~= Seq::<char>::empty());
            assert(is_normalized(Seq::<char>::empty()));
            assert(c =~= tt + crlf() + Seq::<char>::empty());
            lemma_canon_rest_line(tt, Seq::<char>::empty());
        }
    }
}

/// Law: "simple" canonicalization is idempotent — applying it twice
/// yields the same result as applying it once, for every body.
pub proof fn lemma_canonical_simple_idempotent(s: Seq<char>)
    ensures
        canonical_simple(canonical_simple(s)) == canonical_simple(s),
{
    let n = normalize_crlf(s);
    lemma_normalize_is_normalized(s);
    let c = canon_rest(n);
    if c.len() == 0 {
        assert(is_normalized(crlf())) by {
            assert(crlf()[0] == '\r' && crlf()[1] == '\n');
        }
        lemma_normalize_fixed(crlf());
        assert(all_ws(crlf())) by {
            assert(is_ws(crlf()[0]) && is_ws(crlf()[1]));
        }
        assert(canon_rest(crlf()) =~= Seq::<char>::empty());
    } else {
        lemma_canon_rest_fixed(n);
        lemma_normalize_fixed(c);
    }
}

/// Returns the index of the first carriage return at or after `from`,
/// or the length if there is none.
fn find_cr(v: &Vec<char>, from: usize) -> (r: usize)
    requires
        from <= v@.len(),
    ensures
        from <= r <= v@.len(),
        r - from == first_cr(v@.skip(from as int)),
        r < v@.len() ==> v@[r as int] == '\r',
        forall|j: int| from <= j < r ==> v@[j] != '\r',
{
    let ghost rest = v@.skip(from as int);
    let mut i: usize = from;
    while i < v.len()
        invariant
            from <= i <= v@.len(),
            rest == v@.skip(from as int),
            forall|j: int| from <= j < i ==> v@[j] != '\r',
        decreases v@.len() - i,
    {
        if v[i] == '\r' {
            proof {
                lemma_first_cr(rest);
                assert forall|j: int| 0 <= j < i - from implies rest[j] != '\r' by {
                    assert(rest[j] == v@[j + from]);
                }
                assert(rest[i - from] == v@[i as int]);
                if first_cr(rest) < i - from {
                    assert(rest[first_cr(rest) as int] == '\r');
                }
            }
            return i;
        }
        i += 1;
    }
    proof {
        lemma_first_cr(rest);
        assert forall|j: int| 0 <= j < rest.len() implies rest[j] != '\r' by {
            assert(rest[j] == v@[j + from]);
        }
        if first_cr(rest) < rest.len() {
            assert(rest[first_cr(rest) as int] == '\r');
        }
    }
    v.len()
}

/// Returns the boundary of the trailing run of spaces and tabs in
/// `v[from..e]`.
fn scan_back_hws(v: &Vec<char>, from: usize, e: usize) -> (b: usize)
    requires
        from <= e <= v@.len(),
    ensures
        from <= b <= e,
        forall|j: int| b <= j < e ==> is_hws(#[trigger] v@[j]),
        b > from ==> !is_hws(v@[b - 1]),
    decreases e,
{
    let mut b: usize = e;
    while b > from
        invariant
            from <= b <= e <= v@.len(),
            forall|j: int| b <= j < e ==> is_hws(#[trigger] v@[j]),
        decreases b,
    {
        if !is_hws_char(v[b - 1]) {
            return b;
        }
        b -= 1;
    }
    b
}

/// Canonicalizes a raw email body with the DKIM "simple" body algorithm:
/// CRLF line endings, line ends trimmed of spaces and tabs, trailing
/// blank lines removed, and exactly one terminating CRLF; an empty or
/// all-whitespace body yields a single CRLF.
pub fn canonicalize_body_simple(body: &str) -> (r: String)
    ensures
        r@ == canonical_simple(body@),
{
    let chars = str_to_chars(body);
    let n = normalize_chars(&chars);
    proof {
        lemma_normalize_is_normalized(chars@);
    }
    let mut out: Vec<char> = Vec::new();
    let mut i: usize = 0;
    proof {
        assert(n@.skip(0) =~= n@);
        assert(out@ + canon_rest(n@) =~= canon_rest(n@));
    }
    while i < n.len()
        invariant
            i <= n@.len(),
            is_normalized(n@),
            out@ + canon_rest(n@.skip(i as int)) == canon_rest(n@),
        decreases n@.len() - i,
    {
        let ghost pre = out@;
        let ghost rest = n@.skip(i as int);
        if rest_all_ws(&n, i) {
            proof {
                assert(canon_rest(rest) =~= Seq::<char>::empty());
                assert(pre + Seq::<char>::empty() =~= pre);
                assert(n@.skip(n@.len() as int) =~= Seq::<char>::empty());
                assert(all_ws(n@.skip(n@.len() as int)));
                assert(pre + canon_rest(n@.skip(n@.len() as int)) =~= pre);
            }
            i = n.len();
        } else {
            let e = find_cr(&n, i);
            let b = scan_back_hws(&n, i, e);
            proof {
                assert(rest.take(e - i) =~= n@.subrange(i as int, e as int));
                lemma_trim_end_hws_take(rest.take(e - i), b - i);
                assert(rest.take(e - i).take(b - i) =~= n@.subrange(i as int, b as int));
            }
            let mut seg = subvec(&n, i, b);
            out.append(&mut seg);
            out.push('\r');
            out.push('\n');
            if n.len() - e >= 2 {
                proof {
                    assert(rest.skip(e - i + 2) =~= n@.skip(e as int + 2));
                    assert(canon_rest(rest) == trim_end_hws(rest.take(e - i)) + crlf()
                        + canon_rest(rest.skip(e - i + 2)));
                    assert(pre + canon_rest(rest) =~= out@ + canon_rest(n@.skip(e as int + 2)));
                }
                i = e + 2;
            } else {
                proof {
                    assert(canon_rest(rest) == trim_end_hws(rest.take(e - i)) + crlf());
                    assert(pre + canon_rest(rest) =~= out@);
                    assert(n@.skip(n@.len() as int) =~= Seq::<char>::empty());
                    assert(all_ws(n@.skip(n@.len() as int)));
                    assert(out@ + canon_rest(n@.skip(n@.len() as int)) =~= out@);
                }
                i = n.len();
            }
        }
    }
    proof {
        assert(n@.skip(n@.len() as int) =~= Seq::<char>::empty());
        assert(all_ws(Seq::<char>::empty()));
        assert(out@ + canon_rest(Seq::<char>::empty()) =~= out@);
        assert(out@ == canon_rest(n@));
    }
    if out.len() == 0 {
        out.push('\r');
        out.push('\n');
        proof {
            assert(out@ =~= crlf());
        }
    }
    chars_to_string(&out)
}

} // verus!
