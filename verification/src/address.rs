//! Address extraction from header values such as `From` or `Reply-To`:
//! an angle-bracketed address (`Name <user@site.example>`) takes
//! precedence; otherwise the value is scanned for a bare address.
//!
//! The bare-address character classes and word boundaries are ASCII, so
//! values holding non-ASCII text can scan differently than under a
//! Unicode-aware matcher.

use vstd::prelude::*;

use crate::chars::{chars_to_string, str_to_chars, subvec};
use crate::errors::DkimError;

verus! {

/// The index of the first closing angle bracket, or the length if there
/// is none.
pub open spec fn first_gt(s: Seq<char>) -> nat
    decreases s.len(),
{
    if s.len() == 0 {
        0
    } else if s[0] == '>' {
        0
    } else {
        1 + first_gt(s.skip(1))
    }
}

/// `first_gt` points at the first closing angle bracket.
pub proof fn lemma_first_gt(s: Seq<char>)
    ensures
        first_gt(s) <= s.len(),
        first_gt(s) < s.len() ==> s[first_gt(s) as int] == '>',
        forall|j: int| 0 <= j < first_gt(s) ==> s[j] != '>',
    decreases s.len(),
{
    if s.len() == 0 {
    } else if s[0] == '>' {
    } else {
        lemma_first_gt(s.skip(1));
        assert forall|j: int| 0 <= j < first_gt(s) implies s[j] != '>' by {
            if j > 0 {
                assert(s.skip(1)[j - 1] == s[j]);
            }
        }
        if first_gt(s) < s.len() {
            assert(s.skip(1)[first_gt(s.skip(1)) as int] == s[first_gt(s) as int]);
        }
    }
}

/// The first angle-bracketed address of the value: the content between
/// the first `<` whose next `>` encloses at least one character.
pub open spec fn angle_result(s: Seq<char>) -> Option<Seq<char>>
    decreases s.len(),
{
    if s.len() == 0 {
        None
    } else if s[0] == '<' {
        let j = first_gt(s) as int;
        if j < s.len() && j >= 2 {
            Some(s.subrange(1, j))
        } else {
            angle_result(s.skip(1))
        }
    } else {
        angle_result(s.skip(1))
    }
}

/// An ASCII letter.
pub open spec fn is_alpha(c: char) -> bool {
    ('a' <= c && c <= 'z') || ('A' <= c && c <= 'Z')
}

/// An ASCII digit.
pub open spec fn is_digit(c: char) -> bool {
    '0' <= c && c <= '9'
}

/// A character allowed in the local part of a bare address.
pub open spec fn is_local_char(c: char) -> bool {
    is_alpha(c) || is_digit(c) || c == '.' || c == '_' || c == '%' || c == '+' || c == '-'
}

/// A character allowed in the domain part of a bare address.
pub open spec fn is_domain_char(c: char) -> bool {
    is_alpha(c) || is_digit(c) || c == '.' || c == '-'
}

/// The start of the maximal run of local-part characters ending just
/// before `a`.
pub open spec fn local_start(s: Seq<char>, a: int) -> int
    decreases (if a > 0 {
        a
    } else {
        0
    }),
{
    if a > 0 && a <= s.len() && is_local_char(s[a - 1]) {
        local_start(s, a - 1)
    } else {
        a
    }
}

/// The end of the maximal run of domain-part characters starting at `b`.
pub open spec fn domain_end(s: Seq<char>, b: int) -> int
    decreases s.len() - b,
{
    if 0 <= b < s.len() && is_domain_char(s[b]) {
        domain_end(s, b + 1)
    } else {
        b
    }
}

/// A word character for boundary purposes: a letter, a digit, or an
/// underscore.
pub open spec fn is_word_char(c: char) -> bool {
    is_alpha(c) || is_digit(c) || c == '_'
}

/// Whether a bare-address match may begin at `st`: a word boundary —
/// exactly one of the two neighbouring characters is a word character,
/// the edge of the text counting as none.
pub open spec fn start_boundary(s: Seq<char>, st: int) -> bool {
    0 <= st < s.len() && {
        if is_word_char(s[st]) {
            st == 0 || !is_word_char(s[st - 1])
        } else {
            st > 0 && is_word_char(s[st - 1])
        }
    }
}

/// The first word-boundary position in `[st, a)`, or `a` if there is
/// none.
pub open spec fn first_boundary(s: Seq<char>, st: int, a: int) -> int
    decreases a - st,
{
    if !(0 <= st < a && a <= s.len()) {
        a
    } else if start_boundary(s, st) {
        st
    } else {
        first_boundary(s, st + 1, a)
    }
}

/// The end of the maximal run of letters starting at `b`.
pub open spec fn letters_end(s: Seq<char>, b: int) -> int
    decreases s.len() - b,
{
    if 0 <= b < s.len() && is_alpha(s[b]) {
        letters_end(s, b + 1)
    } else {
        b
    }
}

/// Whether the dot at `q` can close a bare-address domain: at least two
/// letters follow it, and the letter run ends at a word boundary (the
/// next character, if any, is not a word character).
pub open spec fn valid_dot(s: Seq<char>, q: int) -> bool {
    0 <= q < s.len() && s[q] == '.' && {
        let m = letters_end(s, q + 1);
        m - (q + 1) >= 2 && (m == s.len() || !is_word_char(s[m]))
    }
}

/// The rightmost closing dot at a position in `(b, q]`, or `b` if there
/// is none.
pub open spec fn last_valid_dot(s: Seq<char>, b: int, q: int) -> int
    decreases q - b,
{
    if q <= b {
        b
    } else if valid_dot(s, q) {
        q
    } else {
        last_valid_dot(s, b, q - 1)
    }
}

/// Whether a bare address stands around an `@` at position `a`: a
/// local-part run before it that starts at a word boundary, and a
/// nonempty domain prefix closed by the rightmost dot of the domain run
/// that a two-or-more-letter label and a word boundary follow.
pub open spec fn bare_match_at(s: Seq<char>, a: int) -> bool {
    let l = first_boundary(s, local_start(s, a), a);
    let d = domain_end(s, a + 1);
    let q = last_valid_dot(s, a + 1, d - 1);
    &&& 0 <= a < s.len()
    &&& s[a] == '@'
    &&& l < a
    &&& q > a + 1
}

/// The bare address around the `@` at position `a`: from the boundary
/// start of the local part up to the end of the letter label after the
/// closing dot.
pub open spec fn bare_value_at(s: Seq<char>, a: int) -> Seq<char> {
    let l = first_boundary(s, local_start(s, a), a);
    let q = last_valid_dot(s, a + 1, domain_end(s, a + 1) - 1);
    s.subrange(l, letters_end(s, q + 1))
}

/// The position of the first `@` that anchors a bare address at or
/// after `from`, or the length if there is none.
pub open spec fn first_bare(s: Seq<char>, from: int) -> int
    decreases s.len() - from,
{
    if !(0 <= from < s.len()) {
        s.len() as int
    } else if bare_match_at(s, from) {
        from
    } else {
        first_bare(s, from + 1)
    }
}

/// `first_bare` points at the first bare-address anchor.
pub proof fn lemma_first_bare(s: Seq<char>, from: int)
    requires
        0 <= from <= s.len(),
    ensures
        from <= first_bare(s, from) <= s.len(),
        first_bare(s, from) < s.len() ==> bare_match_at(s, first_bare(s, from)),
        forall|j: int| from <= j < first_bare(s, from) ==> !bare_match_at(s, j),
    decreases s.len() - from,
{
    if from == s.len() {
    } else if bare_match_at(s, from) {
    } else {
        lemma_first_bare(s, from + 1);
    }
}

/// The address extracted from a header value: the first angle-bracketed
/// address if one exists, else the first bare address.
pub open spec fn extract_spec(s: Seq<char>) -> Option<Seq<char>> {
    if angle_result(s) is Some {
        angle_result(s)
    } else if first_bare(s, 0) < s.len() {
        Some(bare_value_at(s, first_bare(s, 0)))
    } else {
        None
    }
}

/// Law: a value holding an angle pair with content — a `<`, at least
/// one character, and the next `>` after it — always yields an angle
/// result, so the bare-address scan is never consulted.
pub proof fn lemma_angle_pair_found(s: Seq<char>, i: int, j: int)
    requires
        0 <= i,
        i + 1 < j,
        j < s.len(),
        s[i] == '<',
        s[j] == '>',
        forall|k: int| i < k < j ==> s[k] != '>',
    ensures
        angle_result(s) is Some,
        extract_spec(s) == angle_result(s),
    decreases s.len(),
{
    lemma_first_gt(s);
    let g = first_gt(s) as int;
    assert(g <= j) by {
        if g > j {
            assert(s[j] != '>');
        }
    }
    if s[0] == '<' && g < s.len() && g >= 2 {
    } else {
        assert(i > 0) by {
            if i == 0 {
                assert(g >= 1);
                if g < 2 {
                    assert(s[g] == '>');
                    assert(s[1] != '>');
                }
            }
        }
        assert(s.skip(1)[i - 1] == s[i]);
        assert(s.skip(1)[j - 1] == s[j]);
        assert forall|k: int| i - 1 < k < j - 1 implies s.skip(1)[k] != '>' by {
            assert(s.skip(1)[k] == s[k + 1]);
        }
        lemma_angle_pair_found(s.skip(1), i - 1, j - 1);
        assert(angle_result(s) == angle_result(s.skip(1)));
    }
}

/// Returns the index of the first `>` at or after `from`, or the length
/// if there is none.
fn find_gt(v: &Vec<char>, from: usize) -> (r: usize)
    requires
        from <= v@.len(),
    ensures
        from <= r <= v@.len(),
        r - from == first_gt(v@.skip(from as int)),
        r < v@.len() ==> v@[r as int] == '>',
{
    let ghost rest = v@.skip(from as int);
    let mut i: usize = from;
    while i < v.len()
        invariant
            from <= i <= v@.len(),
            rest == v@.skip(from as int),
            forall|j: int| from <= j < i ==> v@[j] != '>',
        decreases v@.len() - i,
    {
        if v[i] == '>' {
            proof {
                lemma_first_gt(rest);
                assert forall|j: int| 0 <= j < i - from implies rest[j] != '>' by {
                    assert(rest[j] == v@[j + from]);
                }
                assert(rest[i - from] == v@[i as int]);
                if first_gt(rest) < i - from {
                    assert(rest[first_gt(rest) as int] == '>');
                }
            }
            return i;
        }
        i += 1;
    }
    proof {
        lemma_first_gt(rest);
        assert forall|j: int| 0 <= j < rest.len() implies rest[j] != '>' by {
            assert(rest[j] == v@[j + from]);
        }
        if first_gt(rest) < rest.len() {
            assert(rest[first_gt(rest) as int] == '>');
        }
    }
    v.len()
}

/// Whether a character is allowed in the local part.
fn is_local_char_exec(c: char) -> (r: bool)
    ensures
        r == is_local_char(c),
{
    ('a' <= c && c <= 'z') || ('A' <= c && c <= 'Z') || ('0' <= c && c <= '9') || c == '.' || c
        == '_' || c == '%' || c == '+' || c == '-'
}

/// Whether a character is allowed in the domain part.
fn is_domain_char_exec(c: char) -> (r: bool)
    ensures
        r == is_domain_char(c),
{
    ('a' <= c && c <= 'z') || ('A' <= c && c <= 'Z') || ('0' <= c && c <= '9') || c == '.' || c
        == '-'
}

/// Whether a character is an ASCII letter.
fn is_alpha_exec(c: char) -> (r: bool)
    ensures
        r == is_alpha(c),
{
    ('a' <= c && c <= 'z') || ('A' <= c && c <= 'Z')
}

/// Whether a character is a word character (a letter, digit or
/// underscore).
fn is_word_char_exec(c: char) -> (r: bool)
    ensures
        r == is_word_char(c),
{
    ('a' <= c && c <= 'z') || ('A' <= c && c <= 'Z') || ('0' <= c && c <= '9') || c == '_'
}

/// Whether a bare-address match may begin at `st`.
fn start_boundary_exec(v: &Vec<char>, st: usize) -> (r: bool)
    requires
        st < v@.len(),
    ensures
        r == start_boundary(v@, st as int),
{
    let cur = is_word_char_exec(v[st]);
    let before = st > 0 && is_word_char_exec(v[st - 1]);
    cur != before
}

/// Whether the dot at `q` can close a bare-address domain.
fn valid_dot_exec(v: &Vec<char>, q: usize) -> (r: bool)
    requires
        q < v@.len(),
    ensures
        r == valid_dot(v@, q as int),
{
    let n = v.len();
    if v[q] != '.' {
        return false;
    }
    let mut m: usize = q + 1;
    while m < n && is_alpha_exec(v[m])
        invariant
            n == v@.len(),
            q + 1 <= m <= n,
            letters_end(v@, q as int + 1) == letters_end(v@, m as int),
        decreases n - m,
    {
        m += 1;
    }
    proof {
        assert(letters_end(v@, m as int) == m);
    }
    if m - (q + 1) >= 2 {
        m == n || !is_word_char_exec(v[m])
    } else {
        false
    }
}

/// Tests whether a bare address stands around the `@` at position `a`
/// and returns the bounds of its match.
fn bare_match_exec(v: &Vec<char>, a: usize) -> (r: Option<(usize, usize)>)
    requires
        a < v@.len(),
    ensures
        r is Some <==> bare_match_at(v@, a as int),
        r is Some ==> (r->0).0 <= (r->0).1 <= v@.len(),
        r is Some ==> (r->0).0 as int == first_boundary(
            v@,
            local_start(v@, a as int),
            a as int,
        ) && (r->0).1 as int == letters_end(
            v@,
            last_valid_dot(v@, a as int + 1, domain_end(v@, a as int + 1) - 1) + 1,
        ),
{
    let n = v.len();
    if v[a] != '@' {
        return None;
    }
    let mut l0: usize = a;
    while l0 > 0 && is_local_char_exec(v[l0 - 1])
        invariant
            l0 <= a < v@.len(),
            local_start(v@, a as int) == local_start(v@, l0 as int),
        decreases l0,
    {
        l0 -= 1;
    }
    proof {
        assert(local_start(v@, l0 as int) == l0);
    }
    let mut l: usize = l0;
    while l < a && !start_boundary_exec(v, l)
        invariant
            l0 <= l <= a < v@.len(),
            first_boundary(v@, l0 as int, a as int) == first_boundary(v@, l as int, a as int),
        decreases a - l,
    {
        l += 1;
    }
    proof {
        if l < a {
            assert(first_boundary(v@, l as int, a as int) == l);
        } else {
            assert(first_boundary(v@, l as int, a as int) == a);
        }
    }
    if l == a {
        return None;
    }
    let b0 = a + 1;
    let mut d: usize = b0;
    while d < n && is_domain_char_exec(v[d])
        invariant
            n == v@.len(),
            b0 <= d <= v@.len(),
            domain_end(v@, b0 as int) == domain_end(v@, d as int),
        decreases v@.len() - d,
    {
        d += 1;
    }
    proof {
        assert(domain_end(v@, d as int) == d);
    }
    let mut q: usize = b0;
    if d > b0 {
        let mut cand: usize = d - 1;
        while cand > b0 && !valid_dot_exec(v, cand)
            invariant
                b0 <= cand,
                cand as int <= d as int - 1,
                d <= n,
                n == v@.len(),
                last_valid_dot(v@, b0 as int, d as int - 1) == last_valid_dot(
                    v@,
                    b0 as int,
                    cand as int,
                ),
            decreases cand,
        {
            cand -= 1;
        }
        if cand > b0 {
            q = cand;
            proof {
                assert(last_valid_dot(v@, b0 as int, cand as int) == cand);
            }
        } else {
            proof {
                assert(last_valid_dot(v@, b0 as int, cand as int) == b0);
            }
        }
    } else {
        proof {
            assert(last_valid_dot(v@, b0 as int, d as int - 1) == b0);
        }
    }
    if q > b0 {
        let mut m: usize = q + 1;
        while m < n && is_alpha_exec(v[m])
            invariant
                n == v@.len(),
                q + 1 <= m <= n,
                letters_end(v@, q as int + 1) == letters_end(v@, m as int),
            decreases n - m,
        {
            m += 1;
        }
        proof {
            assert(letters_end(v@, m as int) == m);
        }
        Some((l, m))
    } else {
        None
    }
}

/// Extracts an email address from a header value such as
/// `"Jo Doe <jo@mail.example>"`: the first angle-bracketed address wins;
/// otherwise the first bare address — a local-part run starting at a
/// word boundary, `@`, and a domain whose rightmost qualifying dot is
/// followed by at least two letters and a word boundary — is returned;
/// `DkimError::NoAddressFound` when neither exists.
pub fn extract_email_address(header_value: &str) -> (r: Result<String, DkimError>)
    ensures
        r is Ok <==> extract_spec(header_value@) is Some,
        r is Ok ==> r->Ok_0@ == extract_spec(header_value@)->0,
        r is Err ==> r->Err_0 == DkimError::NoAddressFound,
{
    let v = str_to_chars(header_value);
    let mut i: usize = 0;
    proof {
        assert(v@.skip(0) =~= v@);
    }
    while i < v.len()
        invariant
            i <= v@.len(),
            v@ == header_value@,
            angle_result(v@) == angle_result(v@.skip(i as int)),
        decreases v@.len() - i,
    {
        let ghost rest = v@.skip(i as int);
        if v[i] == '<' {
            let g = find_gt(&v, i + 1);
            proof {
                assert(rest[0] == '<');
                assert(rest.skip(1) =~= v@.skip(i as int + 1));
                assert(first_gt(rest) == 1 + first_gt(rest.skip(1)));
                assert(g - i == first_gt(rest));
            }
            if g < v.len() && g - i >= 2 {
                let content = subvec(&v, i + 1, g);
                proof {
                    assert(rest.subrange(1, g - i) =~= v@.subrange(i as int + 1, g as int));
                    assert(angle_result(rest) == Some(rest.subrange(1, g - i)));
                }
                return Ok(chars_to_string(&content));
            }
            proof {
                assert(angle_result(rest) == angle_result(rest.skip(1)));
            }
        } else {
            proof {
                assert(angle_result(rest) == angle_result(rest.skip(1)));
                assert(rest.skip(1) =~= v@.skip(i as int + 1));
            }
        }
        i += 1;
    }
    proof {
        assert(v@.skip(v@.len() as int) =~= Seq::<char>::empty());
        assert(angle_result(v@) is None);
    }
    let mut a: usize = 0;
    while a < v.len()
        invariant
            a <= v@.len(),
            v@ == header_value@,
            angle_result(v@) is None,
            forall|j: int| 0 <= j < a ==> !bare_match_at(v@, j),
        decreases v@.len() - a,
    {
        match bare_match_exec(&v, a) {
            Some((l, m)) => {
                let content = subvec(&v, l, m);
                proof {
                    lemma_first_bare(v@, 0);
                    if first_bare(v@, 0) < a {
                        assert(bare_match_at(v@, first_bare(v@, 0)));
                    }
                    assert(first_bare(v@, 0) == a);
                    assert(content@ == bare_value_at(v@, a as int));
                }
                return Ok(chars_to_string(&content));
            },
            None => {},
        }
        a += 1;
    }
    proof {
        lemma_first_bare(v@, 0);
        if first_bare(v@, 0) < v@.len() {
            assert(bare_match_at(v@, first_bare(v@, 0)));
        }
    }
    Err(DkimError::NoAddressFound)
}

} // verus!
