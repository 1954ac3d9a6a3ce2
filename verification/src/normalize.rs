//! Line-ending normalization: `\r\n`, bare `\r` and bare `\n` are all
//! treated as logical breaks and re-emitted uniformly as CRLF.

use vstd::prelude::*;

verus! {

/// The CRLF line terminator.
pub open spec fn crlf() -> Seq<char> {
    seq!['\r', '\n']
}

/// The input with every logical line break (`\r\n`, bare `\r`, bare
/// `\n`) replaced by CRLF and every other character kept.
pub open spec fn normalize_crlf(s: Seq<char>) -> Seq<char>
    decreases s.len(),
{
    if s.len() == 0 {
        Seq::empty()
    } else if s[0] == '\r' {
        if s.len() >= 2 && s[1] == '\n' {
            crlf() + normalize_crlf(s.skip(2))
        } else {
            crlf() + normalize_crlf(s.skip(1))
        }
    } else if s[0] == '\n' {
        crlf() + normalize_crlf(s.skip(1))
    } else {
        seq![s[0]] + normalize_crlf(s.skip(1))
    }
}

/// A sequence is CRLF-normalized when every `\r` is followed by `\n` and
/// every `\n` is preceded by `\r`.
pub open spec fn is_normalized(s: Seq<char>) -> bool {
    &&& forall|i: int| 0 <= i < s.len() && #[trigger] s[i] == '\r' ==> i + 1 < s.len() && s[i + 1] == '\n'
    &&& forall|i: int| 0 <= i < s.len() && #[trigger] s[i] == '\n' ==> i > 0 && s[i - 1] == '\r'
}

/// Normalization always yields a normalized sequence.
pub proof fn lemma_normalize_is_normalized(s: Seq<char>)
    ensures
        is_normalized(normalize_crlf(s)),
    decreases s.len(),
{
    if s.len() == 0 {
    } else if s[0] == '\r' {
        if s.len() >= 2 && s[1] == '\n' {
            lemma_normalize_is_normalized(s.skip(2));
        } else {
            lemma_normalize_is_normalized(s.skip(1));
        }
    } else {
        lemma_normalize_is_normalized(s.skip(1));
    }
}

/// A normalized sequence is a fixed point of normalization.
pub proof fn lemma_normalize_fixed(s: Seq<char>)
    requires
        is_normalized(s),
    ensures
        normalize_crlf(s) == s,
    decreases s.len(),
{
    if s.len() == 0 {
        assert(normalize_crlf(s) =~= s);
    } else if s[0] == '\r' {
        assert(s.len() >= 2 && s[1] == '\n');
        assert(is_normalized(s.skip(2))) by {
            assert forall|i: int| 0 <= i < s.skip(2).len() && #[trigger] s.skip(2)[i] == '\r' implies i + 1
                < s.skip(2).len() && s.skip(2)[i + 1] == '\n' by {
                assert(s[i + 2] == '\r');
            }
            assert forall|i: int| 0 <= i < s.skip(2).len() && #[trigger] s.skip(2)[i] == '\n' implies i > 0
                && s.skip(2)[i - 1] == '\r' by {
                assert(s[i + 2] == '\n');
                assert(i + 2 > 0 && s[i + 1] == '\r');
                if i == 0 {
                    assert(s[1] == '\n' && s[1] == '\r');
                }
            }
        }
        lemma_normalize_fixed(s.skip(2));
        assert(normalize_crlf(s) =~= s);
    } else {
        assert(s[0] != '\n');
        assert(is_normalized(s.skip(1))) by {
            assert forall|i: int| 0 <= i < s.skip(1).len() && #[trigger] s.skip(1)[i] == '\r' implies i + 1
                < s.skip(1).len() && s.skip(1)[i + 1] == '\n' by {
                assert(s[i + 1] == '\r');
            }
            assert forall|i: int| 0 <= i < s.skip(1).len() && #[trigger] s.skip(1)[i] == '\n' implies i > 0
                && s.skip(1)[i - 1] == '\r' by {
                assert(s[i + 1] == '\n');
                assert(s[i] == '\r');
                if i == 0 {
                    assert(s[0] == '\r');
                }
            }
        }
        lemma_normalize_fixed(s.skip(1));
        assert(normalize_crlf(s) =~= s);
    }
}

/// Law: normalizing line endings twice equals normalizing once, for
/// every message.
pub proof fn lemma_normalize_idempotent(s: Seq<char>)
    ensures
        normalize_crlf(normalize_crlf(s)) == normalize_crlf(s),
{
    lemma_normalize_is_normalized(s);
    lemma_normalize_fixed(normalize_crlf(s));
}

/// Replaces every logical line break of the input with CRLF.
pub fn normalize_chars(s: &Vec<char>) -> (r: Vec<char>)
    ensures
        r@ == normalize_crlf(s@),
{
    let mut out: Vec<char> = Vec::new();
    let mut i: usize = 0;
    proof {
        assert(s@.skip(0) =~= s@);
        assert(out@ + normalize_crlf(s@) =~= normalize_crlf(s@));
    }
    while i < s.len()
        invariant
            i <= s@.len(),
            out@ + normalize_crlf(s@.skip(i as int)) == normalize_crlf(s@),
        decreases s@.len() - i,
    {
        let ghost pre = out@;
        let ghost rest = s@.skip(i as int);
        let c = s[i];
        if c == '\r' {
            out.push('\r');
            out.push('\n');
            if i + 1 < s.len() && s[i + 1] == '\n' {
                proof {
                    assert(rest[0] == '\r' && rest.len() >= 2 && rest[1] == '\n');
                    assert(rest.skip(2) =~= s@.skip(i as int + 2));
                    assert(pre + (crlf() + normalize_crlf(rest.skip(2))) =~= out@ + normalize_crlf(
                        s@.skip(i as int + 2),
                    ));
                }
                i += 2;
            } else {
                proof {
                    assert(rest[0] == '\r' && !(rest.len() >= 2 && rest[1] == '\n'));
                    assert(rest.skip(1) =~= s@.skip(i as int + 1));
                    assert(pre + (crlf() + normalize_crlf(rest.skip(1))) =~= out@ + normalize_crlf(
                        s@.skip(i as int + 1),
                    ));
                }
                i += 1;
            }
        } else if c == '\n' {
            out.push('\r');
            out.push('\n');
            proof {
                assert(rest[0] == '\n');
                assert(rest.skip(1) =~= s@.skip(i as int + 1));
                assert(pre + (crlf() + normalize_crlf(rest.skip(1))) =~= out@ + normalize_crlf(
                    s@.skip(i as int + 1),
                ));
            }
            i += 1;
        } else {
            out.push(c);
            proof {
                assert(rest[0] == c);
                assert(rest.skip(1) =~= s@.skip(i as int + 1));
                assert(pre + (seq![rest[0]] + normalize_crlf(rest.skip(1))) =~= out@
                    + normalize_crlf(s@.skip(i as int + 1)));
            }
            i += 1;
        }
    }
    proof {
        assert(s@.skip(s@.len() as int) =~= Seq::<char>::empty());
        assert(out@ + normalize_crlf(Seq::<char>::empty()) =~= out@);
    }
    out
}

} // verus!
