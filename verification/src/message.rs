//! Message splitter: parses a raw RFC 5322 message into an ordered
//! header map and a body, handling folded (continuation) header lines.

use vstd::prelude::*;

use crate::chars::{
    all_ws, chars_to_string, is_hws, is_ws, lemma_trim_end_ws_take, lemma_trim_start_ws_skip,
    lower, rest_all_ws, str_eq, str_to_chars, subvec, to_lower_chars, trim_end_ws, trim_start_ws,
    trim_ws,
};
use crate::errors::DkimError;
use crate::normalize::{crlf, is_normalized, lemma_normalize_fixed, normalize_chars, normalize_crlf};

verus! {

/// The index of the first CRLFCRLF header/body separator, or the length
/// if there is none.
pub open spec fn first_sep(s: Seq<char>) -> nat
    decreases s.len(),
{
    if s.len() < 4 {
        s.len()
    } else if s[0] == '\r' && s[1] == '\n' && s[2] == '\r' && s[3] == '\n' {
        0
    } else {
        1 + first_sep(s.skip(1))
    }
}

/// Whether a CRLFCRLF separator stands at position `j`.
pub open spec fn sep_at(s: Seq<char>, j: int) -> bool {
    0 <= j && j + 4 <= s.len() && s[j] == '\r' && s[j + 1] == '\n' && s[j + 2] == '\r' && s[j + 3]
        == '\n'
}

/// `first_sep` points at the first separator.
pub proof fn lemma_first_sep(s: Seq<char>)
    ensures
        first_sep(s) <= s.len(),
        first_sep(s) < s.len() ==> sep_at(s, first_sep(s) as int),
        forall|j: int| 0 <= j < first_sep(s) ==> !sep_at(s, j),
    decreases s.len(),
{
    if s.len() < 4 {
    } else if s[0] == '\r' && s[1] == '\n' && s[2] == '\r' && s[3] == '\n' {
    } else {
        lemma_first_sep(s.skip(1));
        assert forall|j: int| 0 <= j < first_sep(s) implies !sep_at(s, j) by {
            if j > 0 && sep_at(s, j) {
                assert(s.skip(1)[j - 1] == s[j]);
                assert(s.skip(1)[j] == s[j + 1]);
                assert(s.skip(1)[j + 1] == s[j + 2]);
                assert(s.skip(1)[j + 2] == s[j + 3]);
                assert(sep_at(s.skip(1), j - 1));
            }
        }
        if first_sep(s) < s.len() {
            let f = first_sep(s.skip(1)) as int;
            assert(sep_at(s.skip(1), f));
            assert(s.skip(1)[f] == s[f + 1]);
            assert(s.skip(1)[f + 1] == s[f + 2]);
            assert(s.skip(1)[f + 2] == s[f + 3]);
            assert(s.skip(1)[f + 3] == s[f + 4]);
        }
    }
}

/// The index of the first field break — a CRLF followed by a character
/// that is not horizontal whitespace — or the length if there is none.
pub open spec fn first_field_break(s: Seq<char>) -> nat
    decreases s.len(),
{
    if s.len() < 3 {
        s.len()
    } else if s[0] == '\r' && s[1] == '\n' && !is_hws(s[2]) {
        0
    } else {
        1 + first_field_break(s.skip(1))
    }
}

/// Whether a field break stands at position `j`.
pub open spec fn field_break_at(s: Seq<char>, j: int) -> bool {
    0 <= j && j + 3 <= s.len() && s[j] == '\r' && s[j + 1] == '\n' && !is_hws(s[j + 2])
}

/// `first_field_break` points at the first field break.
pub proof fn lemma_first_field_break(s: Seq<char>)
    ensures
        first_field_break(s) <= s.len(),
        first_field_break(s) < s.len() ==> field_break_at(s, first_field_break(s) as int),
        forall|j: int| 0 <= j < first_field_break(s) ==> !field_break_at(s, j),
    decreases s.len(),
{
    if s.len() < 3 {
    } else if s[0] == '\r' && s[1] == '\n' && !is_hws(s[2]) {
    } else {
        lemma_first_field_break(s.skip(1));
        assert forall|j: int| 0 <= j < first_field_break(s) implies !field_break_at(s, j) by {
            if j > 0 && field_break_at(s, j) {
                assert(s.skip(1)[j - 1] == s[j]);
                assert(s.skip(1)[j] == s[j + 1]);
                assert(s.skip(1)[j + 1] == s[j + 2]);
                assert(field_break_at(s.skip(1), j - 1));
            }
        }
        if first_field_break(s) < s.len() {
            let f = first_field_break(s.skip(1)) as int;
            assert(field_break_at(s.skip(1), f));
            assert(s.skip(1)[f] == s[f + 1]);
            assert(s.skip(1)[f + 1] == s[f + 2]);
            assert(s.skip(1)[f + 2] == s[f + 3]);
        }
    }
}

/// The header block split into raw fields at the breaks; a CRLF followed
/// by space or tab stays inside its field as a folded continuation.
pub open spec fn split_fields(s: Seq<char>) -> Seq<Seq<char>>
    decreases s.len(),
{
    if s.len() == 0 {
        Seq::empty()
    } else {
        let b = first_field_break(s) as int;
        if b + 2 <= s.len() {
            seq![s.take(b)] + split_fields(s.skip(b + 2))
        } else {
            seq![s]
        }
    }
}

/// Law: a header block without a field break — every CRLF inside it is
/// followed by space or tab, a folded continuation — is reconstructed
/// as a single field, embedded breaks kept.
pub proof fn lemma_folded_block_single_field(s: Seq<char>)
    requires
        s.len() > 0,
        forall|j: int| !field_break_at(s, j),
    ensures
        split_fields(s) == seq![s],
{
    lemma_first_field_break(s);
    if first_field_break(s) < s.len() {
        assert(field_break_at(s, first_field_break(s) as int));
    }
}

/// The index of the first colon, or the length if there is none.
pub open spec fn first_colon(s: Seq<char>) -> nat
    decreases s.len(),
{
    if s.len() == 0 {
        0
    } else if s[0] == ':' {
        0
    } else {
        1 + first_colon(s.skip(1))
    }
}

/// `first_colon` points at the first colon.
pub proof fn lemma_first_colon(s: Seq<char>)
    ensures
        first_colon(s) <= s.len(),
        first_colon(s) < s.len() ==> s[first_colon(s) as int] == ':',
        forall|j: int| 0 <= j < first_colon(s) ==> s[j] != ':',
    decreases s.len(),
{
    if s.len() == 0 {
    } else if s[0] == ':' {
    } else {
        lemma_first_colon(s.skip(1));
        assert forall|j: int| 0 <= j < first_colon(s) implies s[j] != ':' by {
            if j > 0 {
                assert(s.skip(1)[j - 1] == s[j]);
            }
        }
        if first_colon(s) < s.len() {
            assert(s.skip(1)[first_colon(s.skip(1)) as int] == s[first_colon(s) as int]);
        }
    }
}

/// The stored name of a raw field: everything before the first colon,
/// trimmed and ASCII-lowercased.
pub open spec fn field_name(f: Seq<char>) -> Seq<char> {
    lower(trim_ws(f.take(first_colon(f) as int)))
}

/// The stored value of a raw field: the entire field text, folded
/// layout preserved, with its terminating CRLF.
pub open spec fn field_value(f: Seq<char>) -> Seq<char> {
    f + crlf()
}

/// Every raw field is blank (skipped) or carries a colon.
pub open spec fn fields_ok(fs: Seq<Seq<char>>) -> bool {
    forall|i: int|
        0 <= i < fs.len() ==> (all_ws(#[trigger] fs[i]) || first_colon(fs[i]) < fs[i].len())
}

/// The ordered (name, value) entries of a field list, blank fields
/// skipped.
pub open spec fn header_entries(fs: Seq<Seq<char>>) -> Seq<(Seq<char>, Seq<char>)>
    decreases fs.len(),
{
    if fs.len() == 0 {
        Seq::empty()
    } else {
        let rest = header_entries(fs.drop_last());
        let f = fs.last();
        if all_ws(f) {
            rest
        } else {
            rest + seq![(field_name(f), field_value(f))]
        }
    }
}

/// The normalized header block of a raw message: everything before the
/// first CRLFCRLF separator, or — in a headers-only message that ends
/// with CRLF — everything before that final CRLF.
pub open spec fn header_block(s: Seq<char>) -> Seq<char> {
    let n = normalize_crlf(s);
    let i = first_sep(n) as int;
    if i < n.len() {
        n.take(i)
    } else if n.len() >= 2 && n[n.len() - 2] == '\r' && n[n.len() - 1] == '\n' {
        n.take(n.len() - 2)
    } else {
        n
    }
}

/// The body of a raw message: everything after the first CRLFCRLF
/// separator of the normalized text; empty when there is no separator.
pub open spec fn body_of(s: Seq<char>) -> Seq<char> {
    let n = normalize_crlf(s);
    let i = first_sep(n) as int;
    if i < n.len() {
        n.skip(i + 4)
    } else {
        Seq::empty()
    }
}

/// A raw message is structurally sound when it has a header/body
/// separator, or — headers only — ends with a line terminator.
pub open spec fn msg_structure_ok(s: Seq<char>) -> bool {
    let n = normalize_crlf(s);
    first_sep(n) < n.len() || (n.len() >= 2 && n[n.len() - 2] == '\r' && n[n.len() - 1] == '\n')
}

/// A raw message parses cleanly: sound structure, and every non-blank
/// header field carries a colon.
pub open spec fn msg_ok(s: Seq<char>) -> bool {
    msg_structure_ok(s) && fields_ok(split_fields(header_block(s)))
}

/// The parsed header entries of a raw message, in occurrence order.
pub open spec fn headers_of(s: Seq<char>) -> Seq<(Seq<char>, Seq<char>)> {
    header_entries(split_fields(header_block(s)))
}

/// One parsed header field: a lowercased name and the raw field text
/// with its folded layout and terminating CRLF.
pub struct HeaderField {
    pub name: String,
    pub value: String,
}

impl View for HeaderField {
    type V = (Seq<char>, Seq<char>);

    open spec fn view(&self) -> (Seq<char>, Seq<char>) {
        (self.name@, self.value@)
    }
}

/// An ordered header map: for any header of the original message, the
/// count and order of its values match their occurrence order.
pub struct HeaderMap {
    pub fields: Vec<HeaderField>,
}

impl View for HeaderMap {
    type V = Seq<(Seq<char>, Seq<char>)>;

    open spec fn view(&self) -> Seq<(Seq<char>, Seq<char>)> {
        self.fields@.map_values(|f: HeaderField| f@)
    }
}

/// The values stored under `name`, in order.
pub open spec fn values_named(entries: Seq<(Seq<char>, Seq<char>)>, name: Seq<char>) -> Seq<
    Seq<char>,
>
    decreases entries.len(),
{
    if entries.len() == 0 {
        Seq::empty()
    } else {
        let rest = values_named(entries.drop_last(), name);
        if entries.last().0 == name {
            rest + seq![entries.last().1]
        } else {
            rest
        }
    }
}

impl HeaderMap {
    /// Returns the raw values stored under `name`, in occurrence order.
    pub fn get(&self, name: &str) -> (r: Vec<String>)
        ensures
            r@.map_values(|v: String| v@) == values_named(self@, name@),
    {
        let mut out: Vec<String> = Vec::new();
        let mut i: usize = 0;
        proof {
            assert(self@.take(0) =~= Seq::<(Seq<char>, Seq<char>)>::empty());
            assert(out@.map_values(|v: String| v@) =~= values_named(self@.take(0), name@));
        }
        while i < self.fields.len()
            invariant
                i <= self.fields@.len(),
                self@.len() == self.fields@.len(),
                out@.map_values(|v: String| v@) == values_named(self@.take(i as int), name@),
            decreases self.fields@.len() - i,
        {
            let ghost pre = out@.map_values(|v: String| v@);
            proof {
                assert(self@.take(i as int + 1).drop_last() =~= self@.take(i as int));
                assert(self@.take(i as int + 1).last() == self@[i as int]);
            }
            if str_eq(self.fields[i].name.as_str(), name) {
                out.push(self.fields[i].value.clone());
                proof {
                    assert(out@.map_values(|v: String| v@) =~= pre + seq![self@[i as int].1]);
                }
            }
            i += 1;
        }
        proof {
            assert(self@.take(self@.len() as int) =~= self@);
        }
        out
    }

    /// Returns whether some field is stored under `name`.
    pub fn contains_key(&self, name: &str) -> (r: bool)
        ensures
            r == exists|i: int| 0 <= i < self@.len() && (#[trigger] self@[i]).0 == name@,
    {
        let mut i: usize = 0;
        while i < self.fields.len()
            invariant
                i <= self.fields@.len(),
                self@.len() == self.fields@.len(),
                forall|j: int| 0 <= j < i ==> (#[trigger] self@[j]).0 != name@,
            decreases self.fields@.len() - i,
        {
            if str_eq(self.fields[i].name.as_str(), name) {
                proof {
                    assert(self@[i as int].0 == name@);
                }
                return true;
            }
            i += 1;
        }
        false
    }

    /// Returns how many fields are stored under `name`.
    pub fn count_named(&self, name: &str) -> (r: usize)
        ensures
            r == values_named(self@, name@).len(),
    {
        let mut count: usize = 0;
        let mut i: usize = 0;
        proof {
            assert(self@.take(0) =~= Seq::<(Seq<char>, Seq<char>)>::empty());
        }
        while i < self.fields.len()
            invariant
                i <= self.fields@.len(),
                self@.len() == self.fields@.len(),
                count <= i,
                count == values_named(self@.take(i as int), name@).len(),
            decreases self.fields@.len() - i,
        {
            proof {
                assert(self@.take(i as int + 1).drop_last() =~= self@.take(i as int));
                assert(self@.take(i as int + 1).last() == self@[i as int]);
            }
            if str_eq(self.fields[i].name.as_str(), name) {
                count += 1;
            }
            i += 1;
        }
        proof {
            assert(self@.take(self@.len() as int) =~= self@);
        }
        count
    }

    /// Returns the total number of stored fields.
    pub fn field_count(&self) -> (r: usize)
        ensures
            r == self@.len(),
    {
        self.fields.len()
    }
}

/// A parsed message: ordered header map and body.
pub struct ParsedEmail {
    pub headers: HeaderMap,
    pub body: String,
}

/// Counts the `received` header fields (mail hops) of a parsed header
/// map.
pub fn count_received_headers(headers: &HeaderMap) -> (r: usize)
    ensures
        r == values_named(headers@, "received"@).len(),
{
    headers.count_named("received")
}

/// Returns the index of the first CRLFCRLF separator, or the length if
/// there is none.
fn find_sep(v: &Vec<char>) -> (r: usize)
    ensures
        r == first_sep(v@),
        r <= v@.len(),
        r < v@.len() ==> sep_at(v@, r as int),
{
    let mut i: usize = 0;
    while v.len() - i >= 4
        invariant
            i <= v@.len(),
            forall|j: int| 0 <= j < i ==> !sep_at(v@, j),
        decreases v@.len() - i,
    {
        if v[i] == '\r' && v[i + 1] == '\n' && v[i + 2] == '\r' && v[i + 3] == '\n' {
            proof {
                lemma_first_sep(v@);
                assert(sep_at(v@, i as int));
                if first_sep(v@) < i {
                    assert(sep_at(v@, first_sep(v@) as int));
                }
            }
            return i;
        }
        i += 1;
    }
    proof {
        lemma_first_sep(v@);
        assert forall|j: int| 0 <= j && j + 4 <= v@.len() implies !sep_at(v@, j) by {
            assert(j < i);
        }
        if first_sep(v@) < v@.len() {
            assert(sep_at(v@, first_sep(v@) as int));
        }
    }
    v.len()
}

/// Returns the index of the first field break at or after `from`, or
/// the length if there is none.
fn find_field_break(v: &Vec<char>, from: usize) -> (r: usize)
    requires
        from <= v@.len(),
    ensures
        from <= r <= v@.len(),
        r - from == first_field_break(v@.skip(from as int)),
{
    let ghost rest = v@.skip(from as int);
    let mut i: usize = from;
    while v.len() - i >= 3
        invariant
            from <= i <= v@.len(),
            rest == v@.skip(from as int),
            forall|j: int| 0 <= j < i - from ==> !field_break_at(rest, j),
        decreases v@.len() - i,
    {
        if v[i] == '\r' && v[i + 1] == '\n' && !(v[i + 2] == ' ' || v[i + 2] == '\t') {
            proof {
                lemma_first_field_break(rest);
                assert(rest[i - from] == v@[i as int]);
                assert(rest[i - from + 1] == v@[i as int + 1]);
                assert(rest[i - from + 2] == v@[i as int + 2]);
                assert(field_break_at(rest, i - from));
                if first_field_break(rest) < i - from {
                    assert(field_break_at(rest, first_field_break(rest) as int));
                }
            }
            return i;
        }
        i += 1;
    }
    proof {
        lemma_first_field_break(rest);
        assert forall|j: int| 0 <= j && j + 3 <= rest.len() implies !field_break_at(rest, j) by {
            assert(rest[j] == v@[j + from]);
            assert(rest[j + 1] == v@[j + from + 1]);
            assert(rest[j + 2] == v@[j + from + 2]);
            assert(j + from < i);
            if field_break_at(rest, j) {
                assert(!field_break_at(rest, j));
            }
        }
        if first_field_break(rest) < rest.len() {
            assert(field_break_at(rest, first_field_break(rest) as int));
        }
    }
    v.len()
}

/// Returns the index of the first colon, or the length if there is
/// none.
fn find_colon(v: &Vec<char>) -> (r: usize)
    ensures
        r == first_colon(v@),
        r <= v@.len(),
        r < v@.len() ==> v@[r as int] == ':',
{
    let mut i: usize = 0;
    while i < v.len()
        invariant
            i <= v@.len(),
            forall|j: int| 0 <= j < i ==> v@[j] != ':',
        decreases v@.len() - i,
    {
        if v[i] == ':' {
            proof {
                lemma_first_colon(v@);
                if first_colon(v@) < i {
                    assert(v@[first_colon(v@) as int] == ':');
                }
            }
            return i;
        }
        i += 1;
    }
    proof {
        lemma_first_colon(v@);
        if first_colon(v@) < v@.len() {
            assert(v@[first_colon(v@) as int] == ':');
        }
    }
    v.len()
}

/// Splits a header block into its raw fields.
fn split_fields_exec(block: &Vec<char>) -> (r: Vec<Vec<char>>)
    ensures
        r@.map_values(|f: Vec<char>| f@) == split_fields(block@),
{
    let mut out: Vec<Vec<char>> = Vec::new();
    let mut i: usize = 0;
    proof {
        assert(block@.skip(0) =~= block@);
        assert(out@.map_values(|f: Vec<char>| f@) + split_fields(block@) =~= split_fields(
            block@,
        ));
    }
    while i < block.len()
        invariant
            i <= block@.len(),
            out@.map_values(|f: Vec<char>| f@) + split_fields(block@.skip(i as int))
                == split_fields(block@),
        decreases block@.len() - i,
    {
        let ghost pre = out@.map_values(|f: Vec<char>| f@);
        let ghost rest = block@.skip(i as int);
        let b = find_field_break(block, i);
        if block.len() - b >= 2 {
            let seg = subvec(block, i, b);
            out.push(seg);
            proof {
                assert(rest.take(b - i) =~= block@.subrange(i as int, b as int));
                assert(rest.skip(b - i + 2) =~= block@.skip(b as int + 2));
                assert(split_fields(rest) == seq![rest.take(b - i)] + split_fields(
                    rest.skip(b - i + 2),
                ));
                assert(out@.map_values(|f: Vec<char>| f@) =~= pre + seq![
                    block@.subrange(i as int, b as int),
                ]);
                assert(out@.map_values(|f: Vec<char>| f@) + split_fields(
                    block@.skip(b as int + 2),
                ) =~= pre + split_fields(rest));
            }
            i = b + 2;
        } else {
            let seg = subvec(block, i, block.len());
            out.push(seg);
            proof {
                assert(rest =~= block@.subrange(i as int, block@.len() as int));
                assert(split_fields(rest) == seq![rest]);
                assert(out@.map_values(|f: Vec<char>| f@) =~= pre + seq![rest]);
                assert(block@.skip(block@.len() as int) =~= Seq::<char>::empty());
                assert(split_fields(Seq::<char>::empty()) =~= Seq::<Seq<char>>::empty());
                assert(out@.map_values(|f: Vec<char>| f@) + split_fields(
                    block@.skip(block@.len() as int),
                ) =~= pre + split_fields(rest));
            }
            i = block.len();
        }
    }
    proof {
        assert(block@.skip(block@.len() as int) =~= Seq::<char>::empty());
        assert(split_fields(Seq::<char>::empty()) =~= Seq::<Seq<char>>::empty());
        assert(out@.map_values(|f: Vec<char>| f@) + Seq::<Seq<char>>::empty() =~= out@.map_values(
            |f: Vec<char>| f@,
        ));
    }
    out
}

/// Builds the stored name of a raw field: the text before the first
/// colon, trimmed and ASCII-lowercased.
fn make_field_name(f: &Vec<char>, colon: usize) -> (r: Vec<char>)
    requires
        colon <= f@.len(),
        colon == first_colon(f@),
    ensures
        r@ == field_name(f@),
{
    let ghost prefix = f@.take(colon as int);
    let mut a: usize = 0;
    while a < colon && (f[a] == ' ' || f[a] == '\t' || f[a] == '\r' || f[a] == '\n')
        invariant
            a <= colon <= f@.len(),
            forall|j: int| 0 <= j < a ==> is_ws(#[trigger] f@[j]),
        decreases colon - a,
    {
        a += 1;
    }
    let mut b: usize = colon;
    while b > a && (f[b - 1] == ' ' || f[b - 1] == '\t' || f[b - 1] == '\r' || f[b - 1] == '\n')
        invariant
            a <= b <= colon <= f@.len(),
            forall|j: int| b <= j < colon ==> is_ws(#[trigger] f@[j]),
        decreases b,
    {
        b -= 1;
    }
    proof {
        assert forall|j: int| 0 <= j < a implies is_ws(#[trigger] prefix[j]) by {
            assert(prefix[j] == f@[j]);
        }
        if a < colon {
            assert(prefix[a as int] == f@[a as int]);
        }
        lemma_trim_start_ws_skip(prefix, a as int);
        let mid = prefix.skip(a as int);
        assert forall|j: int| b - a <= j < mid.len() implies is_ws(#[trigger] mid[j]) by {
            assert(mid[j] == f@[j + a]);
        }
        if b > a {
            assert(mid[b - a - 1] == f@[b as int - 1]);
            assert(!is_ws(mid[b - a - 1]));
        }
        lemma_trim_end_ws_take(mid, b - a as int);
        assert(mid.take(b - a as int) =~= f@.subrange(a as int, b as int));
        assert(trim_ws(prefix) == f@.subrange(a as int, b as int));
    }
    let name_chars = subvec(f, a, b);
    to_lower_chars(&name_chars)
}

/// Builds the stored value of a raw field: the field text with a
/// terminating CRLF.
fn make_field_value(f: &Vec<char>) -> (r: Vec<char>)
    ensures
        r@ == field_value(f@),
{
    let mut v = subvec(f, 0, f.len());
    proof {
        assert(f@.subrange(0, f@.len() as int) =~= f@);
    }
    v.push('\r');
    v.push('\n');
    proof {
        assert(v@ =~= f@ + crlf());
    }
    v
}

/// Parses a raw message into an ordered header map and a body.
///
/// Line endings are normalized to CRLF first; the first blank line
/// separates headers from body; a CRLF followed by space or tab is a
/// folded continuation and stays inside its field. Header names are
/// ASCII-lowercased: RFC 5322 field names are ASCII, and characters
/// beyond it are kept as they are. Fails with
/// `DkimError::MalformedMessage` exactly when no separator exists and
/// the message does not end with a line terminator, or when a non-blank
/// field has no colon.
pub fn parse_email(raw_message: &str) -> (r: Result<ParsedEmail, DkimError>)
    ensures
        r is Ok <==> msg_ok(raw_message@),
        r is Ok ==> r->Ok_0.headers@ == headers_of(raw_message@),
        r is Ok ==> r->Ok_0.body@ == body_of(raw_message@),
        r is Err ==> r->Err_0 == DkimError::MalformedMessage,
{
    let chars = str_to_chars(raw_message);
    let n = normalize_chars(&chars);
    let sep = find_sep(&n);
    let block_end: usize;
    let body: String;
    if sep < n.len() {
        block_end = sep;
        let body_chars = subvec(&n, sep + 4, n.len());
        proof {
            assert(n@.subrange(sep as int + 4, n@.len() as int) =~= n@.skip(sep as int + 4));
        }
        body = chars_to_string(&body_chars);
    } else {
        if n.len() >= 2 && n[n.len() - 2] == '\r' && n[n.len() - 1] == '\n' {
            block_end = n.len() - 2;
            let body_chars: Vec<char> = Vec::new();
            body = chars_to_string(&body_chars);
        } else {
            return Err(DkimError::MalformedMessage);
        }
    }
    let block = subvec(&n, 0, block_end);
    proof {
        assert(n@.subrange(0, block_end as int) =~= n@.take(block_end as int));
        assert(block@ == header_block(raw_message@));
    }
    let fields = split_fields_exec(&block);
    let ghost fs = fields@.map_values(|f: Vec<char>| f@);
    let mut map = HeaderMap { fields: Vec::new() };
    let mut i: usize = 0;
    proof {
        assert(fs.take(0) =~= Seq::<Seq<char>>::empty());
        assert(map@ =~= header_entries(fs.take(0)));
    }
    while i < fields.len()
        invariant
            i <= fields@.len(),
            fs == fields@.map_values(|f: Vec<char>| f@),
            fs == split_fields(header_block(raw_message@)),
            msg_structure_ok(raw_message@),
            map@ == header_entries(fs.take(i as int)),
            forall|j: int|
                0 <= j < i ==> (all_ws(#[trigger] fs[j]) || first_colon(fs[j]) < fs[j].len()),
        decreases fields@.len() - i,
    {
        let ghost pre = map@;
        proof {
            assert(fs.take(i as int + 1).drop_last() =~= fs.take(i as int));
            assert(fs.take(i as int + 1).last() == fs[i as int]);
        }
        let f = &fields[i];
        if rest_all_ws(f, 0) {
            proof {
                assert(f@.skip(0) =~= f@);
                assert(all_ws(fs[i as int]));
            }
        } else {
            proof {
                assert(f@.skip(0) =~= f@);
                assert(!all_ws(fs[i as int]));
            }
            let colon = find_colon(f);
            if colon == f.len() {
                proof {
                    let ghost fi = fs[i as int];
                    assert(!(all_ws(fi) || first_colon(fi) < fi.len()));
                    assert(!fields_ok(fs));
                }
                return Err(DkimError::MalformedMessage);
            }
            let name_chars = make_field_name(f, colon);
            let value_chars = make_field_value(f);
            let name = chars_to_string(&name_chars);
            let value = chars_to_string(&value_chars);
            map.fields.push(HeaderField { name, value });
            proof {
                assert(map@ =~= pre + seq![(field_name(fs[i as int]), field_value(fs[i as int]))]);
            }
        }
        i += 1;
    }
    proof {
        assert(fs.take(fs.len() as int) =~= fs);
        assert(fields_ok(fs));
        assert(map@ == headers_of(raw_message@));
    }
    Ok(ParsedEmail { headers: map, body })
}

/// The text of a `From` field with the given content.
pub open spec fn from_field(a: Seq<char>) -> Seq<char> {
    seq!['F', 'r', 'o', 'm', ':', ' '] + a
}

/// The text of a `Subject` field with the given content.
pub open spec fn subject_field(s: Seq<char>) -> Seq<char> {
    seq!['S', 'u', 'b', 'j', 'e', 'c', 't', ':', ' '] + s
}

/// The two-header message shape: a `From` field, a `Subject` field, a
/// blank line, and a body.
pub open spec fn two_header_msg(a: Seq<char>, s: Seq<char>, b: Seq<char>) -> Seq<char> {
    from_field(a) + crlf() + subject_field(s) + crlf() + crlf() + b
}

/// Whether a text holds no line-break character.
pub open spec fn break_free(s: Seq<char>) -> bool {
    forall|k: int| 0 <= k < s.len() ==> #[trigger] s[k] != '\r' && s[k] != '\n'
}

/// The two-header message of break-free field texts and a normalized
/// body is itself normalized.
proof fn lemma_two_header_normalized(a: Seq<char>, s: Seq<char>, b: Seq<char>)
    requires
        break_free(a),
        break_free(s),
        is_normalized(b),
    ensures
        is_normalized(two_header_msg(a, s, b)),
{
    let raw = two_header_msg(a, s, b);
    let la = a.len() as int;
    let ls = s.len() as int;
    assert forall|i: int|
        0 <= i < raw.len() && #[trigger] raw[i] == '\r' implies i + 1 < raw.len() && raw[i + 1]
        == '\n' by {
        if i < 6 + la {
            if i >= 6 {
                assert(raw[i] == a[i - 6]);
            }
        } else if i == 6 + la {
            assert(raw[i + 1] == '\n');
        } else if i < 17 + la + ls {
            if i >= 17 + la {
                assert(raw[i] == s[i - 17 - la]);
            }
        } else if i == 17 + la + ls || i == 19 + la + ls {
            assert(raw[i + 1] == '\n');
        } else if i >= 21 + la + ls {
            let k = i - 21 - la - ls;
            assert(raw[i] == b[k]);
            assert(k + 1 < b.len() && b[k + 1] == '\n');
            assert(raw[i + 1] == b[k + 1]);
        }
    }
    assert forall|i: int|
        0 <= i < raw.len() && #[trigger] raw[i] == '\n' implies i > 0 && raw[i - 1] == '\r' by {
        if i < 6 + la {
            if i >= 6 {
                assert(raw[i] == a[i - 6]);
            }
        } else if i == 7 + la || i == 18 + la + ls || i == 20 + la + ls {
            assert(raw[i - 1] == '\r');
        } else if i < 17 + la + ls {
            if i >= 17 + la {
                assert(raw[i] == s[i - 17 - la]);
            }
        } else if i >= 21 + la + ls {
            let k = i - 21 - la - ls;
            assert(raw[i] == b[k]);
            assert(k > 0 && b[k - 1] == '\r');
            assert(raw[i - 1] == b[k - 1]);
        }
    }
}

/// The separator of the two-header message stands right after its
/// header block and nowhere earlier.
proof fn lemma_two_header_sep(a: Seq<char>, s: Seq<char>, b: Seq<char>)
    requires
        break_free(a),
        break_free(s),
    ensures
        first_sep(two_header_msg(a, s, b)) == 17 + a.len() + s.len(),
{
    let raw = two_header_msg(a, s, b);
    let la = a.len() as int;
    let ls = s.len() as int;
    lemma_first_sep(raw);
    assert(sep_at(raw, 17 + la + ls));
    assert forall|k: int| 0 <= k < 17 + la + ls implies !sep_at(raw, k) by {
        if sep_at(raw, k) {
            if k < 6 {
            } else if k < 6 + la {
                assert(raw[k] == a[k - 6]);
            } else if k == 6 + la {
                assert(raw[k + 2] == 'S');
            } else if k < 17 + la {
            } else {
                assert(raw[k] == s[k - 17 - la]);
            }
        }
    }
    if first_sep(raw) < 17 + la + ls {
        assert(sep_at(raw, first_sep(raw) as int));
    }
    if first_sep(raw) > 17 + la + ls {
        assert(!sep_at(raw, 17 + la + ls));
    }
}

/// The header block of the two-header message splits into exactly its
/// two fields.
proof fn lemma_two_header_fields(a: Seq<char>, s: Seq<char>)
    requires
        break_free(a),
        break_free(s),
    ensures
        split_fields(from_field(a) + crlf() + subject_field(s)) == seq![
            from_field(a),
            subject_field(s),
        ],
{
    let f1 = from_field(a);
    let f2 = subject_field(s);
    let block = f1 + crlf() + f2;
    let la = a.len() as int;
    lemma_first_field_break(block);
    assert(field_break_at(block, 6 + la)) by {
        assert(block[6 + la] == '\r' && block[7 + la] == '\n' && block[8 + la] == 'S');
    }
    assert forall|k: int| 0 <= k < 6 + la implies !field_break_at(block, k) by {
        if field_break_at(block, k) {
            if k >= 6 {
                assert(block[k] == a[k - 6]);
            }
        }
    }
    assert(first_field_break(block) == 6 + la) by {
        if first_field_break(block) < 6 + la {
            assert(field_break_at(block, first_field_break(block) as int));
        }
        if first_field_break(block) > 6 + la {
            assert(!field_break_at(block, 6 + la));
        }
    }
    assert(split_fields(block) == seq![block.take(6 + la)] + split_fields(block.skip(8 + la)));
    assert(block.take(6 + la) =~= f1);
    assert(block.skip(8 + la) =~= f2);
    lemma_first_field_break(f2);
    assert(first_field_break(f2) == f2.len()) by {
        if first_field_break(f2) < f2.len() {
            let k = first_field_break(f2) as int;
            assert(field_break_at(f2, k));
            if k >= 9 {
                assert(f2[k] == s[k - 9]);
            }
        }
    }
    assert(split_fields(f2) == seq![f2]);
    assert(split_fields(block) =~= seq![f1, f2]);
}

/// A `From` field carries its colon after the name, and its stored name
/// is `from`.
proof fn lemma_from_field_name(a: Seq<char>)
    ensures
        first_colon(from_field(a)) == 4,
        field_name(from_field(a)) == seq!['f', 'r', 'o', 'm'],
{
    let f1 = from_field(a);
    lemma_first_colon(f1);
    assert(first_colon(f1) == 4) by {
        assert(f1[4] == ':');
        if first_colon(f1) < 4 {
            assert(f1[first_colon(f1) as int] == ':');
        }
    }
    let fr = f1.take(4);
    assert(fr =~= seq!['F', 'r', 'o', 'm']);
    assert(trim_ws(fr) == fr) by {
        assert(!is_ws(fr[0]));
        assert(trim_start_ws(fr) == fr);
        assert(!is_ws(fr.last()));
        assert(trim_end_ws(fr) == fr);
    }
    assert(field_name(f1) =~= seq!['f', 'r', 'o', 'm']);
}

/// A `Subject` field carries its colon after the name, and its stored
/// name is `subject`.
proof fn lemma_subject_field_name(s: Seq<char>)
    ensures
        first_colon(subject_field(s)) == 7,
        field_name(subject_field(s)) == seq!['s', 'u', 'b', 'j', 'e', 'c', 't'],
{
    let f2 = subject_field(s);
    lemma_first_colon(f2);
    assert(first_colon(f2) == 7) by {
        assert(f2[7] == ':');
        if first_colon(f2) < 7 {
            assert(f2[first_colon(f2) as int] == ':');
        }
    }
    let su = f2.take(7);
    assert(su =~= seq!['S', 'u', 'b', 'j', 'e', 'c', 't']);
    assert(trim_ws(su) == su) by {
        assert(!is_ws(su[0]));
        assert(trim_start_ws(su) == su);
        assert(!is_ws(su.last()));
        assert(trim_end_ws(su) == su);
    }
    assert(field_name(f2) =~= seq!['s', 'u', 'b', 'j', 'e', 'c', 't']);
}

/// Law: a message of a `From` and a `Subject` field with break-free
/// texts, a blank line and a CRLF-normalized body splits into exactly
/// those two header entries, in order, and exactly that body.
pub proof fn lemma_split_two_headers(a: Seq<char>, s: Seq<char>, b: Seq<char>)
    requires
        break_free(a),
        break_free(s),
        is_normalized(b),
    ensures
        msg_ok(two_header_msg(a, s, b)),
        body_of(two_header_msg(a, s, b)) == b,
        headers_of(two_header_msg(a, s, b)) == seq![
            (seq!['f', 'r', 'o', 'm'], from_field(a) + crlf()),
            (seq!['s', 'u', 'b', 'j', 'e', 'c', 't'], subject_field(s) + crlf()),
        ],
{
    let raw = two_header_msg(a, s, b);
    let f1 = from_field(a);
    let f2 = subject_field(s);
    let block = f1 + crlf() + f2;
    let la = a.len() as int;
    let ls = s.len() as int;
    assert(block.len() == 17 + la + ls);
    lemma_two_header_normalized(a, s, b);
    lemma_normalize_fixed(raw);
    lemma_two_header_sep(a, s, b);
    assert(header_block(raw) =~= block);
    assert(body_of(raw) =~= b);
    lemma_two_header_fields(a, s);
    let fields = split_fields(block);
    assert(fields == seq![f1, f2]);
    lemma_from_field_name(a);
    lemma_subject_field_name(s);
    assert(!all_ws(f1)) by {
        assert(!is_ws(f1[0]));
    }
    assert(!all_ws(f2)) by {
        assert(!is_ws(f2[0]));
    }
    assert(fields_ok(fields)) by {
        assert(fields[0] == f1 && fields[1] == f2);
    }
    assert(fields.drop_last() =~= seq![f1]);
    assert(seq![f1].drop_last() =~= Seq::<Seq<char>>::empty());
    assert(header_entries(Seq::<Seq<char>>::empty()) =~= Seq::<(Seq<char>, Seq<char>)>::empty());
    assert(seq![f1].last() == f1);
    assert(header_entries(seq![f1]) =~= seq![(field_name(f1), field_value(f1))]);
    assert(headers_of(raw) =~= seq![
        (field_name(f1), field_value(f1)),
        (field_name(f2), field_value(f2)),
    ]);
}

} // verus!
