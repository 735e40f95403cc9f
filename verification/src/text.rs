//! Verified text utilities: a lexicographic order on character sequences
//! together with its order laws, and an executable three-way comparison.
//! The lock-table binary search and the final (kind, name) sort rest on
//! these definitions.

use vstd::prelude::*;

verus! {

/// Three-way outcome of comparing two strings by Unicode code point.
#[derive(Clone, Copy, Debug, PartialEq, Eq, Structural)]
pub enum TextOrder {
    Less,
    Equal,
    Greater,
}

/// Strict lexicographic order on character sequences, by code point.
pub open spec fn lex_lt(a: Seq<char>, b: Seq<char>) -> bool
    decreases a.len(),
{
    if b.len() == 0 {
        false
    } else if a.len() == 0 {
        true
    } else if (a[0] as u32) < (b[0] as u32) {
        true
    } else if a[0] == b[0] {
        lex_lt(a.subrange(1, a.len() as int), b.subrange(1, b.len() as int))
    } else {
        false
    }
}

/// No sequence is lexicographically below itself.
pub proof fn lemma_lex_irrefl(a: Seq<char>)
    ensures
        !lex_lt(a, a),
    decreases a.len(),
{
    if a.len() > 0 {
        lemma_lex_irrefl(a.subrange(1, a.len() as int));
    }
}

/// The strict order is transitive.
pub proof fn lemma_lex_lt_trans(a: Seq<char>, b: Seq<char>, c: Seq<char>)
    requires
        lex_lt(a, b),
        lex_lt(b, c),
    ensures
        lex_lt(a, c),
    decreases a.len(),
{
    if a.len() > 0 {
        if a[0] == b[0] && b[0] == c[0] {
            lemma_lex_lt_trans(
                a.subrange(1, a.len() as int),
                b.subrange(1, b.len() as int),
                c.subrange(1, c.len() as int),
            );
        }
    }
}

/// The strict order is asymmetric.
pub proof fn lemma_lex_asym(a: Seq<char>, b: Seq<char>)
    requires
        lex_lt(a, b),
    ensures
        !lex_lt(b, a),
        a != b,
{
    if lex_lt(b, a) {
        lemma_lex_lt_trans(a, b, a);
        lemma_lex_irrefl(a);
    }
    if a == b {
        lemma_lex_irrefl(a);
    }
}

/// A shared proper prefix followed by a smaller character (or by the end of
/// the shorter sequence) places a sequence strictly below another.
pub proof fn lemma_lex_lt_from_diff(a: Seq<char>, b: Seq<char>, i: int)
    requires
        0 <= i <= a.len(),
        i <= b.len(),
        a.subrange(0, i) == b.subrange(0, i),
        (i < a.len() && i < b.len() && (a[i] as u32) < (b[i] as u32)) || (i == a.len() && i
            < b.len()),
    ensures
        lex_lt(a, b),
    decreases i,
{
    if i == 0 {
    } else {
        let a1 = a.subrange(1, a.len() as int);
        let b1 = b.subrange(1, b.len() as int);
        assert(a.subrange(0, i)[0] == a[0]);
        assert(b.subrange(0, i)[0] == b[0]);
        assert(a[0] == b[0]);
        assert forall|j: int| 0 <= j < i - 1 implies #[trigger] a1.subrange(0, i - 1)[j]
            == b1.subrange(0, i - 1)[j] by {
            assert(a1.subrange(0, i - 1)[j] == a1[j]);
            assert(a1[j] == a[j + 1]);
            assert(a.subrange(0, i)[j + 1] == a[j + 1]);
            assert(b1.subrange(0, i - 1)[j] == b1[j]);
            assert(b1[j] == b[j + 1]);
            assert(b.subrange(0, i)[j + 1] == b[j + 1]);
        }
        assert(a1.subrange(0, i - 1) =~= b1.subrange(0, i - 1));
        lemma_lex_lt_from_diff(a1, b1, i - 1);
    }
}

/// Compares two strings character by character, by code point.
pub fn compare_str(a: &str, b: &str) -> (r: TextOrder)
    ensures
        (r == TextOrder::Less) <==> lex_lt(a@, b@),
        (r == TextOrder::Equal) <==> (a@ == b@),
        (r == TextOrder::Greater) <==> lex_lt(b@, a@),
{
    let alen = a.unicode_len();
    let blen = b.unicode_len();
    let n = if alen < blen {
        alen
    } else {
        blen
    };
    let mut i: usize = 0;
    while i < n
        invariant
            i <= n,
            n == if alen < blen {
                alen
            } else {
                blen
            },
            alen == a@.len(),
            blen == b@.len(),
            a@.subrange(0, i as int) == b@.subrange(0, i as int),
        decreases n - i,
    {
        let ca = a.get_char(i);
        let cb = b.get_char(i);
        if (ca as u32) < (cb as u32) {
            proof {
                lemma_lex_lt_from_diff(a@, b@, i as int);
                lemma_lex_asym(a@, b@);
            }
            return TextOrder::Less;
        }
        if (cb as u32) < (ca as u32) {
            proof {
                lemma_lex_lt_from_diff(b@, a@, i as int);
                lemma_lex_asym(b@, a@);
            }
            return TextOrder::Greater;
        }
        proof {
            assert(ca == cb);
            assert forall|j: int| 0 <= j < i + 1 implies #[trigger] a@.subrange(0, i + 1)[j]
                == b@.subrange(0, i + 1)[j] by {
                assert(a@.subrange(0, i + 1)[j] == a@[j]);
                assert(b@.subrange(0, i + 1)[j] == b@[j]);
                if j < i {
                    assert(a@.subrange(0, i as int)[j] == a@[j]);
                    assert(b@.subrange(0, i as int)[j] == b@[j]);
                }
            }
            assert(a@.subrange(0, i + 1) =~= b@.subrange(0, i + 1));
        }
        i = i + 1;
    }
    if alen < blen {
        proof {
            lemma_lex_lt_from_diff(a@, b@, i as int);
            lemma_lex_asym(a@, b@);
        }
        TextOrder::Less
    } else if blen < alen {
        proof {
            lemma_lex_lt_from_diff(b@, a@, i as int);
            lemma_lex_asym(b@, a@);
        }
        TextOrder::Greater
    } else {
        proof {
            assert forall|j: int| 0 <= j < a@.len() implies a@[j] == b@[j] by {
                assert(a@.subrange(0, i as int)[j] == a@[j]);
                assert(b@.subrange(0, i as int)[j] == b@[j]);
            }
            assert(a@ =~= b@);
            lemma_lex_irrefl(a@);
        }
        TextOrder::Equal
    }
}

/// True exactly when the two strings hold the same characters.
pub fn text_eq(a: &str, b: &str) -> (r: bool)
    ensures
        r == (a@ == b@),
{
    match compare_str(a, b) {
        TextOrder::Equal => true,
        _ => false,
    }
}

/// Whether a character counts as whitespace.
pub uninterp spec fn is_ws(c: char) -> bool;

/// Relies on char::is_whitespace: a property of the character alone.
#[verifier::external_body]
pub fn whitespace_char(c: char) -> (b: bool)
    ensures
        b == is_ws(c),
{
    c.is_whitespace()
}

/// The sequence without its leading whitespace.
pub open spec fn spec_trim_start(s: Seq<char>) -> Seq<char>
    decreases s.len(),
{
    if s.len() == 0 {
        s
    } else if is_ws(s[0]) {
        spec_trim_start(s.drop_first())
    } else {
        s
    }
}

/// The sequence without its trailing whitespace.
pub open spec fn spec_trim_end(s: Seq<char>) -> Seq<char>
    decreases s.len(),
{
    if s.len() == 0 {
        s
    } else if is_ws(s.last()) {
        spec_trim_end(s.drop_last())
    } else {
        s
    }
}

/// The sequence without leading or trailing whitespace.
pub open spec fn spec_trim(s: Seq<char>) -> Seq<char> {
    spec_trim_end(spec_trim_start(s))
}

/// Every line break replaced by a space.
pub open spec fn spec_flatten_breaks(s: Seq<char>) -> Seq<char> {
    s.map_values(
        |c: char|
            if c == '\n' {
                ' '
            } else {
                c
            },
    )
}

/// A free-text field as displayed: trimmed, line breaks flattened to
/// spaces.
pub open spec fn spec_normalize(s: Seq<char>) -> Seq<char> {
    spec_flatten_breaks(spec_trim(s))
}

proof fn lemma_trim_start_at(s: Seq<char>, i: int)
    requires
        0 <= i <= s.len(),
        forall|k: int| 0 <= k < i ==> is_ws(#[trigger] s[k]),
        i < s.len() ==> !is_ws(s[i]),
    ensures
        spec_trim_start(s) == s.subrange(i, s.len() as int),
    decreases i,
{
    if i == 0 {
        if s.len() > 0 {
            assert(s.subrange(0, s.len() as int) =~= s);
        } else {
            assert(s.subrange(0, 0) =~= s);
        }
    } else {
        let t = s.drop_first();
        assert forall|k: int| 0 <= k < i - 1 implies is_ws(#[trigger] t[k]) by {
            assert(t[k] == s[k + 1]);
        }
        if i - 1 < t.len() {
            assert(t[i - 1] == s[i]);
        }
        lemma_trim_start_at(t, i - 1);
        assert(t.subrange(i - 1, t.len() as int) =~= s.subrange(i, s.len() as int));
    }
}

proof fn lemma_trim_end_at(s: Seq<char>, j: int)
    requires
        0 <= j <= s.len(),
        forall|k: int| j <= k < s.len() ==> is_ws(#[trigger] s[k]),
        j > 0 ==> !is_ws(s[j - 1]),
    ensures
        spec_trim_end(s) == s.subrange(0, j),
    decreases s.len() - j,
{
    if j == s.len() {
        if s.len() == 0 || !is_ws(s.last()) {
            assert(s.subrange(0, s.len() as int) =~= s);
        } else {
            let t = s.drop_last();
            lemma_trim_end_at(t, j - 1);
            assert(t.subrange(0, j - 1) =~= s.subrange(0, j - 1));
            assert(s.subrange(0, j) =~= s);
            assert(s.subrange(0, j - 1) =~= t);
            assert(false);
        }
    } else {
        assert(is_ws(s.last()));
        let t = s.drop_last();
        assert forall|k: int| j <= k < t.len() implies is_ws(#[trigger] t[k]) by {
            assert(t[k] == s[k]);
        }
        if j > 0 {
            assert(t[j - 1] == s[j - 1]);
        }
        lemma_trim_end_at(t, j);
        assert(t.subrange(0, j) =~= s.subrange(0, j));
    }
}

/// Trims a string and flattens its line breaks, matching
/// `spec_normalize` exactly.
#[verifier::loop_isolation(false)]
pub fn normalize_text(s: &str) -> (r: String)
    ensures
        r@ == spec_normalize(s@),
{
    let n = s.unicode_len();
    let mut start: usize = 0;
    while start < n && whitespace_char(s.get_char(start))
        invariant
            start <= n,
            n == s@.len(),
            forall|k: int| 0 <= k < start ==> is_ws(#[trigger] s@[k]),
        decreases n - start,
    {
        start = start + 1;
    }
    proof {
        lemma_trim_start_at(s@, start as int);
    }
    let mut stop: usize = n;
    while stop > start && whitespace_char(s.get_char(stop - 1))
        invariant
            start <= stop <= n,
            forall|k: int| stop <= k < n ==> is_ws(#[trigger] s@[k]),
        decreases stop,
    {
        stop = stop - 1;
    }
    let ghost trimmed_start = s@.subrange(start as int, n as int);
    proof {
        assert forall|k: int| stop - start <= k < trimmed_start.len() implies is_ws(
            #[trigger] trimmed_start[k],
        ) by {
            assert(trimmed_start[k] == s@[k + start]);
        }
        if stop > start {
            assert(trimmed_start[stop - start - 1] == s@[stop - 1]);
        }
        lemma_trim_end_at(trimmed_start, stop - start);
        assert(trimmed_start.subrange(0, stop - start) =~= s@.subrange(start as int, stop as int));
    }
    let mut out = String::new();
    let mut j: usize = start;
    while j < stop
        invariant
            start <= j <= stop,
            out@ == spec_flatten_breaks(s@.subrange(start as int, j as int)),
        decreases stop - j,
    {
        let c = s.get_char(j);
        if c == '\n' {
            out.append(" ");
        } else {
            let piece = s.substring_char(j, j + 1);
            out.append(piece);
        }
        proof {
            reveal_strlit(" ");
            assert(out@ =~= spec_flatten_breaks(s@.subrange(start as int, j + 1)));
        }
        j = j + 1;
    }
    out
}

/// Trims leading and trailing whitespace, matching `spec_trim` exactly.
#[verifier::loop_isolation(false)]
pub fn trim_text(s: &str) -> (r: String)
    ensures
        r@ == spec_trim(s@),
{
    let n = s.unicode_len();
    let mut start: usize = 0;
    while start < n && whitespace_char(s.get_char(start))
        invariant
            start <= n,
            n == s@.len(),
            forall|k: int| 0 <= k < start ==> is_ws(#[trigger] s@[k]),
        decreases n - start,
    {
        start = start + 1;
    }
    proof {
        lemma_trim_start_at(s@, start as int);
    }
    let mut stop: usize = n;
    while stop > start && whitespace_char(s.get_char(stop - 1))
        invariant
            start <= stop <= n,
            forall|k: int| stop <= k < n ==> is_ws(#[trigger] s@[k]),
        decreases stop,
    {
        stop = stop - 1;
    }
    let ghost trimmed_start = s@.subrange(start as int, n as int);
    proof {
        assert forall|k: int| stop - start <= k < trimmed_start.len() implies is_ws(
            #[trigger] trimmed_start[k],
        ) by {
            assert(trimmed_start[k] == s@[k + start]);
        }
        if stop > start {
            assert(trimmed_start[stop - start - 1] == s@[stop - 1]);
        }
        lemma_trim_end_at(trimmed_start, stop - start);
        assert(trimmed_start.subrange(0, stop - start) =~= s@.subrange(start as int, stop as int));
    }
    let piece = s.substring_char(start, stop);
    piece.to_owned()
}

/// The text before the first line break, without a trailing carriage
/// return: what the first line of a multi-line field shows.
pub open spec fn spec_first_line_raw(s: Seq<char>) -> Seq<char>
    decreases s.len(),
{
    if s.len() == 0 {
        s
    } else if s[0] == '\n' {
        Seq::empty()
    } else {
        seq![s[0]] + spec_first_line_raw(s.drop_first())
    }
}

pub open spec fn spec_strip_cr(l: Seq<char>) -> Seq<char> {
    if l.len() > 0 && l.last() == '\r' {
        l.drop_last()
    } else {
        l
    }
}

pub open spec fn spec_first_line(s: Seq<char>) -> Seq<char> {
    spec_strip_cr(spec_first_line_raw(s))
}

proof fn lemma_first_line_at(s: Seq<char>, i: int)
    requires
        0 <= i <= s.len(),
        forall|k: int| 0 <= k < i ==> #[trigger] s[k] != '\n',
        i < s.len() ==> s[i] == '\n',
    ensures
        spec_first_line_raw(s) == s.subrange(0, i),
    decreases i,
{
    if s.len() == 0 {
        assert(s.subrange(0, 0) =~= s);
    } else if i == 0 {
        if s[0] == '\n' {
            assert(s.subrange(0, 0) =~= Seq::<char>::empty());
        }
    } else {
        let t = s.drop_first();
        assert forall|k: int| 0 <= k < i - 1 implies #[trigger] t[k] != '\n' by {
            assert(t[k] == s[k + 1]);
        }
        if i - 1 < t.len() {
            assert(t[i - 1] == s[i]);
        }
        lemma_first_line_at(t, i - 1);
        assert(seq![s[0]] + t.subrange(0, i - 1) =~= s.subrange(0, i));
    }
}

/// The first line of a string, matching `spec_first_line` exactly.
#[verifier::loop_isolation(false)]
pub fn first_line(s: &str) -> (r: &str)
    ensures
        r@ == spec_first_line(s@),
{
    let n = s.unicode_len();
    let mut i: usize = 0;
    while i < n && s.get_char(i) != '\n'
        invariant
            i <= n,
            n == s@.len(),
            forall|k: int| 0 <= k < i ==> #[trigger] s@[k] != '\n',
        decreases n - i,
    {
        i = i + 1;
    }
    proof {
        lemma_first_line_at(s@, i as int);
    }
    if i > 0 && s.get_char(i - 1) == '\r' {
        let r = s.substring_char(0, i - 1);
        proof {
            assert(s@.subrange(0, i as int).last() == s@[i - 1]);
            assert(s@.subrange(0, i - 1) =~= s@.subrange(0, i as int).drop_last());
        }
        r
    } else {
        let r = s.substring_char(0, i);
        proof {
            if s@.subrange(0, i as int).len() > 0 {
                assert(s@.subrange(0, i as int).last() == s@[i - 1]);
            }
        }
        r
    }
}

/// The requirement string without its leading `=` and `^` operators: the
/// plain version digits a requirement pins.
pub open spec fn spec_strip_req_ops(s: Seq<char>) -> Seq<char>
    decreases s.len(),
{
    if s.len() > 0 && (s[0] == '=' || s[0] == '^') {
        spec_strip_req_ops(s.drop_first())
    } else {
        s
    }
}

proof fn lemma_strip_req_at(s: Seq<char>, i: int)
    requires
        0 <= i <= s.len(),
        forall|k: int| 0 <= k < i ==> (#[trigger] s[k] == '=' || s[k] == '^'),
        i < s.len() ==> !(s[i] == '=' || s[i] == '^'),
    ensures
        spec_strip_req_ops(s) == s.subrange(i, s.len() as int),
    decreases i,
{
    if i == 0 {
        assert(s.subrange(0, s.len() as int) =~= s);
    } else {
        let t = s.drop_first();
        assert forall|k: int| 0 <= k < i - 1 implies (#[trigger] t[k] == '=' || t[k] == '^') by {
            assert(t[k] == s[k + 1]);
        }
        if i - 1 < t.len() {
            assert(t[i - 1] == s[i]);
        }
        lemma_strip_req_at(t, i - 1);
        assert(t.subrange(i - 1, t.len() as int) =~= s.subrange(i, s.len() as int));
    }
}

/// Strips leading `=` and `^` from a requirement, matching
/// `spec_strip_req_ops` exactly.
#[verifier::loop_isolation(false)]
pub fn strip_req_ops(s: &str) -> (r: &str)
    ensures
        r@ == spec_strip_req_ops(s@),
{
    let n = s.unicode_len();
    let mut i: usize = 0;
    while i < n && (s.get_char(i) == '=' || s.get_char(i) == '^')
        invariant
            i <= n,
            n == s@.len(),
            forall|k: int| 0 <= k < i ==> (#[trigger] s@[k] == '=' || s@[k] == '^'),
        decreases n - i,
    {
        i = i + 1;
    }
    proof {
        lemma_strip_req_at(s@, i as int);
    }
    s.substring_char(i, n)
}

/// The date part of an RFC 3339 timestamp: the text before the first
/// `T`, or nothing when the string has no `T`.
pub open spec fn spec_date_part(s: Seq<char>) -> Option<Seq<char>>
    decreases s.len(),
{
    if s.len() == 0 {
        None
    } else if s[0] == 'T' {
        Some(Seq::empty())
    } else {
        match spec_date_part(s.drop_first()) {
            Some(rest) => Some(seq![s[0]] + rest),
            None => None,
        }
    }
}

proof fn lemma_date_part_at(s: Seq<char>, i: int)
    requires
        0 <= i <= s.len(),
        forall|k: int| 0 <= k < i ==> #[trigger] s[k] != 'T',
        i < s.len() ==> s[i] == 'T',
    ensures
        spec_date_part(s) == if i < s.len() {
            Some(s.subrange(0, i))
        } else {
            Option::<Seq<char>>::None
        },
    decreases i,
{
    if s.len() == 0 {
    } else if i == 0 {
        if s[0] == 'T' {
            assert(s.subrange(0, 0) =~= Seq::<char>::empty());
        }
    } else {
        let t = s.drop_first();
        assert forall|k: int| 0 <= k < i - 1 implies #[trigger] t[k] != 'T' by {
            assert(t[k] == s[k + 1]);
        }
        if i - 1 < t.len() {
            assert(t[i - 1] == s[i]);
        }
        lemma_date_part_at(t, i - 1);
        if i < s.len() {
            assert(seq![s[0]] + t.subrange(0, i - 1) =~= s.subrange(0, i));
        }
    }
}

/// The text before the first `T`, matching `spec_date_part` exactly.
#[verifier::loop_isolation(false)]
pub fn date_part(s: &str) -> (r: Option<&str>)
    ensures
        match r {
            Some(d) => spec_date_part(s@) == Some(d@),
            None => spec_date_part(s@) is None,
        },
{
    let n = s.unicode_len();
    let mut i: usize = 0;
    while i < n && s.get_char(i) != 'T'
        invariant
            i <= n,
            n == s@.len(),
            forall|k: int| 0 <= k < i ==> #[trigger] s@[k] != 'T',
        decreases n - i,
    {
        i = i + 1;
    }
    proof {
        lemma_date_part_at(s@, i as int);
    }
    if i < n {
        Some(s.substring_char(0, i))
    } else {
        None
    }
}

/// The character a decimal digit displays as.
pub open spec fn spec_digit_char(d: nat) -> char {
    if d == 0 {
        '0'
    } else if d == 1 {
        '1'
    } else if d == 2 {
        '2'
    } else if d == 3 {
        '3'
    } else if d == 4 {
        '4'
    } else if d == 5 {
        '5'
    } else if d == 6 {
        '6'
    } else if d == 7 {
        '7'
    } else if d == 8 {
        '8'
    } else {
        '9'
    }
}

/// The decimal digits of a count, most significant first.
pub open spec fn spec_decimal(n: nat) -> Seq<char>
    decreases n,
{
    if n < 10 {
        seq![spec_digit_char(n)]
    } else {
        spec_decimal(n / 10).push(spec_digit_char(n % 10))
    }
}

fn push_digit(s: &mut String, d: usize)
    requires
        d < 10,
    ensures
        final(s)@ == old(s)@ + seq![spec_digit_char(d as nat)],
{
    proof {
        reveal_strlit("0");
        reveal_strlit("1");
        reveal_strlit("2");
        reveal_strlit("3");
        reveal_strlit("4");
        reveal_strlit("5");
        reveal_strlit("6");
        reveal_strlit("7");
        reveal_strlit("8");
        reveal_strlit("9");
    }
    if d == 0 {
        s.append("0");
    } else if d == 1 {
        s.append("1");
    } else if d == 2 {
        s.append("2");
    } else if d == 3 {
        s.append("3");
    } else if d == 4 {
        s.append("4");
    } else if d == 5 {
        s.append("5");
    } else if d == 6 {
        s.append("6");
    } else if d == 7 {
        s.append("7");
    } else if d == 8 {
        s.append("8");
    } else {
        s.append("9");
    }
    proof {
        assert(s@ =~= old(s)@ + seq![spec_digit_char(d as nat)]);
    }
}

/// Writes a count in decimal, matching `spec_decimal` exactly.
pub fn decimal_string(n: usize) -> (r: String)
    ensures
        r@ == spec_decimal(n as nat),
    decreases n,
{
    if n < 10 {
        let mut s = String::new();
        push_digit(&mut s, n);
        proof {
            assert(s@ =~= spec_decimal(n as nat));
        }
        s
    } else {
        let mut s = decimal_string(n / 10);
        push_digit(&mut s, n % 10);
        proof {
            assert(s@ =~= spec_decimal(n as nat));
        }
        s
    }
}

/// A run of the same character, the padding the aligned table uses.
pub open spec fn spec_repeat(c: char, n: nat) -> Seq<char>
    decreases n,
{
    if n == 0 {
        Seq::empty()
    } else {
        spec_repeat(c, (n - 1) as nat).push(c)
    }
}

/// A run of spaces, matching `spec_repeat(' ', n)` exactly.
#[verifier::loop_isolation(false)]
pub fn spaces(n: usize) -> (r: String)
    ensures
        r@ == spec_repeat(' ', n as nat),
{
    let mut s = String::new();
    let mut i: usize = 0;
    proof {
        reveal_strlit(" ");
    }
    while i < n
        invariant
            i <= n,
            s@ == spec_repeat(' ', i as nat),
        decreases n - i,
    {
        s.append(" ");
        proof {
            reveal_strlit(" ");
            assert(s@ =~= spec_repeat(' ', (i + 1) as nat));
        }
        i = i + 1;
    }
    s
}

} // verus!
