//! Parsing of the textual instance format into a `ProblemInstance`, and the
//! errors that reading one can report.

use vstd::prelude::*;

verus! {

/// The error of reading an instance: an I/O failure, or a syntax error with
/// the one-based number of the offending line.
#[derive(Debug)]
pub enum ProblemInstanceError {
    IOError(std::io::Error),
    SyntaxError(usize),
}

/// The standard library's opaque I/O error, carried through unchanged so the
/// caller that did the reading can report it.
#[verifier::external_type_specification]
#[verifier::external_body]
pub struct ExIoError(std::io::Error);

/// An ASCII whitespace character: what the parser strips around numbers.
pub open spec fn is_space_char(c: char) -> bool {
    c == ' ' || c == '\t' || c == '\n' || c == '\r' || c == '\u{0b}' || c == '\u{0c}'
}

/// An ASCII decimal digit.
pub open spec fn is_digit_char(c: char) -> bool {
    48 <= (c as u32) <= 57
}

/// The value of an ASCII decimal digit.
pub open spec fn digit_value(c: char) -> int {
    (c as u32) - 48
}

pub open spec fn all_digit_chars(s: Seq<char>) -> bool {
    forall|i: int| 0 <= i < s.len() ==> is_digit_char(#[trigger] s[i])
}

/// The number an all-digit sequence denotes, most significant digit first.
pub open spec fn digits_value(s: Seq<char>) -> int
    decreases s.len(),
{
    if s.len() == 0 {
        0
    } else {
        digits_value(s.drop_last()) * 10 + digit_value(s.last())
    }
}

/// Index of the first non-whitespace character at or after `from`.
pub open spec fn first_non_space(s: Seq<char>, from: int) -> int
    decreases s.len() - from,
{
    if 0 <= from < s.len() {
        if is_space_char(s[from]) {
            first_non_space(s, from + 1)
        } else {
            from
        }
    } else {
        from
    }
}

/// Index just after the last non-whitespace character before `upto`.
pub open spec fn last_non_space_end(s: Seq<char>, upto: int) -> int
    decreases upto,
{
    if 0 < upto <= s.len() {
        if is_space_char(s[upto - 1]) {
            last_non_space_end(s, upto - 1)
        } else {
            upto
        }
    } else {
        upto
    }
}

/// `s` with whitespace stripped from both ends.
pub open spec fn trim_spec(s: Seq<char>) -> Seq<char> {
    let a = first_non_space(s, 0);
    let e = last_non_space_end(s, s.len() as int);
    if a < e {
        s.subrange(a, e)
    } else {
        Seq::empty()
    }
}

/// `s` with whitespace stripped from its end only.
pub open spec fn trim_end_spec(s: Seq<char>) -> Seq<char> {
    s.take(last_non_space_end(s, s.len() as int))
}

/// What parsing `s` as an unsigned machine word yields: the number its
/// digits denote, after an optional leading plus sign, when it fits;
/// nothing on an empty body, a stray character, or overflow.
pub open spec fn parse_usize_spec(s: Seq<char>) -> Option<usize> {
    let body = if s.len() > 0 && s[0] == '+' {
        s.drop_first()
    } else {
        s
    };
    if body.len() > 0 && all_digit_chars(body) && digits_value(body) <= usize::MAX as int {
        Some(digits_value(body) as usize)
    } else {
        None
    }
}

/// What `parse_usize_with_prefix` yields: the trimmed remainder after the
/// prefix, parsed as a number; nothing when the prefix does not match.
pub open spec fn parse_with_prefix_spec(s: Seq<char>, p: Seq<char>) -> Option<usize> {
    if p.is_prefix_of(s) {
        parse_usize_spec(trim_spec(s.skip(p.len() as int)))
    } else {
        None
    }
}

/// The characters of a string, as a vector.
fn str_chars(s: &str) -> (r: Vec<char>)
    ensures
        r@ == s@,
{
    let len = s.unicode_len();
    let mut r: Vec<char> = Vec::new();
    let mut i: usize = 0;
    while i < len
        invariant
            len == s@.len(),
            i <= len,
            r@ == s@.take(i as int),
        decreases len - i,
    {
        r.push(s.get_char(i));
        proof {
            assert(r@ =~= s@.take(i + 1));
        }
        i = i + 1;
    }
    proof {
        assert(r@ =~= s@);
    }
    r
}

proof fn lemma_first_non_space_from(s: Seq<char>, lo: int)
    requires
        0 <= lo <= s.len(),
        forall|q: int| 0 <= q < lo ==> is_space_char(#[trigger] s[q]),
        lo < s.len() ==> !is_space_char(s[lo]),
    ensures
        first_non_space(s, 0) == lo,
{
    lemma_first_non_space_step(s, 0, lo);
}

proof fn lemma_first_non_space_step(s: Seq<char>, from: int, lo: int)
    requires
        0 <= from <= lo <= s.len(),
        forall|q: int| from <= q < lo ==> is_space_char(#[trigger] s[q]),
        lo < s.len() ==> !is_space_char(s[lo]),
    ensures
        first_non_space(s, from) == lo,
    decreases lo - from,
{
    if from < lo {
        lemma_first_non_space_step(s, from + 1, lo);
    }
}

proof fn lemma_last_non_space_step(s: Seq<char>, upto: int, e: int)
    requires
        0 <= e <= upto <= s.len(),
        forall|q: int| e <= q < upto ==> is_space_char(#[trigger] s[q]),
        e > 0 ==> !is_space_char(s[e - 1]),
    ensures
        last_non_space_end(s, upto) == e,
    decreases upto - e,
{
    if e < upto {
        lemma_last_non_space_step(s, upto - 1, e);
    }
}

/// Appending digits never shrinks the denoted number.
proof fn lemma_digits_value_mono(s: Seq<char>, k: int)
    requires
        0 <= k <= s.len(),
        all_digit_chars(s),
    ensures
        0 <= digits_value(s.take(k)) <= digits_value(s),
    decreases s.len() - k,
{
    lemma_digits_value_nonneg(s.take(k));
    if k < s.len() {
        lemma_digits_value_mono(s, k + 1);
        assert(s.take(k + 1).drop_last() =~= s.take(k));
        assert(is_digit_char(s[k]));
        assert(digits_value(s.take(k + 1)) == digits_value(s.take(k)) * 10 + digit_value(
            s.take(k + 1).last(),
        ));
        lemma_digits_value_nonneg(s.take(k));
        assert(digits_value(s.take(k)) * 10 >= digits_value(s.take(k))) by (nonlinear_arith)
            requires
                digits_value(s.take(k)) >= 0,
        ;
    } else {
        assert(s.take(k) =~= s);
    }
}

proof fn lemma_digits_value_nonneg(s: Seq<char>)
    ensures
        all_digit_chars(s) ==> digits_value(s) >= 0,
    decreases s.len(),
{
    if s.len() > 0 {
        assert forall|i: int| 0 <= i < s.drop_last().len() implies is_digit_char(
            #[trigger] s.drop_last()[i]) || !all_digit_chars(s) by {
            assert(s.drop_last()[i] == s[i]);
        }
        if all_digit_chars(s) {
            assert(all_digit_chars(s.drop_last()));
            lemma_digits_value_nonneg(s.drop_last());
            assert(is_digit_char(s.last()));
            assert(digits_value(s.drop_last()) * 10 >= 0) by (nonlinear_arith)
                requires
                    digits_value(s.drop_last()) >= 0,
            ;
        }
    }
}

/// Parses the all-digit body `v[lo..hi]` as a machine word.
fn parse_digits_range(v: &Vec<char>, lo: usize, hi: usize) -> (r: Option<usize>)
    requires
        lo <= hi,
        (hi as int) <= v@.len(),
    ensures
        r == parse_usize_spec(v@.subrange(lo as int, hi as int)),
{
    let ghost raw = v@.subrange(lo as int, hi as int);
    let mut start = lo;
    if lo < hi && v[lo] == '+' {
        start = lo + 1;
    }
    let ghost body = v@.subrange(start as int, hi as int);
    proof {
        assert(raw.len() > 0 ==> raw[0] == v@[lo as int]);
        if lo < hi && v@[lo as int] == '+' {
            assert(raw.drop_first() =~= body);
        } else {
            assert(raw =~= body);
        }
        assert(parse_usize_spec(raw) == (if body.len() > 0 && all_digit_chars(body)
            && digits_value(body) <= usize::MAX as int {
            Some(digits_value(body) as usize)
        } else {
            None
        }));
    }
    if start == hi {
        proof {
            assert(body.len() == 0);
        }
        return None;
    }
    let mut acc: usize = 0;
    let mut i = start;
    while i < hi
        invariant
            start <= i <= hi,
            (hi as int) <= v@.len(),
            body == v@.subrange(start as int, hi as int),
            raw == v@.subrange(lo as int, hi as int),
            start < hi,
            parse_usize_spec(raw) == (if body.len() > 0 && all_digit_chars(body)
                && digits_value(body) <= usize::MAX as int {
                Some(digits_value(body) as usize)
            } else {
                None
            }),
            all_digit_chars(body.take(i - start)),
            acc as int == digits_value(body.take(i - start)),
        decreases hi - i,
    {
        let c = v[i];
        let code = c as u32;
        if code < 48 || code > 57 {
            proof {
                assert(body[i - start] == v@[i as int]);
                assert(!is_digit_char(body[i - start]));
                assert(!all_digit_chars(body));
            }
            return None;
        }
        let d = (code - 48) as usize;
        proof {
            assert(body.take(i - start + 1).drop_last() =~= body.take(i - start));
            assert(body.take(i - start + 1).last() == v@[i as int]);
            assert forall|q: int|
                0 <= q < i - start + 1 implies is_digit_char(#[trigger] body.take(
                i - start + 1)[q]) by {
                if q < i - start {
                    assert(body.take(i - start + 1)[q] == body.take(i - start)[q]);
                }
            }
        }
        let stepped = match acc.checked_mul(10) {
            Some(base) => base.checked_add(d),
            None => None,
        };
        match stepped {
            Some(next) => {
                acc = next;
            },
            None => {
                proof {
                    lemma_digits_value_nonneg(body.take(i - start + 1));
                    assert(digits_value(body.take(i - start + 1)) > usize::MAX as int);
                    if all_digit_chars(body) {
                        lemma_digits_value_mono(body, i - start + 1);
                        assert(body.take(body.len() as int) =~= body);
                        assert(digits_value(body) > usize::MAX as int);
                    }
                }
                return None;
            },
        }
        i = i + 1;
    }
    proof {
        assert(body.take(i - start) =~= body);
    }
    Some(acc)
}

/// Finds the trimmed sub-range of `v[lo..hi]`: the bounds that skip the
/// whitespace on both ends.
fn trimmed_bounds(v: &Vec<char>, lo: usize, hi: usize) -> (r: (usize, usize))
    requires
        lo <= hi,
        (hi as int) <= v@.len(),
    ensures
        lo <= r.0 && r.0 <= hi && r.1 <= hi && lo <= r.1,
        trim_spec(v@.subrange(lo as int, hi as int)) == if r.0 < r.1 {
            v@.subrange(r.0 as int, r.1 as int)
        } else {
            Seq::<char>::empty()
        },
{
    let ghost s = v@.subrange(lo as int, hi as int);
    let mut a = lo;
    while a < hi && is_space(v[a])
        invariant
            lo <= a <= hi,
            (hi as int) <= v@.len(),
            s == v@.subrange(lo as int, hi as int),
            forall|q: int| 0 <= q < a - lo ==> is_space_char(#[trigger] s[q]),
        decreases hi - a,
    {
        a = a + 1;
    }
    proof {
        assert(a < hi ==> !is_space_char(s[a - lo]));
    }
    let mut e = hi;
    while e > a && is_space(v[e - 1])
        invariant
            a <= e <= hi,
            lo <= a <= hi,
            (hi as int) <= v@.len(),
            s == v@.subrange(lo as int, hi as int),
            a < hi ==> !is_space_char(s[a - lo]),
            a < hi ==> e > a,
            forall|q: int| e - lo <= q < hi - lo ==> is_space_char(#[trigger] s[q]),
        decreases e,
    {
        proof {
            assert(s[e - 1 - lo] == v@[e - 1]);
        }
        e = e - 1;
    }
    proof {
        lemma_first_non_space_from(s, a - lo);
        if e > a {
            assert(!is_space_char(s[e - lo - 1]));
            lemma_last_non_space_step(s, s.len() as int, e - lo);
            assert(trim_spec(s) =~= v@.subrange(a as int, e as int));
        } else {
            assert(e == a && a == hi);
            lemma_last_non_space_step(s, s.len() as int, 0);
            assert(trim_spec(s) =~= Seq::<char>::empty());
        }
    }
    (a, e)
}

/// Whether the character is ASCII whitespace.
fn is_space(c: char) -> (r: bool)
    ensures
        r == is_space_char(c),
{
    c == ' ' || c == '\t' || c == '\n' || c == '\r' || c == '\u{0b}' || c == '\u{0c}'
}

/// The delimiter occurs in `s` at position `i`.
pub open spec fn match_at(s: Seq<char>, d: Seq<char>, i: int) -> bool {
    0 <= i && i + d.len() <= s.len() && s.subrange(i, i + d.len() as int) == d
}

/// Position of the first occurrence of `d` in `s` at or after `from`, or
/// a negative number when there is none.
pub open spec fn first_match_from(s: Seq<char>, d: Seq<char>, from: int) -> int
    decreases s.len() - from,
{
    if d.len() == 0 || !(0 <= from) || from + d.len() > s.len() {
        -1
    } else if match_at(s, d, from) {
        from
    } else {
        first_match_from(s, d, from + 1)
    }
}

/// What one piece of the split contributes: its trimmed text parsed as a
/// number.
pub open spec fn piece_value(piece: Seq<char>) -> Option<usize> {
    parse_usize_spec(trim_spec(piece))
}

/// The numbers denoted by the delimiter-separated pieces of `s` from
/// position `from` on; nothing as soon as one piece fails to parse.
pub open spec fn parse_list_from(s: Seq<char>, d: Seq<char>, from: int) -> Option<Seq<usize>>
    decreases s.len() - from,
{
    if !(0 <= from <= s.len()) || d.len() == 0 {
        None
    } else {
        let m = first_match_from(s, d, from);
        if m < from || m + d.len() > s.len() {
            match piece_value(s.subrange(from, s.len() as int)) {
                Some(v) => Some(seq![v]),
                None => None,
            }
        } else {
            match (piece_value(s.subrange(from, m)), parse_list_from(s, d, m + d.len() as int)) {
                (Some(v), Some(t)) => Some(seq![v] + t),
                _ => None,
            }
        }
    }
}

/// What `parse_usize_list` yields: the input, trimmed at its end, split by
/// the delimiter, each piece trimmed and parsed; nothing when the
/// delimiter is empty or any piece fails.
pub open spec fn parse_usize_list_spec(s: Seq<char>, d: Seq<char>) -> Option<Seq<usize>> {
    if d.len() == 0 {
        None
    } else {
        parse_list_from(trim_end_spec(s), d, 0)
    }
}

proof fn lemma_first_match_found(s: Seq<char>, d: Seq<char>, from: int, m: int)
    requires
        d.len() >= 1,
        0 <= from <= m,
        m + d.len() <= s.len(),
        match_at(s, d, m),
        forall|q: int| from <= q < m ==> !match_at(s, d, q),
    ensures
        first_match_from(s, d, from) == m,
    decreases m - from,
{
    if from < m {
        lemma_first_match_found(s, d, from + 1, m);
    }
}

proof fn lemma_first_match_missing(s: Seq<char>, d: Seq<char>, from: int)
    requires
        d.len() >= 1,
        0 <= from,
        forall|q: int| from <= q && q + d.len() <= s.len() ==> !match_at(s, d, q),
    ensures
        first_match_from(s, d, from) < 0,
    decreases s.len() - from,
{
    if from + d.len() <= s.len() {
        lemma_first_match_missing(s, d, from + 1);
    }
}

impl crate::problem_instance::ProblemInstance {
    /// Parses the remainder of `string` after `prefix` as a number,
    /// ignoring surrounding whitespace; the prefix must match exactly.
    pub fn parse_usize_with_prefix(string: &str, prefix: &str) -> (r: Option<usize>)
        ensures
            r == parse_with_prefix_spec(string@, prefix@),
    {
        let sv = str_chars(string);
        let pv = str_chars(prefix);
        let plen = pv.len();
        if plen > sv.len() {
            proof {
                assert(!prefix@.is_prefix_of(string@));
            }
            return None;
        }
        let mut i: usize = 0;
        while i < plen
            invariant
                sv@ == string@,
                pv@ == prefix@,
                plen == prefix@.len(),
                plen <= string@.len(),
                i <= plen,
                forall|q: int| 0 <= q < i ==> string@[q] == prefix@[q],
            decreases plen - i,
        {
            if sv[i] != pv[i] {
                proof {
                    assert(string@.subrange(0, plen as int)[i as int] != prefix@[i as int]);
                    assert(!prefix@.is_prefix_of(string@));
                }
                return None;
            }
            i = i + 1;
        }
        proof {
            assert(prefix@ =~= string@.subrange(0, plen as int));
            assert(prefix@.is_prefix_of(string@));
        }
        let bounds = trimmed_bounds(&sv, plen, sv.len());
        proof {
            assert(string@.subrange(plen as int, string@.len() as int) =~= string@.skip(
                plen as int,
            ));
        }
        if bounds.0 >= bounds.1 {
            return None;
        }
        proof {
            assert(v_sub_is(sv@, bounds.0 as int, bounds.1 as int, trim_spec(string@.skip(plen as int))));
        }
        parse_digits_range(&sv, bounds.0, bounds.1)
    }

    /// Parses `string` as a delimiter-separated list of numbers: trailing
    /// whitespace is dropped, every piece is trimmed and must parse.
    pub fn parse_usize_list(string: &str, delimiter: &str) -> (r: Option<Vec<usize>>)
        ensures
            match r {
                Some(v) => parse_usize_list_spec(string@, delimiter@) == Some(v@),
                None => parse_usize_list_spec(string@, delimiter@) is None,
            },
    {
        let sv = str_chars(string);
        let dv = str_chars(delimiter);
        let dlen = dv.len();
        if dlen == 0 {
            return None;
        }
        let mut hi0 = sv.len();
        while hi0 > 0 && is_space(sv[hi0 - 1])
            invariant
                sv@ == string@,
                hi0 <= string@.len(),
                forall|q: int| hi0 <= q < string@.len() ==> is_space_char(#[trigger] string@[q]),
            decreases hi0,
        {
            hi0 = hi0 - 1;
        }
        proof {
            lemma_last_non_space_step(string@, string@.len() as int, hi0 as int);
        }
        let ghost w = trim_end_spec(string@);
        proof {
            assert(w =~= string@.subrange(0, hi0 as int));
        }
        let mut out: Vec<usize> = Vec::new();
        let mut from: usize = 0;
        loop
            invariant
                sv@ == string@,
                dv@ == delimiter@,
                dlen == delimiter@.len(),
                dlen >= 1,
                hi0 <= string@.len(),
                from <= hi0,
                w == trim_end_spec(string@),
                w == string@.subrange(0, hi0 as int),
                parse_list_from(w, delimiter@, 0) == match parse_list_from(
                    w,
                    delimiter@,
                    from as int,
                ) {
                    Some(t) => Some(out@ + t),
                    None => Option::<Seq<usize>>::None,
                },
            decreases hi0 - from,
        {
            let mut m = from;
            let mut found = false;
            while !found && dlen <= hi0 - m
                invariant
                    sv@ == string@,
                    dv@ == delimiter@,
                    dlen == delimiter@.len(),
                    dlen >= 1,
                    hi0 <= string@.len(),
                    from <= m,
                    m <= hi0,
                    w == string@.subrange(0, hi0 as int),
                    !found ==> forall|q: int| from <= q < m ==> !match_at(w, delimiter@, q),
                    found ==> m + dlen <= hi0 && match_at(w, delimiter@, m as int) && forall|
                        q: int,
                    | from <= q < m ==> !match_at(w, delimiter@, q),
                decreases hi0 - m + (if found { 0int } else { 1int }),
            {
                let mut eq = true;
                let mut q: usize = 0;
                let ghost mut bad: int = 0;
                while eq && q < dlen
                    invariant
                        sv@ == string@,
                        dv@ == delimiter@,
                        dlen == delimiter@.len(),
                        m + dlen <= hi0,
                        hi0 <= string@.len(),
                        q <= dlen,
                        w == string@.subrange(0, hi0 as int),
                        eq ==> forall|z: int| 0 <= z < q ==> w[m + z] == delimiter@[z],
                        !eq ==> 0 <= bad < dlen && w[m + bad] != delimiter@[bad],
                    decreases dlen - q + (if eq { 1int } else { 0int }),
                {
                    if sv[m + q] != dv[q] {
                        proof {
                            bad = q as int;
                        }
                        eq = false;
                    } else {
                        q = q + 1;
                    }
                }
                if eq {
                    proof {
                        assert(w.subrange(m as int, m + dlen) =~= delimiter@);
                        assert(match_at(w, delimiter@, m as int));
                    }
                    found = true;
                } else {
                    proof {
                        if match_at(w, delimiter@, m as int) {
                            assert(w.subrange(m as int, m + dlen)[bad] == w[m + bad]);
                            assert(false);
                        }
                    }
                    m = m + 1;
                }
            }
            let piece_end = if found {
                m
            } else {
                hi0
            };
            proof {
                if found {
                    lemma_first_match_found(w, delimiter@, from as int, m as int);
                } else {
                    assert forall|q: int|
                        from <= q && q + delimiter@.len() <= w.len() implies !match_at(
                        w,
                        delimiter@,
                        q) by {}
                    lemma_first_match_missing(w, delimiter@, from as int);
                }
            }
            let bounds = trimmed_bounds(&sv, from, piece_end);
            proof {
                assert(string@.subrange(from as int, piece_end as int) =~= w.subrange(
                    from as int,
                    piece_end as int,
                ));
                if !found {
                    assert(w.subrange(from as int, piece_end as int) =~= w.subrange(
                        from as int,
                        w.len() as int,
                    ));
                }
            }
            let value = if bounds.0 >= bounds.1 {
                None
            } else {
                proof {
                    assert(v_sub_is(sv@, bounds.0 as int, bounds.1 as int, trim_spec(w.subrange(from as int, piece_end as int))));
                }
                parse_digits_range(&sv, bounds.0, bounds.1)
            };
            let ghost prev_out = out@;
            match value {
                None => {
                    return None;
                },
                Some(x) => {
                    out.push(x);
                    if found {
                        proof {
                            assert(parse_list_from(w, delimiter@, from as int) == (match (
                            piece_value(w.subrange(from as int, m as int)), parse_list_from(
                                w,
                                delimiter@,
                                m + dlen,
                            )) {
                                (Some(v), Some(t)) => Some(seq![v] + t),
                                _ => Option::<Seq<usize>>::None,
                            }));
                            assert forall|t: Seq<usize>|
                                prev_out + (seq![x] + t) =~= out@ + t by {}
                        }
                        from = m + dlen;
                    } else {
                        proof {
                            assert(parse_list_from(w, delimiter@, from as int) == Some(seq![x]));
                            assert(prev_out + seq![x] =~= out@);
                        }
                        return Some(out);
                    }
                },
            }
        }
    }
}

/// The given subrange of `v` is exactly the sequence `t`.
pub open spec fn v_sub_is(v: Seq<char>, lo: int, hi: int, t: Seq<char>) -> bool {
    v.subrange(lo, hi) == t
}

/// The view of the `i`-th line, or the empty line where the file ended.
pub open spec fn line_at(lines: Seq<String>, i: int) -> Seq<char> {
    if 0 <= i < lines.len() {
        lines[i]@
    } else {
        Seq::empty()
    }
}

/// The tab character, the format's separator.
pub open spec fn tab_seq() -> Seq<char> {
    seq!['\t']
}

/// A well-formed instance text: a task count line, a machine count line, a
/// task time list after the first tab of the third line with exactly that
/// many entries, and one setup row per task plus one, each one entry wider.
pub open spec fn from_lines_ok(lines: Seq<String>) -> bool {
    let n_opt = parse_with_prefix_spec(line_at(lines, 0), seq!['n', ':']);
    let m_opt = parse_with_prefix_spec(line_at(lines, 1), seq!['m', ':']);
    let tab = first_match_from(line_at(lines, 2), tab_seq(), 0);
    let times = parse_usize_list_spec(line_at(lines, 2).skip(tab + 1), tab_seq());
    &&& n_opt is Some
    &&& m_opt is Some
    &&& tab >= 0
    &&& times is Some
    &&& times.unwrap().len() == n_opt.unwrap() as int
    &&& forall|i: int|
        0 <= i <= n_opt.unwrap() as int ==> {
            let row = parse_usize_list_spec(#[trigger] line_at(lines, 4 + i), tab_seq());
            row is Some && row.unwrap().len() == n_opt.unwrap() as int + 1
        }
}

/// The `i`-th line of the file, or an empty line where the file ended.
fn line_of<'a>(lines: &'a Vec<String>, i: usize) -> (r: &'a str)
    ensures
        r@ == line_at(lines@, i as int),
{
    if i < lines.len() {
        lines[i].as_str()
    } else {
        let r = "";
        proof {
            reveal_strlit("");
            assert(r@ =~= Seq::<char>::empty());
        }
        r
    }
}

impl crate::problem_instance::ProblemInstance {
    /// Builds an instance from the lines of its textual format: the task
    /// count prefixed `n:`, the machine count prefixed `m:`, the task times
    /// after the first tab of the third line, one free line, and the square
    /// setup matrix, one row per line.  The error carries the one-based
    /// number of the first offending line.
    pub fn from_lines(lines: &Vec<String>) -> (r: Result<
        crate::problem_instance::ProblemInstance,
        ProblemInstanceError,
    >)
        ensures
            r is Ok <==> from_lines_ok(lines@),
            match r {
                Ok(inst) => {
                    &&& inst.wf()
                    &&& parse_with_prefix_spec(line_at(lines@, 0), seq!['n', ':']) == Some(
                        inst.task_times.len(),
                    )
                    &&& parse_with_prefix_spec(line_at(lines@, 1), seq!['m', ':']) == Some(
                        inst.number_of_machines,
                    )
                    &&& parse_usize_list_spec(
                        line_at(lines@, 2).skip(
                            first_match_from(line_at(lines@, 2), tab_seq(), 0) + 1,
                        ),
                        tab_seq(),
                    ) == Some(inst.task_times@)
                    &&& forall|i: int|
                        0 <= i < inst.setup_times@.len() ==> parse_usize_list_spec(
                            #[trigger] line_at(lines@, 4 + i),
                            tab_seq(),
                        ) == Some(inst.setup_times@[i]@)
                },
                Err(e) => e is SyntaxError,
            },
    {
        proof {
            reveal_strlit("n:");
            reveal_strlit("m:");
            reveal_strlit("\t");
            assert("n:"@ =~= seq!['n', ':']);
            assert("m:"@ =~= seq!['m', ':']);
            assert("\t"@ =~= tab_seq());
        }
        let number_of_tasks = match Self::parse_usize_with_prefix(line_of(lines, 0), "n:") {
            Some(v) => v,
            None => {
                return Err(ProblemInstanceError::SyntaxError(1));
            },
        };
        let number_of_machines = match Self::parse_usize_with_prefix(line_of(lines, 1), "m:") {
            Some(v) => v,
            None => {
                return Err(ProblemInstanceError::SyntaxError(2));
            },
        };
        let line2 = line_of(lines, 2);
        let l2chars = str_chars(line2);
        let mut tab: usize = 0;
        let mut tab_found = false;
        while !tab_found && tab < l2chars.len()
            invariant
                l2chars@ == line2@,
                tab <= line2@.len(),
                !tab_found ==> forall|q: int| 0 <= q < tab ==> !match_at(line2@, tab_seq(), q),
                tab_found ==> (tab as int) + 1 <= line2@.len() && match_at(
                    line2@,
                    tab_seq(),
                    tab as int,
                ) && forall|q: int| 0 <= q < tab ==> !match_at(line2@, tab_seq(), q),
            decreases line2@.len() - tab + (if tab_found { 0int } else { 1int }),
        {
            if l2chars[tab] == '\t' {
                proof {
                    assert(line2@.subrange(tab as int, tab as int + 1) =~= tab_seq());
                }
                tab_found = true;
            } else {
                proof {
                    assert forall|q: int| 0 <= q < tab + 1 implies !match_at(
                        line2@,
                        tab_seq(),
                        q) by {
                        if q == tab as int && match_at(line2@, tab_seq(), q) {
                            assert(line2@.subrange(q, q + 1)[0] == line2@[q]);
                        }
                    }
                }
                tab = tab + 1;
            }
        }
        if !tab_found {
            proof {
                lemma_first_match_missing(line2@, tab_seq(), 0);
            }
            return Err(ProblemInstanceError::SyntaxError(3));
        }
        proof {
            lemma_first_match_found(line2@, tab_seq(), 0, tab as int);
        }
        let l2len = l2chars.len();
        assert(tab < l2len);
        let rest = line2.substring_char(tab + 1, l2len);
        proof {
            assert(rest@ =~= line2@.skip(tab as int + 1));
        }
        let task_times = match Self::parse_usize_list(rest, "\t") {
            Some(v) => v,
            None => {
                return Err(ProblemInstanceError::SyntaxError(3));
            },
        };
        if task_times.len() != number_of_tasks {
            return Err(ProblemInstanceError::SyntaxError(3));
        }
        let n_lines = lines.len();
        let mut setup_times: Vec<Vec<usize>> = Vec::new();
        let mut i: usize = 0;
        while i <= number_of_tasks
            invariant
                "\t"@ == tab_seq(),
                n_lines == lines@.len(),
                from_lines_ok(lines@) ==> {
                    let n_opt = parse_with_prefix_spec(line_at(lines@, 0), seq!['n', ':']);
                    n_opt == Some(number_of_tasks)
                },
                setup_times@.len() == i,
                i <= number_of_tasks + 1,
                i == 0 || 4 + i as int <= lines@.len(),
                forall|q: int|
                    0 <= q < i ==> {
                        let row = parse_usize_list_spec(#[trigger] line_at(lines@, 4 + q), tab_seq());
                        row == Some(setup_times@[q]@) && row.unwrap().len() == number_of_tasks
                            as int + 1
                    },
            decreases number_of_tasks + 1 - i,
        {
            let idx = 4 + i;
            let row_line = line_of(lines, idx);
            let row = match Self::parse_usize_list(row_line, "\t") {
                Some(v) => v,
                None => {
                    proof {
                        if from_lines_ok(lines@) {
                            assert(parse_usize_list_spec(line_at(lines@, 4 + i as int), tab_seq())
                                is Some);
                        }
                    }
                    let ln = if idx == usize::MAX { idx } else { idx + 1 };
                    return Err(ProblemInstanceError::SyntaxError(ln));
                },
            };
            if row.len() < 1 || row.len() - 1 != number_of_tasks {
                proof {
                    if from_lines_ok(lines@) {
                        assert(parse_usize_list_spec(line_at(lines@, 4 + i as int), tab_seq())
                            == Some(row@));
                        assert(row@.len() == number_of_tasks as int + 1);
                    }
                }
                let ln = if idx == usize::MAX { idx } else { idx + 1 };
                return Err(ProblemInstanceError::SyntaxError(ln));
            }
            proof {
                if 4 + i >= lines@.len() {
                    reveal_strlit("");
                    assert(line_at(lines@, 4 + i as int) =~= Seq::<char>::empty());
                    assert(trim_end_spec(Seq::<char>::empty()) =~= Seq::<char>::empty());
                    assert(trim_spec(Seq::<char>::empty()) =~= Seq::<char>::empty());
                    assert(parse_usize_list_spec(line_at(lines@, 4 + i as int), tab_seq())
                        is None);
                    assert(false);
                }
            }
            setup_times.push(row);
            i = i + 1;
        }
        let inst = crate::problem_instance::ProblemInstance {
            setup_times,
            task_times,
            number_of_machines,
        };
        proof {
            assert forall|q: int|
                0 <= q < inst.setup_times@.len() implies (#[trigger] inst.setup_times@[q]@).len()
                == inst.task_count() + 1 by {
                assert(parse_usize_list_spec(line_at(lines@, 4 + q), tab_seq()) == Some(
                    inst.setup_times@[q]@,
                ));
            }
            assert(inst.wf());
        }
        Ok(inst)
    }
}

} // verus!
