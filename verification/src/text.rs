//! Character-sequence utilities shared by the dispatcher and the table
//! engine: conversion between `&str` and `Vec<char>`, whitespace trimming,
//! comma splitting, decimal rendering, padding and joining.

use vstd::prelude::*;
use vstd::utf8::char_u32_cast;

verus! {

/// The Unicode `White_Space` code points, as `char::is_whitespace` accepts
/// them.
pub open spec fn is_wspace(c: char) -> bool {
    ||| c == ' '
    ||| ('\u{9}' <= c && c <= '\u{d}')
    ||| c == '\u{85}'
    ||| c == '\u{a0}'
    ||| c == '\u{1680}'
    ||| ('\u{2000}' <= c && c <= '\u{200a}')
    ||| c == '\u{2028}'
    ||| c == '\u{2029}'
    ||| c == '\u{202f}'
    ||| c == '\u{205f}'
    ||| c == '\u{3000}'
}

/// Executable test for the `White_Space` property.
pub fn wspace(c: char) -> (r: bool)
    ensures
        r == is_wspace(c),
{
    c == ' ' || ('\u{9}' <= c && c <= '\u{d}') || c == '\u{85}' || c == '\u{a0}'
        || c == '\u{1680}' || ('\u{2000}' <= c && c <= '\u{200a}') || c == '\u{2028}'
        || c == '\u{2029}' || c == '\u{202f}' || c == '\u{205f}' || c == '\u{3000}'
}

/// The characters of a string, in order.
pub fn to_chars(s: &str) -> (r: Vec<char>)
    ensures
        r@ == s@,
{
    let n = s.unicode_len();
    let mut r: Vec<char> = Vec::new();
    let mut i: usize = 0;
    while i < n
        invariant
            i <= n,
            n == s@.len(),
            r@ =~= s@.subrange(0, i as int),
        decreases n - i,
    {
        r.push(s.get_char(i));
        i = i + 1;
    }
    proof {
        assert(r@ =~= s@);
    }
    r
}

/// Relies on `String: FromIterator<char>`: collecting the characters of a
/// `Vec<char>` yields the string with exactly those characters.
#[verifier::external_body]
pub fn chars_string(v: &Vec<char>) -> (r: String)
    ensures
        r@ == v@,
{
    v.iter().collect()
}

/// `str::to_lowercase` of the given characters; the result depends on the
/// characters alone.
pub uninterp spec fn lower_of(s: Seq<char>) -> Seq<char>;

/// `str::to_uppercase` of the given characters; the result depends on the
/// characters alone.
pub uninterp spec fn upper_of(s: Seq<char>) -> Seq<char>;

/// Relies on `str::to_lowercase`: the Unicode lowercase mapping, a function
/// of the characters alone.
#[verifier::external_body]
fn str_lowercase(s: &str) -> (r: String)
    ensures
        r@ == lower_of(s@),
{
    s.to_lowercase()
}

/// Relies on `str::to_uppercase`: the Unicode uppercase mapping, a function
/// of the characters alone.
#[verifier::external_body]
fn str_uppercase(s: &str) -> (r: String)
    ensures
        r@ == upper_of(s@),
{
    s.to_uppercase()
}

/// The lowercase mapping, on character vectors.
pub fn lower_chars(v: &Vec<char>) -> (r: Vec<char>)
    ensures
        r@ == lower_of(v@),
{
    let s = chars_string(v);
    let l = str_lowercase(s.as_str());
    to_chars(l.as_str())
}

/// The uppercase mapping, on character vectors.
pub fn upper_chars(v: &Vec<char>) -> (r: Vec<char>)
    ensures
        r@ == upper_of(v@),
{
    let s = chars_string(v);
    let u = str_uppercase(s.as_str());
    to_chars(u.as_str())
}

/// The sequence without its trailing whitespace.
pub open spec fn trim_end_spec(s: Seq<char>) -> Seq<char>
    decreases s.len(),
{
    if s.len() == 0 {
        s
    } else if is_wspace(s.last()) {
        trim_end_spec(s.drop_last())
    } else {
        s
    }
}

/// The sequence without its leading whitespace.
pub open spec fn trim_start_spec(s: Seq<char>) -> Seq<char>
    decreases s.len(),
{
    if s.len() == 0 {
        s
    } else if is_wspace(s[0]) {
        trim_start_spec(s.drop_first())
    } else {
        s
    }
}

/// The sequence without leading or trailing whitespace, as `str::trim`
/// produces it.
pub open spec fn trim_spec(s: Seq<char>) -> Seq<char> {
    trim_end_spec(trim_start_spec(s))
}

/// Remove trailing whitespace in place.
pub fn trim_end_chars(v: &mut Vec<char>)
    ensures
        final(v)@ == trim_end_spec(old(v)@),
{
    loop
        invariant
            trim_end_spec(v@) == trim_end_spec(old(v)@),
        decreases v@.len(),
    {
        let n = v.len();
        if n == 0 {
            return ;
        }
        if wspace(v[n - 1]) {
            v.pop();
        } else {
            return ;
        }
    }
}

/// Remove leading and trailing whitespace.
pub fn trim_chars(v: &Vec<char>) -> (r: Vec<char>)
    ensures
        r@ == trim_spec(v@),
{
    let mut start: usize = 0;
    proof {
        assert(v@.skip(0) =~= v@);
    }
    while start < v.len() && wspace(v[start])
        invariant
            start <= v@.len(),
            trim_start_spec(v@) == trim_start_spec(v@.skip(start as int)),
            forall|j: int| 0 <= j < start ==> is_wspace(v@[j]),
        decreases v@.len() - start,
    {
        proof {
            assert(v@.skip(start as int).drop_first() =~= v@.skip(start + 1));
        }
        start = start + 1;
    }
    proof {
        if start < v@.len() {
            assert(trim_start_spec(v@.skip(start as int)) == v@.skip(start as int));
        } else {
            assert(v@.skip(start as int) =~= Seq::<char>::empty());
        }
    }
    let mut r: Vec<char> = Vec::new();
    let mut i: usize = start;
    while i < v.len()
        invariant
            start <= i <= v@.len(),
            r@ =~= v@.subrange(start as int, i as int),
        decreases v@.len() - i,
    {
        r.push(v[i]);
        i = i + 1;
    }
    proof {
        assert(r@ =~= v@.skip(start as int));
    }
    trim_end_chars(&mut r);
    r
}

/// The comma-separated fields of a sequence, as `str::split(',')` yields
/// them: an empty input has one empty field, and every comma opens a new
/// field.
pub open spec fn split_commas(s: Seq<char>) -> Seq<Seq<char>>
    decreases s.len(),
{
    if s.len() == 0 {
        seq![Seq::<char>::empty()]
    } else if s.last() == ',' {
        split_commas(s.drop_last()).push(Seq::<char>::empty())
    } else {
        let rest = split_commas(s.drop_last());
        rest.update(rest.len() - 1, rest.last().push(s.last()))
    }
}

pub proof fn lemma_split_commas_len(s: Seq<char>)
    ensures
        split_commas(s).len() >= 1,
    decreases s.len(),
{
    if s.len() != 0 {
        lemma_split_commas_len(s.drop_last());
    }
}

/// Split a character vector at commas.
pub fn split_commas_chars(v: &Vec<char>) -> (r: Vec<Vec<char>>)
    ensures
        r.deep_view() == split_commas(v@),
{
    let mut done: Vec<Vec<char>> = Vec::new();
    let mut cur: Vec<char> = Vec::new();
    let mut i: usize = 0;
    proof {
        assert(v@.subrange(0, 0) =~= Seq::<char>::empty());
        assert(done.deep_view().push(cur@) =~~= split_commas(v@.subrange(0, 0)));
    }
    while i < v.len()
        invariant
            i <= v@.len(),
            done.deep_view().push(cur@) =~~= split_commas(v@.subrange(0, i as int)),
        decreases v@.len() - i,
    {
        proof {
            assert(v@.subrange(0, i + 1).drop_last() =~= v@.subrange(0, i as int));
            lemma_split_commas_len(v@.subrange(0, i as int));
        }
        let ghost old_dv = done.deep_view();
        let ghost old_cur = cur@;
        if v[i] == ',' {
            done.push(cur);
            cur = Vec::new();
            proof {
                assert(done.deep_view() =~~= old_dv.push(old_cur));
            }
        } else {
            cur.push(v[i]);
        }
        i = i + 1;
        proof {
            assert(done.deep_view().push(cur@) =~~= split_commas(v@.subrange(0, i as int)));
        }
    }
    proof {
        assert(v@.subrange(0, v@.len() as int) =~= v@);
    }
    let ghost old_dv = done.deep_view();
    let ghost old_cur = cur@;
    done.push(cur);
    proof {
        assert(done.deep_view() =~~= old_dv.push(old_cur));
    }
    done
}

/// The parts joined with the separator between them.
pub open spec fn join_with(parts: Seq<Seq<char>>, sep: Seq<char>) -> Seq<char>
    decreases parts.len(),
{
    if parts.len() == 0 {
        Seq::<char>::empty()
    } else if parts.len() == 1 {
        parts[0]
    } else {
        join_with(parts.drop_last(), sep) + sep + parts.last()
    }
}

/// Join character vectors with a separator.
pub fn join_chars(parts: &Vec<Vec<char>>, sep: &Vec<char>) -> (r: Vec<char>)
    ensures
        r@ == join_with(parts.deep_view(), sep@),
{
    let mut r: Vec<char> = Vec::new();
    let mut i: usize = 0;
    while i < parts.len()
        invariant
            i <= parts@.len(),
            r@ =~= join_with(parts.deep_view().subrange(0, i as int), sep@),
        decreases parts@.len() - i,
    {
        if i > 0 {
            let mut k: usize = 0;
            while k < sep.len()
                invariant
                    k <= sep@.len(),
                    r@ =~= join_with(parts.deep_view().subrange(0, i as int), sep@) + sep@.subrange(
                        0,
                        k as int,
                    ),
                decreases sep@.len() - k,
            {
                r.push(sep[k]);
                k = k + 1;
            }
        }
        let mut k: usize = 0;
        let ghost mid = r@;
        while k < parts[i].len()
            invariant
                k <= parts@[i as int]@.len(),
                i < parts@.len(),
                r@ =~= mid + parts@[i as int]@.subrange(0, k as int),
            decreases parts@[i as int]@.len() - k,
        {
            r.push(parts[i][k]);
            k = k + 1;
        }
        i = i + 1;
        proof {
            let pv = parts.deep_view();
            assert(pv.subrange(0, i as int).drop_last() =~= pv.subrange(0, i - 1));
            assert(parts@[i - 1]@.subrange(0, parts@[i - 1]@.len() as int) =~= pv[i - 1]);
            if i == 1 {
                assert(r@ =~= join_with(pv.subrange(0, 1), sep@));
            } else {
                assert(sep@.subrange(0, sep@.len() as int) =~= sep@);
                assert(r@ =~= join_with(pv.subrange(0, i as int), sep@));
            }
        }
    }
    proof {
        assert(parts.deep_view().subrange(0, parts@.len() as int) =~= parts.deep_view());
    }
    r
}

/// The decimal digit character for `d` (0 through 9).
pub open spec fn digit_char(d: int) -> char {
    ((48 + d) as u8) as char
}

/// The decimal numeral of a natural number, without leading zeros.
pub open spec fn dec_of(n: int) -> Seq<char>
    decreases n,
{
    if n < 10 {
        seq![digit_char(if n < 0 { 0 } else { n % 10 })]
    } else {
        dec_of(n / 10).push(digit_char(n % 10))
    }
}

/// Append the decimal numeral of `n`.
pub fn push_dec(out: &mut Vec<char>, n: u64)
    ensures
        final(out)@ == old(out)@ + dec_of(n as int),
    decreases n,
{
    if n < 10 {
        out.push((48 + (n as u8)) as char);
    } else {
        push_dec(out, n / 10);
        out.push((48 + ((n % 10) as u8)) as char);
    }
    proof {
        assert(final(out)@ =~= old(out)@ + dec_of(n as int));
    }
}

/// The decimal numeral of `n`, as a vector.
pub fn dec_chars(n: u64) -> (r: Vec<char>)
    ensures
        r@ == dec_of(n as int),
{
    let mut r: Vec<char> = Vec::new();
    push_dec(&mut r, n);
    proof {
        assert(r@ =~= dec_of(n as int));
    }
    r
}

/// `s` padded on the left with `c` to at least width 2, as `"{:2}"` and
/// `"{:02}"` pad.
pub open spec fn pad2_spec(s: Seq<char>, c: char) -> Seq<char> {
    if s.len() >= 2 {
        s
    } else if s.len() == 1 {
        seq![c] + s
    } else {
        seq![c, c]
    }
}

/// Append `s` padded on the left with `c` to at least width 2.
pub fn push_pad2(out: &mut Vec<char>, s: &Vec<char>, c: char)
    ensures
        final(out)@ == old(out)@ + pad2_spec(s@, c),
{
    if s.len() == 0 {
        out.push(c);
        out.push(c);
    } else if s.len() == 1 {
        out.push(c);
        out.push(s[0]);
    } else {
        let mut i: usize = 0;
        while i < s.len()
            invariant
                i <= s@.len(),
                out@ =~= old(out)@ + s@.subrange(0, i as int),
            decreases s@.len() - i,
        {
            out.push(s[i]);
            i = i + 1;
        }
    }
    proof {
        assert(final(out)@ =~= old(out)@ + pad2_spec(s@, c));
    }
}

/// `n` space characters.
pub open spec fn spaces(n: int) -> Seq<char> {
    Seq::new(if n < 0 { 0 } else { n as nat }, |i: int| ' ')
}

/// `s` padded on the right with spaces to width `w`, followed by one more
/// space, as the fixed-width cell format `"{:width$} "` produces.
pub open spec fn pad_cell_spec(s: Seq<char>, w: int) -> Seq<char> {
    s + spaces(w - s.len()) + seq![' ']
}

/// Append `s` padded on the right with spaces to width `w`, then one more
/// space.
pub fn push_cell(out: &mut Vec<char>, s: &Vec<char>, w: usize)
    ensures
        final(out)@ == old(out)@ + pad_cell_spec(s@, w as int),
{
    let mut i: usize = 0;
    while i < s.len()
        invariant
            i <= s@.len(),
            out@ =~= old(out)@ + s@.subrange(0, i as int),
        decreases s@.len() - i,
    {
        out.push(s[i]);
        i = i + 1;
    }
    let mut k: usize = s.len();
    while k < w
        invariant
            s@.len() <= k,
            k <= w || k == s@.len(),
            out@ =~= old(out)@ + s@ + spaces(k - s@.len()),
        decreases w - k,
    {
        out.push(' ');
        k = k + 1;
    }
    out.push(' ');
    proof {
        assert(final(out)@ =~= old(out)@ + pad_cell_spec(s@, w as int));
    }
}

/// Append all of `s`.
pub fn push_all(out: &mut Vec<char>, s: &Vec<char>)
    ensures
        final(out)@ == old(out)@ + s@,
{
    let mut i: usize = 0;
    while i < s.len()
        invariant
            i <= s@.len(),
            out@ =~= old(out)@ + s@.subrange(0, i as int),
        decreases s@.len() - i,
    {
        out.push(s[i]);
        i = i + 1;
    }
    proof {
        assert(final(out)@ =~= old(out)@ + s@);
    }
}

/// `s` with every tab replaced by a space, as tab-separated cells are
/// sanitized.
pub open spec fn untab_spec(s: Seq<char>) -> Seq<char> {
    s.map(|i: int, c: char| if c == '\t' { ' ' } else { c })
}

/// Replace every tab with a space.
pub fn untab_chars(s: &Vec<char>) -> (r: Vec<char>)
    ensures
        r@ == untab_spec(s@),
{
    let mut r: Vec<char> = Vec::new();
    let mut i: usize = 0;
    while i < s.len()
        invariant
            i <= s@.len(),
            r@ =~= untab_spec(s@).subrange(0, i as int),
        decreases s@.len() - i,
    {
        if s[i] == '\t' {
            r.push(' ');
        } else {
            r.push(s[i]);
        }
        i = i + 1;
    }
    proof {
        assert(r@ =~= untab_spec(s@));
    }
    r
}

/// Whether two vectors hold the same characters.
pub fn chars_eq(a: &Vec<char>, b: &Vec<char>) -> (r: bool)
    ensures
        r == (a@ == b@),
{
    if a.len() != b.len() {
        return false;
    }
    let mut i: usize = 0;
    while i < a.len()
        invariant
            i <= a@.len(),
            a@.len() == b@.len(),
            forall|j: int| 0 <= j < i ==> a@[j] == b@[j],
        decreases a@.len() - i,
    {
        if a[i] != b[i] {
            return false;
        }
        i = i + 1;
    }
    proof {
        assert(a@ =~= b@);
    }
    true
}

/// Strict lexicographic order on character sequences by code point, the
/// order `str::cmp` induces.
pub open spec fn seq_lt(a: Seq<char>, b: Seq<char>) -> bool
    decreases a.len(),
{
    if b.len() == 0 {
        false
    } else if a.len() == 0 {
        true
    } else if a[0] != b[0] {
        (a[0] as u32) < (b[0] as u32)
    } else {
        seq_lt(a.drop_first(), b.drop_first())
    }
}

/// Three-way comparison of character vectors in the order of `seq_lt`:
/// negative for less, zero for equal, positive for greater.
pub fn chars_cmp(a: &Vec<char>, b: &Vec<char>) -> (r: i8)
    ensures
        r == -1i8 || r == 0i8 || r == 1i8,
        (r == 0i8) <==> (a@ == b@),
        (r == -1i8) <==> seq_lt(a@, b@),
        (r == 1i8) <==> seq_lt(b@, a@),
{
    let mut i: usize = 0;
    proof {
        assert(a@.skip(0) =~= a@);
        assert(b@.skip(0) =~= b@);
    }
    loop
        invariant
            i <= a@.len(),
            i <= b@.len(),
            forall|j: int| 0 <= j < i ==> a@[j] == b@[j],
            seq_lt(a@, b@) == seq_lt(a@.skip(i as int), b@.skip(i as int)),
            seq_lt(b@, a@) == seq_lt(b@.skip(i as int), a@.skip(i as int)),
            (a@ == b@) == (a@.skip(i as int) == b@.skip(i as int)),
        decreases a@.len() - i,
    {
        proof {
            let sa = a@.skip(i as int);
            let sb = b@.skip(i as int);
            assert(sa.len() == a@.len() - i && sb.len() == b@.len() - i);
            if i < a@.len() && i < b@.len() {
                assert(sa[0] == a@[i as int] && sb[0] == b@[i as int]);
                assert(sa.drop_first() =~= a@.skip(i + 1));
                assert(sb.drop_first() =~= b@.skip(i + 1));
            }
        }
        if i == a.len() && i == b.len() {
            proof {
                assert(a@.skip(i as int) =~= b@.skip(i as int));
            }
            return 0;
        }
        if i == a.len() {
            proof {
                assert(a@.skip(i as int).len() == 0 && b@.skip(i as int).len() > 0);
                assert(a@.skip(i as int) != b@.skip(i as int));
            }
            return -1;
        }
        if i == b.len() {
            proof {
                assert(b@.skip(i as int).len() == 0 && a@.skip(i as int).len() > 0);
                assert(a@.skip(i as int) != b@.skip(i as int));
            }
            return 1;
        }
        let ca = a[i];
        let cb = b[i];
        if ca != cb {
            proof {
                assert(a@.skip(i as int) != b@.skip(i as int)) by {
                    assert(a@.skip(i as int)[0] != b@.skip(i as int)[0]);
                }
            }
            if (ca as u32) < (cb as u32) {
                return -1;
            } else {
                proof {
                    vstd::utf8::char_u32_cast(ca, ca as u32);
                    vstd::utf8::char_u32_cast(cb, cb as u32);
                }
                return 1;
            }
        }
        i = i + 1;
        proof {
            if i == a@.len() && i == b@.len() {
            }
            assert((a@ == b@) == (a@.skip(i as int) == b@.skip(i as int))) by {
                if a@.skip(i as int) == b@.skip(i as int) && a@.len() == b@.len() {
                    assert forall|j: int| 0 <= j < a@.len() implies a@[j] == b@[j] by {
                        if j >= i {
                            assert(a@[j] == a@.skip(i as int)[j - i]);
                            assert(b@[j] == b@.skip(i as int)[j - i]);
                        }
                    }
                    assert(a@ =~= b@);
                }
                if a@ == b@ {
                    assert(a@.skip(i as int) =~= b@.skip(i as int));
                }
            }
        }
    }
}


/// `seq_lt` is irreflexive.
pub proof fn lemma_seq_lt_irrefl(a: Seq<char>)
    ensures
        !seq_lt(a, a),
    decreases a.len(),
{
    if a.len() > 0 {
        lemma_seq_lt_irrefl(a.drop_first());
    }
}

/// `seq_lt` is transitive.
pub proof fn lemma_seq_lt_trans(a: Seq<char>, b: Seq<char>, c: Seq<char>)
    requires
        seq_lt(a, b),
        seq_lt(b, c),
    ensures
        seq_lt(a, c),
    decreases a.len(),
{
    if a.len() == 0 {
    } else {
        if a[0] == b[0] {
            if b[0] == c[0] {
                lemma_seq_lt_trans(a.drop_first(), b.drop_first(), c.drop_first());
            }
        } else {
            if b[0] != c[0] {
                char_u32_cast(a[0], a[0] as u32);
                char_u32_cast(c[0], c[0] as u32);
            }
        }
    }
}

/// `seq_lt` is connected: distinct sequences are ordered one way or the
/// other.
pub proof fn lemma_seq_lt_connected(a: Seq<char>, b: Seq<char>)
    requires
        a != b,
    ensures
        seq_lt(a, b) || seq_lt(b, a),
    decreases a.len(),
{
    if a.len() == 0 || b.len() == 0 {
        if a.len() == 0 && b.len() == 0 {
            assert(a =~= b);
        }
    } else if a[0] != b[0] {
        char_u32_cast(a[0], a[0] as u32);
        char_u32_cast(b[0], b[0] as u32);
    } else {
        if a.drop_first() == b.drop_first() {
            assert(a.drop_first().len() == b.drop_first().len());
            assert(a.len() == b.len());
            assert forall|j: int| 0 <= j < a.len() implies a[j] == b[j] by {
                if j >= 1 {
                    assert(a[j] == a.drop_first()[j - 1]);
                    assert(b[j] == b.drop_first()[j - 1]);
                }
            }
            assert(a =~= b);
        }
        lemma_seq_lt_connected(a.drop_first(), b.drop_first());
    }
}

/// `seq_lt` is asymmetric.
pub proof fn lemma_seq_lt_asym(a: Seq<char>, b: Seq<char>)
    requires
        seq_lt(a, b),
    ensures
        !seq_lt(b, a),
{
    if seq_lt(b, a) {
        lemma_seq_lt_trans(a, b, a);
        lemma_seq_lt_irrefl(a);
    }
}


/// A fresh vector with the same characters.
pub fn copy_chars(v: &Vec<char>) -> (r: Vec<char>)
    ensures
        r@ == v@,
{
    let mut r: Vec<char> = Vec::new();
    let mut i: usize = 0;
    while i < v.len()
        invariant
            i <= v@.len(),
            r@ =~= v@.subrange(0, i as int),
        decreases v@.len() - i,
    {
        r.push(v[i]);
        i = i + 1;
    }
    proof {
        assert(r@ =~= v@);
    }
    r
}


/// `s` padded on the right with spaces to width `w`, as `"{:<w$}"` pads.
pub open spec fn pad_right_spec(s: Seq<char>, w: int) -> Seq<char> {
    s + spaces(w - s.len())
}

/// Append `s` padded on the right with spaces to width `w`.
pub fn push_pad_right(out: &mut Vec<char>, s: &Vec<char>, w: usize)
    ensures
        final(out)@ == old(out)@ + pad_right_spec(s@, w as int),
{
    let mut i: usize = 0;
    while i < s.len()
        invariant
            i <= s@.len(),
            out@ =~= old(out)@ + s@.subrange(0, i as int),
        decreases s@.len() - i,
    {
        out.push(s[i]);
        i = i + 1;
    }
    let mut k: usize = s.len();
    while k < w
        invariant
            s@.len() <= k,
            k <= w || k == s@.len(),
            out@ =~= old(out)@ + s@ + spaces(k - s@.len()),
        decreases w - k,
    {
        out.push(' ');
        k = k + 1;
    }
    proof {
        assert(final(out)@ =~= old(out)@ + pad_right_spec(s@, w as int));
    }
}

} // verus!
