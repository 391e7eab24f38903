//! Character-level string operations used by the symbol, path and key logic,
//! each with a mathematical model over `Seq<char>`.
use vstd::prelude::*;

verus! {

/// Whether `s` holds `pat` at position `i`.
pub open spec fn matches_at(s: Seq<char>, i: int, pat: Seq<char>) -> bool {
    0 <= i && i + pat.len() <= s.len() && s.subrange(i, i + pat.len()) == pat
}

/// Every non-overlapping occurrence of `pat` in `s`, found from the left,
/// replaced by `rep` (the model of `str::replace` for a non-empty pattern).
pub open spec fn replace_seq(s: Seq<char>, pat: Seq<char>, rep: Seq<char>) -> Seq<char>
    decreases s.len(),
{
    if s.len() == 0 {
        Seq::empty()
    } else if pat.len() > 0 && matches_at(s, 0, pat) {
        rep + replace_seq(s.skip(pat.len() as int), pat, rep)
    } else {
        seq![s[0]] + replace_seq(s.skip(1), pat, rep)
    }
}

/// Replacing a character that does not occur changes nothing.
pub proof fn lemma_replace_absent(s: Seq<char>, c: char, rep: Seq<char>)
    requires
        forall|i: int| 0 <= i < s.len() ==> #[trigger] s[i] != c,
    ensures
        replace_seq(s, seq![c], rep) == s,
    decreases s.len(),
{
    if s.len() > 0 {
        assert(!matches_at(s, 0, seq![c])) by {
            if matches_at(s, 0, seq![c]) {
                assert(s.subrange(0, 1)[0] == s[0]);
            }
        }
        let t = s.skip(1);
        assert forall|i: int| 0 <= i < t.len() implies #[trigger] t[i] != c by {
            assert(t[i] == s[i + 1]);
        }
        lemma_replace_absent(t, c, rep);
        assert(seq![s[0]] + t =~= s);
    }
}

/// The text before the first occurrence of a non-empty `pat`, or all of `s`
/// when `pat` does not occur (the first piece of `str::split`).
pub open spec fn first_piece(s: Seq<char>, pat: Seq<char>) -> Seq<char>
    decreases s.len(),
{
    if s.len() == 0 {
        Seq::empty()
    } else if pat.len() > 0 && matches_at(s, 0, pat) {
        Seq::empty()
    } else {
        seq![s[0]] + first_piece(s.skip(1), pat)
    }
}

/// The pieces of `s` between occurrences of the separator `c`
/// (the model of `str::split` with a `char`); never empty.
pub open spec fn split_char(s: Seq<char>, c: char) -> Seq<Seq<char>>
    decreases s.len(),
{
    if s.len() == 0 {
        seq![Seq::empty()]
    } else {
        let init = split_char(s.drop_last(), c);
        if s.last() == c {
            init.push(Seq::empty())
        } else {
            init.update(init.len() - 1, init.last().push(s.last()))
        }
    }
}

/// The characters for which `char::is_whitespace` holds (Unicode `White_Space`).
pub open spec fn is_white_space(c: char) -> bool {
    ||| c == '\t'
    ||| c == '\n'
    ||| c == '\u{0B}'
    ||| c == '\u{0C}'
    ||| c == '\r'
    ||| c == ' '
    ||| c == '\u{85}'
    ||| c == '\u{A0}'
    ||| c == '\u{1680}'
    ||| ('\u{2000}' <= c && c <= '\u{200A}')
    ||| c == '\u{2028}'
    ||| c == '\u{2029}'
    ||| c == '\u{202F}'
    ||| c == '\u{205F}'
    ||| c == '\u{3000}'
}

/// `s` without its leading characters that satisfy `p`.
pub open spec fn trim_start_by(s: Seq<char>, p: spec_fn(char) -> bool) -> Seq<char>
    decreases s.len(),
{
    if s.len() > 0 && p(s[0]) {
        trim_start_by(s.skip(1), p)
    } else {
        s
    }
}

/// `s` without its trailing characters that satisfy `p`.
pub open spec fn trim_end_by(s: Seq<char>, p: spec_fn(char) -> bool) -> Seq<char>
    decreases s.len(),
{
    if s.len() > 0 && p(s.last()) {
        trim_end_by(s.drop_last(), p)
    } else {
        s
    }
}

/// The predicate "is the character `c`".
pub open spec fn is_char(c: char) -> spec_fn(char) -> bool {
    |x: char| x == c
}

/// The predicate "is white space".
pub open spec fn white_space() -> spec_fn(char) -> bool {
    |x: char| is_white_space(x)
}

/// `s` without trailing `c` characters (`str::trim_end_matches` with a `char`).
pub open spec fn trim_end_char(s: Seq<char>, c: char) -> Seq<char> {
    trim_end_by(s, is_char(c))
}

/// `s` without leading and trailing `c` characters (`str::trim_matches` with a `char`).
pub open spec fn trim_char(s: Seq<char>, c: char) -> Seq<char> {
    trim_end_by(trim_start_by(s, is_char(c)), is_char(c))
}

/// `s` without leading and trailing white space (`str::trim`).
pub open spec fn trim_ws(s: Seq<char>) -> Seq<char> {
    trim_end_by(trim_start_by(s, white_space()), white_space())
}

/// Whether `s` begins with `p`.
pub open spec fn has_prefix(s: Seq<char>, p: Seq<char>) -> bool {
    p.len() <= s.len() && s.take(p.len() as int) == p
}

/// The ASCII upper case of a character; other characters are unchanged.
pub open spec fn ascii_upper(c: char) -> char {
    if 'a' <= c && c <= 'z' {
        ((c as int) - 32) as char
    } else {
        c
    }
}

/// The ASCII lower case of a character; other characters are unchanged.
pub open spec fn ascii_lower(c: char) -> char {
    if 'A' <= c && c <= 'Z' {
        ((c as int) + 32) as char
    } else {
        c
    }
}

/// What `str::to_uppercase` returns for a string, by its characters.
pub uninterp spec fn unicode_upper(s: Seq<char>) -> Seq<char>;

/// What `str::to_lowercase` returns for a string, by its characters.
pub uninterp spec fn unicode_lower(s: Seq<char>) -> Seq<char>;

/// The upper-case form of a text (`str::to_uppercase`): on ASCII text,
/// where Unicode and ASCII case mapping agree, each letter mapped on its own;
/// on other text, the result named by `unicode_upper`.
pub open spec fn upper_text(s: Seq<char>) -> Seq<char> {
    if vstd::utf8::is_ascii_chars(s) {
        s.map_values(|c: char| ascii_upper(c))
    } else {
        unicode_upper(s)
    }
}

/// The lower-case form of a text (`str::to_lowercase`), as [`upper_text`].
pub open spec fn lower_text(s: Seq<char>) -> Seq<char> {
    if vstd::utf8::is_ascii_chars(s) {
        s.map_values(|c: char| ascii_lower(c))
    } else {
        unicode_lower(s)
    }
}

/// Calls `str::to_uppercase`. Its result is named by `unicode_upper`; on
/// ASCII text, where Unicode case mapping agrees with ASCII case mapping, the
/// contract also states the result character by character.
#[verifier::external_body]
pub(crate) fn to_upper(s: &str) -> (r: String)
    ensures
        r@ == unicode_upper(s@),
        vstd::utf8::is_ascii_chars(s@) ==> r@ == s@.map_values(|c: char| ascii_upper(c)),
{
    s.to_uppercase()
}

/// Calls `str::to_lowercase`. Its result is named by `unicode_lower`; on
/// ASCII text, where Unicode case mapping agrees with ASCII case mapping, the
/// contract also states the result character by character.
#[verifier::external_body]
pub(crate) fn to_lower(s: &str) -> (r: String)
    ensures
        r@ == unicode_lower(s@),
        vstd::utf8::is_ascii_chars(s@) ==> r@ == s@.map_values(|c: char| ascii_lower(c)),
{
    s.to_lowercase()
}

/// Calls `String::push`: appends one character.
#[verifier::external_body]
pub(crate) fn push_char(s: &mut String, c: char)
    ensures
        final(s)@ == old(s)@.push(c),
{
    s.push(c);
}

/// The characters of `s`, in order.
pub fn chars_of(s: &str) -> (v: Vec<char>)
    ensures
        v@ == s@,
{
    let mut v: Vec<char> = Vec::new();
    for c in it: s.chars()
        invariant
            v@ == it.seq().take(it.index() as int),
            it.seq() == s@,
    {
        v.push(c);
    }
    proof {
        assert(v@ =~= s@);
    }
    v
}

/// A string holding the characters of `v[from..to]`.
pub fn string_of_range(v: &Vec<char>, from: usize, to: usize) -> (s: String)
    requires
        from <= to <= v@.len(),
    ensures
        s@ == v@.subrange(from as int, to as int),
{
    let mut s = String::new();
    let mut i = from;
    while i < to
        invariant
            from <= i <= to <= v@.len(),
            s@ == v@.subrange(from as int, i as int),
        decreases to - i,
    {
        push_char(&mut s, v[i]);
        proof {
            assert(v@.subrange(from as int, i + 1) =~= v@.subrange(from as int, i as int).push(
                v@[i as int],
            ));
        }
        i = i + 1;
    }
    s
}

/// A string holding the characters of `v`.
pub fn string_of_chars(v: &Vec<char>) -> (s: String)
    ensures
        s@ == v@,
{
    let s = string_of_range(v, 0, v.len());
    proof {
        assert(v@.subrange(0, v@.len() as int) =~= v@);
    }
    s
}

/// Appends the characters of `t` to `s`.
pub fn push_all(s: &mut String, t: &Vec<char>)
    ensures
        final(s)@ == old(s)@ + t@,
{
    let mut i: usize = 0;
    while i < t.len()
        invariant
            i <= t@.len(),
            s@ == old(s)@ + t@.take(i as int),
        decreases t.len() - i,
    {
        push_char(s, t[i]);
        proof {
            assert(t@.take(i + 1) =~= t@.take(i as int).push(t@[i as int]));
        }
        i = i + 1;
    }
    proof {
        assert(t@.take(t@.len() as int) =~= t@);
    }
}

/// Whether `v` holds `pat` at position `i`.
pub fn match_at(v: &Vec<char>, i: usize, pat: &Vec<char>) -> (r: bool)
    requires
        i <= v@.len(),
    ensures
        r == matches_at(v@, i as int, pat@),
{
    if pat.len() > v.len() - i {
        return false;
    }
    let mut k: usize = 0;
    while k < pat.len()
        invariant
            i + pat@.len() <= v@.len(),
            i + pat.len() <= v.len(),
            k <= pat@.len(),
            forall|j: int| 0 <= j < k ==> v@[i + j] == pat@[j],
        decreases pat.len() - k,
    {
        if v[i + k] != pat[k] {
            proof {
                assert(v@.subrange(i as int, i + pat@.len())[k as int] != pat@[k as int]);
            }
            return false;
        }
        k = k + 1;
    }
    proof {
        assert(v@.subrange(i as int, i + pat@.len()) =~= pat@);
    }
    true
}

/// Whether two strings hold the same characters.
pub fn str_eq(a: &str, b: &str) -> (r: bool)
    ensures
        r == (a@ == b@),
{
    let va = chars_of(a);
    let vb = chars_of(b);
    if va.len() != vb.len() {
        return false;
    }
    let r = match_at(&va, 0, &vb);
    proof {
        if r {
            assert(va@.subrange(0, vb@.len() as int) =~= va@);
        } else {
            if va@ == vb@ {
                assert(va@.subrange(0, vb@.len() as int) =~= va@);
            }
        }
    }
    r
}

/// Whether `s` begins with `p` (`str::starts_with`).
pub fn starts_with(s: &str, p: &str) -> (r: bool)
    ensures
        r == has_prefix(s@, p@),
{
    let vs = chars_of(s);
    let vp = chars_of(p);
    let r = match_at(&vs, 0, &vp);
    proof {
        assert(r == has_prefix(s@, p@)) by {
            if vp@.len() <= vs@.len() {
                assert(vs@.subrange(0, vp@.len() as int) =~= vs@.take(vp@.len() as int));
            }
        }
    }
    r
}

proof fn lemma_skip_skip(s: Seq<char>, a: int, b: int)
    requires
        0 <= a,
        0 <= b,
        a + b <= s.len(),
    ensures
        s.skip(a).skip(b) == s.skip(a + b),
{
    assert(s.skip(a).skip(b) =~= s.skip(a + b));
}

proof fn lemma_matches_skip(s: Seq<char>, i: int, pat: Seq<char>)
    requires
        0 <= i <= s.len(),
    ensures
        matches_at(s.skip(i), 0, pat) == matches_at(s, i, pat),
{
    if i + pat.len() <= s.len() {
        assert(s.skip(i).subrange(0, pat.len() as int) =~= s.subrange(i, i + pat.len()));
    }
}

proof fn lemma_matches_shift(s: Seq<char>, i: int, pat: Seq<char>)
    requires
        s.len() > 0,
        0 <= i,
    ensures
        matches_at(s.skip(1), i, pat) == matches_at(s, i + 1, pat),
{
    if i + 1 + pat.len() <= s.len() {
        assert(s.skip(1).subrange(i, i + pat.len()) =~= s.subrange(i + 1, i + 1 + pat.len()));
    }
}

/// A pattern does not occur where the text's character differs from its first.
pub proof fn lemma_no_match_first(s: Seq<char>, i: int, pat: Seq<char>)
    requires
        pat.len() > 0,
        0 <= i < s.len(),
        s[i] != pat[0],
    ensures
        !matches_at(s, i, pat),
{
    if matches_at(s, i, pat) {
        assert(s.subrange(i, i + pat.len())[0] == s[i]);
    }
}

/// Replacing in `a + b`, where no occurrence starts inside `a`, keeps `a`.
pub proof fn lemma_replace_concat(a: Seq<char>, b: Seq<char>, pat: Seq<char>, rep: Seq<char>)
    requires
        pat.len() > 0,
        forall|i: int| 0 <= i < a.len() ==> !#[trigger] matches_at(a + b, i, pat),
    ensures
        replace_seq(a + b, pat, rep) == a + replace_seq(b, pat, rep),
    decreases a.len(),
{
    let s = a + b;
    if a.len() == 0 {
        assert(s =~= b);
        assert(a + replace_seq(b, pat, rep) =~= replace_seq(b, pat, rep));
    } else {
        assert(!matches_at(s, 0, pat));
        let t = a.skip(1);
        assert(s.skip(1) =~= t + b);
        assert forall|i: int| 0 <= i < t.len() implies !#[trigger] matches_at(t + b, i, pat) by {
            lemma_matches_shift(s, i, pat);
            assert(!matches_at(s, i + 1, pat));
        }
        lemma_replace_concat(t, b, pat, rep);
        assert(s[0] == a[0]);
        assert(seq![a[0]] + (t + replace_seq(b, pat, rep)) =~= a + replace_seq(b, pat, rep));
    }
}

/// Replacing in a text that begins with the pattern.
pub proof fn lemma_replace_head(pat: Seq<char>, rest: Seq<char>, rep: Seq<char>)
    requires
        pat.len() > 0,
    ensures
        replace_seq(pat + rest, pat, rep) == rep + replace_seq(rest, pat, rep),
{
    let s = pat + rest;
    assert(s.subrange(0, pat.len() as int) =~= pat);
    assert(s.skip(pat.len() as int) =~= rest);
}

/// The first piece of `a + b`, where no occurrence starts inside `a`, keeps `a`.
pub proof fn lemma_first_piece_concat(a: Seq<char>, b: Seq<char>, pat: Seq<char>)
    requires
        pat.len() > 0,
        forall|i: int| 0 <= i < a.len() ==> !#[trigger] matches_at(a + b, i, pat),
    ensures
        first_piece(a + b, pat) == a + first_piece(b, pat),
    decreases a.len(),
{
    let s = a + b;
    if a.len() == 0 {
        assert(s =~= b);
        assert(a + first_piece(b, pat) =~= first_piece(b, pat));
    } else {
        assert(!matches_at(s, 0, pat));
        let t = a.skip(1);
        assert(s.skip(1) =~= t + b);
        assert forall|i: int| 0 <= i < t.len() implies !#[trigger] matches_at(t + b, i, pat) by {
            lemma_matches_shift(s, i, pat);
            assert(!matches_at(s, i + 1, pat));
        }
        lemma_first_piece_concat(t, b, pat);
        assert(s[0] == a[0]);
        assert(seq![a[0]] + (t + first_piece(b, pat)) =~= a + first_piece(b, pat));
    }
}

/// The first piece of a text that begins with the pattern is empty.
pub proof fn lemma_first_piece_head(pat: Seq<char>, rest: Seq<char>)
    requires
        pat.len() > 0,
    ensures
        first_piece(pat + rest, pat) == Seq::<char>::empty(),
{
    let s = pat + rest;
    assert(s.subrange(0, pat.len() as int) =~= pat);
}

/// Every occurrence of the non-empty `pat` in `s` replaced by `rep` (`str::replace`).
pub fn replace_all(s: &str, pat: &str, rep: &str) -> (r: String)
    requires
        pat@.len() > 0,
    ensures
        r@ == replace_seq(s@, pat@, rep@),
{
    let v = chars_of(s);
    let vp = chars_of(pat);
    let vr = chars_of(rep);
    let mut out = String::new();
    let mut i: usize = 0;
    proof {
        assert(v@.skip(0) =~= v@);
        assert(out@ + replace_seq(s@, pat@, rep@) =~= replace_seq(s@, pat@, rep@));
    }
    while i < v.len()
        invariant
            i <= v@.len(),
            v@ == s@,
            vp@ == pat@,
            vr@ == rep@,
            pat@.len() > 0,
            out@ + replace_seq(v@.skip(i as int), vp@, vr@) == replace_seq(s@, pat@, rep@),
        decreases v.len() - i,
    {
        let ghost rest = v@.skip(i as int);
        let ghost out0 = out@;
        proof {
            lemma_matches_skip(v@, i as int, vp@);
        }
        if match_at(&v, i, &vp) {
            push_all(&mut out, &vr);
            proof {
                lemma_skip_skip(v@, i as int, vp@.len() as int);
                let tail = replace_seq(rest.skip(vp@.len() as int), vp@, vr@);
                assert(replace_seq(rest, vp@, vr@) == vr@ + tail);
                assert(out0 + (vr@ + tail) =~= (out0 + vr@) + tail);
            }
            i = i + vp.len();
        } else {
            push_char(&mut out, v[i]);
            proof {
                lemma_skip_skip(v@, i as int, 1);
                let tail = replace_seq(rest.skip(1), vp@, vr@);
                assert(replace_seq(rest, vp@, vr@) == seq![rest[0]] + tail);
                assert(out0 + (seq![rest[0]] + tail) =~= out0.push(rest[0]) + tail);
            }
            i = i + 1;
        }
    }
    proof {
        assert(v@.skip(i as int) =~= Seq::<char>::empty());
        assert(out@ + Seq::<char>::empty() =~= out@);
    }
    out
}

proof fn lemma_trim_start(s: Seq<char>, p: spec_fn(char) -> bool, k: int)
    requires
        0 <= k <= s.len(),
        forall|j: int| 0 <= j < k ==> p(#[trigger] s[j]),
        k == s.len() || !p(s[k]),
    ensures
        trim_start_by(s, p) == s.skip(k),
    decreases k,
{
    if k == 0 {
        assert(s.skip(0) =~= s);
    } else {
        let t = s.skip(1);
        assert forall|j: int| 0 <= j < k - 1 implies p(#[trigger] t[j]) by {
            assert(t[j] == s[j + 1]);
        }
        if k - 1 < t.len() {
            assert(t[k - 1] == s[k]);
        }
        lemma_trim_start(t, p, k - 1);
        assert(t.skip(k - 1) =~= s.skip(k));
    }
}

proof fn lemma_trim_end(s: Seq<char>, p: spec_fn(char) -> bool, k: int)
    requires
        0 <= k <= s.len(),
        forall|j: int| k <= j < s.len() ==> p(#[trigger] s[j]),
        k == 0 || !p(s[k - 1]),
    ensures
        trim_end_by(s, p) == s.take(k),
    decreases s.len() - k,
{
    if k == s.len() {
        assert(s.take(k) =~= s);
    } else {
        let t = s.drop_last();
        assert forall|j: int| k <= j < t.len() implies p(#[trigger] t[j]) by {
            assert(t[j] == s[j]);
        }
        if k > 0 {
            assert(t[k - 1] == s[k - 1]);
        }
        assert(p(s.last()));
        lemma_trim_end(t, p, k);
        assert(t.take(k) =~= s.take(k));
    }
}

/// Whether `c` is white space (`char::is_whitespace`).
pub fn is_ws(c: char) -> (r: bool)
    ensures
        r == is_white_space(c),
{
    c == '\t' || c == '\n' || c == '\u{0B}' || c == '\u{0C}' || c == '\r' || c == ' ' || c
        == '\u{85}' || c == '\u{A0}' || c == '\u{1680}' || ('\u{2000}' <= c && c <= '\u{200A}')
        || c == '\u{2028}' || c == '\u{2029}' || c == '\u{202F}' || c == '\u{205F}' || c
        == '\u{3000}'
}

fn trim_hit(x: char, c: char, ws: bool) -> (r: bool)
    ensures
        r == (if ws { white_space() } else { is_char(c) })(x),
{
    if ws {
        is_ws(x)
    } else {
        x == c
    }
}

/// The bounds `(from, to)` of `v` left after trimming, at both ends, the
/// characters equal to `c` (when `ws` is false) or the white space (when `ws` is true).
fn trim_bounds(v: &Vec<char>, c: char, ws: bool) -> (r: (usize, usize))
    ensures
        r.0 <= r.1 <= v@.len(),
        !ws ==> v@.subrange(r.0 as int, r.1 as int) == trim_end_by(trim_start_by(v@, is_char(c)), is_char(c)),
        ws ==> v@.subrange(r.0 as int, r.1 as int) == trim_end_by(trim_start_by(v@, white_space()), white_space()),
{
    let ghost p = if ws { white_space() } else { is_char(c) };
    let mut a: usize = 0;
    while a < v.len() && trim_hit(v[a], c, ws)
        invariant
            a <= v@.len(),
            p == (if ws { white_space() } else { is_char(c) }),
            forall|j: int| 0 <= j < a ==> p(#[trigger] v@[j]),
        decreases v.len() - a,
    {
        a = a + 1;
    }
    proof {
        lemma_trim_start(v@, p, a as int);
    }
    let ghost t = v@.skip(a as int);
    let mut b: usize = v.len();
    while b > a && trim_hit(v[b - 1], c, ws)
        invariant
            a <= b <= v@.len(),
            t == v@.skip(a as int),
            p == (if ws { white_space() } else { is_char(c) }),
            forall|j: int| b <= j < v@.len() ==> p(#[trigger] v@[j]),
        decreases b - a,
    {
        b = b - 1;
    }
    proof {
        let k = b - a;
        assert forall|j: int| k <= j < t.len() implies p(#[trigger] t[j]) by {
            assert(t[j] == v@[j + a]);
        }
        if k > 0 {
            assert(t[k - 1] == v@[b - 1]);
        }
        lemma_trim_end(t, p, k);
        assert(t.take(k) =~= v@.subrange(a as int, b as int));
    }
    (a, b)
}

/// `s` without leading and trailing white space (`str::trim`).
pub fn trim(s: &str) -> (r: String)
    ensures
        r@ == trim_ws(s@),
{
    let v = chars_of(s);
    let (a, b) = trim_bounds(&v, ' ', true);
    string_of_range(&v, a, b)
}

/// `s` without leading and trailing `c` characters (`str::trim_matches`).
pub fn trim_matches(s: &str, c: char) -> (r: String)
    ensures
        r@ == trim_char(s@, c),
{
    let v = chars_of(s);
    let (a, b) = trim_bounds(&v, c, false);
    string_of_range(&v, a, b)
}

/// `s` without trailing `c` characters (`str::trim_end_matches`).
pub fn trim_end_matches(s: &str, c: char) -> (r: String)
    ensures
        r@ == trim_end_char(s@, c),
{
    let v = chars_of(s);
    let mut b: usize = v.len();
    while b > 0 && v[b - 1] == c
        invariant
            b <= v@.len(),
            v@ == s@,
            forall|j: int| b <= j < v@.len() ==> is_char(c)(#[trigger] v@[j]),
        decreases b,
    {
        b = b - 1;
    }
    proof {
        lemma_trim_end(v@, is_char(c), b as int);
        assert(v@.take(b as int) =~= v@.subrange(0, b as int));
    }
    string_of_range(&v, 0, b)
}

/// The text of `s` before the first occurrence of the non-empty `pat`, or
/// all of `s` (the first piece of `str::split`).
pub fn first_piece_of(s: &str, pat: &str) -> (r: String)
    requires
        pat@.len() > 0,
    ensures
        r@ == first_piece(s@, pat@),
{
    let v = chars_of(s);
    let vp = chars_of(pat);
    let mut i: usize = 0;
    proof {
        assert(v@.skip(0) =~= v@);
        assert(v@.take(0) + first_piece(s@, pat@) =~= first_piece(s@, pat@));
    }
    while i < v.len()
        invariant
            i <= v@.len(),
            v@ == s@,
            vp@ == pat@,
            pat@.len() > 0,
            v@.take(i as int) + first_piece(v@.skip(i as int), pat@) == first_piece(s@, pat@),
        decreases v.len() - i,
    {
        proof {
            lemma_matches_skip(v@, i as int, vp@);
        }
        if match_at(&v, i, &vp) {
            proof {
                assert(first_piece(v@.skip(i as int), pat@) =~= Seq::<char>::empty());
                assert(v@.take(i as int) + Seq::<char>::empty() =~= v@.take(i as int));
                assert(v@.take(i as int) =~= v@.subrange(0, i as int));
            }
            return string_of_range(&v, 0, i);
        }
        proof {
            let rest = v@.skip(i as int);
            lemma_skip_skip(v@, i as int, 1);
            assert(first_piece(rest, pat@) == seq![rest[0]] + first_piece(rest.skip(1), pat@));
            assert(v@.take(i as int) + (seq![rest[0]] + first_piece(rest.skip(1), pat@))
                =~= v@.take(i + 1) + first_piece(rest.skip(1), pat@));
        }
        i = i + 1;
    }
    proof {
        assert(v@.skip(i as int) =~= Seq::<char>::empty());
        assert(v@.take(i as int) + Seq::<char>::empty() =~= v@);
    }
    string_of_chars(&v)
}

proof fn lemma_split_nonempty(s: Seq<char>, c: char)
    ensures
        split_char(s, c).len() >= 1,
    decreases s.len(),
{
    if s.len() > 0 {
        lemma_split_nonempty(s.drop_last(), c);
    }
}

/// The pieces of `s` between occurrences of `c` (`str::split` with a `char`).
pub fn split_by_char(s: &str, c: char) -> (r: Vec<String>)
    ensures
        r@.len() == split_char(s@, c).len(),
        forall|i: int| 0 <= i < r@.len() ==> #[trigger] r@[i]@ == split_char(s@, c)[i],
{
    let v = chars_of(s);
    let mut pieces: Vec<String> = Vec::new();
    let mut cur = String::new();
    let mut i: usize = 0;
    while i < v.len()
        invariant
            i <= v@.len(),
            v@ == s@,
            pieces@.len() + 1 == split_char(v@.take(i as int), c).len(),
            forall|j: int| 0 <= j < pieces@.len() ==> #[trigger] pieces@[j]@ == split_char(v@.take(i as int), c)[j],
            cur@ == split_char(v@.take(i as int), c).last(),
        decreases v.len() - i,
    {
        proof {
            lemma_split_nonempty(v@.take(i as int), c);
            assert(v@.take(i + 1).drop_last() =~= v@.take(i as int));
            assert(v@.take(i + 1).last() == v@[i as int]);
        }
        if v[i] == c {
            pieces.push(cur);
            cur = String::new();
        } else {
            push_char(&mut cur, v[i]);
        }
        i = i + 1;
    }
    pieces.push(cur);
    proof {
        assert(v@.take(i as int) =~= s@);
        lemma_split_nonempty(s@, c);
        assert forall|j: int| 0 <= j < pieces@.len() implies #[trigger] pieces@[j]@ == split_char(s@, c)[j] by {
        }
    }
    pieces
}

} // verus!
