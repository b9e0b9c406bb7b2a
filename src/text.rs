//! Text normalisation shared by parsing and answer validation.

use vstd::prelude::*;

verus! {

/// The Unicode `White_Space` property: what `char::is_whitespace`, `str::trim`
/// and a Unicode `\s` all recognise.
pub open spec fn is_white_space_spec(c: char) -> bool {
    let u = c as u32;
    (0x09 <= u && u <= 0x0d) || u == 0x20 || u == 0x85 || u == 0xa0 || u == 0x1680 || (0x2000
        <= u && u <= 0x200a) || u == 0x2028 || u == 0x2029 || u == 0x202f || u == 0x205f || u
        == 0x3000
}

/// Tells whether `c` is a white-space character.
pub fn is_white_space(c: char) -> (r: bool)
    ensures
        r == is_white_space_spec(c),
{
    let u = c as u32;
    (0x09 <= u && u <= 0x0d) || u == 0x20 || u == 0x85 || u == 0xa0 || u == 0x1680 || (0x2000
        <= u && u <= 0x200a) || u == 0x2028 || u == 0x2029 || u == 0x202f || u == 0x205f || u
        == 0x3000
}

/// The characters of `s`, in order.
pub fn chars_of(s: &str) -> (r: Vec<char>)
    ensures
        r@ == s@,
{
    let mut r: Vec<char> = Vec::new();
    for c in it: s.chars()
        invariant
            r@ == it.seq().subrange(0, it.index() as int),
            it.seq() == s@,
    {
        r.push(c);
    }
    r
}

/// Relies on `String::push`: the character is appended at the end.
#[verifier::external_body]
pub(crate) fn push_char(s: &mut String, c: char)
    ensures
        final(s)@ == old(s)@.push(c),
{
    s.push(c);
}

/// A new `String` holding the characters of `s`.
pub fn string_of(s: &str) -> (r: String)
    ensures
        r@ == s@,
{
    let mut r = String::new();
    r.append(s);
    r
}

/// A new `String` holding the characters `from..to` of `cs`.
pub fn string_from_chars(cs: &Vec<char>, from: usize, to: usize) -> (r: String)
    requires
        from <= to <= cs@.len(),
    ensures
        r@ == cs@.subrange(from as int, to as int),
{
    let mut r = String::new();
    let mut i: usize = from;
    while i < to
        invariant
            from <= i <= to <= cs@.len(),
            r@ == cs@.subrange(from as int, i as int),
        decreases to - i,
    {
        push_char(&mut r, cs[i]);
        i = i + 1;
    }
    r
}

/// The number of white-space characters that open `s`.
pub open spec fn leading_ws(s: Seq<char>) -> nat
    decreases s.len(),
{
    if s.len() > 0 && is_white_space_spec(s[0]) {
        1 + leading_ws(s.drop_first())
    } else {
        0
    }
}

/// The number of white-space characters that close `s`.
pub open spec fn trailing_ws(s: Seq<char>) -> nat
    decreases s.len(),
{
    if s.len() > 0 && is_white_space_spec(s.last()) {
        1 + trailing_ws(s.drop_last())
    } else {
        0
    }
}

/// `s` without its leading and trailing white space.
pub open spec fn trimmed(s: Seq<char>) -> Seq<char> {
    if leading_ws(s) == s.len() {
        Seq::empty()
    } else {
        s.subrange(leading_ws(s) as int, s.len() - trailing_ws(s))
    }
}

/// `s` with each run of white space replaced by one space: a white-space
/// character becomes a space, unless it follows another one, in which case
/// it is dropped.
pub open spec fn collapsed(s: Seq<char>) -> Seq<char>
    decreases s.len(),
{
    if s.len() == 0 {
        s
    } else {
        let rest = collapsed(s.drop_last());
        if !is_white_space_spec(s.last()) {
            rest.push(s.last())
        } else if s.len() > 1 && is_white_space_spec(s[s.len() - 2]) {
            rest
        } else {
            rest.push(' ')
        }
    }
}

/// The normal form of a question or an answer in a source file: runs of
/// white space collapsed to one space, then the ends trimmed.
pub open spec fn normalized(s: Seq<char>) -> Seq<char> {
    trimmed(collapsed(s))
}

proof fn lemma_leading_ws(s: Seq<char>, k: int)
    requires
        0 <= k <= s.len(),
        forall|i: int| 0 <= i < k ==> is_white_space_spec(#[trigger] s[i]),
        k == s.len() || !is_white_space_spec(s[k]),
    ensures
        leading_ws(s) == k,
    decreases k,
{
    if k > 0 {
        lemma_leading_ws(s.drop_first(), k - 1);
    }
}

proof fn lemma_trailing_ws(s: Seq<char>, k: int)
    requires
        0 <= k <= s.len(),
        forall|i: int| s.len() - k <= i < s.len() ==> is_white_space_spec(#[trigger] s[i]),
        k == s.len() || !is_white_space_spec(s[s.len() - k - 1]),
    ensures
        trailing_ws(s) == k,
    decreases k,
{
    if k > 0 {
        lemma_trailing_ws(s.drop_last(), k - 1);
    }
}

proof fn lemma_leading_ws_props(s: Seq<char>)
    ensures
        leading_ws(s) <= s.len(),
        forall|i: int| 0 <= i < leading_ws(s) ==> is_white_space_spec(#[trigger] s[i]),
        leading_ws(s) < s.len() ==> !is_white_space_spec(s[leading_ws(s) as int]),
    decreases s.len(),
{
    if s.len() > 0 && is_white_space_spec(s[0]) {
        let rest = s.drop_first();
        lemma_leading_ws_props(rest);
        assert forall|i: int| 0 <= i < leading_ws(s) implies is_white_space_spec(#[trigger] s[i]) by {
            if i > 0 {
                assert(s[i] == rest[i - 1]);
            }
        }
    }
}

proof fn lemma_trailing_ws_props(s: Seq<char>)
    ensures
        trailing_ws(s) <= s.len(),
        forall|i: int| s.len() - trailing_ws(s) <= i < s.len() ==> is_white_space_spec(#[trigger] s[i]),
        trailing_ws(s) < s.len() ==> !is_white_space_spec(s[s.len() - trailing_ws(s) - 1]),
    decreases s.len(),
{
    if s.len() > 0 && is_white_space_spec(s.last()) {
        let rest = s.drop_last();
        lemma_trailing_ws_props(rest);
        assert forall|i: int| s.len() - trailing_ws(s) <= i < s.len() implies is_white_space_spec(
            #[trigger] s[i],
        ) by {
            if i < s.len() - 1 {
                assert(s[i] == rest[i]);
            }
        }
    }
}

/// White space around a text does not change its trimmed form.
pub proof fn lemma_trimmed_ignores_surrounding_space(w1: Seq<char>, x: Seq<char>, w2: Seq<char>)
    requires
        forall|i: int| 0 <= i < w1.len() ==> is_white_space_spec(#[trigger] w1[i]),
        forall|i: int| 0 <= i < w2.len() ==> is_white_space_spec(#[trigger] w2[i]),
    ensures
        trimmed(w1 + x + w2) == trimmed(x),
{
    let t = w1 + x + w2;
    let a = w1.len() as int;
    lemma_leading_ws_props(x);
    lemma_trailing_ws_props(x);
    if leading_ws(x) == x.len() {
        assert forall|i: int| 0 <= i < t.len() implies is_white_space_spec(#[trigger] t[i]) by {
            if i < a {
                assert(t[i] == w1[i]);
            } else if i < a + x.len() {
                assert(t[i] == x[i - a]);
            } else {
                assert(t[i] == w2[i - a - x.len()]);
            }
        }
        lemma_leading_ws(t, t.len() as int);
    } else {
        let k = a + leading_ws(x);
        assert forall|i: int| 0 <= i < k implies is_white_space_spec(#[trigger] t[i]) by {
            if i < a {
                assert(t[i] == w1[i]);
            } else {
                assert(t[i] == x[i - a]);
            }
        }
        assert(t[k] == x[leading_ws(x) as int]);
        lemma_leading_ws(t, k);
        let m = w2.len() + trailing_ws(x);
        assert forall|i: int| t.len() - m <= i < t.len() implies is_white_space_spec(#[trigger] t[i]) by {
            if i < a + x.len() {
                assert(t[i] == x[i - a]);
            } else {
                assert(t[i] == w2[i - a - x.len()]);
            }
        }
        assert(trailing_ws(x) < x.len());
        assert(t[t.len() - m - 1] == x[x.len() - trailing_ws(x) - 1]);
        lemma_trailing_ws(t, m as int);
        assert(t.subrange(k, t.len() - m) =~= x.subrange(
            leading_ws(x) as int,
            x.len() - trailing_ws(x),
        ));
    }
}

/// `s` without its leading and trailing white space, as `str::trim` gives it.
pub fn trim_white_space(s: &str) -> (r: String)
    ensures
        r@ == trimmed(s@),
{
    let cs = chars_of(s);
    let n = cs.len();
    let mut start: usize = 0;
    while start < n && is_white_space(cs[start])
        invariant
            cs@ == s@,
            n == cs.len(),
            start <= n,
            forall|i: int| 0 <= i < start ==> is_white_space_spec(#[trigger] cs@[i]),
        decreases n - start,
    {
        start = start + 1;
    }
    proof {
        lemma_leading_ws(s@, start as int);
    }
    if start == n {
        return String::new();
    }
    let mut end: usize = n;
    while end > start && is_white_space(cs[end - 1])
        invariant
            cs@ == s@,
            n == cs.len(),
            start < n,
            !is_white_space_spec(cs@[start as int]),
            start <= end <= n,
            forall|i: int| end <= i < n ==> is_white_space_spec(#[trigger] cs@[i]),
        decreases end,
    {
        end = end - 1;
    }
    proof {
        lemma_trailing_ws(s@, n - end);
    }
    string_from_chars(&cs, start, end)
}

/// Relies on `regex::Regex::replace_all` with the pattern `\s+` and the
/// replacement `" "`: `\s` is Unicode `White_Space`, and each maximal run of
/// it, leftmost first, becomes one space. The pattern is valid, so
/// `Regex::new` does not fail on it.
#[verifier::external_body]
fn replace_white_space_runs(text: &str) -> (r: String)
    ensures
        r@ == collapsed(text@),
{
    regex::Regex::new(r"\s+").unwrap().replace_all(text, " ").into_owned()
}

/// The text with runs of white space collapsed to one space and its ends
/// trimmed.
pub fn remove_extra_whitespaces(text: &str) -> (r: String)
    ensures
        r@ == normalized(text@),
{
    let single_spaced = replace_white_space_runs(text);
    trim_white_space(single_spaced.as_str())
}

/// The characters that answer validation ignores: `? , ! . : ;`.
pub open spec fn is_ignored_symbol(c: char) -> bool {
    c == '?' || c == ',' || c == '!' || c == '.' || c == ':' || c == ';'
}

/// `s` without the characters that answer validation ignores.
pub open spec fn without_symbols(s: Seq<char>) -> Seq<char> {
    s.filter(|c: char| !is_ignored_symbol(c))
}

/// Relies on `regex::Regex::replace_all` with the pattern `[?,!.:;]+` and an
/// empty replacement: every one of those characters is removed. The pattern
/// is valid, so `Regex::new` does not fail on it.
#[verifier::external_body]
fn remove_symbols(text: &str) -> (r: String)
    ensures
        r@ == without_symbols(text@),
{
    regex::Regex::new(r"[?,!.:;]+").unwrap().replace_all(text, "").into_owned()
}

/// What `str::to_lowercase` returns for a text.
pub uninterp spec fn lower_of(s: Seq<char>) -> Seq<char>;

/// Relies on `str::to_lowercase`: its result depends on the characters
/// alone.
#[verifier::external_body]
fn lowercase(s: &str) -> (r: String)
    ensures
        r@ == lower_of(s@),
{
    s.to_lowercase()
}

/// The form in which an attempt and an accepted answer are compared: trimmed,
/// lower-cased, `? , ! . : ;` removed, then runs of white space collapsed and
/// the ends trimmed again.
pub open spec fn cleaned(s: Seq<char>) -> Seq<char> {
    cleaned_lowercase(lower_of(trimmed(s)))
}

/// What follows lower-casing in the comparison form: `? , ! . : ;` removed,
/// then runs of white space collapsed and the ends trimmed.
pub open spec fn cleaned_lowercase(s: Seq<char>) -> Seq<char> {
    trimmed(collapsed(without_symbols(s)))
}

/// The comparison form of a text that is already lower-cased.
pub fn clean_lowercased(text: &str) -> (r: String)
    ensures
        r@ == cleaned_lowercase(text@),
{
    let without = remove_symbols(text);
    let single_spaced = replace_white_space_runs(without.as_str());
    trim_white_space(single_spaced.as_str())
}

/// A comparison form: no white space at either end, no two white-space
/// characters side by side, and none of `? , ! . : ;`.
pub open spec fn is_clean_form(c: Seq<char>) -> bool {
    &&& (c.len() > 0 ==> !is_white_space_spec(c[0]) && !is_white_space_spec(c.last()))
    &&& forall|i: int|
        0 <= i < c.len() - 1 ==> !(is_white_space_spec(#[trigger] c[i]) && is_white_space_spec(
            c[i + 1],
        ))
    &&& forall|i: int| 0 <= i < c.len() ==> !is_ignored_symbol(#[trigger] c[i])
}

proof fn lemma_collapsed_props(s: Seq<char>)
    ensures
        forall|i: int|
            0 <= i < collapsed(s).len() - 1 ==> !(is_white_space_spec(#[trigger] collapsed(s)[i])
                && is_white_space_spec(collapsed(s)[i + 1])),
        forall|i: int|
            0 <= i < collapsed(s).len() ==> #[trigger] collapsed(s)[i] == ' ' || s.contains(
                collapsed(s)[i],
            ),
        collapsed(s).len() > 0 <==> s.len() > 0,
        s.len() > 0 ==> (is_white_space_spec(collapsed(s).last()) <==> is_white_space_spec(
            s.last(),
        )),
    decreases s.len(),
{
    if s.len() > 0 {
        let rest = s.drop_last();
        lemma_collapsed_props(rest);
        let c = collapsed(s);
        let rc = collapsed(rest);
        assert forall|i: int| 0 <= i < c.len() implies #[trigger] c[i] == ' ' || s.contains(c[i]) by {
            if i < rc.len() {
                assert(c[i] == rc[i]);
                if rc[i] != ' ' {
                    let j = choose|j: int| 0 <= j < rest.len() && rest[j] == rc[i];
                    assert(s[j] == rest[j]);
                }
            } else {
                assert(s[s.len() - 1] == s.last());
            }
        }
        if rest.len() > 0 {
            assert(rest.last() == s[s.len() - 2]);
        }
    }
}

proof fn lemma_without_symbols_props(s: Seq<char>)
    ensures
        forall|i: int| 0 <= i < without_symbols(s).len() ==> !is_ignored_symbol(
            #[trigger] without_symbols(s)[i],
        ),
{
    let pred = |c: char| !is_ignored_symbol(c);
    assert forall|i: int| 0 <= i < without_symbols(s).len() implies !is_ignored_symbol(
        #[trigger] without_symbols(s)[i],
    ) by {
        s.lemma_filter_pred(pred, i);
    }
}

/// The comparison form of any lower-cased text has no white space at
/// either end, no doubled white space, and none of the ignored symbols.
pub proof fn lemma_cleaned_lowercase_is_clean(s: Seq<char>)
    ensures
        is_clean_form(cleaned_lowercase(s)),
{
    let w = without_symbols(s);
    let c = collapsed(w);
    lemma_without_symbols_props(s);
    lemma_collapsed_props(w);
    lemma_leading_ws_props(c);
    lemma_trailing_ws_props(c);
    let t = trimmed(c);
    if leading_ws(c) < c.len() {
        let a = leading_ws(c) as int;
        let b = c.len() - trailing_ws(c);
        assert(a < b) by {
            if a >= b {
                assert(is_white_space_spec(c[a]));
            }
        }
        assert forall|i: int| 0 <= i < t.len() implies #[trigger] t[i] == c[a + i] by {}
        assert forall|i: int| 0 <= i < t.len() implies !is_ignored_symbol(#[trigger] t[i]) by {
            assert(t[i] == c[a + i]);
            if c[a + i] != ' ' {
                let j = choose|j: int| 0 <= j < w.len() && w[j] == c[a + i];
            }
        }
        assert forall|i: int| 0 <= i < t.len() - 1 implies !(is_white_space_spec(#[trigger] t[i])
            && is_white_space_spec(t[i + 1])) by {
            assert(t[i] == c[a + i]);
            assert(t[i + 1] == c[a + i + 1]);
        }
        assert(t[0] == c[a]);
        assert(t.last() == c[b - 1]);
    } else {
        assert(t.len() == 0);
    }
}

/// The comparison form of any text is clean in the sense of
/// `is_clean_form`.
pub proof fn lemma_cleaned_is_clean(s: Seq<char>)
    ensures
        is_clean_form(cleaned(s)),
{
    lemma_cleaned_lowercase_is_clean(lower_of(trimmed(s)));
}

/// The trimmed, lower-cased form of a text, from which the comparison form
/// is made.
pub fn trim_and_lowercase(text: &str) -> (r: String)
    ensures
        r@ == lower_of(trimmed(text@)),
{
    let trimmed_text = trim_white_space(text);
    lowercase(trimmed_text.as_str())
}

/// The form in which an attempt and an accepted answer are compared.
pub fn clean_string(response: &str) -> (r: String)
    ensures
        r@ == cleaned(response@),
{
    let lower = trim_and_lowercase(response);
    clean_lowercased(lower.as_str())
}

/// `a` comes before `b` in lexicographic order of code points.
pub open spec fn text_lt(a: Seq<char>, b: Seq<char>) -> bool
    decreases a.len(),
{
    if a.len() == 0 {
        b.len() > 0
    } else if b.len() == 0 {
        false
    } else if a[0] < b[0] {
        true
    } else if a[0] == b[0] {
        text_lt(a.drop_first(), b.drop_first())
    } else {
        false
    }
}

/// No text comes before itself.
pub proof fn lemma_text_lt_irreflexive(a: Seq<char>)
    ensures
        !text_lt(a, a),
    decreases a.len(),
{
    if a.len() > 0 {
        lemma_text_lt_irreflexive(a.drop_first());
    }
}

/// Order of texts is transitive.
pub proof fn lemma_text_lt_transitive(a: Seq<char>, b: Seq<char>, c: Seq<char>)
    requires
        text_lt(a, b),
        text_lt(b, c),
    ensures
        text_lt(a, c),
    decreases a.len(),
{
    if a.len() > 0 && b.len() > 0 && c.len() > 0 && a[0] == b[0] && b[0] == c[0] {
        lemma_text_lt_transitive(a.drop_first(), b.drop_first(), c.drop_first());
    }
}

/// Of two different texts, one comes before the other, and not both ways.
pub proof fn lemma_text_lt_total(a: Seq<char>, b: Seq<char>)
    ensures
        a != b ==> (text_lt(a, b) || text_lt(b, a)),
        !(text_lt(a, b) && text_lt(b, a)),
    decreases a.len(),
{
    if a.len() > 0 && b.len() > 0 {
        lemma_text_lt_total(a.drop_first(), b.drop_first());
        if a[0] == b[0] && a != b {
            assert(a =~= seq![a[0]] + a.drop_first());
            assert(b =~= seq![b[0]] + b.drop_first());
        }
    } else if a.len() == 0 && b.len() == 0 {
        assert(a =~= b);
    }
}

proof fn lemma_text_lt_common_prefix(a: Seq<char>, b: Seq<char>, i: int)
    requires
        0 <= i <= a.len(),
        i <= b.len(),
        forall|j: int| 0 <= j < i ==> a[j] == b[j],
    ensures
        text_lt(a, b) == text_lt(a.skip(i), b.skip(i)),
    decreases i,
{
    if i > 0 {
        lemma_text_lt_common_prefix(a.drop_first(), b.drop_first(), i - 1);
        assert(a.drop_first().skip(i - 1) =~= a.skip(i));
        assert(b.drop_first().skip(i - 1) =~= b.skip(i));
    } else {
        assert(a.skip(0) =~= a);
        assert(b.skip(0) =~= b);
    }
}

/// How two texts compare: negative when `a` comes first, zero when they are
/// equal, positive when `b` comes first.
pub fn compare_text(a: &str, b: &str) -> (r: i8)
    ensures
        r < 0 <==> text_lt(a@, b@),
        r == 0 <==> a@ == b@,
        r > 0 <==> text_lt(b@, a@),
{
    let x = chars_of(a);
    let y = chars_of(b);
    let mut i: usize = 0;
    while i < x.len() && i < y.len() && x[i] == y[i]
        invariant
            x@ == a@,
            y@ == b@,
            i <= x@.len(),
            i <= y@.len(),
            forall|j: int| 0 <= j < i ==> x@[j] == y@[j],
        decreases x@.len() - i,
    {
        i = i + 1;
    }
    proof {
        lemma_text_lt_common_prefix(a@, b@, i as int);
        lemma_text_lt_common_prefix(b@, a@, i as int);
        lemma_text_lt_total(a@, b@);
    }
    if i == x.len() && i == y.len() {
        assert(a@ =~= b@);
        proof {
            lemma_text_lt_irreflexive(a@);
        }
        0
    } else if i == x.len() {
        assert(a@ != b@);
        -1
    } else if i == y.len() {
        assert(a@ != b@);
        1
    } else if x[i] < y[i] {
        assert(a@[i as int] != b@[i as int]);
        -1
    } else {
        assert(a@[i as int] != b@[i as int]);
        1
    }
}

} // verus!
