//! Matching of requests against the rules of policies.

use crate::config::MatchRule;
use crate::text::chars_of;
use vstd::prelude::*;
#[allow(unused_imports)]
use vstd::string::*;
#[allow(unused_imports)]
use vstd::utf8::is_ascii_chars;

verus! {

/// The place of the first slash, or the length where there is none.
pub open spec fn first_slash(s: Seq<char>) -> int
    decreases s.len(),
{
    if s.len() == 0 || s[0] == '/' {
        0
    } else {
        1 + first_slash(s.skip(1))
    }
}

/// The pieces of a path between slashes, without the empty ones.
pub open spec fn segments(s: Seq<char>) -> Seq<Seq<char>>
    decreases s.len(),
{
    if s.len() == 0 {
        Seq::empty()
    } else if s[0] == '/' {
        segments(s.skip(1))
    } else {
        let end = first_slash(s);
        if 0 < end <= s.len() {
            seq![s.take(end)] + segments(s.skip(end))
        } else {
            Seq::empty()
        }
    }
}

/// The segment that stands for any segment.
pub open spec fn wildcard() -> Seq<char> {
    seq!['*']
}

/// Whether a pattern segment stands for a path segment.
pub open spec fn segment_matches(pattern: Seq<char>, segment: Seq<char>) -> bool {
    pattern == wildcard() || pattern == segment
}

/// Whether a pattern stands for a path, both as segments: a wildcard at the end of the pattern
/// stands for one segment or more, any other segment of the pattern for one.
pub open spec fn segments_match(pattern: Seq<Seq<char>>, path: Seq<Seq<char>>) -> bool {
    let n = pattern.len();
    &&& if n > 0 && pattern.last() == wildcard() {
        path.len() >= n
    } else {
        path.len() == n
    }
    &&& forall|i: int| 0 <= i < n ==> segment_matches(#[trigger] pattern[i], path[i])
}

/// Whether a pattern stands for a path.
pub open spec fn path_fits(pattern: Seq<char>, path: Seq<char>) -> bool {
    segments_match(segments(pattern), segments(path))
}

/// The views of the segments.
spec fn views(v: Seq<Vec<char>>) -> Seq<Seq<char>> {
    v.map_values(|segment: Vec<char>| segment@)
}

proof fn lemma_first_slash(s: Seq<char>, n: int)
    requires
        0 <= n <= s.len(),
        forall|i: int| 0 <= i < n ==> s[i] != '/',
        n < s.len() ==> s[n] == '/',
    ensures
        first_slash(s) == n,
    decreases s.len(),
{
    if n > 0 {
        let rest = s.skip(1);
        assert forall|i: int| 0 <= i < n - 1 implies rest[i] != '/' by {
            assert(rest[i] == s[i + 1]);
        }
        lemma_first_slash(rest, n - 1);
    }
}

fn split_segments(path: &str) -> (v: Vec<Vec<char>>)
    ensures
        views(v@) == segments(path@),
{
    let chars: Vec<char> = chars_of(path);
    let mut v: Vec<Vec<char>> = Vec::new();
    let n: usize = chars.len();
    let mut start: usize = 0;
    proof {
        assert(path@.skip(0) =~= path@);
        assert(views(v@) + segments(path@) =~= segments(path@));
    }
    while start < n
        invariant
            chars@ == path@,
            start <= n == chars@.len(),
            views(v@) + segments(path@.skip(start as int)) == segments(path@),
        decreases n - start,
    {
        let ghost rest = path@.skip(start as int);
        if chars[start] == '/' {
            assert(rest.skip(1) =~= path@.skip(start + 1));
            start = start + 1;
        } else {
            let mut segment: Vec<char> = Vec::new();
            let mut end: usize = start;
            while end < n && chars[end] != '/'
                invariant
                    chars@ == path@,
                    start <= end <= n == chars@.len(),
                    rest == path@.skip(start as int),
                    segment@ == rest.take(end - start),
                    forall|i: int| 0 <= i < end - start ==> rest[i] != '/',
                decreases n - end,
            {
                assert(rest.take(end - start + 1) =~= rest.take(end - start).push(
                    chars@[end as int],
                ));
                segment.push(chars[end]);
                end = end + 1;
            }
            proof {
                lemma_first_slash(rest, end - start);
                assert(end > start) by {
                    assert(rest[0] != '/');
                }
                assert(rest.skip(end - start) =~= path@.skip(end as int));
                assert(views(v@.push(segment)) =~= views(v@).push(segment@));
                assert(views(v@).push(segment@) + segments(path@.skip(end as int)) =~= views(v@) + (
                seq![segment@] + segments(path@.skip(end as int))));
            }
            v.push(segment);
            start = end;
        }
    }
    proof {
        assert(path@.skip(n as int).len() == 0);
        assert(views(v@) + segments(path@.skip(n as int)) =~= views(v@));
    }
    v
}

fn same_chars(a: &Vec<char>, b: &Vec<char>) -> (r: bool)
    ensures
        r == (a@ == b@),
{
    if a.len() != b.len() {
        return false;
    }
    let mut i: usize = 0;
    while i < a.len()
        invariant
            i <= a@.len() == b@.len(),
            forall|j: int| 0 <= j < i ==> a@[j] == b@[j],
        decreases a@.len() - i,
    {
        if a[i] != b[i] {
            return false;
        }
        i = i + 1;
    }
    assert(a@ =~= b@);
    true
}

fn is_wildcard(segment: &Vec<char>) -> (r: bool)
    ensures
        r == (segment@ == wildcard()),
{
    let r: bool = segment.len() == 1 && segment[0] == '*';
    assert(r ==> segment@ =~= wildcard());
    r
}

/// Returns true if `path` matches `pattern`.
///
/// Both are split at the slashes, and empty pieces are left out. A literal segment of the
/// pattern matches the same segment, a `*` at the end of the pattern one or more of the remaining
/// segments, and a `*` elsewhere exactly one.
pub fn path_matches(pattern: &str, path: &str) -> (r: bool)
    ensures
        r == path_fits(pattern@, path@),
{
    let pattern_segments: Vec<Vec<char>> = split_segments(pattern);
    let path_segments: Vec<Vec<char>> = split_segments(path);
    let ghost pat = segments(pattern@);
    let ghost segs = segments(path@);
    let n: usize = pattern_segments.len();
    let open_end: bool = n > 0 && is_wildcard(&pattern_segments[n - 1]);
    assert(pat.len() == n && segs.len() == path_segments@.len());
    assert(forall|i: int| 0 <= i < n ==> #[trigger] pat[i] == pattern_segments@[i]@);
    assert(forall|i: int| 0 <= i < segs.len() ==> #[trigger] segs[i] == path_segments@[i]@);
    if path_segments.len() < n || path_segments.len() > n && !open_end {
        return false;
    }
    let mut i: usize = 0;
    while i < n
        invariant
            i <= n <= path_segments@.len(),
            n == pattern_segments@.len() == pat.len(),
            segs.len() == path_segments@.len(),
            forall|j: int| 0 <= j < n ==> #[trigger] pat[j] == pattern_segments@[j]@,
            forall|j: int| 0 <= j < segs.len() ==> #[trigger] segs[j] == path_segments@[j]@,
            forall|j: int| 0 <= j < i ==> segment_matches(#[trigger] pat[j], segs[j]),
            pat == segments(pattern@),
            segs == segments(path@),
        decreases n - i,
    {
        if !is_wildcard(&pattern_segments[i]) && !same_chars(
            &pattern_segments[i],
            &path_segments[i],
        ) {
            assert(!segment_matches(pat[i as int], segs[i as int]));
            return false;
        }
        i = i + 1;
    }
    true
}

/// The upper-case form of a text that is not all ASCII.
pub uninterp spec fn uppercase(text: Seq<char>) -> Seq<char>;

/// A text with its letters from a to z in upper case.
pub open spec fn ascii_uppercase(text: Seq<char>) -> Seq<char> {
    text.map_values(
        |c: char|
            if 'a' <= c <= 'z' {
                ((c as u8 - 32) as u8) as char
            } else {
                c
            },
    )
}

/// The upper-case form of a text.
pub open spec fn upper(text: Seq<char>) -> Seq<char> {
    if is_ascii_chars(text) {
        ascii_uppercase(text)
    } else {
        uppercase(ascii_uppercase(text))
    }
}

/// `str::to_uppercase`: a function of the text alone. It is the conversion of Unicode, which maps
/// each character on its own: the letters from a to z as ASCII has it, whatever stands beside
/// them, and no other character of ASCII.
#[verifier::external_body]
fn to_uppercase(text: &str) -> (r: String)
    ensures
        is_ascii_chars(text@) ==> r@ == ascii_uppercase(text@),
        !is_ascii_chars(text@) ==> r@ == uppercase(text@),
        !is_ascii_chars(text@) ==> r@ == uppercase(ascii_uppercase(text@)),
{
    text.to_uppercase()
}

/// Whether a method is one of those named, in whatever case.
pub open spec fn names(methods: Seq<String>, method: Seq<char>) -> bool {
    exists|i: int| 0 <= i < methods.len() && upper((#[trigger] methods[i])@) == upper(method)
}

fn names_method(methods: &Vec<String>, method: &str) -> (r: bool)
    ensures
        r == names(methods@, method@),
{
    let method_upper: String = to_uppercase(method);
    let mut i: usize = 0;
    while i < methods.len()
        invariant
            i <= methods@.len(),
            method_upper@ == upper(method@),
            forall|j: int| 0 <= j < i ==> upper((#[trigger] methods@[j])@) != method_upper@,
        decreases methods@.len() - i,
    {
        if to_uppercase(methods[i].as_str()) == method_upper {
            assert(upper(methods@[i as int]@) == method_upper@);
            return true;
        }
        i = i + 1;
    }
    false
}

/// Whether a rule is for requests of the given path and method.
pub open spec fn rule_fits(rule: MatchRule, path: Seq<char>, method: Seq<char>) -> bool {
    &&& path_fits(rule.path@, path)
    &&& rule.methods matches Some(methods) ==> names(methods@, method)
}

/// Returns true if `rule` matches the given request path and method.
pub fn policy_matches(rule: &MatchRule, request_path: &str, request_method: &str) -> (r: bool)
    ensures
        r == rule_fits(*rule, request_path@, request_method@),
{
    if !path_matches(rule.path.as_str(), request_path) {
        return false;
    }
    match &rule.methods {
        None => true,
        Some(methods) => names_method(methods, request_method),
    }
}

/// Whether two methods differ in nothing but the case of their letters from a to z.
pub open spec fn same_but_for_case(a: Seq<char>, b: Seq<char>) -> bool {
    ascii_uppercase(a) == ascii_uppercase(b)
}

proof fn lemma_same_upper(a: Seq<char>, b: Seq<char>)
    requires
        same_but_for_case(a, b),
    ensures
        upper(a) == upper(b),
{
    let (x, y) = (ascii_uppercase(a), ascii_uppercase(b));
    assert(x.len() == a.len() && y.len() == b.len());
    assert forall|i: int| 0 <= i < a.len() implies ('\0' <= #[trigger] a[i] <= '\u{7f}') == (
    '\0' <= b[i] <= '\u{7f}') by {
        assert(x[i] == y[i]);
    }
    assert(is_ascii_chars(a) == is_ascii_chars(b)) by {
        if is_ascii_chars(a) {
            assert forall|i: int| 0 <= i < b.len() implies '\0' <= #[trigger] b[i]
                <= '\u{7f}' by {
                assert('\0' <= a[i] <= '\u{7f}');
            }
        }
    }
}

/// The case of a method does not matter, whatever methods a rule names.
pub proof fn case_does_not_matter(rule: MatchRule, path: Seq<char>, a: Seq<char>, b: Seq<char>)
    requires
        same_but_for_case(a, b),
    ensures
        rule_fits(rule, path, a) == rule_fits(rule, path, b),
{
    lemma_same_upper(a, b);
}

/// Whether a rule is for all the methods that another one is for: it names none, or all that the
/// other one names, in whatever order and case.
pub open spec fn names_more(wider: MatchRule, rule: MatchRule) -> bool {
    wider.methods matches Some(more) ==> (rule.methods matches Some(methods) && forall|i: int|
        0 <= i < methods@.len() ==> names(more@, (#[trigger] methods@[i])@))
}

/// A rule with the same path that names more methods, or none, is for all requests that the rule
/// is for, whatever the case of their methods.
pub proof fn more_methods_lose_no_match(
    rule: MatchRule,
    wider: MatchRule,
    path: Seq<char>,
    a: Seq<char>,
    b: Seq<char>,
)
    requires
        wider.path@ == rule.path@,
        names_more(wider, rule),
        same_but_for_case(a, b),
        rule_fits(rule, path, a),
    ensures
        rule_fits(wider, path, b),
{
    lemma_same_upper(a, b);
    if let Some(more) = wider.methods {
        let methods = rule.methods->Some_0;
        let i = choose|i: int|
            0 <= i < methods@.len() && upper((#[trigger] methods@[i])@) == upper(a);
        assert(names(more@, methods@[i]@));
        let j = choose|j: int|
            0 <= j < more@.len() && upper((#[trigger] more@[j])@) == upper(methods@[i]@);
        assert(upper(more@[j]@) == upper(b));
    }
}

/// A rule that holds all the methods of another one names them all.
pub proof fn listed_methods_are_named(wider: MatchRule, rule: MatchRule)
    requires
        wider.methods matches Some(more) ==> (rule.methods matches Some(methods) && forall|i: int|
            0 <= i < methods@.len() ==> more@.contains(#[trigger] methods@[i])),
    ensures
        names_more(wider, rule),
{
    if let Some(more) = wider.methods {
        let methods = rule.methods->Some_0;
        assert forall|i: int| 0 <= i < methods@.len() implies names(
            more@,
            (#[trigger] methods@[i])@,
        ) by {
            assert(more@.contains(methods@[i]));
            let j = choose|j: int| 0 <= j < more@.len() && more@[j] == methods@[i];
            assert(upper(more@[j]@) == upper(methods@[i]@));
        }
    }
}

/// A pattern without wildcards stands for the paths with the same segments, and no others.
pub proof fn literal_pattern_matches_itself_only(pattern: Seq<char>, path: Seq<char>)
    requires
        !segments(pattern).contains(wildcard()),
    ensures
        path_fits(pattern, path) <==> segments(pattern) == segments(path),
{
    let (pat, segs) = (segments(pattern), segments(path));
    assert forall|i: int| 0 <= i < pat.len() implies #[trigger] pat[i] != wildcard() by {
        assert(pat.contains(pat[i]));
    }
    if path_fits(pattern, path) {
        assert forall|i: int| 0 <= i < pat.len() implies pat[i] == segs[i] by {
            assert(segment_matches(pat[i], segs[i]));
        }
        assert(pat =~= segs);
    }
}

/// Every pattern stands for the path that reads the same.
pub proof fn pattern_matches_itself(pattern: Seq<char>)
    ensures
        path_fits(pattern, pattern),
{
}

/// A wildcard at the end stands for one segment at least: a path that ends before it is not
/// meant.
pub proof fn trailing_wildcard_takes_a_segment(pattern: Seq<char>, path: Seq<char>)
    requires
        segments(pattern).len() > 0,
        segments(pattern).last() == wildcard(),
        path_fits(pattern, path),
    ensures
        segments(path).len() >= segments(pattern).len(),
{
}

/// A wildcard at the end stands for any number of further segments.
pub proof fn trailing_wildcard_takes_the_rest(
    pattern: Seq<char>,
    path: Seq<char>,
    longer: Seq<char>,
)
    requires
        segments(pattern).len() > 0,
        segments(pattern).last() == wildcard(),
        path_fits(pattern, path),
        segments(path).is_prefix_of(segments(longer)),
    ensures
        path_fits(pattern, longer),
{
    let (pat, segs, more) = (segments(pattern), segments(path), segments(longer));
    assert forall|i: int| 0 <= i < pat.len() implies segment_matches(
        #[trigger] pat[i],
        more[i],
    ) by {
        assert(segment_matches(pat[i], segs[i]));
        assert(more[i] == segs[i]);
    }
}

/// Without a wildcard at the end, a pattern stands for paths of its own length only.
pub proof fn other_patterns_fix_the_length(pattern: Seq<char>, path: Seq<char>)
    requires
        segments(pattern).len() == 0 || segments(pattern).last() != wildcard(),
        path_fits(pattern, path),
    ensures
        segments(path).len() == segments(pattern).len(),
{
}

/// A slash at the start, or at the end, makes no difference.
pub proof fn outer_slashes_do_not_matter(path: Seq<char>)
    ensures
        segments(seq!['/'] + path) == segments(path),
        segments(path.push('/')) == segments(path),
    decreases path.len(),
{
    assert((seq!['/'] + path).skip(1) =~= path);
    lemma_slash_at_end(path);
}

proof fn lemma_first_slash_bounds(s: Seq<char>)
    ensures
        0 <= first_slash(s) <= s.len(),
        forall|i: int| 0 <= i < first_slash(s) ==> s[i] != '/',
        first_slash(s) < s.len() ==> s[first_slash(s)] == '/',
    decreases s.len(),
{
    if s.len() > 0 && s[0] != '/' {
        let rest = s.skip(1);
        lemma_first_slash_bounds(rest);
        assert forall|i: int| 0 <= i < first_slash(s) implies s[i] != '/' by {
            if i > 0 {
                assert(rest[i - 1] == s[i]);
            }
        }
    }
}

proof fn lemma_slash_at_end(path: Seq<char>)
    ensures
        segments(path.push('/')) == segments(path),
    decreases path.len(),
{
    let longer = path.push('/');
    if path.len() == 0 {
        assert(longer.skip(1) =~= path);
    } else if path[0] == '/' {
        assert(longer.skip(1) =~= path.skip(1).push('/'));
        lemma_slash_at_end(path.skip(1));
    } else {
        let end = first_slash(path);
        lemma_first_slash_bounds(path);
        lemma_first_slash_bounds(path.skip(1));
        assert(longer[0] != '/' && end > 0);
        assert forall|i: int| 0 <= i < end implies longer[i] != '/' by {
            assert(longer[i] == path[i]);
        }
        lemma_first_slash(longer, end);
        assert(longer.take(end) =~= path.take(end));
        assert(longer.skip(end) =~= path.skip(end).push('/'));
        lemma_slash_at_end(path.skip(end));
    }
}

/// A segment is not empty and holds no slash.
pub proof fn segments_hold_no_slash(s: Seq<char>, i: int, j: int)
    requires
        0 <= i < segments(s).len(),
        0 <= j < segments(s)[i].len(),
    ensures
        segments(s)[i].len() > 0,
        segments(s)[i][j] != '/',
    decreases s.len(),
{
    if s.len() > 0 {
        if s[0] == '/' {
            segments_hold_no_slash(s.skip(1), i, j);
        } else {
            let end = first_slash(s);
            lemma_first_slash_bounds(s);
            let rest = segments(s.skip(end));
            if i == 0 {
                assert(segments(s)[0] == s.take(end));
            } else {
                assert(segments(s)[i] == rest[i - 1]);
                segments_hold_no_slash(s.skip(end), i - 1, j);
            }
        }
    }
}

/// A text without slashes is its own only segment.
pub proof fn text_without_slashes_is_a_segment(s: Seq<char>)
    requires
        forall|i: int| 0 <= i < s.len() ==> #[trigger] s[i] != '/',
    ensures
        s.len() > 0 ==> segments(s) == seq![s],
        s.len() == 0 ==> segments(s).len() == 0,
{
    if s.len() > 0 {
        assert(s[0] != '/');
        lemma_first_slash(s, s.len() as int);
        assert(s.take(s.len() as int) =~= s);
        let none = s.skip(s.len() as int);
        assert(none.len() == 0);
        assert(segments(none).len() == 0);
        assert(segments(s) == seq![s] + segments(none));
        assert(segments(s) =~= seq![s]);
    }
}

/// A slash parts the segments before it from those after it.
pub proof fn slash_parts_segments(a: Seq<char>, b: Seq<char>)
    ensures
        segments(a + seq!['/'] + b) == segments(a) + segments(b),
    decreases a.len(),
{
    let whole = a + seq!['/'] + b;
    if a.len() == 0 {
        assert(whole.skip(1) =~= b);
        assert(segments(a) + segments(b) =~= segments(b));
    } else if a[0] == '/' {
        assert(whole.skip(1) =~= a.skip(1) + seq!['/'] + b);
        slash_parts_segments(a.skip(1), b);
    } else {
        let end = first_slash(a);
        lemma_first_slash_bounds(a);
        lemma_first_slash_bounds(a.skip(1));
        assert forall|i: int| 0 <= i < end implies whole[i] != '/' by {
            assert(whole[i] == a[i]);
        }
        assert(whole[end] == '/') by {
            if end < a.len() {
                assert(whole[end] == a[end]);
            }
        }
        lemma_first_slash(whole, end);
        assert(whole.take(end) =~= a.take(end));
        assert(whole.skip(end) =~= a.skip(end) + seq!['/'] + b);
        slash_parts_segments(a.skip(end), b);
        assert(segments(whole) =~= segments(a) + segments(b));
    }
}

/// A path fits a pattern if and only if it has as many segments, or more where the pattern ends in
/// `*`, and has the same segments as the pattern wherever that has another one than `*`.
pub proof fn path_fits_by_its_segments(pattern: Seq<char>, path: Seq<char>)
    ensures
        ({
            let (p, s) = (segments(pattern), segments(path));
            path_fits(pattern, path) <==> {
                &&& s.len() == p.len() || s.len() > p.len() > 0 && p[p.len() - 1] == seq!['*']
                &&& forall|i: int| 0 <= i < p.len() && #[trigger] p[i] != seq!['*'] ==> p[i] == s[i]
            }
        }),
{
    let (p, s) = (segments(pattern), segments(path));
    if s.len() >= p.len() && forall|i: int|
        0 <= i < p.len() && #[trigger] p[i] != seq!['*'] ==> p[i] == s[i] {
        assert forall|i: int| 0 <= i < p.len() implies segment_matches(#[trigger] p[i], s[i]) by {}
    }
    if path_fits(pattern, path) {
        assert forall|i: int| 0 <= i < p.len() && #[trigger] p[i] != seq!['*'] implies p[i]
            == s[i] by {
            assert(segment_matches(p[i], s[i]));
        }
    }
}

/// What stands for a `*` may be any segment: of two paths that differ only where the pattern has a
/// `*`, both fit or none.
pub proof fn any_segment_stands_for_a_wildcard(
    pattern: Seq<char>,
    path: Seq<char>,
    other: Seq<char>,
)
    requires
        segments(path).len() == segments(other).len(),
        forall|i: int|
            0 <= i < segments(pattern).len() && i < segments(path).len()
                && #[trigger] segments(pattern)[i] != seq!['*'] ==> segments(path)[i] == segments(
                other,
            )[i],
    ensures
        path_fits(pattern, path) == path_fits(pattern, other),
{
    path_fits_by_its_segments(pattern, path);
    path_fits_by_its_segments(pattern, other);
}

/// Two characters are the same in upper case if they are the same, or a letter of ASCII and its
/// upper case.
pub open spec fn same_letter(a: char, b: char) -> bool {
    ||| a == b
    ||| 'a' <= a <= 'z' && a as int == b as int + 32
    ||| 'a' <= b <= 'z' && b as int == a as int + 32
}

/// Methods are the same but for case if they are so letter by letter.
pub proof fn methods_are_compared_letter_by_letter(a: Seq<char>, b: Seq<char>)
    ensures
        same_but_for_case(a, b) <==> a.len() == b.len() && forall|i: int|
            0 <= i < a.len() ==> same_letter(#[trigger] a[i], b[i]),
{
    let (x, y) = (ascii_uppercase(a), ascii_uppercase(b));
    if same_but_for_case(a, b) {
        assert(x.len() == a.len() && y.len() == b.len());
        assert forall|i: int| 0 <= i < a.len() implies same_letter(#[trigger] a[i], b[i]) by {
            assert(x[i] == y[i]);
        }
    }
    if a.len() == b.len() && forall|i: int|
        0 <= i < a.len() ==> same_letter(#[trigger] a[i], b[i]) {
        assert forall|i: int| 0 <= i < a.len() implies x[i] == y[i] by {
            assert(same_letter(a[i], b[i]));
        }
        assert(x =~= y);
    }
}

/// A rule is for a request whose path fits and whose method it names, or if it names none, and,
/// where all of them are ASCII, for no other.
pub proof fn rule_is_for_its_path_and_methods(rule: MatchRule, path: Seq<char>, method: Seq<char>)
    ensures
        !path_fits(rule.path@, path) ==> !rule_fits(rule, path, method),
        rule.methods is None ==> rule_fits(rule, path, method) == path_fits(rule.path@, path),
        rule.methods matches Some(methods) ==> (path_fits(rule.path@, path) && (exists|i: int|
            0 <= i < methods@.len() && same_but_for_case((#[trigger] methods@[i])@, method))
            ==> rule_fits(rule, path, method)),
        rule.methods matches Some(methods) ==> (is_ascii_chars(method) && (forall|i: int|
            0 <= i < methods@.len() ==> is_ascii_chars((#[trigger] methods@[i])@)
                && !same_but_for_case(methods@[i]@, method)) ==> !rule_fits(rule, path, method)),
{
    if let Some(methods) = rule.methods {
        if exists|i: int|
            0 <= i < methods@.len() && same_but_for_case((#[trigger] methods@[i])@, method) {
            let i = choose|i: int|
                0 <= i < methods@.len() && same_but_for_case((#[trigger] methods@[i])@, method);
            lemma_same_upper(methods@[i]@, method);
            assert(names(methods@, method));
        }
    }
}

} // verus!
