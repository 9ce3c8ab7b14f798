//! Character-level text operations, each stated over `Seq<char>`.
use vstd::prelude::*;

verus! {

broadcast use vstd::string::group_string_axioms;

/// The Unicode `White_Space` property, which `char::is_whitespace` tests.
pub open spec fn is_ws(c: char) -> bool {
    let u = c as u32;
    ||| 9 <= u <= 13
    ||| u == 32
    ||| u == 0x85
    ||| u == 0xA0
    ||| u == 0x1680
    ||| 0x2000 <= u <= 0x200A
    ||| u == 0x2028
    ||| u == 0x2029
    ||| u == 0x202F
    ||| u == 0x205F
    ||| u == 0x3000
}

pub fn is_whitespace(c: char) -> (r: bool)
    ensures
        r == is_ws(c),
{
    let u = c as u32;
    (9 <= u && u <= 13) || u == 32 || u == 0x85 || u == 0xA0 || u == 0x1680 || (0x2000 <= u && u
        <= 0x200A) || u == 0x2028 || u == 0x2029 || u == 0x202F || u == 0x205F || u == 0x3000
}

/// Index of the first character at or after `i` that is not whitespace (or the length).
pub open spec fn skip_ws(s: Seq<char>, i: int) -> int
    decreases s.len() - i,
{
    if i < 0 || i >= s.len() {
        s.len() as int
    } else if is_ws(s[i]) {
        skip_ws(s, i + 1)
    } else {
        i
    }
}

/// One past the last non-whitespace character before `i` (or 0).
pub open spec fn end_ws(s: Seq<char>, i: int) -> int
    decreases i,
{
    if i <= 0 || i > s.len() {
        0
    } else if is_ws(s[i - 1]) {
        end_ws(s, i - 1)
    } else {
        i
    }
}

pub open spec fn trim_start(s: Seq<char>) -> Seq<char> {
    s.subrange(skip_ws(s, 0), s.len() as int)
}

pub open spec fn trim_end(s: Seq<char>) -> Seq<char> {
    s.subrange(0, end_ws(s, s.len() as int))
}

/// `str::trim`: whitespace removed at both ends.
pub open spec fn trim(s: Seq<char>) -> Seq<char> {
    let start = skip_ws(s, 0);
    let end = end_ws(s, s.len() as int);
    if start < end {
        s.subrange(start, end)
    } else {
        Seq::empty()
    }
}

pub proof fn lemma_skip_ws_bounds(s: Seq<char>, i: int)
    requires
        0 <= i <= s.len(),
    ensures
        i <= skip_ws(s, i) <= s.len(),
        forall|j: int| i <= j < skip_ws(s, i) ==> is_ws(#[trigger] s[j]),
        skip_ws(s, i) < s.len() ==> !is_ws(s[skip_ws(s, i)]),
    decreases s.len() - i,
{
    if i < s.len() && is_ws(s[i]) {
        lemma_skip_ws_bounds(s, i + 1);
    }
}

pub proof fn lemma_end_ws_bounds(s: Seq<char>, i: int)
    requires
        0 <= i <= s.len(),
    ensures
        0 <= end_ws(s, i) <= i,
        forall|j: int| end_ws(s, i) <= j < i ==> is_ws(#[trigger] s[j]),
        end_ws(s, i) > 0 ==> !is_ws(s[end_ws(s, i) - 1]),
    decreases i,
{
    if i > 0 && is_ws(s[i - 1]) {
        lemma_end_ws_bounds(s, i - 1);
    }
}

pub fn skip_whitespace(s: &[char], start: usize) -> (r: usize)
    requires
        start <= s@.len(),
    ensures
        r == skip_ws(s@, start as int),
{
    let mut i = start;
    while i < s.len() && is_whitespace(s[i])
        invariant
            start <= i <= s@.len(),
            skip_ws(s@, start as int) == skip_ws(s@, i as int),
        decreases s@.len() - i,
    {
        i = i + 1;
    }
    i
}

pub fn end_of_text(s: &[char], end: usize) -> (r: usize)
    requires
        end <= s@.len(),
    ensures
        r == end_ws(s@, end as int),
{
    let mut i = end;
    while i > 0 && is_whitespace(s[i - 1])
        invariant
            i <= end <= s@.len(),
            end_ws(s@, end as int) == end_ws(s@, i as int),
        decreases i,
    {
        i = i - 1;
    }
    i
}

pub fn copy_range(s: &[char], start: usize, end: usize) -> (r: Vec<char>)
    requires
        start <= end <= s@.len(),
    ensures
        r@ == s@.subrange(start as int, end as int),
{
    let mut r: Vec<char> = Vec::new();
    let mut i = start;
    while i < end
        invariant
            start <= i <= end <= s@.len(),
            r@ == s@.subrange(start as int, i as int),
        decreases end - i,
    {
        r.push(s[i]);
        i = i + 1;
    }
    r
}

pub fn trimmed(s: &[char]) -> (r: Vec<char>)
    ensures
        r@ == trim(s@),
{
    proof {
        lemma_skip_ws_bounds(s@, 0);
        lemma_end_ws_bounds(s@, s@.len() as int);
    }
    let start = skip_whitespace(s, 0);
    let end = end_of_text(s, s.len());
    if start < end {
        copy_range(s, start, end)
    } else {
        Vec::new()
    }
}

pub fn trimmed_start(s: &[char]) -> (r: Vec<char>)
    ensures
        r@ == trim_start(s@),
{
    proof {
        lemma_skip_ws_bounds(s@, 0);
    }
    let start = skip_whitespace(s, 0);
    copy_range(s, start, s.len())
}

/// Index of the first character at or after `i` that belongs to `set` (or the length).
pub open spec fn find_any(s: Seq<char>, set: Seq<char>, i: int) -> int
    decreases s.len() - i,
{
    if i < 0 || i >= s.len() {
        s.len() as int
    } else if set.contains(s[i]) {
        i
    } else {
        find_any(s, set, i + 1)
    }
}

pub proof fn lemma_find_any_bounds(s: Seq<char>, set: Seq<char>, i: int)
    requires
        0 <= i <= s.len(),
    ensures
        i <= find_any(s, set, i) <= s.len(),
        forall|j: int| i <= j < find_any(s, set, i) ==> !set.contains(#[trigger] s[j]),
        find_any(s, set, i) < s.len() ==> set.contains(s[find_any(s, set, i)]),
    decreases s.len() - i,
{
    if i < s.len() && !set.contains(s[i]) {
        lemma_find_any_bounds(s, set, i + 1);
    }
}

pub fn contains_char(set: &[char], c: char) -> (r: bool)
    ensures
        r == set@.contains(c),
{
    let mut i: usize = 0;
    while i < set.len()
        invariant
            i <= set@.len(),
            forall|j: int| 0 <= j < i ==> set@[j] != c,
        decreases set@.len() - i,
    {
        if set[i] == c {
            return true;
        }
        i = i + 1;
    }
    false
}

pub fn position_of_any(s: &[char], set: &[char], start: usize) -> (r: usize)
    requires
        start <= s@.len(),
    ensures
        r == find_any(s@, set@, start as int),
{
    let mut i = start;
    while i < s.len() && !contains_char(set, s[i])
        invariant
            start <= i <= s@.len(),
            find_any(s@, set@, start as int) == find_any(s@, set@, i as int),
        decreases s@.len() - i,
    {
        i = i + 1;
    }
    i
}

/// Index of the last character before `i` that belongs to `set`, or -1.
pub open spec fn rfind_any(s: Seq<char>, set: Seq<char>, i: int) -> int
    decreases i,
{
    if i <= 0 || i > s.len() {
        -1
    } else if set.contains(s[i - 1]) {
        i - 1
    } else {
        rfind_any(s, set, i - 1)
    }
}

pub proof fn lemma_rfind_any_bounds(s: Seq<char>, set: Seq<char>, i: int)
    requires
        0 <= i <= s.len(),
    ensures
        -1 <= rfind_any(s, set, i) < i,
        forall|j: int| rfind_any(s, set, i) < j < i ==> !set.contains(#[trigger] s[j]),
        rfind_any(s, set, i) >= 0 ==> set.contains(s[rfind_any(s, set, i)]),
    decreases i,
{
    if i > 0 && !set.contains(s[i - 1]) {
        lemma_rfind_any_bounds(s, set, i - 1);
    }
}

/// The text after the last character of `set`: `s.rsplit(set).next()`.
pub open spec fn after_last(s: Seq<char>, set: Seq<char>) -> Seq<char> {
    s.subrange(rfind_any(s, set, s.len() as int) + 1, s.len() as int)
}

/// The text before the first character of `set`: `s.split(set).next()`.
pub open spec fn before_first(s: Seq<char>, set: Seq<char>) -> Seq<char> {
    s.subrange(0, find_any(s, set, 0))
}

proof fn lemma_rfind_any_suffix(prefix: Seq<char>, tail: Seq<char>, set: Seq<char>, i: int)
    requires
        prefix.len() <= i <= prefix.len() + tail.len(),
        prefix.len() == 0 || set.contains(prefix.last()),
        forall|k: int| 0 <= k < tail.len() ==> !set.contains(#[trigger] tail[k]),
    ensures
        rfind_any(prefix + tail, set, i) == prefix.len() - 1,
    decreases i,
{
    let s = prefix + tail;
    if i > prefix.len() {
        assert(s[i - 1] == tail[i - 1 - prefix.len()]);
        lemma_rfind_any_suffix(prefix, tail, set, i - 1);
    } else if i > 0 {
        assert(s[i - 1] == prefix.last());
    }
}

/// After the last separator of `prefix + tail`, where `prefix` is empty or ends with a
/// separator and `tail` holds none, comes exactly `tail`.
pub proof fn lemma_after_last_suffix(prefix: Seq<char>, tail: Seq<char>, set: Seq<char>)
    requires
        prefix.len() == 0 || set.contains(prefix.last()),
        forall|k: int| 0 <= k < tail.len() ==> !set.contains(#[trigger] tail[k]),
    ensures
        after_last(prefix + tail, set) == tail,
{
    let s = prefix + tail;
    lemma_rfind_any_suffix(prefix, tail, set, s.len() as int);
    assert(s.subrange(prefix.len() as int, s.len() as int) =~= tail);
}

proof fn lemma_find_any_absent(s: Seq<char>, set: Seq<char>, i: int)
    requires
        0 <= i <= s.len(),
        forall|k: int| 0 <= k < s.len() ==> !set.contains(#[trigger] s[k]),
    ensures
        find_any(s, set, i) == s.len(),
    decreases s.len() - i,
{
    if i < s.len() {
        lemma_find_any_absent(s, set, i + 1);
    }
}

/// Text that holds no character of `set` comes whole before its first one.
pub proof fn lemma_before_first_absent(s: Seq<char>, set: Seq<char>)
    requires
        forall|k: int| 0 <= k < s.len() ==> !set.contains(#[trigger] s[k]),
    ensures
        before_first(s, set) == s,
{
    lemma_find_any_absent(s, set, 0);
    assert(s.subrange(0, s.len() as int) =~= s);
}

/// Text that neither starts nor ends with whitespace is its own trim.
pub proof fn lemma_trim_unchanged(s: Seq<char>)
    requires
        s.len() > 0,
        !is_ws(s[0]),
        !is_ws(s[s.len() - 1]),
    ensures
        trim(s) == s,
{
    assert(skip_ws(s, 0) == 0);
    assert(end_ws(s, s.len() as int) == s.len());
    assert(s.subrange(0, s.len() as int) =~= s);
}

pub fn last_position_of_any(s: &[char], set: &[char]) -> (r: Option<usize>)
    ensures
        match r {
            Some(k) => rfind_any(s@, set@, s@.len() as int) == k,
            None => rfind_any(s@, set@, s@.len() as int) == -1,
        },
{
    let mut i = s.len();
    while i > 0 && !contains_char(set, s[i - 1])
        invariant
            i <= s@.len(),
            rfind_any(s@, set@, s@.len() as int) == rfind_any(s@, set@, i as int),
        decreases i,
    {
        i = i - 1;
    }
    if i == 0 {
        None
    } else {
        Some(i - 1)
    }
}

pub fn suffix_after_last(s: &[char], set: &[char]) -> (r: Vec<char>)
    ensures
        r@ == after_last(s@, set@),
{
    proof {
        lemma_rfind_any_bounds(s@, set@, s@.len() as int);
    }
    let n = s.len();
    match last_position_of_any(s, set) {
        Some(p) => copy_range(s, p + 1, s.len()),
        None => copy_range(s, 0, s.len()),
    }
}

pub fn prefix_before_first(s: &[char], set: &[char]) -> (r: Vec<char>)
    ensures
        r@ == before_first(s@, set@),
{
    proof {
        lemma_find_any_bounds(s@, set@, 0);
    }
    let end = position_of_any(s, set, 0);
    copy_range(s, 0, end)
}

/// `pat` occurs in `s` starting at `i`.
pub open spec fn occurs_at(s: Seq<char>, pat: Seq<char>, i: int) -> bool {
    0 <= i && i + pat.len() <= s.len() && s.subrange(i, i + pat.len()) == pat
}

/// First index at or after `i` where `pat` occurs, or -1.
pub open spec fn find_sub(s: Seq<char>, pat: Seq<char>, i: int) -> int
    decreases s.len() + 1 - i,
{
    if i < 0 || i + pat.len() > s.len() {
        -1
    } else if occurs_at(s, pat, i) {
        i
    } else {
        find_sub(s, pat, i + 1)
    }
}

/// Last index at or before `i` where `pat` occurs, or -1.
pub open spec fn rfind_sub(s: Seq<char>, pat: Seq<char>, i: int) -> int
    decreases i + 1,
{
    if i < 0 {
        -1
    } else if occurs_at(s, pat, i) {
        i
    } else {
        rfind_sub(s, pat, i - 1)
    }
}

pub open spec fn contains_sub(s: Seq<char>, pat: Seq<char>) -> bool {
    find_sub(s, pat, 0) >= 0
}

pub proof fn lemma_find_sub_bounds(s: Seq<char>, pat: Seq<char>, i: int)
    requires
        0 <= i,
    ensures
        find_sub(s, pat, i) == -1 || (i <= find_sub(s, pat, i) && occurs_at(
            s,
            pat,
            find_sub(s, pat, i),
        )),
        forall|j: int| i <= j && (find_sub(s, pat, i) == -1 || j < find_sub(s, pat, i)) ==> !occurs_at(s, pat, j),
    decreases s.len() + 1 - i,
{
    if i + pat.len() <= s.len() && !occurs_at(s, pat, i) {
        lemma_find_sub_bounds(s, pat, i + 1);
    }
}

pub proof fn lemma_rfind_sub_bounds(s: Seq<char>, pat: Seq<char>, i: int)
    ensures
        rfind_sub(s, pat, i) == -1 || (rfind_sub(s, pat, i) <= i && occurs_at(
            s,
            pat,
            rfind_sub(s, pat, i),
        )),
    decreases i + 1,
{
    if i >= 0 && !occurs_at(s, pat, i) {
        lemma_rfind_sub_bounds(s, pat, i - 1);
    }
}

pub fn occurs_at_exec(s: &[char], pat: &[char], i: usize) -> (r: bool)
    ensures
        r == occurs_at(s@, pat@, i as int),
{
    if i > s.len() || pat.len() > s.len() - i {
        return false;
    }
    let n = s.len();
    let mut k: usize = 0;
    while k < pat.len()
        invariant
            n == s@.len(),
            i + pat@.len() <= s@.len(),
            k <= pat@.len(),
            forall|j: int| 0 <= j < k ==> s@[i + j] == pat@[j],
        decreases pat@.len() - k,
    {
        assert(i + k < s@.len());
        if s[i + k] != pat[k] {
            assert(s@.subrange(i as int, i + pat@.len())[k as int] != pat@[k as int]);
            return false;
        }
        k = k + 1;
    }
    assert(s@.subrange(i as int, i + pat@.len()) =~= pat@);
    true
}

pub fn find_sub_exec(s: &[char], pat: &[char], start: usize) -> (r: Option<usize>)
    ensures
        match r {
            Some(k) => find_sub(s@, pat@, start as int) == k,
            None => find_sub(s@, pat@, start as int) == -1,
        },
{
    let mut i = start;
    loop
        invariant
            start <= i,
            find_sub(s@, pat@, start as int) == find_sub(s@, pat@, i as int),
        decreases s@.len() + 1 - i,
    {
        if i > s.len() || pat.len() > s.len() - i {
            return None;
        }
        if occurs_at_exec(s, pat, i) {
            return Some(i);
        }
        assert(pat@.len() > 0) by {
            if pat@.len() == 0 {
                assert(s@.subrange(i as int, i as int) =~= pat@);
            }
        }
        i = i + 1;
    }
}

pub fn rfind_sub_exec(s: &[char], pat: &[char]) -> (r: Option<usize>)
    ensures
        match r {
            Some(k) => rfind_sub(s@, pat@, s@.len() - pat@.len()) == k,
            None => rfind_sub(s@, pat@, s@.len() - pat@.len()) == -1,
        },
{
    if pat.len() > s.len() {
        return None;
    }
    let mut i: usize = s.len() - pat.len();
    loop
        invariant
            i <= s@.len() - pat@.len(),
            rfind_sub(s@, pat@, s@.len() - pat@.len()) == rfind_sub(s@, pat@, i as int),
        decreases i,
    {
        if occurs_at_exec(s, pat, i) {
            return Some(i);
        }
        if i == 0 {
            assert(rfind_sub(s@, pat@, -1) == -1);
            return None;
        }
        i = i - 1;
    }
}

pub open spec fn starts_with(s: Seq<char>, pat: Seq<char>) -> bool {
    pat.len() <= s.len() && s.take(pat.len() as int) == pat
}

pub open spec fn ends_with(s: Seq<char>, pat: Seq<char>) -> bool {
    pat.len() <= s.len() && s.skip(s.len() - pat.len()) == pat
}

pub fn starts_with_exec(s: &[char], pat: &[char]) -> (r: bool)
    ensures
        r == starts_with(s@, pat@),
{
    let r = occurs_at_exec(s, pat, 0);
    assert(s@.subrange(0, pat@.len() as int) == s@.take(pat@.len() as int));
    r
}

pub fn ends_with_exec(s: &[char], pat: &[char]) -> (r: bool)
    ensures
        r == ends_with(s@, pat@),
{
    if pat.len() > s.len() {
        return false;
    }
    let r = occurs_at_exec(s, pat, s.len() - pat.len());
    assert(s@.subrange(s@.len() - pat@.len(), s@.len() as int) == s@.skip(
        s@.len() - pat@.len(),
    ));
    r
}

/// `str::strip_prefix` followed by `unwrap_or(s)`.
pub open spec fn strip_prefix_or(s: Seq<char>, pat: Seq<char>) -> Seq<char> {
    if starts_with(s, pat) {
        s.skip(pat.len() as int)
    } else {
        s
    }
}

/// `str::strip_suffix` followed by `unwrap_or(s)`.
pub open spec fn strip_suffix_or(s: Seq<char>, pat: Seq<char>) -> Seq<char> {
    if ends_with(s, pat) {
        s.take(s.len() - pat.len())
    } else {
        s
    }
}

pub fn strip_prefix_exec(s: &[char], pat: &[char]) -> (r: Vec<char>)
    ensures
        r@ == strip_prefix_or(s@, pat@),
{
    if starts_with_exec(s, pat) {
        let r = copy_range(s, pat.len(), s.len());
        assert(r@ == s@.skip(pat@.len() as int));
        r
    } else {
        copy_range(s, 0, s.len())
    }
}

pub fn strip_suffix_exec(s: &[char], pat: &[char]) -> (r: Vec<char>)
    ensures
        r@ == strip_suffix_or(s@, pat@),
{
    if ends_with_exec(s, pat) {
        copy_range(s, 0, s.len() - pat.len())
    } else {
        copy_range(s, 0, s.len())
    }
}

/// Every whitespace character removed: `split_whitespace().collect::<String>()`.
pub open spec fn remove_ws(s: Seq<char>) -> Seq<char>
    decreases s.len(),
{
    if s.len() == 0 {
        s
    } else if is_ws(s.last()) {
        remove_ws(s.drop_last())
    } else {
        remove_ws(s.drop_last()).push(s.last())
    }
}

pub fn without_whitespace(s: &[char]) -> (r: Vec<char>)
    ensures
        r@ == remove_ws(s@),
{
    let mut r: Vec<char> = Vec::new();
    let mut i: usize = 0;
    while i < s.len()
        invariant
            i <= s@.len(),
            r@ == remove_ws(s@.take(i as int)),
        decreases s@.len() - i,
    {
        assert(s@.take(i + 1).drop_last() == s@.take(i as int));
        if !is_whitespace(s[i]) {
            r.push(s[i]);
        }
        i = i + 1;
    }
    assert(s@.take(s@.len() as int) == s@);
    r
}

/// Each occurrence of `from` replaced by `to`.
pub open spec fn replace_char(s: Seq<char>, from: char, to: char) -> Seq<char> {
    Seq::new(s.len(), |i: int| if s[i] == from { to } else { s[i] })
}

pub fn replaced(s: &[char], from: char, to: char) -> (r: Vec<char>)
    ensures
        r@ == replace_char(s@, from, to),
{
    let mut r: Vec<char> = Vec::new();
    let mut i: usize = 0;
    while i < s.len()
        invariant
            i <= s@.len(),
            r@ =~= replace_char(s@.take(i as int), from, to),
        decreases s@.len() - i,
    {
        if s[i] == from {
            r.push(to);
        } else {
            r.push(s[i]);
        }
        i = i + 1;
    }
    assert(s@.take(s@.len() as int) == s@);
    r
}

pub fn equal_chars(a: &[char], b: &[char]) -> (r: bool)
    ensures
        r == (a@ == b@),
{
    if a.len() != b.len() {
        return false;
    }
    let r = occurs_at_exec(a, b, 0);
    assert(a@.subrange(0, b@.len() as int) == a@);
    r
}

pub fn to_chars(s: &str) -> (r: Vec<char>)
    ensures
        r@ == s@,
{
    let mut r: Vec<char> = Vec::new();
    for c in it: s.chars()
        invariant
            it.seq() == s@,
            r@ == s@.take(it.index() as int),
    {
        assert(s@.take(it.index() + 1) == s@.take(it.index() as int).push(c));
        r.push(c);
    }
    assert(s@.take(s@.len() as int) == s@);
    r
}

/// Tests a character sequence against a string literal.
pub fn is_text(s: &[char], literal: &str) -> (r: bool)
    ensures
        r == (s@ == literal@),
{
    let chars = to_chars(literal);
    equal_chars(s, chars.as_slice())
}

pub open spec fn opt_chars(o: Option<Vec<char>>) -> Option<Seq<char>> {
    match o {
        Some(v) => Some(v@),
        None => None,
    }
}

/// Builds a `String` from characters: `FromIterator<&char> for String`.
#[verifier::external_body]
pub(crate) fn string_from(chars: &[char]) -> (r: String)
    ensures
        r@ == chars@,
{
    chars.iter().collect()
}

pub fn append_chars(v: &mut Vec<char>, s: &[char])
    ensures
        final(v)@ == old(v)@ + s@,
{
    let mut i: usize = 0;
    while i < s.len()
        invariant
            i <= s@.len(),
            v@ == old(v)@ + s@.take(i as int),
        decreases s@.len() - i,
    {
        assert(s@.take(i + 1) == s@.take(i as int).push(s@[i as int]));
        v.push(s[i]);
        i = i + 1;
    }
    assert(s@.take(s@.len() as int) == s@);
}

pub fn append_str(v: &mut Vec<char>, s: &str)
    ensures
        final(v)@ == old(v)@ + s@,
{
    let chars = to_chars(s);
    append_chars(v, chars.as_slice());
}

pub open spec fn digit(d: nat) -> char {
    if d == 0 {
        '0'
    } else if d == 1 {
        '1'
    } else if d == 2 {
        '2'
    } else if d == 3 {
        '3'
    } else if d == 4 {
        '4'
    } else if d == 5 {
        '5'
    } else if d == 6 {
        '6'
    } else if d == 7 {
        '7'
    } else if d == 8 {
        '8'
    } else {
        '9'
    }
}

/// Decimal notation of `n`, as `format!("{n}")` writes it.
pub open spec fn decimal(n: nat) -> Seq<char>
    decreases n,
{
    if n < 10 {
        seq![digit(n)]
    } else {
        decimal(n / 10).push(digit(n % 10))
    }
}

fn digit_char(d: usize) -> (c: char)
    requires
        d < 10,
    ensures
        c == digit(d as nat),
{
    if d == 0 {
        '0'
    } else if d == 1 {
        '1'
    } else if d == 2 {
        '2'
    } else if d == 3 {
        '3'
    } else if d == 4 {
        '4'
    } else if d == 5 {
        '5'
    } else if d == 6 {
        '6'
    } else if d == 7 {
        '7'
    } else if d == 8 {
        '8'
    } else {
        '9'
    }
}

pub fn append_decimal(v: &mut Vec<char>, n: usize)
    ensures
        final(v)@ == old(v)@ + decimal(n as nat),
    decreases n,
{
    if n >= 10 {
        append_decimal(v, n / 10);
    }
    v.push(digit_char(n % 10));
}

/// One past the last character before `i` that differs from `c` (or 0): `trim_end_matches(c)`.
pub open spec fn end_without(s: Seq<char>, c: char, i: int) -> int
    decreases i,
{
    if i <= 0 || i > s.len() {
        0
    } else if s[i - 1] == c {
        end_without(s, c, i - 1)
    } else {
        i
    }
}

pub open spec fn trim_end_char(s: Seq<char>, c: char) -> Seq<char> {
    s.take(end_without(s, c, s.len() as int))
}

pub proof fn lemma_end_without_bounds(s: Seq<char>, c: char, i: int)
    requires
        0 <= i <= s.len(),
    ensures
        0 <= end_without(s, c, i) <= i,
    decreases i,
{
    if i > 0 && s[i - 1] == c {
        lemma_end_without_bounds(s, c, i - 1);
    }
}

pub fn trimmed_end_char(s: &[char], c: char) -> (r: Vec<char>)
    ensures
        r@ == trim_end_char(s@, c),
{
    let mut i = s.len();
    while i > 0 && s[i - 1] == c
        invariant
            i <= s@.len(),
            end_without(s@, c, s@.len() as int) == end_without(s@, c, i as int),
        decreases i,
    {
        i = i - 1;
    }
    copy_range(s, 0, i)
}

/// Lexicographic order by code point from position `i` on, as `str` orders text.
pub open spec fn text_lt_from(a: Seq<char>, b: Seq<char>, i: int) -> bool
    decreases a.len() - i,
{
    if i < 0 || i >= a.len() {
        i >= 0 && i < b.len()
    } else if i >= b.len() {
        false
    } else if a[i] != b[i] {
        a[i] < b[i]
    } else {
        text_lt_from(a, b, i + 1)
    }
}

pub open spec fn text_lt(a: Seq<char>, b: Seq<char>) -> bool {
    text_lt_from(a, b, 0)
}

pub proof fn lemma_text_lt_irreflexive(a: Seq<char>, i: int)
    requires
        0 <= i,
    ensures
        !text_lt_from(a, a, i),
    decreases a.len() - i,
{
    if i < a.len() {
        lemma_text_lt_irreflexive(a, i + 1);
    }
}

pub proof fn lemma_text_lt_total(a: Seq<char>, b: Seq<char>, i: int)
    requires
        0 <= i,
        i <= a.len() && i <= b.len(),
        forall|j: int| 0 <= j < i ==> a[j] == b[j],
        a != b,
    ensures
        text_lt_from(a, b, i) || text_lt_from(b, a, i),
    decreases a.len() - i,
{
    if i >= a.len() && i >= b.len() {
        assert(a =~= b);
    } else if i < a.len() && i < b.len() && a[i] == b[i] {
        lemma_text_lt_total(a, b, i + 1);
    }
}

pub proof fn lemma_text_lt_asymmetric(a: Seq<char>, b: Seq<char>, i: int)
    requires
        0 <= i,
        text_lt_from(a, b, i),
    ensures
        !text_lt_from(b, a, i),
    decreases a.len() - i,
{
    if i < a.len() && i < b.len() && a[i] == b[i] {
        lemma_text_lt_asymmetric(a, b, i + 1);
    }
}

pub proof fn lemma_text_lt_transitive(a: Seq<char>, b: Seq<char>, c: Seq<char>, i: int)
    requires
        0 <= i,
        text_lt_from(a, b, i),
        text_lt_from(b, c, i),
    ensures
        text_lt_from(a, c, i),
    decreases a.len() - i,
{
    if i < a.len() && i < b.len() && i < c.len() && a[i] == b[i] && b[i] == c[i] {
        lemma_text_lt_transitive(a, b, c, i + 1);
    }
}


pub fn chars_less(a: &[char], b: &[char]) -> (r: bool)
    ensures
        r == text_lt(a@, b@),
{
    let mut i: usize = 0;
    while i < a.len() && i < b.len() && a[i] == b[i]
        invariant
            text_lt(a@, b@) == text_lt_from(a@, b@, i as int),
        decreases a@.len() - i,
    {
        i = i + 1;
    }
    if i >= a.len() {
        i < b.len()
    } else if i >= b.len() {
        false
    } else {
        a[i] < b[i]
    }
}

pub fn text_less(a: &str, b: &str) -> (r: bool)
    ensures
        r == text_lt(a@, b@),
{
    let x = to_chars(a);
    let y = to_chars(b);
    chars_less(x.as_slice(), y.as_slice())
}

pub fn text_equal(a: &str, b: &str) -> (r: bool)
    ensures
        r == (a@ == b@),
{
    let x = to_chars(a);
    let y = to_chars(b);
    equal_chars(x.as_slice(), y.as_slice())
}

/// The first line (split at `'\n'`) from position `i` on that holds more than whitespace,
/// trimmed; empty when there is none.
pub open spec fn first_text_line(s: Seq<char>, i: int) -> Seq<char>
    decreases s.len() - i,
{
    if i < 0 || i > s.len() {
        Seq::empty()
    } else {
        let end = find_any(s, seq!['\n'], i);
        let line = trim(s.subrange(i, end));
        if line.len() > 0 {
            line
        } else if end >= s.len() {
            Seq::empty()
        } else {
            proof {
                lemma_find_any_bounds(s, seq!['\n'], i);
            }
            first_text_line(s, end + 1)
        }
    }
}

/// At most the first `n` characters.
pub open spec fn prefix_upto(s: Seq<char>, n: nat) -> Seq<char> {
    if s.len() <= n {
        s
    } else {
        s.take(n as int)
    }
}

pub fn first_line_of_text(s: &[char]) -> (r: Vec<char>)
    ensures
        r@ == first_text_line(s@, 0),
{
    let mut i: usize = 0;
    loop
        invariant
            i <= s@.len(),
            first_text_line(s@, 0) == first_text_line(s@, i as int),
        decreases s@.len() - i,
    {
        proof {
            lemma_find_any_bounds(s@, seq!['\n'], i as int);
        }
        let newline = ['\n'];
        let end = position_of_any(s, &newline, i);
        assert(newline@ == seq!['\n']);
        let segment = &s[i..end];
        let line = trimmed(segment);
        if line.len() > 0 {
            return line;
        }
        if end >= s.len() {
            return Vec::new();
        }
        i = end + 1;
    }
}

pub fn take_prefix(s: &[char], n: usize) -> (r: Vec<char>)
    ensures
        r@ == prefix_upto(s@, n as nat),
{
    if s.len() <= n {
        copy_range(s, 0, s.len())
    } else {
        copy_range(s, 0, n)
    }
}

} // verus!
