//! The form of candidate fingerprints, `language:path:kind:hash:occurrence`, and why two
//! candidates of different files, or two of one file, never share one.
use vstd::prelude::*;

use crate::analysis::{count_base, numbered, DecisionKind};
use crate::digest::is_lower_hex;
use crate::model::{CandidateView, Language};
use crate::model::Candidate;
use crate::order::{insert_in_order, sort_in_order, Ordered};
use crate::text::{decimal, digit};

verus! {

/// No `:` in the text.
pub open spec fn colon_free(s: Seq<char>) -> bool {
    forall|i: int| 0 <= i < s.len() ==> #[trigger] s[i] != ':'
}

/// Sixteen lowercase hexadecimal digits.
pub open spec fn is_hex16(h: Seq<char>) -> bool {
    h.len() == 16 && forall|i: int| 0 <= i < 16 ==> is_lower_hex(#[trigger] h[i])
}

/// `language:path:kind:hash`, the part of a fingerprint before the occurrence number.
pub open spec fn base_text(language: Language, path: Seq<char>, kind: Seq<char>, hash: Seq<char>) -> Seq<
    char,
> {
    language.label_text() + seq![':'] + path + seq![':'] + kind + seq![':'] + hash
}

/// `language:path:kind:hash:occurrence`.
pub open spec fn fingerprint_text(
    language: Language,
    path: Seq<char>,
    kind: Seq<char>,
    hash: Seq<char>,
    occurrence: nat,
) -> Seq<char> {
    base_text(language, path, kind, hash) + seq![':'] + decimal(occurrence)
}

/// A candidate before numbering: its fingerprint is `language:path:kind:` and a 16-digit hash.
pub open spec fn has_base_form(c: CandidateView) -> bool {
    colon_free(c.kind) && exists|h: Seq<char>|
        #![trigger base_text(c.language, c.path, c.kind, h)]
        is_hex16(h) && c.fingerprint == base_text(c.language, c.path, c.kind, h)
}

/// A reported candidate: its fingerprint is `language:path:kind:hash:occurrence`, with a
/// 16-digit hash and an occurrence counted from one.
pub open spec fn has_fingerprint_form(c: CandidateView) -> bool {
    colon_free(c.kind) && exists|h: Seq<char>, n: nat|
        #![trigger fingerprint_text(c.language, c.path, c.kind, h, n)]
        is_hex16(h) && n >= 1 && c.fingerprint == fingerprint_text(c.language, c.path, c.kind, h, n)
}

/// No two candidates share a fingerprint.
pub open spec fn distinct_fingerprints(items: Seq<CandidateView>) -> bool {
    forall|i: int, j: int|
        0 <= i < items.len() && 0 <= j < items.len() && i != j ==> (#[trigger] items[i]).fingerprint
            != (#[trigger] items[j]).fingerprint
}

// ---------------------------------------------------------------- reading a fingerprint back

proof fn lemma_split_last(x: Seq<char>, d1: Seq<char>, y: Seq<char>, d2: Seq<char>)
    requires
        colon_free(d1),
        colon_free(d2),
        x + seq![':'] + d1 == y + seq![':'] + d2,
    ensures
        x == y,
        d1 == d2,
{
    let s = x + seq![':'] + d1;
    let t = y + seq![':'] + d2;
    assert(s.len() == t.len());
    if d1.len() < d2.len() {
        let p = x.len() as int;
        assert(s[p] == ':');
        assert(t[p] == d2[p - y.len() - 1]);
    } else if d2.len() < d1.len() {
        let p = y.len() as int;
        assert(t[p] == ':');
        assert(s[p] == d1[p - x.len() - 1]);
    } else {
        assert forall|k: int| 0 <= k < x.len() implies x[k] == y[k] by {
            assert(s[k] == x[k] && t[k] == y[k]);
        }
        assert forall|k: int| 0 <= k < d1.len() implies d1[k] == d2[k] by {
            assert(s[x.len() + 1 + k] == d1[k] && t[y.len() + 1 + k] == d2[k]);
        }
        assert(x =~= y);
        assert(d1 =~= d2);
    }
}

proof fn lemma_split_first(a: Seq<char>, p1: Seq<char>, b: Seq<char>, p2: Seq<char>)
    requires
        colon_free(a),
        colon_free(b),
        a + seq![':'] + p1 == b + seq![':'] + p2,
    ensures
        a == b,
        p1 == p2,
{
    let s = a + seq![':'] + p1;
    let t = b + seq![':'] + p2;
    if a.len() < b.len() {
        assert(s[a.len() as int] == ':');
        assert(t[a.len() as int] == b[a.len() as int]);
    } else if b.len() < a.len() {
        assert(t[b.len() as int] == ':');
        assert(s[b.len() as int] == a[b.len() as int]);
    } else {
        assert(s.len() == t.len());
        assert(p1.len() == p2.len());
        assert forall|k: int| 0 <= k < a.len() implies a[k] == b[k] by {
            assert(s[k] == a[k] && t[k] == b[k]);
        }
        assert forall|k: int| 0 <= k < p1.len() implies p1[k] == p2[k] by {
            assert(s[a.len() + 1 + k] == p1[k] && t[b.len() + 1 + k] == p2[k]);
        }
        assert(a =~= b);
        assert(p1 =~= p2);
    }
}

proof fn lemma_digit(d: nat)
    ensures
        d < 10 ==> digit(d) != ':',
        d < 10 ==> '0' <= digit(d) <= '9',
{
}

proof fn lemma_decimal(n: nat)
    ensures
        colon_free(decimal(n)),
        decimal(n).len() >= 1,
        n < 10 <==> decimal(n).len() == 1,
    decreases n,
{
    if n < 10 {
        lemma_digit(n);
    } else {
        lemma_decimal(n / 10);
        lemma_digit(n % 10);
        let d = decimal(n / 10).push(digit(n % 10));
        assert forall|i: int| 0 <= i < d.len() implies #[trigger] d[i] != ':' by {
            if i < d.len() - 1 {
                assert(d[i] == decimal(n / 10)[i]);
            }
        }
    }
}

proof fn lemma_digit_injective(a: nat, b: nat)
    requires
        a < 10,
        b < 10,
        digit(a) == digit(b),
    ensures
        a == b,
{
}

proof fn lemma_decimal_injective(a: nat, b: nat)
    requires
        decimal(a) == decimal(b),
    ensures
        a == b,
    decreases a,
{
    lemma_decimal(a);
    lemma_decimal(b);
    if a < 10 && b < 10 {
        assert(decimal(a)[0] == digit(a));
        assert(decimal(b)[0] == digit(b));
        lemma_digit_injective(a, b);
    } else if a >= 10 && b >= 10 {
        let da = decimal(a);
        let db = decimal(b);
        assert(da.drop_last() =~= decimal(a / 10));
        assert(db.drop_last() =~= decimal(b / 10));
        lemma_decimal_injective(a / 10, b / 10);
        assert(da.last() == digit(a % 10));
        assert(db.last() == digit(b % 10));
        lemma_digit_injective(a % 10, b % 10);
        assert(a == 10 * (a / 10) + a % 10);
        assert(b == 10 * (b / 10) + b % 10);
    }
}

proof fn lemma_hex_colon_free(h: Seq<char>)
    requires
        is_hex16(h),
    ensures
        colon_free(h),
{
    assert forall|i: int| 0 <= i < h.len() implies #[trigger] h[i] != ':' by {
        assert(is_lower_hex(h[i]));
    }
}

proof fn lemma_label_colon_free(language: Language)
    ensures
        colon_free(language.label_text()),
{
    reveal_strlit("python");
    reveal_strlit("swift");
    reveal_strlit("rust");
}

pub proof fn lemma_kind_colon_free(kind: DecisionKind)
    ensures
        colon_free(kind.label_text()),
{
    reveal_strlit("if");
    reveal_strlit("conditional_expression");
    reveal_strlit("comprehension_filter");
    reveal_strlit("match");
    reveal_strlit("guard");
    reveal_strlit("switch");
    reveal_strlit("defer");
}

/// Every candidate drafted for the file at `path` has the base form and that path.
pub open spec fn drafted_in(items: Seq<CandidateView>, path: Seq<char>) -> bool {
    forall|k: int|
        0 <= k < items.len() ==> has_base_form(#[trigger] items[k]) && items[k].path == path
}

/// Equal fingerprints name the same language, path, kind, hash and occurrence.
pub proof fn lemma_fingerprint_text_injective(
    l1: Language,
    p1: Seq<char>,
    k1: Seq<char>,
    h1: Seq<char>,
    n1: nat,
    l2: Language,
    p2: Seq<char>,
    k2: Seq<char>,
    h2: Seq<char>,
    n2: nat,
)
    requires
        colon_free(k1),
        colon_free(k2),
        is_hex16(h1),
        is_hex16(h2),
        fingerprint_text(l1, p1, k1, h1, n1) == fingerprint_text(l2, p2, k2, h2, n2),
    ensures
        l1.label_text() == l2.label_text(),
        p1 == p2,
        k1 == k2,
        h1 == h2,
        n1 == n2,
{
    lemma_decimal(n1);
    lemma_decimal(n2);
    lemma_hex_colon_free(h1);
    lemma_hex_colon_free(h2);
    lemma_label_colon_free(l1);
    lemma_label_colon_free(l2);
    lemma_split_last(base_text(l1, p1, k1, h1), decimal(n1), base_text(l2, p2, k2, h2), decimal(n2));
    lemma_decimal_injective(n1, n2);
    let head1 = l1.label_text() + seq![':'] + p1 + seq![':'] + k1;
    let head2 = l2.label_text() + seq![':'] + p2 + seq![':'] + k2;
    lemma_split_last(head1, h1, head2, h2);
    lemma_split_last(l1.label_text() + seq![':'] + p1, k1, l2.label_text() + seq![':'] + p2, k2);
    lemma_split_first(l1.label_text(), p1, l2.label_text(), p2);
}

// ---------------------------------------------------------------- numbering within a file

proof fn lemma_count_step(items: Seq<CandidateView>, base: Seq<char>, i: int)
    requires
        0 <= i < items.len(),
    ensures
        count_base(items.take(i + 1), base) == count_base(items.take(i), base) + if items[i].fingerprint
            == base {
            1nat
        } else {
            0nat
        },
{
    assert(items.take(i + 1).drop_last() =~= items.take(i));
    assert(items.take(i + 1).last() == items[i]);
}

proof fn lemma_count_grows(items: Seq<CandidateView>, base: Seq<char>, i: int, j: int)
    requires
        0 <= i <= j <= items.len(),
    ensures
        count_base(items.take(i), base) <= count_base(items.take(j), base),
    decreases j - i,
{
    if i < j {
        lemma_count_grows(items, base, i, j - 1);
        lemma_count_step(items, base, j - 1);
    }
}

/// Numbering the candidates of one file gives each the fingerprint form, keeps its other
/// fields, and leaves no two with one fingerprint.
pub proof fn lemma_numbered_fingerprints(items: Seq<CandidateView>)
    requires
        forall|k: int| 0 <= k < items.len() ==> has_base_form(#[trigger] items[k]),
    ensures
        numbered(items).len() == items.len(),
        forall|k: int|
            0 <= k < items.len() ==> has_fingerprint_form(#[trigger] numbered(items)[k])
                && numbered(items)[k].path == items[k].path && numbered(items)[k].language
                == items[k].language,
        distinct_fingerprints(numbered(items)),
{
    let r = numbered(items);
    assert forall|k: int| 0 <= k < items.len() implies has_fingerprint_form(#[trigger] r[k])
        && r[k].path == items[k].path && r[k].language == items[k].language by {
        let c = items[k];
        let h = choose|h: Seq<char>|
            #![trigger base_text(c.language, c.path, c.kind, h)]
            is_hex16(h) && c.fingerprint == base_text(c.language, c.path, c.kind, h);
        let n = count_base(items.take(k), c.fingerprint) + 1;
        assert(r[k] == crate::analysis::with_occurrence(c, n));
        assert(r[k].kind == c.kind && r[k].path == c.path && r[k].language == c.language);
        assert(r[k].fingerprint == c.fingerprint + seq![':'] + decimal(n));
        assert(r[k].fingerprint == fingerprint_text(r[k].language, r[k].path, r[k].kind, h, n));
        assert(is_hex16(h) && n >= 1);
    }
    assert forall|i: int, j: int|
        0 <= i < r.len() && 0 <= j < r.len() && i != j implies (#[trigger] r[i]).fingerprint
        != (#[trigger] r[j]).fingerprint by {
        let (a, b) = if i < j {
            (i, j)
        } else {
            (j, i)
        };
        let ba = items[a].fingerprint;
        let bb = items[b].fingerprint;
        let na = count_base(items.take(a), ba) + 1;
        let nb = count_base(items.take(b), bb) + 1;
        lemma_decimal(na);
        lemma_decimal(nb);
        if r[a].fingerprint == r[b].fingerprint {
            lemma_split_last(ba, decimal(na), bb, decimal(nb));
            lemma_decimal_injective(na, nb);
            lemma_count_step(items, ba, a);
            lemma_count_grows(items, ba, a + 1, b);
        }
    }
}

// ---------------------------------------------------------------- sorting keeps them apart

proof fn lemma_insert_members(sorted: Seq<CandidateView>, x: CandidateView)
    ensures
        insert_in_order::<Candidate>(sorted, x).len() == sorted.len() + 1,
        forall|k: int|
            0 <= k < insert_in_order::<Candidate>(sorted, x).len() ==> (#[trigger] insert_in_order::<
                Candidate,
            >(sorted, x)[k] == x || sorted.contains(insert_in_order::<Candidate>(sorted, x)[k])),
    decreases sorted.len(),
{
    let r = insert_in_order::<Candidate>(sorted, x);
    if sorted.len() == 0 {
    } else if !Candidate::precedes(x, sorted.last()) {
        assert forall|k: int| 0 <= k < r.len() implies (#[trigger] r[k] == x || sorted.contains(
            r[k],
        )) by {
            if k < sorted.len() {
                assert(r[k] == sorted[k]);
            }
        }
    } else {
        let shorter = sorted.drop_last();
        lemma_insert_members(shorter, x);
        let inner = insert_in_order::<Candidate>(shorter, x);
        assert(r == inner.push(sorted.last()));
        assert forall|k: int| 0 <= k < r.len() implies (#[trigger] r[k] == x || sorted.contains(
            r[k],
        )) by {
            if k < inner.len() {
                assert(r[k] == inner[k]);
                if inner[k] != x {
                    let m = choose|m: int| 0 <= m < shorter.len() && shorter[m] == inner[k];
                    assert(sorted[m] == inner[k]);
                }
            } else {
                assert(r[k] == sorted[sorted.len() - 1]);
            }
        }
    }
}

proof fn lemma_insert_distinct(sorted: Seq<CandidateView>, x: CandidateView)
    requires
        distinct_fingerprints(sorted),
        forall|k: int| 0 <= k < sorted.len() ==> (#[trigger] sorted[k]).fingerprint != x.fingerprint,
    ensures
        distinct_fingerprints(insert_in_order::<Candidate>(sorted, x)),
    decreases sorted.len(),
{
    let r = insert_in_order::<Candidate>(sorted, x);
    lemma_insert_members(sorted, x);
    if sorted.len() == 0 {
    } else if !Candidate::precedes(x, sorted.last()) {
        assert forall|i: int, j: int|
            0 <= i < r.len() && 0 <= j < r.len() && i != j implies (#[trigger] r[i]).fingerprint
            != (#[trigger] r[j]).fingerprint by {
            if i < sorted.len() {
                assert(r[i] == sorted[i]);
            }
            if j < sorted.len() {
                assert(r[j] == sorted[j]);
            }
        }
    } else {
        let shorter = sorted.drop_last();
        let last = sorted.last();
        assert forall|i: int, j: int|
            0 <= i < shorter.len() && 0 <= j < shorter.len() && i != j implies (
            #[trigger] shorter[i]).fingerprint != (#[trigger] shorter[j]).fingerprint by {
            assert(shorter[i] == sorted[i] && shorter[j] == sorted[j]);
        }
        assert forall|k: int| 0 <= k < shorter.len() implies (
        #[trigger] shorter[k]).fingerprint != x.fingerprint by {
            assert(shorter[k] == sorted[k]);
        }
        lemma_insert_distinct(shorter, x);
        lemma_insert_members(shorter, x);
        let inner = insert_in_order::<Candidate>(shorter, x);
        assert(r == inner.push(last));
        assert forall|k: int| 0 <= k < inner.len() implies (#[trigger] inner[k]).fingerprint
            != last.fingerprint by {
            if inner[k] == x {
                assert(sorted[sorted.len() - 1] == last);
            } else {
                let m = choose|m: int| 0 <= m < shorter.len() && shorter[m] == inner[k];
                assert(sorted[m] == inner[k]);
                assert(sorted[sorted.len() - 1] == last);
            }
        }
        assert forall|i: int, j: int|
            0 <= i < r.len() && 0 <= j < r.len() && i != j implies (#[trigger] r[i]).fingerprint
            != (#[trigger] r[j]).fingerprint by {
            if i < inner.len() {
                assert(r[i] == inner[i]);
            }
            if j < inner.len() {
                assert(r[j] == inner[j]);
            }
        }
    }
}

/// Sorting keeps every candidate and adds none, so it keeps fingerprints apart and keeps
/// whatever holds of each candidate.
pub proof fn lemma_sort_candidates(items: Seq<CandidateView>)
    ensures
        sort_in_order::<Candidate>(items).len() == items.len(),
        forall|k: int|
            0 <= k < items.len() ==> items.contains(#[trigger] sort_in_order::<Candidate>(items)[k]),
        distinct_fingerprints(items) ==> distinct_fingerprints(sort_in_order::<Candidate>(items)),
    decreases items.len(),
{
    if items.len() > 0 {
        let shorter = items.drop_last();
        let last = items.last();
        lemma_sort_candidates(shorter);
        let sorted = sort_in_order::<Candidate>(shorter);
        lemma_insert_members(sorted, last);
        let r = sort_in_order::<Candidate>(items);
        assert(r == insert_in_order::<Candidate>(sorted, last));
        assert forall|k: int| 0 <= k < items.len() implies items.contains(#[trigger] r[k]) by {
            if r[k] == last {
                assert(items[items.len() - 1] == last);
            } else {
                let m = choose|m: int| 0 <= m < sorted.len() && sorted[m] == r[k];
                let v = choose|v: int| 0 <= v < shorter.len() && shorter[v] == sorted[m];
                assert(items[v] == shorter[v]);
            }
        }
        if distinct_fingerprints(items) {
            assert forall|i: int, j: int|
                0 <= i < shorter.len() && 0 <= j < shorter.len() && i != j implies (
                #[trigger] shorter[i]).fingerprint != (#[trigger] shorter[j]).fingerprint by {
                assert(shorter[i] == items[i] && shorter[j] == items[j]);
            }
            assert forall|k: int| 0 <= k < sorted.len() implies (
            #[trigger] sorted[k]).fingerprint != last.fingerprint by {
                let v = choose|v: int| 0 <= v < shorter.len() && shorter[v] == sorted[k];
                assert(items[v] == shorter[v]);
                assert(items[items.len() - 1] == last);
            }
            lemma_insert_distinct(sorted, last);
        }
    }
}

// ---------------------------------------------------------------- candidates of several files

/// Candidates of different files never share a fingerprint: the path is part of it.
pub proof fn lemma_paths_part_fingerprints(a: CandidateView, b: CandidateView)
    requires
        has_fingerprint_form(a),
        has_fingerprint_form(b),
        a.path != b.path,
    ensures
        a.fingerprint != b.fingerprint,
{
    let (ha, na) = choose|h: Seq<char>, n: nat|
        #![trigger fingerprint_text(a.language, a.path, a.kind, h, n)]
        is_hex16(h) && n >= 1 && a.fingerprint == fingerprint_text(a.language, a.path, a.kind, h, n);
    let (hb, nb) = choose|h: Seq<char>, n: nat|
        #![trigger fingerprint_text(b.language, b.path, b.kind, h, n)]
        is_hex16(h) && n >= 1 && b.fingerprint == fingerprint_text(b.language, b.path, b.kind, h, n);
    if a.fingerprint == b.fingerprint {
        lemma_fingerprint_text_injective(a.language, a.path, a.kind, ha, na, b.language, b.path, b.kind, hb, nb);
    }
}

/// Appending candidates whose fingerprints are new keeps fingerprints apart.
pub proof fn lemma_append_distinct(first: Seq<CandidateView>, second: Seq<CandidateView>)
    requires
        distinct_fingerprints(first),
        distinct_fingerprints(second),
        forall|i: int, j: int|
            0 <= i < first.len() && 0 <= j < second.len() ==> (#[trigger] first[i]).fingerprint
                != (#[trigger] second[j]).fingerprint,
    ensures
        distinct_fingerprints(first + second),
{
    let all = first + second;
    assert forall|i: int, j: int|
        0 <= i < all.len() && 0 <= j < all.len() && i != j implies (#[trigger] all[i]).fingerprint
        != (#[trigger] all[j]).fingerprint by {
        let n = first.len() as int;
        if i < n && j < n {
            assert(all[i] == first[i] && all[j] == first[j]);
        } else if i >= n && j >= n {
            assert(all[i] == second[i - n] && all[j] == second[j - n]);
        } else if i < n {
            assert(all[i] == first[i] && all[j] == second[j - n]);
        } else {
            assert(all[j] == first[j] && all[i] == second[i - n]);
        }
    }
}

} // verus!
