//! The search engine: pure filtering, sorting, pagination and terms
//! aggregation over a snapshot's documents.

use vstd::prelude::*;

use crate::keyword::{strip_keyword, strip_keyword_spec};
use crate::query::Query;
use crate::value::{jv_get, view_of_seq, JsonValue, Jv};

verus! {

/// The direction of a sort.
#[derive(Debug, Clone, Copy, PartialEq, Eq, Structural)]
pub enum SortOrder {
    Asc,
    Desc,
}

/// A single-key sort directive. A trailing `.keyword` marker on the field
/// name is ignored.
#[derive(Debug)]
pub struct SortOptions {
    pub field: String,
    pub order: SortOrder,
}

/// The model of a sort directive.
pub struct SortOptionsV {
    pub field: Seq<char>,
    pub order: SortOrder,
}

impl View for SortOptions {
    type V = SortOptionsV;

    open spec fn view(&self) -> SortOptionsV {
        SortOptionsV { field: self.field@, order: self.order }
    }
}

/// Lexicographic order on character sequences, by scalar value: negative,
/// zero or positive as `a` sorts before, with or after `b`.
pub open spec fn cmp_chars(a: Seq<char>, b: Seq<char>) -> int
    decreases a,
{
    if a.len() == 0 && b.len() == 0 {
        0
    } else if a.len() == 0 {
        -1
    } else if b.len() == 0 {
        1
    } else if (a[0] as u32) < (b[0] as u32) {
        -1
    } else if (a[0] as u32) > (b[0] as u32) {
        1
    } else {
        cmp_chars(a.drop_first(), b.drop_first())
    }
}

/// The order of two field values: two integral numbers compare by value;
/// two strings lexicographically; two booleans with false first; any other
/// pairing — including one where a non-integral number takes part, since
/// this crate orders no floating point — counts as equal.
pub open spec fn cmp_values(a: Jv, b: Jv) -> int {
    if a is Num && b is Num {
        if a->Num_0 < b->Num_0 {
            -1int
        } else if a->Num_0 > b->Num_0 {
            1int
        } else {
            0int
        }
    } else if a is Str && b is Str {
        cmp_chars(a->Str_0, b->Str_0)
    } else if a is Bool && b is Bool {
        if a->Bool_0 == b->Bool_0 {
            0int
        } else if b->Bool_0 {
            -1int
        } else {
            1int
        }
    } else {
        0int
    }
}

/// The ascending order of two documents under a sort field: a document
/// lacking the field sorts after one holding it, and two holders compare by
/// their values. Descending order reverses this whole comparison, so a
/// lacking document then sorts first.
pub open spec fn cmp_docs(f: Seq<char>, a: Jv, b: Jv) -> int {
    match (jv_get(a, f), jv_get(b, f)) {
        (Option::Some(x), Option::Some(y)) => cmp_values(x, y),
        (Option::Some(_), Option::None) => -1,
        (Option::None, Option::Some(_)) => 1,
        (Option::None, Option::None) => 0,
    }
}

/// The order the sort directive imposes: descending order is the ascending
/// comparison reversed.
pub open spec fn doc_cmp(f: Seq<char>, order: SortOrder, a: Jv, b: Jv) -> int {
    match order {
        SortOrder::Asc => cmp_docs(f, a, b),
        SortOrder::Desc => -cmp_docs(f, a, b),
    }
}

/// `x` placed into an already sorted sequence: before the first element
/// that orders strictly after it, so an equal element already present stays
/// in front.
pub open spec fn insort(f: Seq<char>, order: SortOrder, sorted: Seq<Jv>, x: Jv) -> Seq<Jv>
    decreases sorted,
{
    if sorted.len() == 0 {
        seq![x]
    } else if doc_cmp(f, order, sorted[0], x) > 0 {
        seq![x] + sorted
    } else {
        seq![sorted[0]] + insort(f, order, sorted.drop_first(), x)
    }
}

/// The stable sort of a document sequence: each document, in input order,
/// placed after the already placed documents that do not order strictly
/// after it.
pub open spec fn ssort(f: Seq<char>, order: SortOrder, docs: Seq<Jv>) -> Seq<Jv>
    decreases docs,
{
    if docs.len() == 0 {
        Seq::empty()
    } else {
        insort(f, order, ssort(f, order, docs.drop_last()), docs.last())
    }
}

/// The documents matching a predicate, in input order.
pub open spec fn filter_docs(docs: Seq<Jv>, q: crate::query::Qv) -> Seq<Jv>
    decreases docs,
{
    if docs.len() == 0 {
        Seq::empty()
    } else {
        filter_docs(docs.drop_last(), q) + if crate::query::matches(q, docs.last()) {
            seq![docs.last()]
        } else {
            Seq::empty()
        }
    }
}

/// The pagination window: `size` documents starting at position `from`; a
/// window past the end is empty.
pub open spec fn page(docs: Seq<Jv>, from: int, size: int) -> Seq<Jv> {
    if from >= docs.len() {
        Seq::empty()
    } else if from + size <= docs.len() {
        docs.subrange(from, from + size)
    } else {
        docs.subrange(from, docs.len() as int)
    }
}

/// The documents sorted by a directive, or left in input order without
/// one. The directive's field is taken with any `.keyword` marker
/// stripped.
pub open spec fn sorted_docs(docs: Seq<Jv>, sort: Option<SortOptionsV>) -> Seq<Jv> {
    match sort {
        Option::Some(so) => ssort(strip_keyword_spec(so.field), so.order, docs),
        Option::None => docs,
    }
}

/// What a search returns: the matching documents, sorted when a directive
/// is given, with the pagination window applied.
pub open spec fn search_spec(
    docs: Seq<Jv>,
    q: crate::query::Qv,
    sort: Option<SortOptionsV>,
    from: int,
    size: int,
) -> Seq<Jv> {
    page(sorted_docs(filter_docs(docs, q), sort), from, size)
}

/// Compares two strings lexicographically, as `cmp_chars` sees it.
fn cmp_str(a: &String, b: &String) -> (r: i8)
    ensures
        r as int == cmp_chars(a@, b@),
        -1 <= r <= 1,
{
    let sa = a.as_str();
    let sb = b.as_str();
    let na = sa.unicode_len();
    let nb = sb.unicode_len();
    let mut i: usize = 0;
    proof {
        assert(a@.subrange(0, na as int) =~= a@);
        assert(b@.subrange(0, nb as int) =~= b@);
    }
    loop
        invariant
            sa@ == a@,
            sb@ == b@,
            na == a@.len(),
            nb == b@.len(),
            i <= na,
            i <= nb,
            cmp_chars(a@, b@) == cmp_chars(
                a@.subrange(i as int, na as int),
                b@.subrange(i as int, nb as int),
            ),
        ensures
            na == a@.len(),
            nb == b@.len(),
            cmp_chars(a@, b@) == cmp_chars(
                a@.subrange(i as int, na as int),
                b@.subrange(i as int, nb as int),
            ),
            i <= na && i <= nb,
            i == na || i == nb || (a@[i as int] as u32) != (b@[i as int] as u32),
        decreases na - i,
    {
        if i == na || i == nb {
            break ;
        }
        let ca = sa.get_char(i);
        let cb = sb.get_char(i);
        if (ca as u32) != (cb as u32) {
            break ;
        }
        proof {
            assert(a@.subrange(i as int, na as int)[0] == a@[i as int]);
            assert(b@.subrange(i as int, nb as int)[0] == b@[i as int]);
            assert(a@.subrange(i as int, na as int).drop_first() =~= a@.subrange(
                i + 1,
                na as int,
            ));
            assert(b@.subrange(i as int, nb as int).drop_first() =~= b@.subrange(
                i + 1,
                nb as int,
            ));
        }
        i = i + 1;
    }
    proof {
        assert(a@.subrange(i as int, na as int).len() == na - i);
        assert(b@.subrange(i as int, nb as int).len() == nb - i);
        if i < na && i < nb {
            assert(a@.subrange(i as int, na as int)[0] == a@[i as int]);
            assert(b@.subrange(i as int, nb as int)[0] == b@[i as int]);
        }
    }
    if i == na && i == nb {
        0
    } else if i == na {
        -1
    } else if i == nb {
        1
    } else {
        let ca = sa.get_char(i);
        let cb = sb.get_char(i);
        if (ca as u32) < (cb as u32) {
            -1
        } else {
            1
        }
    }
}

/// Compares two field values, as `cmp_values` sees it.
fn cmp_values_exec(a: &JsonValue, b: &JsonValue) -> (r: i8)
    ensures
        r as int == cmp_values(a@, b@),
        -1 <= r <= 1,
{
    match (a, b) {
        (JsonValue::Int(x), JsonValue::Int(y)) => if x < y {
            -1
        } else if x > y {
            1
        } else {
            0
        },
        (JsonValue::UInt(x), JsonValue::UInt(y)) => if x < y {
            -1
        } else if x > y {
            1
        } else {
            0
        },
        (JsonValue::Int(x), JsonValue::UInt(y)) => {
            if *x < 0 {
                -1
            } else if (*x as u64) < *y {
                -1
            } else if (*x as u64) > *y {
                1
            } else {
                0
            }
        },
        (JsonValue::UInt(x), JsonValue::Int(y)) => {
            if *y < 0 {
                1
            } else if *x < (*y as u64) {
                -1
            } else if *x > (*y as u64) {
                1
            } else {
                0
            }
        },
        (JsonValue::Str(x), JsonValue::Str(y)) => cmp_str(x, y),
        (JsonValue::Bool(x), JsonValue::Bool(y)) => {
            if x == y {
                0
            } else if *y {
                -1
            } else {
                1
            }
        },
        _ => {
            proof {
                lemma_cmp_values_other(a, b);
            }
            0
        },
    }
}

/// Pairings outside the integral, string and boolean cases compare as
/// equal.
proof fn lemma_cmp_values_other(a: &JsonValue, b: &JsonValue)
    requires
        !(a@ is Num && b@ is Num),
        !(a@ is Str && b@ is Str),
        !(a@ is Bool && b@ is Bool),
    ensures
        cmp_values(a@, b@) == 0,
{
}

/// Compares two documents under a sort directive, as `doc_cmp` sees it
/// with the field already stripped of any `.keyword` marker.
fn doc_cmp_exec(field: &String, order: SortOrder, a: &JsonValue, b: &JsonValue) -> (r: i8)
    ensures
        r as int == doc_cmp(field@, order, a@, b@),
        -1 <= r <= 1,
{
    let base: i8 = match (a.get(field), b.get(field)) {
        (Option::Some(x), Option::Some(y)) => cmp_values_exec(x, y),
        (Option::Some(_), Option::None) => -1,
        (Option::None, Option::Some(_)) => 1,
        (Option::None, Option::None) => 0,
    };
    match order {
        SortOrder::Asc => base,
        SortOrder::Desc => -base,
    }
}

/// Sorted insertion is splicing at the first strictly greater position.
proof fn lemma_insort_at(f: Seq<char>, order: SortOrder, s: Seq<Jv>, x: Jv, idx: int)
    requires
        0 <= idx <= s.len(),
        forall|j: int| 0 <= j < idx ==> doc_cmp(f, order, s[j], x) <= 0,
        idx < s.len() ==> doc_cmp(f, order, s[idx], x) > 0,
    ensures
        insort(f, order, s, x) =~= s.subrange(0, idx) + seq![x] + s.subrange(
            idx,
            s.len() as int,
        ),
    decreases s.len(),
{
    if s.len() == 0 {
    } else if idx == 0 {
    } else {
        assert(doc_cmp(f, order, s[0], x) <= 0);
        lemma_insort_at(f, order, s.drop_first(), x, idx - 1);
        assert(s.drop_first().subrange(0, idx - 1) =~= s.subrange(1, idx));
        assert(s.drop_first().subrange(idx - 1, s.drop_first().len() as int) =~= s.subrange(
            idx,
            s.len() as int,
        ));
    }
}

/// Places a document into an already sorted vector, as `insort` sees it.
fn insort_exec(out: &mut Vec<JsonValue>, d: JsonValue, field: &String, order: SortOrder)
    ensures
        view_of_seq(final(out)@) == insort(field@, order, view_of_seq(old(out)@), d@),
{
    let ghost vs = view_of_seq(old(out)@);
    proof {
        crate::value::lemma_view_of_seq_len(old(out)@);
    }
    let n = out.len();
    let mut idx: usize = 0;
    while idx < n
        invariant
            idx <= n,
            *out == *old(out),
            vs == view_of_seq(out@),
            vs.len() == n,
            n == out@.len(),
            forall|j: int| 0 <= j < idx ==> doc_cmp(field@, order, vs[j], d@) <= 0,
        ensures
            *out == *old(out),
            idx <= n,
            forall|j: int| 0 <= j < idx ==> doc_cmp(field@, order, vs[j], d@) <= 0,
            idx < n ==> doc_cmp(field@, order, vs[idx as int], d@) > 0,
        decreases n - idx,
    {
        proof {
            crate::value::lemma_view_of_seq_index(out@, idx as int);
        }
        if doc_cmp_exec(field, order, &out[idx], &d) > 0 {
            break ;
        }
        idx = idx + 1;
    }
    proof {
        lemma_insort_at(field@, order, vs, d@, idx as int);
    }
    out.insert(idx, d);
    proof {
        assert forall|j: int| 0 <= j < out@.len() implies view_of_seq(out@)[j] == (vs.subrange(
            0,
            idx as int,
        ) + seq![d@] + vs.subrange(idx as int, vs.len() as int))[j] by {
            crate::value::lemma_view_of_seq_index(out@, j);
            if j < idx {
                crate::value::lemma_view_of_seq_index(old(out)@, j);
            } else if j > idx {
                crate::value::lemma_view_of_seq_index(old(out)@, j - 1);
            }
        }
        crate::value::lemma_view_of_seq_len(out@);
        assert(view_of_seq(out@) =~= vs.subrange(0, idx as int) + seq![d@] + vs.subrange(
            idx as int,
            vs.len() as int,
        ));
    }
}

/// The decimal digit characters.
pub open spec fn digit_char(d: int) -> char {
    if d == 0 {
        '0'
    } else if d == 1 {
        '1'
    } else if d == 2 {
        '2'
    } else if d == 3 {
        '3'
    } else if d == 4 {
        '4'
    } else if d == 5 {
        '5'
    } else if d == 6 {
        '6'
    } else if d == 7 {
        '7'
    } else if d == 8 {
        '8'
    } else {
        '9'
    }
}

/// The decimal text of a non-negative integer.
pub open spec fn dec_rec(n: int) -> Seq<char>
    recommends
        n >= 0,
    decreases n,
{
    if n < 10 {
        seq![digit_char(n)]
    } else {
        dec_rec(n / 10) + seq![digit_char(n % 10)]
    }
}

/// The decimal text of an integer, a leading minus sign for a negative one.
pub open spec fn dec_int(n: int) -> Seq<char> {
    if n >= 0 {
        dec_rec(n)
    } else {
        seq!['-'] + dec_rec(-n)
    }
}

/// One decimal digit as text.
fn digit_str(d: u64) -> (r: &'static str)
    requires
        d < 10,
    ensures
        r@ == seq![digit_char(d as int)],
{
    proof {
        reveal_strlit("0");
        reveal_strlit("1");
        reveal_strlit("2");
        reveal_strlit("3");
        reveal_strlit("4");
        reveal_strlit("5");
        reveal_strlit("6");
        reveal_strlit("7");
        reveal_strlit("8");
        reveal_strlit("9");
    }
    let r = match d {
        0 => "0",
        1 => "1",
        2 => "2",
        3 => "3",
        4 => "4",
        5 => "5",
        6 => "6",
        7 => "7",
        8 => "8",
        _ => "9",
    };
    proof {
        assert(r@ =~= seq![digit_char(d as int)]);
    }
    r
}

/// The decimal text of a non-negative integer, as `dec_rec` sees it.
fn u64_dec(n: u64) -> (s: String)
    ensures
        s@ == dec_rec(n as int),
    decreases n,
{
    if n < 10 {
        String::from_str(digit_str(n))
    } else {
        let mut s = u64_dec(n / 10);
        s.append(digit_str(n % 10));
        s
    }
}

/// The decimal text of a signed integer, as `dec_int` sees it.
fn i64_dec(n: i64) -> (s: String)
    ensures
        s@ == dec_int(n as int),
{
    if n >= 0 {
        u64_dec(n as u64)
    } else {
        let m = (-(n as i128)) as u64;
        proof {
            assert(m as int == -(n as int));
        }
        let mut s = String::from_str("-");
        let digits = u64_dec(m);
        s.append(digits.as_str());
        proof {
            reveal_strlit("-");
            assert(s@ =~= seq!['-'] + dec_rec(-(n as int)));
        }
        s
    }
}

pub open spec fn true_chars() -> Seq<char> {
    seq!['t', 'r', 'u', 'e']
}

pub open spec fn false_chars() -> Seq<char> {
    seq!['f', 'a', 'l', 's', 'e']
}

/// The grouping key a field value contributes: strings group by their text,
/// numbers by their decimal text, booleans by `true` or `false`; arrays,
/// objects and nulls contribute nothing.
pub open spec fn scalar_string(v: Jv) -> Option<Seq<char>> {
    match v {
        Jv::Str(s) => Some(s),
        Jv::Num(n) => Some(dec_int(n)),
        Jv::Flt(t) => Some(t),
        Jv::Bool(b) => Some(
            if b {
                true_chars()
            } else {
                false_chars()
            },
        ),
        _ => None,
    }
}

/// The grouping key of a value, as `scalar_string` sees it.
fn key_string(v: &JsonValue) -> (r: Option<String>)
    ensures
        match r {
            Some(k) => scalar_string(v@) == Some(k@),
            None => scalar_string(v@) is None,
        },
{
    match v {
        JsonValue::Str(s) => Some(s.clone()),
        JsonValue::Int(i) => Some(i64_dec(*i)),
        JsonValue::UInt(u) => Some(u64_dec(*u)),
        JsonValue::Float(t) => Some(t.clone()),
        JsonValue::Bool(b) => {
            proof {
                reveal_strlit("true");
                reveal_strlit("false");
                assert("true"@ =~= true_chars());
                assert("false"@ =~= false_chars());
            }
            if *b {
                Some(String::from_str("true"))
            } else {
                Some(String::from_str("false"))
            }
        },
        _ => None,
    }
}

/// One group of the accumulation: its key text, the first value seen for
/// it, and how many documents fell into it.
pub struct GroupV {
    pub key: Seq<char>,
    pub rep: Jv,
    pub count: int,
}

/// The groups after one more document value with key text `key`: the first
/// group with that key counts one more and keeps its representative, or a
/// new group of one starts at the end.
pub open spec fn bump_group(groups: Seq<GroupV>, key: Seq<char>, rep: Jv) -> Seq<GroupV>
    decreases groups,
{
    if groups.len() == 0 {
        seq![GroupV { key, rep, count: 1 }]
    } else if groups[0].key == key {
        seq![GroupV { key: groups[0].key, rep: groups[0].rep, count: groups[0].count + 1 }]
            + groups.drop_first()
    } else {
        seq![groups[0]] + bump_group(groups.drop_first(), key, rep)
    }
}

/// The groups of a document sequence under a field, in first-seen order:
/// each document whose value at the field is a scalar counts towards the
/// group of that value's key text.
pub open spec fn groups_of(docs: Seq<Jv>, f: Seq<char>) -> Seq<GroupV>
    decreases docs,
{
    if docs.len() == 0 {
        Seq::empty()
    } else {
        let g = groups_of(docs.drop_last(), f);
        match jv_get(docs.last(), f) {
            Option::Some(v) => match scalar_string(v) {
                Option::Some(k) => bump_group(g, k, v),
                Option::None => g,
            },
            Option::None => g,
        }
    }
}

/// The tie-break key of a bucket: its key's text when the key is a string,
/// else the empty string.
pub open spec fn str_or_empty(v: Jv) -> Seq<char> {
    if v is Str {
        v->Str_0
    } else {
        Seq::empty()
    }
}

/// The order of two buckets: larger counts first, ties by the tie-break
/// keys ascending.
pub open spec fn bucket_cmp(a: GroupV, b: GroupV) -> int {
    if a.count > b.count {
        -1
    } else if a.count < b.count {
        1
    } else {
        cmp_chars(str_or_empty(a.rep), str_or_empty(b.rep))
    }
}

/// A group placed into already ordered groups: before the first group that
/// orders strictly after it.
pub open spec fn binsort(sorted: Seq<GroupV>, x: GroupV) -> Seq<GroupV>
    decreases sorted,
{
    if sorted.len() == 0 {
        seq![x]
    } else if bucket_cmp(sorted[0], x) > 0 {
        seq![x] + sorted
    } else {
        seq![sorted[0]] + binsort(sorted.drop_first(), x)
    }
}

/// The stable sort of the groups under the bucket order.
pub open spec fn bsort(groups: Seq<GroupV>) -> Seq<GroupV>
    decreases groups,
{
    if groups.len() == 0 {
        Seq::empty()
    } else {
        binsort(bsort(groups.drop_last()), groups.last())
    }
}

/// One bucket of an aggregation: a distinct scalar value of the target
/// field and how many documents hold it.
#[derive(Debug)]
pub struct Bucket {
    pub key: JsonValue,
    pub doc_count: usize,
}

/// The model of a bucket.
pub struct BucketV {
    pub key: Jv,
    pub doc_count: int,
}

impl View for Bucket {
    type V = BucketV;

    open spec fn view(&self) -> BucketV {
        BucketV { key: self.key@, doc_count: self.doc_count as int }
    }
}

/// One aggregation's outcome: its caller-chosen name and its buckets,
/// ordered by descending count with ties by the keys' text.
#[derive(Debug)]
pub struct AggregationResult {
    pub name: String,
    pub buckets: Vec<Bucket>,
}

/// The model of an aggregation's outcome.
pub struct AggregationResultV {
    pub name: Seq<char>,
    pub buckets: Seq<BucketV>,
}

impl View for AggregationResult {
    type V = AggregationResultV;

    open spec fn view(&self) -> AggregationResultV {
        AggregationResultV { name: self.name@, buckets: self.buckets@.map_values(|b: Bucket| b@) }
    }
}

pub open spec fn buckets_of_groups(gs: Seq<GroupV>) -> Seq<BucketV> {
    gs.map_values(|g: GroupV| BucketV { key: g.rep, doc_count: g.count })
}

/// The buckets of one terms aggregation over a document sequence: group by
/// the target field's scalar values (the field taken with any `.keyword`
/// marker stripped), then order by descending count with ties by the keys'
/// text ascending.
pub open spec fn aggregate_one_spec(docs: Seq<Jv>, field: Seq<char>) -> Seq<BucketV> {
    buckets_of_groups(bsort(groups_of(docs, strip_keyword_spec(field))))
}

/// The outcomes of a sequence of aggregations over one document sequence.
pub open spec fn aggregate_spec(docs: Seq<Jv>, aggs: Seq<crate::query::TermsAggregationV>) -> Seq<
    AggregationResultV,
> {
    aggs.map_values(
        |a: crate::query::TermsAggregationV|
            AggregationResultV { name: a.name, buckets: aggregate_one_spec(docs, a.field) },
    )
}

/// The model of the working groups a running aggregation holds.
pub open spec fn groups_view(s: Seq<(String, JsonValue, usize)>) -> Seq<GroupV> {
    s.map_values(|g: (String, JsonValue, usize)| GroupV { key: g.0@, rep: g.1@, count: g.2 as int })
}

/// Counting a key that first occurs at group `i` bumps that group alone.
proof fn lemma_bump_found(groups: Seq<GroupV>, key: Seq<char>, rep: Jv, i: int)
    requires
        0 <= i < groups.len(),
        groups[i].key == key,
        forall|j: int| 0 <= j < i ==> groups[j].key != key,
    ensures
        bump_group(groups, key, rep) =~= groups.update(
            i,
            GroupV { key: groups[i].key, rep: groups[i].rep, count: groups[i].count + 1 },
        ),
    decreases groups.len(),
{
    if i > 0 {
        lemma_bump_found(groups.drop_first(), key, rep, i - 1);
    }
}

/// Counting a key no group holds starts a new group of one at the end.
proof fn lemma_bump_absent(groups: Seq<GroupV>, key: Seq<char>, rep: Jv)
    requires
        forall|j: int| 0 <= j < groups.len() ==> groups[j].key != key,
    ensures
        bump_group(groups, key, rep) =~= groups.push(GroupV { key, rep, count: 1 }),
    decreases groups.len(),
{
    if groups.len() > 0 {
        lemma_bump_absent(groups.drop_first(), key, rep);
    }
}

/// Ordered insertion of a group is splicing at the first strictly greater
/// position.
proof fn lemma_binsort_at(s: Seq<GroupV>, x: GroupV, idx: int)
    requires
        0 <= idx <= s.len(),
        forall|j: int| 0 <= j < idx ==> bucket_cmp(s[j], x) <= 0,
        idx < s.len() ==> bucket_cmp(s[idx], x) > 0,
    ensures
        binsort(s, x) =~= s.subrange(0, idx) + seq![x] + s.subrange(idx, s.len() as int),
    decreases s.len(),
{
    if s.len() == 0 {
    } else if idx == 0 {
    } else {
        lemma_binsort_at(s.drop_first(), x, idx - 1);
        assert(s.drop_first().subrange(0, idx - 1) =~= s.subrange(1, idx));
        assert(s.drop_first().subrange(idx - 1, s.drop_first().len() as int) =~= s.subrange(
            idx,
            s.len() as int,
        ));
    }
}

/// Compares two working groups, as `bucket_cmp` sees it.
fn bucket_cmp_exec(a: &(String, JsonValue, usize), b: &(String, JsonValue, usize)) -> (r: i8)
    ensures
        r as int == bucket_cmp(
            GroupV { key: a.0@, rep: a.1@, count: a.2 as int },
            GroupV { key: b.0@, rep: b.1@, count: b.2 as int },
        ),
        -1 <= r <= 1,
{
    if a.2 > b.2 {
        -1
    } else if a.2 < b.2 {
        1
    } else {
        match (a.1.as_str_value(), b.1.as_str_value()) {
            (Option::Some(x), Option::Some(y)) => cmp_str(x, y),
            (Option::Some(x), Option::None) => {
                if x.as_str().unicode_len() == 0 {
                    0
                } else {
                    1
                }
            },
            (Option::None, Option::Some(y)) => {
                if y.as_str().unicode_len() == 0 {
                    0
                } else {
                    -1
                }
            },
            (Option::None, Option::None) => 0,
        }
    }
}

/// Places a group into already ordered groups, as `binsort` sees it.
fn binsort_exec(out: &mut Vec<(String, JsonValue, usize)>, g: (String, JsonValue, usize))
    ensures
        groups_view(final(out)@) == binsort(
            groups_view(old(out)@),
            GroupV { key: g.0@, rep: g.1@, count: g.2 as int },
        ),
{
    let ghost vs = groups_view(old(out)@);
    let ghost gv = GroupV { key: g.0@, rep: g.1@, count: g.2 as int };
    let n = out.len();
    let mut idx: usize = 0;
    while idx < n
        invariant
            idx <= n,
            *out == *old(out),
            vs == groups_view(out@),
            vs.len() == n,
            n == out@.len(),
            gv == (GroupV { key: g.0@, rep: g.1@, count: g.2 as int }),
            forall|j: int| 0 <= j < idx ==> bucket_cmp(vs[j], gv) <= 0,
        ensures
            *out == *old(out),
            idx <= n,
            forall|j: int| 0 <= j < idx ==> bucket_cmp(vs[j], gv) <= 0,
            idx < n ==> bucket_cmp(vs[idx as int], gv) > 0,
        decreases n - idx,
    {
        if bucket_cmp_exec(&out[idx], &g) > 0 {
            break ;
        }
        idx = idx + 1;
    }
    proof {
        lemma_binsort_at(vs, gv, idx as int);
    }
    out.insert(idx, g);
    proof {
        assert(groups_view(out@) =~= vs.subrange(0, idx as int) + seq![gv] + vs.subrange(
            idx as int,
            vs.len() as int,
        ));
    }
}

/// The search engine's pure functions.
pub struct SearchEngine;

impl SearchEngine {
    /// The documents matching `query`, stably sorted by `sort` when given,
    /// windowed to `size` documents starting at `from`. The input is not
    /// changed; the result holds copies.
    #[verifier::loop_isolation(false)]
    pub fn search(
        documents: &Vec<JsonValue>,
        query: &Query,
        sort: Option<SortOptions>,
        from: usize,
        size: usize,
    ) -> (r: Vec<JsonValue>)
        ensures
            view_of_seq(r@) == search_spec(
                view_of_seq(documents@),
                query@,
                match sort {
                    Option::Some(so) => Some(so@),
                    Option::None => None,
                },
                from as int,
                size as int,
            ),
    {
        let ghost dv = view_of_seq(documents@);
        proof {
            crate::value::lemma_view_of_seq_len(documents@);
        }
        let n = documents.len();
        let mut kept: Vec<JsonValue> = Vec::new();
        let mut i: usize = 0;
        proof {
            assert(dv.subrange(0, 0) =~= Seq::<Jv>::empty());
            assert(view_of_seq(kept@) =~= Seq::<Jv>::empty());
        }
        while i < n
            invariant
                i <= n,
                view_of_seq(kept@) == filter_docs(dv.subrange(0, i as int), query@),
            decreases n - i,
        {
            proof {
                crate::value::lemma_view_of_seq_index(documents@, i as int);
                assert(dv.subrange(0, i + 1).drop_last() =~= dv.subrange(0, i as int));
                assert(dv.subrange(0, i + 1).last() == dv[i as int]);
            }
            if query.matches(&documents[i]) {
                let c = documents[i].deep_copy();
                let ghost kept0 = kept@;
                kept.push(c);
                proof {
                    assert(kept@.drop_last() =~= kept0);
                    crate::value::lemma_view_of_seq_snoc(kept@);
                    assert(view_of_seq(kept@) =~= filter_docs(dv.subrange(0, i + 1), query@));
                }
            } else {
                proof {
                    assert(view_of_seq(kept@) =~= filter_docs(dv.subrange(0, i + 1), query@));
                }
            }
            i = i + 1;
        }
        proof {
            assert(dv.subrange(0, n as int) =~= dv);
        }
        let mut working = kept;
        if let Option::Some(so) = sort {
            let stripped = strip_keyword(&so.field);
            let mut sorted: Vec<JsonValue> = Vec::new();
            proof {
                assert(view_of_seq(sorted@) =~= Seq::<Jv>::empty());
                assert(ssort(stripped@, so.order, Seq::<Jv>::empty()) =~= Seq::<Jv>::empty());
            }
            let ghost wv = view_of_seq(working@);
            proof {
                crate::value::lemma_view_of_seq_len(working@);
            }
            let total = working.len();
            let mut k: usize = 0;
            while k < total
                invariant
                    k <= total,
                    working@.len() == total - k,
                    view_of_seq(working@) =~= wv.subrange(k as int, total as int),
                    view_of_seq(sorted@) == ssort(
                        stripped@,
                        so.order,
                        wv.subrange(0, k as int),
                    ),
                decreases total - k,
            {
                let ghost w0 = working@;
                proof {
                    crate::value::lemma_view_of_seq_index(w0, 0);
                    assert(view_of_seq(w0)[0] == wv[k as int]);
                }
                let d = working.remove(0);
                proof {
                    assert(working@ =~= w0.drop_first());
                    assert forall|j: int| 0 <= j < working@.len() implies view_of_seq(
                        working@,
                    )[j] == wv.subrange(k + 1, total as int)[j] by {
                        crate::value::lemma_view_of_seq_index(working@, j);
                        assert(working@[j] == w0[j + 1]);
                        crate::value::lemma_view_of_seq_index(w0, j + 1);
                        assert(view_of_seq(w0)[j + 1] == wv.subrange(k as int, total as int)[j
                            + 1]);
                    }
                    crate::value::lemma_view_of_seq_len(working@);
                    assert(view_of_seq(working@) =~= wv.subrange(k + 1, total as int));
                    assert(wv.subrange(0, k + 1).drop_last() =~= wv.subrange(0, k as int));
                    assert(wv.subrange(0, k + 1).last() == wv[k as int]);
                    assert(d@ == wv[k as int]);
                }
                insort_exec(&mut sorted, d, &stripped, so.order);
                proof {
                    assert(view_of_seq(sorted@) == ssort(stripped@, so.order, wv.subrange(0, k
                        + 1)));
                }
                k = k + 1;
            }
            proof {
                assert(wv.subrange(0, total as int) =~= wv);
            }
            working = sorted;
        }
        let ghost sv = view_of_seq(working@);
        proof {
            crate::value::lemma_view_of_seq_len(working@);
        }
        let total = working.len();
        let mut out: Vec<JsonValue> = Vec::new();
        if from >= total {
            proof {
                assert(view_of_seq(out@) =~= Seq::<Jv>::empty());
            }
            return out;
        }
        let mut j: usize = from;
        while j < total && out.len() < size
            invariant
                from <= j <= total,
                out@.len() == j - from,
                j - from <= size,
                forall|t: int|
                    0 <= t < out@.len() ==> view_of_seq(out@)[t] == sv[from + t],
                view_of_seq(out@).len() == out@.len(),
            decreases total - j,
        {
            let ghost out0 = out@;
            let c = working[j].deep_copy();
            out.push(c);
            proof {
                assert(out@.drop_last() =~= out0);
                crate::value::lemma_view_of_seq_snoc(out@);
                crate::value::lemma_view_of_seq_len(out@);
                crate::value::lemma_view_of_seq_index(working@, j as int);
                assert forall|t: int| 0 <= t < out@.len() implies view_of_seq(out@)[t] == sv[from
                    + t] by {
                    if t < out@.len() - 1 {
                        assert(view_of_seq(out@)[t] == view_of_seq(out0)[t]);
                    } else {
                        assert(view_of_seq(out@)[t] == c@);
                        assert(c@ == view_of_seq(working@)[j as int]);
                    }
                }
            }
            j = j + 1;
        }
        proof {
            assert(view_of_seq(out@) =~= page(sv, from as int, size as int));
        }
        out
    }
}

/// The first group holding `k`, if any.
fn find_group(groups: &Vec<(String, JsonValue, usize)>, k: &String) -> (r: Option<usize>)
    ensures
        match r {
            Some(j) => j < groups@.len() && groups_view(groups@)[j as int].key == k@ && (forall|
                t: int,
            | 0 <= t < j ==> groups_view(groups@)[t].key != k@),
            None => forall|t: int|
                0 <= t < groups@.len() ==> groups_view(groups@)[t].key != k@,
        },
{
    let m = groups.len();
    let mut j: usize = 0;
    while j < m
        invariant
            j <= m,
            m == groups@.len(),
            forall|t: int| 0 <= t < j ==> groups_view(groups@)[t].key != k@,
        decreases m - j,
    {
        if groups[j].0 == *k {
            return Some(j);
        }
        j = j + 1;
    }
    None
}

/// The buckets of one aggregation over the given documents, as
/// `aggregate_one_spec` sees them.
#[verifier::loop_isolation(false)]
fn aggregate_one(documents: &Vec<JsonValue>, field: &String) -> (r: Vec<Bucket>)
    ensures
        r@.map_values(|b: Bucket| b@) == aggregate_one_spec(view_of_seq(documents@), field@),
{
    let stripped = strip_keyword(field);
    let ghost dv = view_of_seq(documents@);
    proof {
        crate::value::lemma_view_of_seq_len(documents@);
    }
    let n = documents.len();
    let mut groups: Vec<(String, JsonValue, usize)> = Vec::new();
    let mut i: usize = 0;
    proof {
        assert(dv.subrange(0, 0) =~= Seq::<Jv>::empty());
        assert(groups_view(groups@) =~= Seq::<GroupV>::empty());
    }
    while i < n
        invariant
            i <= n,
            groups_view(groups@) == groups_of(dv.subrange(0, i as int), stripped@),
            forall|t: int| 0 <= t < groups@.len() ==> groups@[t].2 <= i,
        decreases n - i,
    {
        proof {
            crate::value::lemma_view_of_seq_index(documents@, i as int);
            assert(dv.subrange(0, i + 1).drop_last() =~= dv.subrange(0, i as int));
            assert(dv.subrange(0, i + 1).last() == dv[i as int]);
        }
        match documents[i].get(&stripped) {
            Option::Some(v) => {
                match key_string(v) {
                    Option::Some(k) => {
                        let ghost gs0 = groups_view(groups@);
                        match find_group(&groups, &k) {
                            Option::Some(j) => {
                                let old_key = groups[j].0.clone();
                                let old_rep = groups[j].1.deep_copy();
                                let c = groups[j].2;
                                groups.set(j, (old_key, old_rep, c + 1));
                                proof {
                                    lemma_bump_found(gs0, k@, v@, j as int);
                                    assert(groups_view(groups@) =~= gs0.update(
                                        j as int,
                                        GroupV {
                                            key: gs0[j as int].key,
                                            rep: gs0[j as int].rep,
                                            count: gs0[j as int].count + 1,
                                        },
                                    ));
                                }
                            },
                            Option::None => {
                                let rep = v.deep_copy();
                                groups.push((k, rep, 1));
                                proof {
                                    lemma_bump_absent(gs0, k@, v@);
                                    assert(groups_view(groups@) =~= gs0.push(
                                        GroupV { key: k@, rep: v@, count: 1 },
                                    ));
                                }
                            },
                        }
                    },
                    Option::None => {},
                }
            },
            Option::None => {},
        }
        i = i + 1;
    }
    proof {
        assert(dv.subrange(0, n as int) =~= dv);
    }
    let ghost gv = groups_view(groups@);
    let total = groups.len();
    let mut sorted: Vec<(String, JsonValue, usize)> = Vec::new();
    let mut k: usize = 0;
    proof {
        assert(groups_view(sorted@) =~= Seq::<GroupV>::empty());
        assert(bsort(Seq::<GroupV>::empty()) =~= Seq::<GroupV>::empty());
        assert(gv.subrange(0, total as int) =~= gv);
    }
    while k < total
        invariant
            k <= total,
            groups@.len() == total - k,
            groups_view(groups@) =~= gv.subrange(k as int, total as int),
            groups_view(sorted@) == bsort(gv.subrange(0, k as int)),
        decreases total - k,
    {
        let ghost g0 = groups@;
        let g = groups.remove(0);
        proof {
            assert(groups@ =~= g0.drop_first());
            assert forall|j: int| 0 <= j < groups@.len() implies groups_view(groups@)[j]
                == gv.subrange(k + 1, total as int)[j] by {
                assert(groups@[j] == g0[j + 1]);
                assert(groups_view(g0)[j + 1] == gv.subrange(k as int, total as int)[j + 1]);
            }
            assert(groups_view(groups@) =~= gv.subrange(k + 1, total as int));
            assert(groups_view(g0)[0] == gv[k as int]);
            assert(gv.subrange(0, k + 1).drop_last() =~= gv.subrange(0, k as int));
            assert(gv.subrange(0, k + 1).last() == gv[k as int]);
        }
        binsort_exec(&mut sorted, g);
        k = k + 1;
    }
    let mut out: Vec<Bucket> = Vec::new();
    let ghost sv = groups_view(sorted@);
    let m = sorted.len();
    let mut t: usize = 0;
    while t < m
        invariant
            t <= m,
            sorted@.len() == m,
            sv == groups_view(sorted@),
            sv.len() == m,
            out@.len() == t,
            forall|u: int|
                0 <= u < t ==> out@.map_values(|b: Bucket| b@)[u] == (BucketV {
                    key: sv[u].rep,
                    doc_count: sv[u].count,
                }),
        decreases m - t,
    {
        let key = sorted[t].1.deep_copy();
        let c = sorted[t].2;
        out.push(Bucket { key, doc_count: c });
        t = t + 1;
    }
    proof {
        assert(out@.map_values(|b: Bucket| b@) =~= buckets_of_groups(bsort(groups_of(
            dv,
            stripped@,
        ))));
    }
    out
}

impl SearchEngine {
    /// The outcome of each aggregation over an already filtered document
    /// sequence, in the order the directives were given.
    #[verifier::loop_isolation(false)]
    pub fn aggregate(
        filtered_documents: &Vec<JsonValue>,
        aggregations: &Vec<crate::query::TermsAggregation>,
    ) -> (r: Vec<AggregationResult>)
        ensures
            r@.map_values(|a: AggregationResult| a@) == aggregate_spec(
                view_of_seq(filtered_documents@),
                crate::query::aggs_view(aggregations@),
            ),
    {
        let n = aggregations.len();
        let mut out: Vec<AggregationResult> = Vec::new();
        let mut i: usize = 0;
        while i < n
            invariant
                i <= n,
                out@.len() == i,
                forall|j: int|
                    0 <= j < i ==> out@.map_values(|a: AggregationResult| a@)[j]
                        == (AggregationResultV {
                        name: aggregations@[j]@.name,
                        buckets: aggregate_one_spec(
                            view_of_seq(filtered_documents@),
                            aggregations@[j]@.field,
                        ),
                    }),
            decreases n - i,
        {
            let name = aggregations[i].name.clone();
            let buckets = aggregate_one(filtered_documents, &aggregations[i].field);
            out.push(AggregationResult { name, buckets });
            i = i + 1;
        }
        proof {
            assert(out@.map_values(|a: AggregationResult| a@) =~= aggregate_spec(
                view_of_seq(filtered_documents@),
                crate::query::aggs_view(aggregations@),
            ));
        }
        out
    }
}


/// The sum of the bucket counts.
pub open spec fn sum_counts(bs: Seq<BucketV>) -> int
    decreases bs,
{
    if bs.len() == 0 {
        0
    } else {
        bs[0].doc_count + sum_counts(bs.drop_first())
    }
}

/// The sum of the group counts.
pub open spec fn sum_groups(gs: Seq<GroupV>) -> int
    decreases gs,
{
    if gs.len() == 0 {
        0
    } else {
        gs[0].count + sum_groups(gs.drop_first())
    }
}

/// How many documents hold a scalar value at the field.
pub open spec fn scalar_count(docs: Seq<Jv>, f: Seq<char>) -> int
    decreases docs,
{
    if docs.len() == 0 {
        0
    } else {
        scalar_count(docs.drop_last(), f) + match jv_get(docs.last(), f) {
            Option::Some(v) => if scalar_string(v) is Some {
                1int
            } else {
                0int
            },
            Option::None => 0int,
        }
    }
}

/// Counting one more value raises the group total by one.
proof fn lemma_bump_sum(gs: Seq<GroupV>, key: Seq<char>, rep: Jv)
    ensures
        sum_groups(bump_group(gs, key, rep)) == sum_groups(gs) + 1,
    decreases gs,
{
    if gs.len() == 0 {
        assert(bump_group(gs, key, rep)[0] == (GroupV { key, rep, count: 1 }));
        assert(bump_group(gs, key, rep).drop_first() =~= Seq::<GroupV>::empty());
        assert(sum_groups(bump_group(gs, key, rep).drop_first()) == 0);
    } else if gs[0].key == key {
        let b = bump_group(gs, key, rep);
        assert(b[0].count == gs[0].count + 1);
        assert(b.drop_first() =~= gs.drop_first());
    } else {
        let b = bump_group(gs, key, rep);
        assert(b[0] == gs[0]);
        assert(b.drop_first() =~= bump_group(gs.drop_first(), key, rep));
        lemma_bump_sum(gs.drop_first(), key, rep);
    }
}

/// The group totals count exactly the documents with a scalar at the field.
proof fn lemma_groups_sum(docs: Seq<Jv>, f: Seq<char>)
    ensures
        sum_groups(groups_of(docs, f)) == scalar_count(docs, f),
    decreases docs,
{
    if docs.len() > 0 {
        lemma_groups_sum(docs.drop_last(), f);
        match jv_get(docs.last(), f) {
            Option::Some(v) => match scalar_string(v) {
                Option::Some(k) => {
                    lemma_bump_sum(groups_of(docs.drop_last(), f), k, v);
                },
                Option::None => {},
            },
            Option::None => {},
        }
    }
}

/// The group total over a sequence with its last group split off.
proof fn lemma_sum_groups_snoc(gs: Seq<GroupV>)
    requires
        gs.len() > 0,
    ensures
        sum_groups(gs) == sum_groups(gs.drop_last()) + gs.last().count,
    decreases gs,
{
    if gs.len() == 1 {
        assert(gs.drop_first() =~= Seq::<GroupV>::empty());
        assert(gs.drop_last() =~= Seq::<GroupV>::empty());
    } else {
        lemma_sum_groups_snoc(gs.drop_first());
        assert(gs.drop_first().drop_last() =~= gs.drop_last().drop_first());
        assert(gs.drop_first().last() == gs.last());
        assert(gs.drop_last()[0] == gs[0]);
    }
}

/// Ordered insertion keeps the group total, plus the inserted count.
proof fn lemma_binsort_sum(gs: Seq<GroupV>, x: GroupV)
    ensures
        sum_groups(binsort(gs, x)) == sum_groups(gs) + x.count,
    decreases gs,
{
    if gs.len() == 0 {
        assert(binsort(gs, x)[0] == x);
        assert(binsort(gs, x).drop_first() =~= Seq::<GroupV>::empty());
        assert(sum_groups(binsort(gs, x).drop_first()) == 0);
    } else if bucket_cmp(gs[0], x) > 0 {
        assert(binsort(gs, x)[0] == x);
        assert(binsort(gs, x).drop_first() =~= gs);
    } else {
        assert(binsort(gs, x)[0] == gs[0]);
        assert(binsort(gs, x).drop_first() =~= binsort(gs.drop_first(), x));
        lemma_binsort_sum(gs.drop_first(), x);
    }
}

/// Sorting the groups keeps the group total.
proof fn lemma_bsort_sum(gs: Seq<GroupV>)
    ensures
        sum_groups(bsort(gs)) == sum_groups(gs),
    decreases gs,
{
    if gs.len() > 0 {
        lemma_bsort_sum(gs.drop_last());
        lemma_binsort_sum(bsort(gs.drop_last()), gs.last());
        lemma_sum_groups_snoc(gs);
    }
}

/// Turning groups into buckets keeps the total.
proof fn lemma_buckets_sum(gs: Seq<GroupV>)
    ensures
        sum_counts(buckets_of_groups(gs)) == sum_groups(gs),
    decreases gs,
{
    if gs.len() > 0 {
        lemma_buckets_sum(gs.drop_first());
        assert(buckets_of_groups(gs).drop_first() =~= buckets_of_groups(gs.drop_first()));
    }
}

/// For a terms aggregation on a field, the bucket counts sum to the number
/// of documents whose value at that field (with any `.keyword` marker
/// stripped) is a scalar: every such document lands in exactly one bucket,
/// and no other document lands anywhere.
pub proof fn lemma_aggregation_count_invariant(docs: Seq<Jv>, field: Seq<char>)
    ensures
        sum_counts(aggregate_one_spec(docs, field)) == scalar_count(
            docs,
            strip_keyword_spec(field),
        ),
{
    let f = strip_keyword_spec(field);
    lemma_groups_sum(docs, f);
    lemma_bsort_sum(groups_of(docs, f));
    lemma_buckets_sum(bsort(groups_of(docs, f)));
}

} // verus!
