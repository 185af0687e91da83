//! Ranking of slots by recency.

use vstd::prelude::*;
use vstd::seq_lib::{to_multiset_build, to_multiset_contains, to_multiset_insert};

verus! {

/// A slot directory and its last-modified time, as a signed count of
/// nanoseconds since the Unix epoch.
pub struct SlotEntry {
    pub name: String,
    pub modified: i128,
}

/// Inserts `x` before the first slot that is strictly older than it, so that
/// among slots of equal age the earlier ones stay first.
pub open spec fn insert_newest(s: Seq<SlotEntry>, x: SlotEntry) -> Seq<SlotEntry>
    decreases s.len(),
{
    if s.len() == 0 {
        seq![x]
    } else if x.modified > s[0].modified {
        seq![x] + s
    } else {
        seq![s[0]] + insert_newest(s.drop_first(), x)
    }
}

/// The slots ordered from the most recently modified to the least; slots of
/// equal age keep their listing order.
pub open spec fn newest_first(s: Seq<SlotEntry>) -> Seq<SlotEntry>
    decreases s.len(),
{
    if s.len() == 0 {
        seq![]
    } else {
        insert_newest(newest_first(s.drop_last()), s.last())
    }
}

pub open spec fn descending(s: Seq<SlotEntry>) -> bool {
    forall|i: int, j: int| 0 <= i < j < s.len() ==> s[i].modified >= s[j].modified
}

/// Where `insert_newest` puts `x`: the first slot strictly older than it.
pub open spec fn is_insert_pos(s: Seq<SlotEntry>, x: SlotEntry, p: int) -> bool {
    &&& 0 <= p <= s.len()
    &&& forall|k: int| 0 <= k < p ==> s[k].modified >= x.modified
    &&& p < s.len() ==> x.modified > s[p].modified
}

proof fn lemma_insert_at(s: Seq<SlotEntry>, x: SlotEntry, p: int)
    requires
        is_insert_pos(s, x, p),
    ensures
        insert_newest(s, x) == s.insert(p, x),
    decreases s.len(),
{
    if s.len() == 0 {
        assert(s.insert(p, x) =~= seq![x]);
    } else if x.modified > s[0].modified {
        assert(p == 0);
        assert(s.insert(p, x) =~= seq![x] + s);
    } else {
        let t = s.drop_first();
        assert(p > 0);
        assert(is_insert_pos(t, x, p - 1)) by {
            assert forall|k: int| 0 <= k < p - 1 implies t[k].modified >= x.modified by {
                assert(t[k] == s[k + 1]);
            }
        }
        lemma_insert_at(t, x, p - 1);
        assert(s.insert(p, x) =~= seq![s[0]] + t.insert(p - 1, x));
    }
}

proof fn lemma_insert_pos_exists(s: Seq<SlotEntry>, x: SlotEntry) -> (p: int)
    ensures
        is_insert_pos(s, x, p),
    decreases s.len(),
{
    if s.len() == 0 {
        0
    } else if x.modified > s[0].modified {
        0
    } else {
        let t = s.drop_first();
        let q = lemma_insert_pos_exists(t, x);
        assert forall|k: int| 0 <= k < q + 1 implies s[k].modified >= x.modified by {
            if k > 0 {
                assert(s[k] == t[k - 1]);
            }
        }
        assert(q + 1 < s.len() ==> s[q + 1] == t[q]);
        q + 1
    }
}

proof fn lemma_insert_keeps_order(s: Seq<SlotEntry>, x: SlotEntry)
    requires
        descending(s),
    ensures
        descending(insert_newest(s, x)),
        insert_newest(s, x).len() == s.len() + 1,
{
    let p = lemma_insert_pos_exists(s, x);
    lemma_insert_at(s, x, p);
    let r = s.insert(p, x);
    assert forall|i: int, j: int| 0 <= i < j < r.len() implies r[i].modified >= r[j].modified by {
        if j < p {
        } else if j == p {
        } else if i < p {
            assert(r[j] == s[j - 1]);
        } else if i == p {
            assert(r[j] == s[j - 1]);
            assert(s[p].modified >= s[j - 1].modified || p == j - 1);
        } else {
            assert(r[i] == s[i - 1] && r[j] == s[j - 1]);
        }
    }
}

/// Ranking neither drops nor adds a slot.
pub proof fn lemma_newest_first_permutes(s: Seq<SlotEntry>)
    ensures
        newest_first(s).to_multiset() == s.to_multiset(),
    decreases s.len(),
{
    if s.len() > 0 {
        let init = s.drop_last();
        lemma_newest_first_permutes(init);
        lemma_newest_first_descending(init);
        let p = lemma_insert_pos_exists(newest_first(init), s.last());
        lemma_insert_at(newest_first(init), s.last(), p);
        to_multiset_insert(newest_first(init), p, s.last());
        to_multiset_build(init, s.last());
        assert(init.push(s.last()) =~= s);
    } else {
        assert(newest_first(s) =~= s);
    }
}

/// The newest-first order is non-increasing in modification time and ranks
/// every slot.
pub proof fn lemma_newest_first_descending(s: Seq<SlotEntry>)
    ensures
        descending(newest_first(s)),
        newest_first(s).len() == s.len(),
    decreases s.len(),
{
    if s.len() > 0 {
        lemma_newest_first_descending(s.drop_last());
        lemma_insert_keeps_order(newest_first(s.drop_last()), s.last());
    }
}

pub open spec fn strictly_descending(s: Seq<SlotEntry>) -> bool {
    forall|i: int, j: int| 0 <= i < j < s.len() ==> s[i].modified > s[j].modified
}

/// No two slots share a modification time.
pub open spec fn distinct_times(s: Seq<SlotEntry>) -> bool {
    forall|i: int, j: int| 0 <= i < j < s.len() ==> s[i].modified != s[j].modified
}

proof fn lemma_ranked_from_listing(s: Seq<SlotEntry>, a: SlotEntry)
    requires
        newest_first(s).contains(a),
    ensures
        s.contains(a),
{
    lemma_newest_first_permutes(s);
    to_multiset_contains(newest_first(s), a);
    to_multiset_contains(s, a);
}

/// Where no two slots share a modification time, the newest-first order is
/// strictly decreasing in it.
pub proof fn lemma_newest_first_strict(s: Seq<SlotEntry>)
    requires
        distinct_times(s),
    ensures
        strictly_descending(newest_first(s)),
    decreases s.len(),
{
    if s.len() > 0 {
        let init = s.drop_last();
        let x = s.last();
        let r = newest_first(init);
        assert(distinct_times(init));
        lemma_newest_first_strict(init);
        let p = lemma_insert_pos_exists(r, x);
        lemma_insert_at(r, x, p);
        assert forall|k: int| 0 <= k < r.len() implies r[k].modified != x.modified by {
            assert(r.contains(r[k]));
            lemma_ranked_from_listing(init, r[k]);
            let m = choose|m: int| 0 <= m < init.len() && init[m] == r[k];
            assert(s[m] == init[m] && s[s.len() - 1] == x);
        }
        let t = r.insert(p, x);
        assert forall|i: int, j: int| 0 <= i < j < t.len() implies t[i].modified > t[j].modified by {
            if j < p {
            } else if j == p {
                assert(r[i].modified >= x.modified);
            } else if i < p {
                assert(t[j] == r[j - 1]);
            } else if i == p {
                assert(t[j] == r[j - 1]);
                assert(r[p].modified >= r[j - 1].modified || p == j - 1) by {
                    lemma_newest_first_descending(init);
                }
            } else {
                assert(t[i] == r[i - 1] && t[j] == r[j - 1]);
            }
        }
    }
}

/// No two slots share a name, as in a directory.
pub open spec fn unique_slot_names(s: Seq<SlotEntry>) -> bool {
    forall|i: int, j: int| 0 <= i < j < s.len() ==> s[i].name@ != s[j].name@
}

proof fn lemma_named_slot_is_ranked(s: Seq<SlotEntry>, nth: int, a: int)
    requires
        unique_slot_names(s),
        0 <= nth < s.len(),
        0 <= a < s.len(),
        s[a].name@ == newest_first(s)[nth].name@,
    ensures
        s[a] == newest_first(s)[nth],
{
    lemma_newest_first_descending(s);
    let q = newest_first(s)[nth];
    assert(newest_first(s).contains(q));
    lemma_ranked_from_listing(s, q);
    let b = choose|b: int| 0 <= b < s.len() && s[b] == q;
    assert(a == b);
}

/// Where slot names are unique, the slots that the names at ranks `i < j`
/// denote in the listing have non-increasing modification times, and
/// strictly decreasing ones where no two slots share a time.
pub proof fn lemma_ranked_names_descending(s: Seq<SlotEntry>, i: int, j: int, a: int, b: int)
    requires
        unique_slot_names(s),
        0 <= i < j < s.len(),
        0 <= a < s.len(),
        0 <= b < s.len(),
        s[a].name@ == newest_first(s)[i].name@,
        s[b].name@ == newest_first(s)[j].name@,
    ensures
        s[a].modified >= s[b].modified,
        distinct_times(s) ==> s[a].modified > s[b].modified,
{
    lemma_newest_first_descending(s);
    lemma_named_slot_is_ranked(s, i, a);
    lemma_named_slot_is_ranked(s, j, b);
    if distinct_times(s) {
        lemma_newest_first_strict(s);
    }
}

/// Whether a slot was modified after `t` (or at `t`, where `strict` is false).
pub open spec fn newer(e: SlotEntry, t: i128, strict: bool) -> bool {
    if strict {
        e.modified > t
    } else {
        e.modified >= t
    }
}

/// How many slots were modified after `t` (or at `t`, where `strict` is
/// false).
pub open spec fn count_newer(s: Seq<SlotEntry>, t: i128, strict: bool) -> nat
    decreases s.len(),
{
    if s.len() == 0 {
        0
    } else {
        count_newer(s.drop_last(), t, strict) + if newer(s.last(), t, strict) {
            1nat
        } else {
            0nat
        }
    }
}

proof fn lemma_count_concat(a: Seq<SlotEntry>, b: Seq<SlotEntry>, t: i128, strict: bool)
    ensures
        count_newer(a + b, t, strict) == count_newer(a, t, strict) + count_newer(b, t, strict),
    decreases b.len(),
{
    if b.len() == 0 {
        assert(a + b =~= a);
    } else {
        assert((a + b).drop_last() =~= a + b.drop_last());
        assert((a + b).last() == b.last());
        lemma_count_concat(a, b.drop_last(), t, strict);
    }
}

proof fn lemma_count_bounds(s: Seq<SlotEntry>, t: i128, strict: bool)
    ensures
        count_newer(s, t, strict) <= s.len(),
        (forall|k: int| 0 <= k < s.len() ==> !newer(#[trigger] s[k], t, strict)) ==> count_newer(s, t, strict) == 0,
        (forall|k: int| 0 <= k < s.len() ==> newer(#[trigger] s[k], t, strict)) ==> count_newer(s, t, strict) == s.len(),
    decreases s.len(),
{
    if s.len() > 0 {
        let init = s.drop_last();
        lemma_count_bounds(init, t, strict);
        if forall|k: int| 0 <= k < s.len() ==> !newer(#[trigger] s[k], t, strict) {
            assert forall|k: int| 0 <= k < init.len() implies !newer(#[trigger] init[k], t, strict) by {
                assert(init[k] == s[k]);
            }
            assert(!newer(s[s.len() - 1], t, strict));
        }
        if forall|k: int| 0 <= k < s.len() ==> newer(#[trigger] s[k], t, strict) {
            assert forall|k: int| 0 <= k < init.len() implies newer(#[trigger] init[k], t, strict) by {
                assert(init[k] == s[k]);
            }
            assert(newer(s[s.len() - 1], t, strict));
        }
    }
}

proof fn lemma_count_ranked(s: Seq<SlotEntry>, t: i128, strict: bool)
    ensures
        count_newer(newest_first(s), t, strict) == count_newer(s, t, strict),
    decreases s.len(),
{
    if s.len() > 0 {
        let init = s.drop_last();
        let r = newest_first(init);
        let x = s.last();
        lemma_count_ranked(init, t, strict);
        let p = lemma_insert_pos_exists(r, x);
        lemma_insert_at(r, x, p);
        assert(r.insert(p, x) =~= r.take(p) + (seq![x] + r.skip(p)));
        assert(r =~= r.take(p) + r.skip(p));
        lemma_count_concat(r.take(p), seq![x] + r.skip(p), t, strict);
        lemma_count_concat(seq![x], r.skip(p), t, strict);
        lemma_count_concat(r.take(p), r.skip(p), t, strict);
        assert(seq![x].drop_last() =~= Seq::<SlotEntry>::empty());
        assert(count_newer(Seq::<SlotEntry>::empty(), t, strict) == 0);
        assert(count_newer(seq![x], t, strict) == if newer(x, t, strict) { 1nat } else { 0nat });
        assert(newest_first(s) == r.insert(p, x));
    }
}

/// The slot at rank `nth` of the newest-first order has fewer than `nth + 1`
/// slots strictly newer than it, and at least `nth + 1` slots (itself among
/// them) as new or newer: it is the `nth` newest, ties in either order.
pub proof fn lemma_rank_counts(s: Seq<SlotEntry>, nth: int)
    requires
        0 <= nth < s.len(),
    ensures
        ({
            let q = newest_first(s)[nth];
            count_newer(s, q.modified, true) <= nth < count_newer(s, q.modified, false)
        }),
{
    lemma_newest_first_descending(s);
    let r = newest_first(s);
    let t = r[nth].modified;
    lemma_count_ranked(s, t, true);
    lemma_count_ranked(s, t, false);
    assert(r =~= r.take(nth) + r.skip(nth));
    lemma_count_concat(r.take(nth), r.skip(nth), t, true);
    lemma_count_bounds(r.take(nth), t, true);
    lemma_count_bounds(r.skip(nth), t, true);
    assert forall|k: int| 0 <= k < r.skip(nth).len() implies !newer(#[trigger] r.skip(nth)[k], t, true) by {
        assert(r.skip(nth)[k] == r[nth + k]);
    }
    assert(r =~= r.take(nth + 1) + r.skip(nth + 1));
    lemma_count_concat(r.take(nth + 1), r.skip(nth + 1), t, false);
    lemma_count_bounds(r.take(nth + 1), t, false);
    assert forall|k: int| 0 <= k < r.take(nth + 1).len() implies newer(#[trigger] r.take(nth + 1)[k], t, false) by {
        assert(r.take(nth + 1)[k] == r[k]);
    }
}

/// Orders the slots from the most recently modified to the least; slots of
/// equal age keep their listing order.
pub fn rank_newest_first(slots: Vec<SlotEntry>) -> (r: Vec<SlotEntry>)
    ensures
        r@ == newest_first(slots@),
{
    let ghost all = slots@;
    let len = slots.len();
    let mut rest = slots;
    let mut ranked: Vec<SlotEntry> = Vec::new();
    let mut i: usize = 0;
    while rest.len() > 0
        invariant
            all.len() == len,
            i + rest@.len() == len,
            rest@ == all.skip(i as int),
            ranked@ == newest_first(all.take(i as int)),
            ranked@.len() == i,
        decreases rest@.len(),
    {
        proof {
            lemma_newest_first_descending(all.take(i as int));
        }
        let x = rest.remove(0);
        assert(x == all[i as int]);
        let mut p: usize = 0;
        while p < ranked.len() && ranked[p].modified >= x.modified
            invariant
                p <= ranked@.len(),
                forall|k: int| 0 <= k < p ==> ranked@[k].modified >= x.modified,
            decreases ranked@.len() - p,
        {
            p += 1;
        }
        proof {
            lemma_insert_at(ranked@, x, p as int);
            assert(all.take(i + 1).drop_last() =~= all.take(i as int));
            assert(all.take(i + 1).last() == x);
        }
        ranked.insert(p, x);
        assert(rest@ =~= all.skip(i + 1));
        i += 1;
    }
    assert(all.take(len as int) =~= all);
    ranked
}

/// The name of the slot at recency rank `nth` (0 is the most recently
/// modified), or `None` where there are no more than `nth` slots.
pub fn find_newest_slot(slots: Vec<SlotEntry>, nth: usize) -> (r: Option<String>)
    ensures
        match r {
            Some(n) => nth < slots@.len() && n@ == newest_first(slots@)[nth as int].name@,
            None => nth >= slots@.len(),
        },
{
    proof {
        lemma_newest_first_descending(slots@);
    }
    let mut ranked = rank_newest_first(slots);
    if nth < ranked.len() {
        let s = ranked.remove(nth);
        Some(s.name)
    } else {
        None
    }
}

pub open spec fn is_digit(c: char) -> bool {
    '0' <= c && c <= '9'
}

pub open spec fn digit_value(c: char) -> int {
    (c as int) - ('0' as int)
}

pub open spec fn all_digits(s: Seq<char>) -> bool {
    forall|i: int| 0 <= i < s.len() ==> is_digit(s[i])
}

/// The number that a string of decimal digits denotes.
pub open spec fn decimal_value(s: Seq<char>) -> int
    decreases s.len(),
{
    if s.len() == 0 {
        0
    } else {
        decimal_value(s.drop_last()) * 10 + digit_value(s.last())
    }
}

/// The digits of a rank argument: the text after an optional leading `+`.
pub open spec fn rank_digits(s: Seq<char>) -> Seq<char> {
    if s.len() > 0 && s[0] == '+' {
        s.drop_first()
    } else {
        s
    }
}

/// A rank argument is one or more decimal digits, after an optional `+`,
/// denoting a number that fits in `usize`.
pub open spec fn is_rank_text(s: Seq<char>) -> bool {
    let d = rank_digits(s);
    d.len() > 0 && all_digits(d) && decimal_value(d) <= usize::MAX
}

proof fn lemma_decimal_grows(s: Seq<char>, i: int)
    requires
        all_digits(s),
        0 <= i <= s.len(),
    ensures
        decimal_value(s) >= decimal_value(s.take(i)),
        decimal_value(s.take(i)) >= 0,
    decreases s.len() - i,
{
    if i < s.len() {
        lemma_decimal_grows(s, i + 1);
        assert(s.take(i + 1).drop_last() =~= s.take(i));
        assert(s.take(i + 1).last() == s[i]);
    } else {
        assert(s.take(i) =~= s);
        lemma_decimal_nonneg(s);
    }
}

proof fn lemma_decimal_nonneg(s: Seq<char>)
    requires
        all_digits(s),
    ensures
        decimal_value(s) >= 0,
    decreases s.len(),
{
    if s.len() > 0 {
        lemma_decimal_nonneg(s.drop_last());
    }
}

/// Reads a recency rank from a command-line argument; `None` where the text
/// is not a decimal number that fits in `usize`.
pub fn parse_rank(s: &str) -> (r: Option<usize>)
    ensures
        match r {
            Some(v) => is_rank_text(s@) && v == decimal_value(rank_digits(s@)),
            None => !is_rank_text(s@),
        },
{
    let n = s.unicode_len();
    let mut i: usize = 0;
    if n > 0 && s.get_char(0) == '+' {
        i = 1;
    }
    let ghost d = rank_digits(s@);
    assert(d =~= s@.skip(i as int));
    if i == n {
        return None;
    }
    let st = i;
    let mut acc: usize = 0;
    while i < n
        invariant
            n == s@.len(),
            d == s@.skip(st as int),
            d == rank_digits(s@),
            d.len() == n - st,
            st < n,
            st <= i <= n,
            all_digits(d.take(i - st)),
            acc == decimal_value(d.take(i - st)),
        decreases n - i,
    {
        let ghost k: int = i - st;
        let c = s.get_char(i);
        assert(c == d[k]);
        assert(d.take(k + 1).drop_last() =~= d.take(k));
        assert(d.take(k + 1).last() == c);
        if !('0' <= c && c <= '9') {
            assert(!is_digit(d[k]));
            assert(!all_digits(d));
            assert(!is_rank_text(s@));
            return None;
        }
        let v = (c as u32 - '0' as u32) as usize;
        if acc > (usize::MAX - v) / 10 {
            proof {
                assert(all_digits(d.take(k + 1)));
                assert(decimal_value(d.take(k + 1)) > usize::MAX) by (nonlinear_arith)
                    requires
                        decimal_value(d.take(k + 1)) == acc * 10 + v,
                        acc > (usize::MAX - v) / 10,
                        0 <= v <= 9,
                ;
                if all_digits(d) {
                    lemma_decimal_grows(d, k + 1);
                }
                assert(!is_rank_text(s@));
            }
            return None;
        }
        assert(acc * 10 + v <= usize::MAX) by (nonlinear_arith)
            requires
                acc <= (usize::MAX - v) / 10,
                0 <= v <= 9,
        ;
        acc = acc * 10 + v;
        i += 1;
    }
    assert(d.take(d.len() as int) =~= d);
    Some(acc)
}

} // verus!
