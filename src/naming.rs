//! Names of slots and of save-file directories.

use vstd::prelude::*;
use crate::slots::is_digit;

verus! {

/// Strict lexicographic order on names, by character code.
pub open spec fn name_lt(a: Seq<char>, b: Seq<char>) -> bool
    decreases a.len(),
{
    if b.len() == 0 {
        false
    } else if a.len() == 0 {
        true
    } else if a[0] != b[0] {
        a[0] < b[0]
    } else {
        name_lt(a.drop_first(), b.drop_first())
    }
}

proof fn lemma_name_lt_irreflexive(a: Seq<char>)
    ensures
        !name_lt(a, a),
    decreases a.len(),
{
    if a.len() > 0 {
        lemma_name_lt_irreflexive(a.drop_first());
    }
}

proof fn lemma_name_lt_transitive(a: Seq<char>, b: Seq<char>, c: Seq<char>)
    requires
        name_lt(a, b),
        name_lt(b, c),
    ensures
        name_lt(a, c),
    decreases a.len(),
{
    if a.len() > 0 && b.len() > 0 && c.len() > 0 && a[0] == b[0] && b[0] == c[0] {
        lemma_name_lt_transitive(a.drop_first(), b.drop_first(), c.drop_first());
    }
}

proof fn lemma_name_lt_total(a: Seq<char>, b: Seq<char>)
    ensures
        name_lt(a, b) || name_lt(b, a) || a == b,
    decreases a.len(),
{
    if a.len() > 0 && b.len() > 0 && a[0] == b[0] {
        lemma_name_lt_total(a.drop_first(), b.drop_first());
        if a.drop_first() == b.drop_first() {
            assert(a =~= seq![a[0]] + a.drop_first());
            assert(b =~= seq![b[0]] + b.drop_first());
        }
    } else if a.len() > 0 && b.len() > 0 {
        assert(a[0] != b[0]);
    } else if a.len() == 0 && b.len() == 0 {
        assert(a =~= b);
    }
}

proof fn lemma_name_lt_skip(a: Seq<char>, b: Seq<char>, i: int)
    requires
        0 <= i <= a.len(),
        i <= b.len(),
        a.take(i) == b.take(i),
    ensures
        name_lt(a, b) == name_lt(a.skip(i), b.skip(i)),
    decreases i,
{
    if i > 0 {
        assert(a[0] == a.take(i)[0] && b[0] == b.take(i)[0]);
        assert(a.drop_first().take(i - 1) =~= a.take(i).drop_first());
        assert(b.drop_first().take(i - 1) =~= b.take(i).drop_first());
        lemma_name_lt_skip(a.drop_first(), b.drop_first(), i - 1);
        assert(a.drop_first().skip(i - 1) =~= a.skip(i));
        assert(b.drop_first().skip(i - 1) =~= b.skip(i));
    } else {
        assert(a.skip(0) =~= a);
        assert(b.skip(0) =~= b);
    }
}

/// Whether `a` comes strictly before `b` in lexicographic order.
pub fn name_less(a: &str, b: &str) -> (r: bool)
    ensures
        r == name_lt(a@, b@),
{
    let n = a.unicode_len();
    let m = b.unicode_len();
    let mut i: usize = 0;
    while i < n && i < m && a.get_char(i) == b.get_char(i)
        invariant
            n == a@.len(),
            m == b@.len(),
            i <= n,
            i <= m,
            a@.take(i as int) == b@.take(i as int),
        decreases n - i,
    {
        assert(a@.take(i + 1) =~= a@.take(i as int).push(a@[i as int]));
        assert(b@.take(i + 1) =~= b@.take(i as int).push(b@[i as int]));
        i += 1;
    }
    proof {
        lemma_name_lt_skip(a@, b@, i as int);
    }
    if i == m {
        false
    } else if i == n {
        true
    } else {
        let x = a.get_char(i);
        let y = b.get_char(i);
        assert(a@.skip(i as int)[0] == x && b@.skip(i as int)[0] == y);
        x < y
    }
}

/// The position of the greatest name in lexicographic order (the first one,
/// should several be equal), or `None` for no names.
pub fn latest_name(names: &Vec<String>) -> (r: Option<usize>)
    ensures
        match r {
            Some(i) => {
                &&& i < names@.len()
                &&& forall|k: int|
                    0 <= k < names@.len() ==> !name_lt(names@[i as int]@, #[trigger] names@[k]@)
                &&& forall|k: int| 0 <= k < i ==> name_lt(#[trigger] names@[k]@, names@[i as int]@)
            },
            None => names@.len() == 0,
        },
{
    if names.len() == 0 {
        return None;
    }
    let mut best: usize = 0;
    let mut j: usize = 1;
    proof {
        lemma_name_lt_irreflexive(names@[0]@);
    }
    while j < names.len()
        invariant
            1 <= j <= names@.len(),
            best < j,
            forall|k: int| 0 <= k < j ==> !name_lt(names@[best as int]@, #[trigger] names@[k]@),
            forall|k: int| 0 <= k < best ==> name_lt(#[trigger] names@[k]@, names@[best as int]@),
        decreases names@.len() - j,
    {
        if name_less(names[best].as_str(), names[j].as_str()) {
            proof {
                lemma_name_lt_irreflexive(names@[j as int]@);
                assert forall|k: int| 0 <= k < j + 1 implies !name_lt(names@[j as int]@, #[trigger] names@[k]@) by {
                    if k < j && name_lt(names@[j as int]@, names@[k]@) {
                        lemma_name_lt_transitive(names@[best as int]@, names@[j as int]@, names@[k]@);
                    }
                }
                assert forall|k: int| 0 <= k < j implies name_lt(#[trigger] names@[k]@, names@[j as int]@) by {
                    if k < best {
                        lemma_name_lt_transitive(names@[k]@, names@[best as int]@, names@[j as int]@);
                    } else if k > best {
                        lemma_name_lt_total(names@[k]@, names@[best as int]@);
                        if name_lt(names@[k]@, names@[best as int]@) {
                            lemma_name_lt_transitive(names@[k]@, names@[best as int]@, names@[j as int]@);
                        }
                    }
                }
            }
            best = j;
        }
        j += 1;
    }
    Some(best)
}

/// The prefix of the name of a slot made from the current date and time.
pub open spec fn dated_prefix() -> Seq<char> {
    seq!['d', 'a', 't', 'e', 'd', '-']
}

/// The strftime pattern of the date and time in a dated slot's name.
pub open spec fn stamp_format() -> Seq<char> {
    seq!['%', 'Y', '-', '%', 'm', '-', '%', 'd', '_', '%', 'H', '%', 'M', '%', 'S']
}

/// A year as the pattern renders it: four or more digits, preceded by a sign
/// where the year lies outside 0 to 9999.
pub open spec fn is_year_text(y: Seq<char>) -> bool {
    ||| y.len() >= 4 && forall|i: int| 0 <= i < y.len() ==> is_digit(y[i])
    ||| y.len() >= 5 && (y[0] == '+' || y[0] == '-') && forall|i: int|
        1 <= i < y.len() ==> is_digit(y[i])
}

/// The shape of a rendered stamp: year, `-`, two-digit month, `-`, two-digit
/// day, `_`, then two digits each of hours, minutes and seconds.
pub open spec fn is_stamp(s: Seq<char>) -> bool {
    &&& s.len() >= 17
    &&& is_year_text(s.take(s.len() - 13))
    &&& {
        let t = s.skip(s.len() - 13);
        &&& t[0] == '-'
        &&& t[3] == '-'
        &&& t[6] == '_'
        &&& forall|i: int| 0 <= i < 13 && i != 0 && i != 3 && i != 6 ==> is_digit(t[i])
    }
}

/// Relies on chrono's `Local::now` for the current local date and time, and on
/// `DateTime::format` with `to_string` to render it with zero-padded numeric
/// fields. Rendering panics on an invalid pattern, so only the library's one
/// valid pattern is admitted. chrono also panics, whatever the pattern, when
/// the system clock reads before the Unix epoch or the local time zone data
/// yields no usable offset.
#[verifier::external_body]
fn local_now_formatted(fmt: &str) -> (r: String)
    requires
        fmt@ == stamp_format(),
    ensures
        is_stamp(r@),
{
    chrono::Local::now().format(fmt).to_string()
}

/// The name of a dated slot whose date and time read `stamp`.
pub fn dated_slot_name(stamp: &str) -> (r: String)
    ensures
        r@ == dated_prefix() + stamp@,
{
    let prefix = String::from_str("dated-");
    proof {
        reveal_strlit("dated-");
        assert(prefix@ =~= dated_prefix());
    }
    prefix.concat(stamp)
}

/// A name for a new slot made now: `dated-` followed by the local date and
/// time as year-month-day, underscore, hours minutes seconds.
pub fn new_dated_slot_name() -> (r: String)
    ensures
        exists|stamp: Seq<char>| is_stamp(stamp) && r@ == dated_prefix() + stamp,
{
    let fmt = "%Y-%m-%d_%H%M%S";
    proof {
        reveal_strlit("%Y-%m-%d_%H%M%S");
        assert(fmt@ =~= stamp_format());
    }
    let stamp = local_now_formatted(fmt);
    let r = dated_slot_name(stamp.as_str());
    assert(r@ == dated_prefix() + stamp@);
    r
}

} // verus!
