//! Selection of directory entries by kind and by name.

use vstd::prelude::*;

verus! {

/// What a directory entry is, as far as selection is concerned.
#[derive(Clone, Copy, PartialEq, Eq, Structural, Debug)]
pub enum EntryKind {
    File,
    Dir,
    Other,
}

/// One entry of a directory listing: its name and its kind.
pub struct Entry {
    pub name: String,
    pub kind: EntryKind,
}

/// A predicate on entry names.
pub enum NameRule {
    StartsWith(String),
    Contains(String),
    Any,
}

/// `p` occurs in `s` starting at position `i`.
pub open spec fn occurs_at(s: Seq<char>, p: Seq<char>, i: int) -> bool {
    0 <= i && i + p.len() <= s.len() && s.subrange(i, i + p.len()) == p
}

pub open spec fn has_prefix(s: Seq<char>, p: Seq<char>) -> bool {
    occurs_at(s, p, 0)
}

pub open spec fn has_infix(s: Seq<char>, p: Seq<char>) -> bool {
    exists|i: int| occurs_at(s, p, i)
}

/// A predicate on entry names, over character sequences.
pub enum NamePattern {
    StartsWith(Seq<char>),
    Contains(Seq<char>),
    Any,
}

impl NamePattern {
    pub open spec fn accepts(self, name: Seq<char>) -> bool {
        match self {
            NamePattern::StartsWith(p) => has_prefix(name, p),
            NamePattern::Contains(p) => has_infix(name, p),
            NamePattern::Any => true,
        }
    }
}

impl View for NameRule {
    type V = NamePattern;

    open spec fn view(&self) -> NamePattern {
        match self {
            NameRule::StartsWith(p) => NamePattern::StartsWith(p@),
            NameRule::Contains(p) => NamePattern::Contains(p@),
            NameRule::Any => NamePattern::Any,
        }
    }
}

/// The marker that every save file's name begins with.
pub open spec fn save_prefix() -> Seq<char> {
    seq!['S', 'G', 'T', 'A']
}

pub open spec fn is_save_name(name: Seq<char>) -> bool {
    has_prefix(name, save_prefix())
}

/// Names of the entries of `es` of kind `kind` whose name `rule` accepts,
/// in listing order.
pub open spec fn names_matching(es: Seq<Entry>, kind: EntryKind, rule: NamePattern) -> Seq<Seq<char>>
    decreases es.len(),
{
    if es.len() == 0 {
        seq![]
    } else {
        let rest = names_matching(es.drop_last(), kind, rule);
        let e = es.last();
        if e.kind == kind && rule.accepts(e.name@) {
            rest.push(e.name@)
        } else {
            rest
        }
    }
}

/// A name is selected exactly when some entry of the right kind carries it
/// and the pattern accepts it.
pub proof fn lemma_names_matching_members(es: Seq<Entry>, kind: EntryKind, rule: NamePattern)
    ensures
        forall|n: Seq<char>|
            #![trigger names_matching(es, kind, rule).contains(n)]
            names_matching(es, kind, rule).contains(n) <==> (rule.accepts(n) && exists|i: int|
                0 <= i < es.len() && es[i].kind == kind && es[i].name@ == n),
    decreases es.len(),
{
    if es.len() > 0 {
        let init = es.drop_last();
        lemma_names_matching_members(init, kind, rule);
        assert forall|n: Seq<char>|
            names_matching(es, kind, rule).contains(n) <==> (rule.accepts(n) && exists|i: int|
                0 <= i < es.len() && es[i].kind == kind && es[i].name@ == n) by {
            let rest = names_matching(init, kind, rule);
            if names_matching(es, kind, rule).contains(n) {
                if rest.contains(n) {
                    let i = choose|i: int| 0 <= i < init.len() && init[i].kind == kind && init[i].name@ == n;
                    assert(es[i] == init[i]);
                } else {
                    let j = choose|j: int| 0 <= j < rest.push(es.last().name@).len() && rest.push(es.last().name@)[j] == n;
                    assert(j == rest.len());
                    assert(es[es.len() - 1] == es.last());
                }
            }
            if rule.accepts(n) && exists|i: int| 0 <= i < es.len() && es[i].kind == kind && es[i].name@ == n {
                let i = choose|i: int| 0 <= i < es.len() && es[i].kind == kind && es[i].name@ == n;
                if i < es.len() - 1 {
                    assert(init[i] == es[i]);
                    assert(rest.contains(n));
                    if es.last().kind == kind && rule.accepts(es.last().name@) {
                        let k = choose|k: int| 0 <= k < rest.len() && rest[k] == n;
                        assert(rest.push(es.last().name@)[k] == n);
                    }
                } else {
                    assert(rest.push(es.last().name@)[rest.len() as int] == n);
                }
            }
        }
    }
}

/// No two entries of the listing share a name, as in a directory.
pub open spec fn unique_names(es: Seq<Entry>) -> bool {
    forall|i: int, j: int| 0 <= i < j < es.len() ==> es[i].name@ != es[j].name@
}

/// From a listing without repeated names, a scan selects no name twice.
pub proof fn lemma_names_matching_unique(es: Seq<Entry>, kind: EntryKind, rule: NamePattern)
    requires
        unique_names(es),
    ensures
        names_matching(es, kind, rule).no_duplicates(),
    decreases es.len(),
{
    if es.len() > 0 {
        let init = es.drop_last();
        let e = es.last();
        let rest = names_matching(init, kind, rule);
        assert(unique_names(init));
        lemma_names_matching_unique(init, kind, rule);
        lemma_names_matching_members(init, kind, rule);
        if e.kind == kind && rule.accepts(e.name@) {
            if rest.contains(e.name@) {
                let i = choose|i: int| 0 <= i < init.len() && init[i].kind == kind && init[i].name@ == e.name@;
                assert(es[i] == init[i] && es[es.len() - 1] == e);
            }
            let r = rest.push(e.name@);
            assert forall|i: int, j: int| 0 <= i < r.len() && 0 <= j < r.len() && i != j implies r[i] != r[j] by {
                if j == rest.len() {
                    assert(rest[i] == r[i]);
                } else if i == rest.len() {
                    assert(rest[j] == r[j]);
                }
            }
        }
    }
}

/// Scanning with a "starts with" pattern selects exactly the files whose name
/// has that prefix, whatever else the listing holds.
pub proof fn lemma_prefix_scan_exact(es: Seq<Entry>, prefix: Seq<char>, n: Seq<char>)
    ensures
        names_matching(es, EntryKind::File, NamePattern::StartsWith(prefix)).contains(n) <==> (
        has_prefix(n, prefix) && exists|i: int|
            0 <= i < es.len() && es[i].kind == EntryKind::File && es[i].name@ == n),
{
    lemma_names_matching_members(es, EntryKind::File, NamePattern::StartsWith(prefix));
}

pub open spec fn names_of(v: Seq<String>) -> Seq<Seq<char>> {
    v.map_values(|s: String| s@)
}

/// Whether `p` occurs in `s` at position `i`.
pub fn occurs_at_exec(s: &str, p: &str, i: usize) -> (r: bool)
    ensures
        r == occurs_at(s@, p@, i as int),
{
    let n = s.unicode_len();
    let m = p.unicode_len();
    if m > n || i > n - m {
        return false;
    }
    let mut j: usize = 0;
    while j < m
        invariant
            n == s@.len(),
            m == p@.len(),
            i + m <= n,
            j <= m,
            forall|k: int| 0 <= k < j ==> s@[i + k] == p@[k],
        decreases m - j,
    {
        if s.get_char(i + j) != p.get_char(j) {
            assert(s@.subrange(i as int, i + m)[j as int] != p@[j as int]);
            return false;
        }
        j += 1;
    }
    assert(s@.subrange(i as int, i + m) =~= p@);
    true
}

pub fn starts_with(s: &str, p: &str) -> (r: bool)
    ensures
        r == has_prefix(s@, p@),
{
    occurs_at_exec(s, p, 0)
}

pub fn contains(s: &str, p: &str) -> (r: bool)
    ensures
        r == has_infix(s@, p@),
{
    let n = s.unicode_len();
    let m = p.unicode_len();
    if m > n {
        assert forall|i: int| !occurs_at(s@, p@, i) by {}
        return false;
    }
    let mut i: usize = 0;
    loop
        invariant
            n == s@.len(),
            m == p@.len(),
            m <= n,
            i <= n - m,
            forall|k: int| 0 <= k < i ==> !occurs_at(s@, p@, k),
        decreases n - m - i,
    {
        if occurs_at_exec(s, p, i) {
            return true;
        }
        if i == n - m {
            assert forall|k: int| !occurs_at(s@, p@, k) by {
                if 0 <= k < i {
                }
            }
            return false;
        }
        i += 1;
    }
}

impl NameRule {
    pub fn matches(&self, name: &str) -> (r: bool)
        ensures
            r == self@.accepts(name@),
    {
        match self {
            NameRule::StartsWith(p) => starts_with(name, p.as_str()),
            NameRule::Contains(p) => contains(name, p.as_str()),
            NameRule::Any => true,
        }
    }
}

/// Names of the entries of kind `kind` whose name `rule` accepts, in
/// listing order.
pub fn find_matching(entries: &Vec<Entry>, kind: EntryKind, rule: &NameRule) -> (r: Vec<String>)
    ensures
        names_of(r@) == names_matching(entries@, kind, rule@),
{
    let mut out: Vec<String> = Vec::new();
    let mut i: usize = 0;
    while i < entries.len()
        invariant
            i <= entries@.len(),
            names_of(out@) == names_matching(entries@.take(i as int), kind, rule@),
        decreases entries@.len() - i,
    {
        let e = &entries[i];
        assert(entries@.take(i + 1).drop_last() =~= entries@.take(i as int));
        if e.kind == kind && rule.matches(e.name.as_str()) {
            out.push(e.name.clone());
        }
        assert(names_of(out@) =~= names_matching(entries@.take(i + 1), kind, rule@));
        i += 1;
    }
    assert(entries@.take(entries@.len() as int) =~= entries@);
    out
}

/// Names of the save files of a listing: files whose name begins with the
/// save marker.
pub fn list_save_files(entries: &Vec<Entry>) -> (r: Vec<String>)
    ensures
        names_of(r@) == names_matching(entries@, EntryKind::File, NamePattern::StartsWith(save_prefix())),
{
    let prefix = String::from_str("SGTA");
    proof {
        reveal_strlit("SGTA");
        assert(prefix@ =~= save_prefix());
    }
    find_matching(entries, EntryKind::File, &NameRule::StartsWith(prefix))
}

/// Names of the directories of a listing whose name contains `name`.
pub fn list_name_contains(entries: &Vec<Entry>, name: &str) -> (r: Vec<String>)
    ensures
        names_of(r@) == names_matching(entries@, EntryKind::Dir, NamePattern::Contains(name@)),
{
    find_matching(entries, EntryKind::Dir, &NameRule::Contains(String::from_str(name)))
}

} // verus!
