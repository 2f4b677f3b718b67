//! The namespace tree: formatted lines grouped under dot-separated segments,
//! rendered with siblings sorted by name.
use std::collections::VecDeque;
use vstd::prelude::*;

use crate::text::{indent, indent_of};

verus! {

/// One namespace level: the lines that belong directly to it and the named
/// subtrees below it.
pub struct MetricsTree {
    /// Depth from the root; sets the indentation of this level.
    pub level: usize,
    /// Fully formatted lines, already indented for this level.
    pub current: Vec<String>,
    /// Child levels, keyed by path segment.
    pub next: Vec<(String, MetricsTree)>,
}

/// Either a formatted line or a named subtree, ordered by its name.
pub enum SortEntry {
    Inline(String),
    Nested(String, MetricsTree),
}

/// Strict lexicographic order on code points.
pub open spec fn lex_lt(a: Seq<char>, b: Seq<char>) -> bool
    decreases a.len(),
{
    if a.len() == 0 {
        b.len() > 0
    } else if b.len() == 0 {
        false
    } else if a[0] != b[0] {
        (a[0] as u32) < (b[0] as u32)
    } else {
        lex_lt(a.drop_first(), b.drop_first())
    }
}

impl SortEntry {
    /// The text an entry is sorted by: a line's own text or a segment name.
    pub open spec fn key(&self) -> Seq<char> {
        match self {
            SortEntry::Inline(s) => s@,
            SortEntry::Nested(s, _) => s@,
        }
    }

    pub fn name(&self) -> (r: &str)
        ensures
            r@ == self.key(),
    {
        match self {
            SortEntry::Inline(s) => s.as_str(),
            SortEntry::Nested(s, _) => s.as_str(),
        }
    }
}

/// Entries are ordered by name; on equal names a line comes before a subtree.
pub open spec fn entry_lt(x: SortEntry, y: SortEntry) -> bool {
    lex_lt(x.key(), y.key()) || (x.key() == y.key() && x is Inline && y is Nested)
}

/// Places `e` after every entry of `s` that it does not precede.
pub open spec fn place(e: SortEntry, s: Seq<SortEntry>) -> Seq<SortEntry>
    decreases s.len(),
{
    if s.len() == 0 {
        seq![e]
    } else if entry_lt(e, s[0]) {
        seq![e] + s
    } else {
        seq![s[0]] + place(e, s.drop_first())
    }
}

/// Stable sort of entries by name.
pub open spec fn sort_entries(s: Seq<SortEntry>) -> Seq<SortEntry>
    decreases s.len(),
{
    if s.len() == 0 {
        seq![]
    } else {
        place(s.last(), sort_entries(s.drop_last()))
    }
}

/// The entries of one level before sorting: its lines, then its subtrees.
pub open spec fn entries_of(t: MetricsTree) -> Seq<SortEntry> {
    t.current@.map_values(|s: String| SortEntry::Inline(s)) + t.next@.map_values(
        |p: (String, MetricsTree)| SortEntry::Nested(p.0, p.1),
    )
}

/// The text of the first `k` sorted entries of a level.
pub open spec fn render_upto(t: MetricsTree, k: nat) -> Seq<char>
    decreases t, k,
    via render_upto_decreases
{
    let es = sort_entries(entries_of(t));
    if k == 0 || k > es.len() {
        seq![]
    } else {
        let prev = render_upto(t, (k - 1) as nat);
        match es[k - 1] {
            SortEntry::Inline(s) => prev + s@ + seq!['\n'],
            SortEntry::Nested(name, c) => prev + indent_of(t.level as nat) + name@ + seq![':', '\n']
                + render_upto(c, entries_of(c).len()),
        }
    }
}

#[via_fn]
proof fn render_upto_decreases(t: MetricsTree, k: nat) {
    let es = sort_entries(entries_of(t));
    if k == 0 || k > es.len() {
    } else {
        match es[k - 1] {
            SortEntry::Inline(_) => {},
            SortEntry::Nested(name, c) => {
                lemma_nested_decreases(t, (k - 1) as int);
            },
        }
    }
}

/// The whole rendered text of a level and everything below it.
pub open spec fn rendered(t: MetricsTree) -> Seq<char> {
    render_upto(t, entries_of(t).len())
}

/// The texts of a sequence of strings.
pub open spec fn texts(v: Seq<String>) -> Seq<Seq<char>> {
    v.map_values(|s: String| s@)
}

/// Each value prefixed with the indentation of the given level.
pub open spec fn indented(level: nat, vals: Seq<Seq<char>>) -> Seq<Seq<char>> {
    vals.map_values(|v: Seq<char>| indent_of(level) + v)
}

/// Position of the first child named `name`, or the number of children if none is.
pub open spec fn find_child(next: Seq<(String, MetricsTree)>, name: Seq<char>) -> int
    decreases next.len(),
{
    if next.len() == 0 {
        0
    } else if next[0].0@ == name {
        0
    } else {
        1 + find_child(next.drop_first(), name)
    }
}

/// Every line of a level starts with that level's indentation; children have
/// distinct segment names and sit one level below their parent, all the way
/// down.
pub open spec fn wf(t: MetricsTree) -> bool
    decreases t,
{
    &&& forall|i: int|
        0 <= i < t.current@.len() ==> indent_of(t.level as nat).is_prefix_of(
            (#[trigger] t.current@[i])@,
        )
    &&& forall|i: int, j: int|
        0 <= i < j < t.next@.len() ==> (#[trigger] t.next@[i]).0@ != (#[trigger] t.next@[j]).0@
    &&& forall|j: int|
        0 <= j < t.next@.len() ==> (#[trigger] t.next@[j]).1.level == t.level + 1 && wf(
            t.next@[j].1,
        )
}

/// `new_t` is the level with the given depth, lines and children after `vals`
/// were inserted under `path`: at the end of the path the values are appended,
/// indented for that depth; along it each segment's child is reused or added
/// at the end, and nothing else changes.
pub open spec fn inserted(
    level: nat,
    cur: Seq<String>,
    next: Seq<(String, MetricsTree)>,
    path: Seq<Seq<char>>,
    vals: Seq<Seq<char>>,
    new_t: MetricsTree,
) -> bool
    decreases path.len(),
{
    &&& new_t.level == level
    &&& if path.len() == 0 {
        &&& texts(new_t.current@) == texts(cur) + indented(level, vals)
        &&& new_t.next@ == next
    } else {
        let k = find_child(next, path[0]);
        &&& new_t.current@ == cur
        &&& new_t.next@.len() == (if k < next.len() { next.len() } else { next.len() + 1 })
        &&& forall|j: int| 0 <= j < next.len() && j != k ==> new_t.next@[j] == next[j]
        &&& new_t.next@[k].0@ == path[0]
        &&& if k < next.len() {
            let c = next[k].1;
            inserted(c.level as nat, c.current@, c.next@, path.drop_first(), vals, new_t.next@[k].1)
        } else {
            inserted(level + 1, seq![], seq![], path.drop_first(), vals, new_t.next@[k].1)
        }
    }
}

proof fn lemma_find_child(next: Seq<(String, MetricsTree)>, name: Seq<char>, k: int)
    requires
        0 <= k <= next.len(),
        forall|j: int| 0 <= j < k ==> (#[trigger] next[j]).0@ != name,
        k < next.len() ==> next[k].0@ == name,
    ensures
        find_child(next, name) == k,
    decreases k,
{
    if k > 0 {
        let r = next.drop_first();
        assert forall|j: int| 0 <= j < k - 1 implies (#[trigger] r[j]).0@ != name by {
            assert(r[j] == next[j + 1]);
        }
        lemma_find_child(r, name, k - 1);
    }
}

/// A level with no lines and no children renders as nothing, so rendering
/// again right after a render yields the empty text.
pub proof fn lemma_empty_renders_nothing(t: MetricsTree)
    requires
        t.current@.len() == 0,
        t.next@.len() == 0,
    ensures
        rendered(t) == Seq::<char>::empty(),
{
    assert(entries_of(t) =~= Seq::<SortEntry>::empty());
    assert(sort_entries(entries_of(t)) =~= Seq::<SortEntry>::empty());
}

/// The level that `path` leads to from `t`, where every segment exists.
pub open spec fn descend(t: MetricsTree, path: Seq<Seq<char>>) -> Option<MetricsTree>
    decreases path.len(),
{
    if path.len() == 0 {
        Some(t)
    } else {
        let k = find_child(t.next@, path[0]);
        if 0 <= k < t.next@.len() {
            descend(t.next@[k].1, path.drop_first())
        } else {
            None
        }
    }
}

proof fn lemma_find_child_first(next: Seq<(String, MetricsTree)>, name: Seq<char>)
    ensures
        0 <= find_child(next, name) <= next.len(),
        forall|j: int| 0 <= j < find_child(next, name) ==> (#[trigger] next[j]).0@ != name,
        find_child(next, name) < next.len() ==> next[find_child(next, name)].0@ == name,
    decreases next.len(),
{
    if next.len() > 0 && next[0].0@ != name {
        let r = next.drop_first();
        lemma_find_child_first(r, name);
        assert forall|j: int| 0 <= j < find_child(next, name) implies (#[trigger] next[j]).0@
            != name by {
            if j > 0 {
                assert(next[j] == r[j - 1]);
            }
        }
    }
}

/// Inserting under `path` into a level at depth `level` whose children sit
/// one level deeper puts the values at depth `level + path.len()`, each
/// indented by two spaces per level of that depth, after the lines that
/// level already had.
pub proof fn lemma_inserted_indentation(
    level: nat,
    cur: Seq<String>,
    next: Seq<(String, MetricsTree)>,
    path: Seq<Seq<char>>,
    vals: Seq<Seq<char>>,
    t: MetricsTree,
)
    requires
        inserted(level, cur, next, path, vals, t),
        forall|j: int| 0 <= j < next.len() ==> (#[trigger] next[j]).1.level == level + 1 && wf(next[j].1),
    ensures
        descend(t, path) is Some,
        descend(t, path)->Some_0.level == level + path.len(),
        texts(descend(t, path)->Some_0.current@).len() >= vals.len(),
        texts(descend(t, path)->Some_0.current@).skip(
            texts(descend(t, path)->Some_0.current@).len() - vals.len(),
        ) == indented(level + path.len(), vals),
    decreases path.len(),
{
    if path.len() == 0 {
        let lines = texts(t.current@);
        assert(lines.skip(lines.len() - vals.len()) =~= indented(level, vals));
    } else {
        let k = find_child(next, path[0]);
        lemma_find_child_first(next, path[0]);
        assert forall|j: int| 0 <= j < k implies (#[trigger] t.next@[j]).0@ != path[0] by {
            assert(t.next@[j] == next[j]);
        }
        lemma_find_child(t.next@, path[0], k);
        let rest = path.drop_first();
        if k < next.len() {
            let c = next[k].1;
            lemma_inserted_indentation(c.level as nat, c.current@, c.next@, rest, vals, t.next@[k].1);
        } else {
            lemma_inserted_indentation(level + 1, seq![], seq![], rest, vals, t.next@[k].1);
        }
    }
}

proof fn lemma_place_elems(e: SortEntry, s: Seq<SortEntry>)
    ensures
        place(e, s).len() == s.len() + 1,
        forall|i: int|
            0 <= i < place(e, s).len() ==> place(e, s)[i] == e || s.contains(#[trigger] place(e, s)[i]),
    decreases s.len(),
{
    let p = place(e, s);
    if s.len() == 0 {
        assert(p =~= seq![e]);
    } else if entry_lt(e, s[0]) {
        assert(p =~= seq![e] + s);
        assert forall|i: int| 0 <= i < p.len() implies p[i] == e || s.contains(#[trigger] p[i]) by {
            if i > 0 {
                assert(p[i] == s[i - 1]);
            }
        }
    } else {
        let r = s.drop_first();
        lemma_place_elems(e, r);
        let q = place(e, r);
        assert(p =~= seq![s[0]] + q);
        assert forall|i: int| 0 <= i < p.len() implies p[i] == e || s.contains(#[trigger] p[i]) by {
            if i == 0 {
                assert(p[0] == s[0]);
            } else {
                assert(p[i] == q[i - 1]);
                if q[i - 1] != e {
                    assert(r.contains(q[i - 1]));
                    let j = choose|j: int| 0 <= j < r.len() && r[j] == q[i - 1];
                    assert(s[j + 1] == p[i]);
                }
            }
        }
    }
}

proof fn lemma_sort_elems(s: Seq<SortEntry>)
    ensures
        sort_entries(s).len() == s.len(),
        forall|i: int| 0 <= i < sort_entries(s).len() ==> s.contains(#[trigger] sort_entries(s)[i]),
    decreases s.len(),
{
    if s.len() > 0 {
        let r = s.drop_last();
        lemma_sort_elems(r);
        let q = sort_entries(r);
        lemma_place_elems(s.last(), q);
        assert forall|i: int| 0 <= i < sort_entries(s).len() implies s.contains(
            #[trigger] sort_entries(s)[i],
        ) by {
            let x = sort_entries(s)[i];
            if x == s.last() {
                assert(s[s.len() - 1] == x);
            } else {
                let k = choose|k: int| 0 <= k < q.len() && q[k] == x;
                assert(r.contains(q[k]));
                let j = choose|j: int| 0 <= j < r.len() && r[j] == x;
                assert(s[j] == x);
            }
        }
    }
}

/// Entries in non-decreasing order: no entry sorts strictly before one that
/// precedes it.
pub open spec fn sorted_by_name(s: Seq<SortEntry>) -> bool {
    forall|i: int, j: int| 0 <= i < j < s.len() ==> !entry_lt(#[trigger] s[j], #[trigger] s[i])
}

proof fn lemma_lex_irreflexive(a: Seq<char>)
    ensures
        !lex_lt(a, a),
    decreases a.len(),
{
    if a.len() > 0 {
        lemma_lex_irreflexive(a.drop_first());
    }
}

proof fn lemma_lex_asymmetric(a: Seq<char>, b: Seq<char>)
    requires
        lex_lt(a, b),
    ensures
        !lex_lt(b, a),
    decreases a.len(),
{
    if a.len() > 0 && b.len() > 0 && a[0] == b[0] {
        lemma_lex_asymmetric(a.drop_first(), b.drop_first());
    }
}

proof fn lemma_lex_transitive(a: Seq<char>, b: Seq<char>, c: Seq<char>)
    requires
        lex_lt(a, b),
        lex_lt(b, c),
    ensures
        lex_lt(a, c),
    decreases a.len(),
{
    if a.len() > 0 && a[0] == b[0] && b[0] == c[0] {
        lemma_lex_transitive(a.drop_first(), b.drop_first(), c.drop_first());
    }
}

proof fn lemma_entry_order(x: SortEntry, y: SortEntry, z: SortEntry)
    ensures
        !entry_lt(x, x),
        entry_lt(x, y) ==> !entry_lt(y, x),
        entry_lt(x, y) && entry_lt(y, z) ==> entry_lt(x, z),
{
    lemma_lex_irreflexive(x.key());
    if lex_lt(x.key(), y.key()) {
        lemma_lex_asymmetric(x.key(), y.key());
    }
    if lex_lt(x.key(), y.key()) && lex_lt(y.key(), z.key()) {
        lemma_lex_transitive(x.key(), y.key(), z.key());
    }
}

proof fn lemma_place_sorted(e: SortEntry, s: Seq<SortEntry>)
    requires
        sorted_by_name(s),
    ensures
        sorted_by_name(place(e, s)),
    decreases s.len(),
{
    let p = place(e, s);
    if s.len() == 0 {
        assert(p =~= seq![e]);
    } else if entry_lt(e, s[0]) {
        assert(p =~= seq![e] + s);
        assert forall|i: int, j: int| 0 <= i < j < p.len() implies !entry_lt(
            #[trigger] p[j],
            #[trigger] p[i],
        ) by {
            if i == 0 {
                lemma_entry_order(s[j - 1], e, s[0]);
                lemma_entry_order(e, s[0], s[0]);
                assert(p[j] == s[j - 1]);
                if j - 1 > 0 {
                    assert(!entry_lt(s[j - 1], s[0]));
                }
            } else {
                assert(p[j] == s[j - 1] && p[i] == s[i - 1]);
            }
        }
    } else {
        let r = s.drop_first();
        assert forall|i: int, j: int| 0 <= i < j < r.len() implies !entry_lt(
            #[trigger] r[j],
            #[trigger] r[i],
        ) by {
            assert(r[j] == s[j + 1] && r[i] == s[i + 1]);
        }
        lemma_place_sorted(e, r);
        lemma_place_elems(e, r);
        let q = place(e, r);
        assert(p =~= seq![s[0]] + q);
        assert forall|i: int, j: int| 0 <= i < j < p.len() implies !entry_lt(
            #[trigger] p[j],
            #[trigger] p[i],
        ) by {
            if i == 0 {
                assert(p[j] == q[j - 1]);
                if q[j - 1] != e {
                    assert(r.contains(q[j - 1]));
                    let k = choose|k: int| 0 <= k < r.len() && r[k] == q[j - 1];
                    assert(s[k + 1] == q[j - 1]);
                }
            } else {
                assert(p[j] == q[j - 1] && p[i] == q[i - 1]);
            }
        }
    }
}

/// Siblings come out of the sort in non-decreasing order of their names,
/// whatever order they were collected in.
pub proof fn lemma_siblings_sorted(s: Seq<SortEntry>)
    ensures
        sorted_by_name(sort_entries(s)),
    decreases s.len(),
{
    if s.len() > 0 {
        lemma_siblings_sorted(s.drop_last());
        lemma_place_sorted(s.last(), sort_entries(s.drop_last()));
    }
}

/// In a well-formed tree, a subtree met while rendering a level is printed as
/// a header indented for that level, followed by the subtree's own text, whose
/// level is one deeper and whose lines all carry that deeper indentation.
pub proof fn lemma_nested_one_level_deeper(t: MetricsTree, k: int)
    requires
        wf(t),
        0 <= k < sort_entries(entries_of(t)).len(),
        sort_entries(entries_of(t))[k] is Nested,
    ensures
        ({
            let name = sort_entries(entries_of(t))[k]->Nested_0;
            let c = sort_entries(entries_of(t))[k]->Nested_1;
            &&& c.level == t.level + 1
            &&& forall|i: int|
                0 <= i < c.current@.len() ==> indent_of(c.level as nat).is_prefix_of(
                    (#[trigger] c.current@[i])@,
                )
            &&& render_upto(t, (k + 1) as nat) == render_upto(t, k as nat) + indent_of(
                t.level as nat,
            ) + name@ + seq![':', '\n'] + rendered(c)
        }),
{
    let es = sort_entries(entries_of(t));
    let all = entries_of(t);
    lemma_sort_elems(all);
    assert(es.contains(es[k]));
    let j = choose|j: int| 0 <= j < all.len() && all[j] == es[k];
    let n = t.current@.len() as int;
    let a = t.current@.map_values(|s: String| SortEntry::Inline(s));
    let b = t.next@.map_values(|p: (String, MetricsTree)| SortEntry::Nested(p.0, p.1));
    assert(all =~= a + b);
    if j < n {
        assert(all[j] == a[j]);
    } else {
        assert(all[j] == b[j - n]);
        assert(t.next@[j - n].1.level == t.level + 1 && wf(t.next@[j - n].1));
    }
}

proof fn lemma_place_permutes(e: SortEntry, s: Seq<SortEntry>)
    ensures
        place(e, s).to_multiset() == s.to_multiset().insert(e),
    decreases s.len(),
{
    broadcast use vstd::multiset::group_multiset_axioms;

    let one = seq![e];
    vstd::seq_lib::to_multiset_len(Seq::<SortEntry>::empty());
    vstd::multiset::lemma_multiset_empty_len(Seq::<SortEntry>::empty().to_multiset());
    vstd::seq_lib::lemma_multiset_commutative(one, s);
    vstd::seq_lib::to_multiset_build(Seq::<SortEntry>::empty(), e);
    assert(Seq::<SortEntry>::empty().push(e) =~= one);
    if s.len() == 0 {
        assert(place(e, s) =~= one);
        assert(s =~= Seq::<SortEntry>::empty());
    } else if entry_lt(e, s[0]) {
        assert(place(e, s) =~= one + s);
        assert(place(e, s).to_multiset() =~= s.to_multiset().insert(e));
    } else {
        let r = s.drop_first();
        let head = seq![s[0]];
        lemma_place_permutes(e, r);
        vstd::seq_lib::lemma_multiset_commutative(head, place(e, r));
        vstd::seq_lib::lemma_multiset_commutative(head, r);
        vstd::seq_lib::to_multiset_build(Seq::<SortEntry>::empty(), s[0]);
        assert(Seq::<SortEntry>::empty().push(s[0]) =~= head);
        assert(head + r =~= s);
        assert(place(e, s) =~= head + place(e, r));
        assert(place(e, s).to_multiset() =~= s.to_multiset().insert(e));
    }
}

/// Sorting the siblings of a level keeps exactly the entries it was given,
/// each as often as it was given.
pub proof fn lemma_sort_permutes(s: Seq<SortEntry>)
    ensures
        sort_entries(s).to_multiset() == s.to_multiset(),
    decreases s.len(),
{
    broadcast use vstd::multiset::group_multiset_axioms;

    if s.len() == 0 {
        assert(sort_entries(s) =~= s);
        vstd::seq_lib::to_multiset_len(s);
        vstd::multiset::lemma_multiset_empty_len(s.to_multiset());
    } else {
        let r = s.drop_last();
        lemma_sort_permutes(r);
        lemma_place_permutes(s.last(), sort_entries(r));
        vstd::seq_lib::to_multiset_build(r, s.last());
        assert(r.push(s.last()) =~= s);
    }
}

/// A subtree met while rendering a level is one of that level's children.
proof fn lemma_nested_decreases(t: MetricsTree, i: int)
    requires
        0 <= i < sort_entries(entries_of(t)).len(),
        sort_entries(entries_of(t))[i] is Nested,
    ensures
        decreases_to!(t => sort_entries(entries_of(t))[i]->Nested_1),
{
    let es = sort_entries(entries_of(t));
    let all = entries_of(t);
    lemma_sort_elems(all);
    assert(es.contains(es[i]));
    let j = choose|j: int| 0 <= j < all.len() && all[j] == es[i];
    let n = t.current@.len() as int;
    let a = t.current@.map_values(|s: String| SortEntry::Inline(s));
    let b = t.next@.map_values(|p: (String, MetricsTree)| SortEntry::Nested(p.0, p.1));
    assert(all =~= a + b);
    if j < n {
        assert(all[j] == a[j]);
        assert(all[j] is Inline);
    } else {
        let p = t.next@[j - n];
        assert(all[j] == b[j - n]);
        assert(all[j] == SortEntry::Nested(p.0, p.1));
        assert(decreases_to!(t => t.next));
        assert(decreases_to!(t.next => t.next@));
        assert(decreases_to!(t.next@ => t.next@[j - n]));
        assert(decreases_to!(p => p.1));
    }
}


/// Compares two texts by code points: negative when `a` sorts first, zero when
/// they are equal, positive otherwise.
pub fn compare_text(a: &str, b: &str) -> (r: i8)
    ensures
        (r < 0) == lex_lt(a@, b@),
        (r == 0) == (a@ == b@),
{
    let la = a.unicode_len();
    let lb = b.unicode_len();
    let mut i: usize = 0;
    assert(a@.skip(0) =~= a@);
    assert(b@.skip(0) =~= b@);
    while i < la && i < lb
        invariant
            la == a@.len(),
            lb == b@.len(),
            i <= la,
            i <= lb,
            a@.take(i as int) == b@.take(i as int),
            lex_lt(a@, b@) == lex_lt(a@.skip(i as int), b@.skip(i as int)),
        decreases la - i,
    {
        let ca = a.get_char(i);
        let cb = b.get_char(i);
        assert(a@.skip(i as int)[0] == ca);
        assert(b@.skip(i as int)[0] == cb);
        if ca != cb {
            assert(a@[i as int] != b@[i as int]);
            if (ca as u32) < (cb as u32) {
                return -1;
            } else {
                return 1;
            }
        }
        assert(a@.skip(i as int).drop_first() =~= a@.skip(i + 1));
        assert(b@.skip(i as int).drop_first() =~= b@.skip(i + 1));
        assert(a@.take(i + 1) =~= a@.take(i as int).push(ca));
        assert(b@.take(i + 1) =~= b@.take(i as int).push(cb));
        i = i + 1;
    }
    if la < lb {
        assert(a@.skip(i as int).len() == 0);
        assert(a@ != b@);
        -1
    } else if la == lb {
        assert(a@ =~= a@.take(i as int));
        assert(b@ =~= b@.take(i as int));
        assert(a@.skip(i as int).len() == 0);
        0
    } else {
        assert(b@.skip(i as int).len() == 0);
        assert(a@ != b@);
        1
    }
}

/// Whether entry `x` sorts strictly before entry `y`.
fn entry_less(x: &SortEntry, y: &SortEntry) -> (r: bool)
    ensures
        r == entry_lt(*x, *y),
{
    let c = compare_text(x.name(), y.name());
    if c < 0 {
        true
    } else if c == 0 {
        match (x, y) {
            (SortEntry::Inline(_), SortEntry::Nested(_, _)) => true,
            _ => false,
        }
    } else {
        false
    }
}

proof fn lemma_place_at(e: SortEntry, s: Seq<SortEntry>, p: int)
    requires
        0 <= p <= s.len(),
        forall|j: int| 0 <= j < p ==> !entry_lt(e, #[trigger] s[j]),
        p < s.len() ==> entry_lt(e, s[p]),
    ensures
        place(e, s) == s.take(p) + seq![e] + s.skip(p),
    decreases p,
{
    if s.len() == 0 {
        assert(place(e, s) =~= s.take(p) + seq![e] + s.skip(p));
    } else if p == 0 {
        assert(place(e, s) =~= s.take(p) + seq![e] + s.skip(p));
    } else {
        let r = s.drop_first();
        assert(!entry_lt(e, s[0]));
        assert forall|j: int| 0 <= j < p - 1 implies !entry_lt(e, #[trigger] r[j]) by {
            assert(r[j] == s[j + 1]);
        }
        lemma_place_at(e, r, p - 1);
        assert(place(e, s) =~= s.take(p) + seq![e] + s.skip(p));
    }
}

/// Inserts `e` into an already sorted run, after every entry it does not precede.
fn place_entry(v: &mut Vec<SortEntry>, e: SortEntry)
    ensures
        final(v)@ == place(e, old(v)@),
{
    let mut p: usize = 0;
    while p < v.len() && !entry_less(&e, &v[p])
        invariant
            p <= v@.len(),
            forall|j: int| 0 <= j < p ==> !entry_lt(e, #[trigger] v@[j]),
        decreases v@.len() - p,
    {
        p = p + 1;
    }
    proof {
        lemma_place_at(e, v@, p as int);
    }
    v.insert(p, e);
    assert(final(v)@ =~= old(v)@.take(p as int) + seq![e] + old(v)@.skip(p as int));
}

/// Renders a level and everything below it, consuming it.
fn render_tree(t: MetricsTree) -> (r: String)
    ensures
        r@ == rendered(t),
    decreases t,
{
    let ghost t0 = t;
    let ghost all = entries_of(t);
    let MetricsTree { level, current, next } = t;
    let mut current = current;
    let mut next = next;
    let n_cur = current.len();
    let mut sorted: Vec<SortEntry> = Vec::new();
    let mut i: usize = 0;
    while current.len() > 0
        invariant
            i + current@.len() == n_cur,
            n_cur == t0.current@.len(),
            current@ == t0.current@.skip(i as int),
            sorted@ == sort_entries(all.take(i as int)),
            all == entries_of(t0),
        decreases current@.len(),
    {
        let line = current.remove(0);
        assert(all[i as int] == SortEntry::Inline(line));
        assert(all.take(i + 1).drop_last() =~= all.take(i as int));
        place_entry(&mut sorted, SortEntry::Inline(line));
        i = i + 1;
        assert(current@ =~= t0.current@.skip(i as int));
    }
    let mut j: usize = 0;
    let n_next = next.len();
    while next.len() > 0
        invariant
            j + next@.len() == n_next,
            n_next == t0.next@.len(),
            next@ == t0.next@.skip(j as int),
            sorted@ == sort_entries(all.take(n_cur + j)),
            all == entries_of(t0),
            n_cur == t0.current@.len(),
        decreases next@.len(),
    {
        let (name, child) = next.remove(0);
        assert(all[n_cur + j] == SortEntry::Nested(name, child));
        assert(all.take(n_cur + j + 1).drop_last() =~= all.take(n_cur + j));
        place_entry(&mut sorted, SortEntry::Nested(name, child));
        j = j + 1;
        assert(next@ =~= t0.next@.skip(j as int));
    }
    assert(all.take(n_cur + j) =~= all);
    let ghost es = sorted@;
    let ind = indent(level);
    let mut out = String::new();
    let mut k: usize = 0;
    let n = sorted.len();
    proof {
        lemma_sort_elems(all);
        reveal_strlit("\n");
        reveal_strlit(":\n");
    }
    while sorted.len() > 0
        invariant
            k + sorted@.len() == n,
            n == es.len(),
            es == sort_entries(entries_of(t0)),
            sorted@ == es.skip(k as int),
            out@ == render_upto(t0, k as nat),
            ind@ == indent_of(t0.level as nat),
            "\n"@ == seq!['\n'],
            ":\n"@ == seq![':', '\n'],
            t == t0,
        decreases sorted@.len(),
    {
        let e = sorted.remove(0);
        assert(e == es[k as int]);
        match e {
            SortEntry::Inline(s) => {
                out.append(s.as_str());
                out.append("\n");
            },
            SortEntry::Nested(name, child) => {
                proof {
                    lemma_nested_decreases(t0, k as int);
                    assert(child == es[k as int]->Nested_1);
                    assert(decreases_to!(t0 => child));
                }
                out.append(ind.as_str());
                out.append(name.as_str());
                out.append(":\n");
                let sub = render_tree(child);
                out.append(sub.as_str());
            },
        }
        k = k + 1;
        assert(sorted@ =~= es.skip(k as int));
    }
    out
}

impl MetricsTree {
    /// An empty level at the given depth.
    pub fn with_level(level: usize) -> (r: MetricsTree)
        ensures
            r.level == level,
            r.current@.len() == 0,
            r.next@.len() == 0,
            wf(r),
    {
        MetricsTree { level, current: Vec::new(), next: Vec::new() }
    }

    /// Appends `values`, indented for the level it reaches, to the level found
    /// by following `name_parts` from here, creating the missing levels.
    pub fn insert(&mut self, name_parts: VecDeque<String>, values: &mut Vec<String>)
        requires
            wf(*old(self)),
            old(self).level + name_parts@.len() <= usize::MAX,
        ensures
            final(values)@ == old(values)@,
            wf(*final(self)),
            inserted(
                old(self).level as nat,
                old(self).current@,
                old(self).next@,
                texts(name_parts@),
                texts(old(values)@),
                *final(self),
            ),
        decreases name_parts@.len(),
    {
        let mut name_parts = name_parts;
        if name_parts.len() == 0 {
            let ind = indent(self.level);
            let ghost cur0 = self.current@;
            let ghost vals = texts(values@);
            let mut i: usize = 0;
            while i < values.len()
                invariant
                    i <= values@.len(),
                    vals == texts(values@),
                    ind@ == indent_of(self.level as nat),
                    texts(self.current@) == texts(cur0) + indented(self.level as nat, vals.take(i as int)),
                    self.next@ == old(self).next@,
                    self.level == old(self).level,
                    cur0 == old(self).current@,
                    forall|j: int|
                        0 <= j < self.current@.len() ==> indent_of(self.level as nat).is_prefix_of(
                            (#[trigger] self.current@[j])@,
                        ),
                decreases values@.len() - i,
            {
                let mut line = ind.clone();
                line.append(values[i].as_str());
                let ghost before = self.current@;
                assert(line@.subrange(0, ind@.len() as int) =~= ind@);
                self.current.push(line);
                assert(forall|j: int| 0 <= j < before.len() ==> self.current@[j] == before[j]);
                assert(vals.take(i + 1) =~= vals.take(i as int).push(vals[i as int]));
                assert(texts(self.current@) =~= texts(before).push(line@));
                assert(indented(self.level as nat, vals.take(i + 1)) =~= indented(
                    self.level as nat,
                    vals.take(i as int),
                ).push(indent_of(self.level as nat) + vals[i as int]));
                i = i + 1;
            }
            assert(vals.take(i as int) =~= vals);
            assert(texts(name_parts@) =~= seq![]);
        } else {
            let ghost parts = texts(name_parts@);
            let name = name_parts.pop_front().unwrap();
            assert(texts(name_parts@) =~= parts.drop_first());
            let mut k: usize = 0;
            while k < self.next.len() && !(self.next[k].0 == name)
                invariant
                    k <= self.next@.len(),
                    forall|j: int| 0 <= j < k ==> (#[trigger] self.next@[j]).0@ != name@,
                decreases self.next@.len() - k,
            {
                k = k + 1;
            }
            proof {
                lemma_find_child(self.next@, name@, k as int);
            }
            let ghost next0 = self.next@;
            if k < self.next.len() {
                let (seg, mut child) = self.next.remove(k);
                assert(child == old(self).next@[k as int].1);
                child.insert(name_parts, values);
                self.next.insert(k, (seg, child));
                assert(self.next@[k as int].1 == child);
            } else {
                let mut child = MetricsTree::with_level(self.level + 1);
                assert(child.current@ =~= seq![]);
                assert(child.next@ =~= seq![]);
                child.insert(name_parts, values);
                self.next.push((name, child));
                assert(self.next@[k as int].1 == child);
            }
            assert forall|j: int| 0 <= j < self.next@.len() implies (#[trigger] self.next@[j]).1.level
                == self.level + 1 && wf(self.next@[j].1) by {
                if j != k {
                    assert(self.next@[j] == old(self).next@[j]);
                }
            }
            assert forall|a: int, b: int| 0 <= a < b < self.next@.len() implies (#[trigger] self.next@[a]).0@
                != (#[trigger] self.next@[b]).0@ by {
                if a != k && b != k {
                    assert(self.next@[a] == next0[a] && self.next@[b] == next0[b]);
                } else if a == k {
                    assert(self.next@[b] == next0[b]);
                    assert(next0[a].0@ == name@ || k == next0.len());
                } else {
                    assert(self.next@[a] == next0[a]);
                }
            }
            assert(self.current@ == old(self).current@);
            assert(parts[0] == name@);
            assert(self.next@[k as int].0@ == parts[0]);
        }
    }

    /// Renders this level and everything below it, and leaves it empty.
    pub fn render(&mut self) -> (r: String)
        ensures
            r@ == rendered(*old(self)),
            final(self).level == old(self).level,
            final(self).current@.len() == 0,
            final(self).next@.len() == 0,
            wf(*final(self)),
    {
        let mut t = MetricsTree::with_level(self.level);
        std::mem::swap(self, &mut t);
        render_tree(t)
    }
}

} // verus!
