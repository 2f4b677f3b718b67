//! Metric identities and their split into a tree path and a display name.
use std::collections::VecDeque;
use vstd::prelude::*;

use crate::tree::texts;

verus! {

/// A metric identity: a dot-separated name and its tags, in the order given.
pub struct MetricKey {
    pub name: String,
    pub labels: Vec<(String, String)>,
}

impl MetricKey {
    /// The name and the tags as plain text.
    pub open spec fn view(&self) -> (Seq<char>, Seq<(Seq<char>, Seq<char>)>) {
        (self.name@, label_texts(self.labels@))
    }
}

/// Tags as plain text pairs.
pub open spec fn label_texts(ls: Seq<(String, String)>) -> Seq<(Seq<char>, Seq<char>)> {
    ls.map_values(|p: (String, String)| (p.0@, p.1@))
}

/// The pieces of `s` between dots; there is always at least one.
pub open spec fn split_dot(s: Seq<char>) -> Seq<Seq<char>>
    decreases s.len(),
{
    if s.len() == 0 {
        seq![seq![]]
    } else {
        let p = split_dot(s.drop_last());
        if s.last() == '.' {
            p.push(seq![])
        } else {
            p.update(p.len() - 1, p.last().push(s.last()))
        }
    }
}

/// One tag written as `k="v"`.
pub open spec fn label_pair(l: (Seq<char>, Seq<char>)) -> Seq<char> {
    l.0 + seq!['=', '"'] + l.1 + seq!['"']
}

/// Tags written one after another, separated by commas.
pub open spec fn label_list(ls: Seq<(Seq<char>, Seq<char>)>) -> Seq<char>
    decreases ls.len(),
{
    if ls.len() == 0 {
        seq![]
    } else if ls.len() == 1 {
        label_pair(ls[0])
    } else {
        label_list(ls.drop_last()) + seq![','] + label_pair(ls.last())
    }
}

/// The suffix a tag set adds to a leaf name: nothing for no tags, else the
/// tags in braces.
pub open spec fn label_suffix(ls: Seq<(Seq<char>, Seq<char>)>) -> Seq<char> {
    if ls.len() == 0 {
        seq![]
    } else {
        seq!['{'] + label_list(ls) + seq!['}']
    }
}

/// The display name of a metric: its last name segment and its tag suffix.
pub open spec fn leaf_name(k: (Seq<char>, Seq<(Seq<char>, Seq<char>)>)) -> Seq<char> {
    split_dot(k.0).last() + label_suffix(k.1)
}

proof fn lemma_split_nonempty(s: Seq<char>)
    ensures
        split_dot(s).len() >= 1,
    decreases s.len(),
{
    if s.len() > 0 {
        lemma_split_nonempty(s.drop_last());
    }
}

/// Splits a metric identity into the path of segments above its leaf and the
/// leaf's display name.
pub fn key_to_parts(key: MetricKey) -> (r: (VecDeque<String>, String))
    ensures
        texts(r.0@) == split_dot(key.name@).drop_last(),
        r.1@ == leaf_name(key.view()),
{
    let s = key.name.as_str();
    let n = s.unicode_len();
    let mut parts: VecDeque<String> = VecDeque::new();
    let mut start: usize = 0;
    let mut i: usize = 0;
    assert(s@.take(0) =~= seq![]);
    assert(texts(parts@) =~= seq![]);
    while i < n
        invariant
            n == s@.len(),
            start <= i <= n,
            split_dot(s@.take(i as int)) == texts(parts@).push(s@.subrange(start as int, i as int)),
        decreases n - i,
    {
        let c = s.get_char(i);
        let ghost before = s@.take(i as int);
        assert(s@.take(i + 1).drop_last() =~= before);
        assert(s@.take(i + 1).last() == c);
        proof {
            lemma_split_nonempty(before);
        }
        if c == '.' {
            let piece = s.substring_char(start, i).to_owned();
            let ghost pv = parts@;
            parts.push_back(piece);
            assert(texts(parts@) =~= texts(pv).push(piece@));
            i = i + 1;
            start = i;
            assert(s@.subrange(start as int, i as int) =~= seq![]);
        } else {
            assert(s@.subrange(start as int, i + 1) =~= s@.subrange(start as int, i as int).push(c));
            i = i + 1;
        }
    }
    assert(s@.take(n as int) =~= s@);
    let leaf = s.substring_char(start, n).to_owned();
    assert(texts(parts@) =~= split_dot(s@).drop_last());
    let mut fname = leaf;
    let nl = key.labels.len();
    if nl > 0 {
        proof {
            reveal_strlit("{");
            reveal_strlit("}");
            reveal_strlit(",");
            reveal_strlit("=\"");
            reveal_strlit("\"");
        }
        let ghost ls = label_texts(key.labels@);
        fname.append("{");
        let ghost base = fname@;
        let mut j: usize = 0;
        while j < nl
            invariant
                nl == key.labels@.len(),
                ls == label_texts(key.labels@),
                j <= nl,
                fname@ == base + label_list(ls.take(j as int)),
                "{"@ == seq!['{'],
                ","@ == seq![','],
                "=\""@ == seq!['=', '"'],
                "\""@ == seq!['"'],
            decreases nl - j,
        {
            let ghost prev = fname@;
            if j > 0 {
                fname.append(",");
            }
            fname.append(key.labels[j].0.as_str());
            fname.append("=\"");
            fname.append(key.labels[j].1.as_str());
            fname.append("\"");
            assert(ls.take(j + 1).drop_last() =~= ls.take(j as int));
            assert(ls.take(j + 1).last() == ls[j as int]);
            if j == 0 {
                assert(label_list(ls.take(0)) =~= seq![]);
                assert(fname@ =~= base + label_list(ls.take(1)));
            } else {
                assert(fname@ =~= base + label_list(ls.take(j + 1)));
            }
            j = j + 1;
        }
        assert(ls.take(nl as int) =~= ls);
        fname.append("}");
        assert(fname@ =~= leaf_name(key.view()));
    } else {
        assert(fname@ =~= leaf_name(key.view()));
    }
    (parts, fname)
}

} // verus!
