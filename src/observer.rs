//! The observer: takes counter, gauge and histogram observations and renders
//! them all at once.
use metrics_util::Quantile;
use vstd::multiset::Multiset;
use vstd::prelude::*;

use crate::key::{key_to_parts, leaf_name, split_dot, MetricKey};
use crate::outside::{reported_count, samples_of, Samples, new_histogram, quantile_label, record_sample, sample_count, value_at};
use crate::text::{decimal, format_i64, format_u64, signed_decimal};
use crate::tree::{inserted, lemma_empty_renders_nothing, rendered, texts, wf, MetricsTree};

verus! {

/// Renders metrics as an indented text tree.
pub struct TextObserver {
    /// The quantiles shown for every histogram, in this order.
    pub quantiles: Vec<Quantile>,
    /// Counters, gauges and flushed histograms, by path.
    pub structure: MetricsTree,
    /// One sample accumulator per histogram identity, in first-seen order.
    pub histos: Vec<(MetricKey, Samples)>,
}

/// The identities that hold a histogram.
pub open spec fn histo_keys(h: Seq<(MetricKey, Samples)>) -> Seq<
    (Seq<char>, Seq<(Seq<char>, Seq<char>)>),
> {
    h.map_values(|p: (MetricKey, Samples)| p.0.view())
}

/// Position of the first accumulator for identity `kv`, or the number of
/// accumulators if there is none.
pub open spec fn find_histo(
    h: Seq<(MetricKey, Samples)>,
    kv: (Seq<char>, Seq<(Seq<char>, Seq<char>)>),
) -> int
    decreases h.len(),
{
    if h.len() == 0 {
        0
    } else if h[0].0.view() == kv {
        0
    } else {
        1 + find_histo(h.drop_first(), kv)
    }
}

proof fn lemma_find_histo(
    h: Seq<(MetricKey, Samples)>,
    kv: (Seq<char>, Seq<(Seq<char>, Seq<char>)>),
    k: int,
)
    requires
        0 <= k <= h.len(),
        forall|j: int| 0 <= j < k ==> (#[trigger] h[j]).0.view() != kv,
        k < h.len() ==> h[k].0.view() == kv,
    ensures
        find_histo(h, kv) == k,
    decreases k,
{
    if k > 0 {
        let r = h.drop_first();
        assert forall|j: int| 0 <= j < k - 1 implies (#[trigger] r[j]).0.view() != kv by {
            assert(r[j] == h[j + 1]);
        }
        lemma_find_histo(r, kv, k - 1);
    }
}


/// The line of a scalar metric: `<name>: <value>`.
pub open spec fn scalar_line(name: Seq<char>, value: Seq<char>) -> Seq<char> {
    name + seq![':', ' '] + value
}

/// The lines of a histogram: its count, then one line per quantile label.
pub open spec fn hist_lines(
    name: Seq<char>,
    count: u64,
    labels: Seq<Seq<char>>,
    values: Seq<u64>,
) -> Seq<Seq<char>> {
    seq![name + seq![' ', 'c', 'o', 'u', 'n', 't', ':', ' '] + decimal(count as nat)] + Seq::new(
        labels.len(),
        |i: int| name + seq![' '] + labels[i] + seq![':', ' '] + decimal(values[i] as nat),
    )
}

/// Whether two identities have the same name and the same tags in the same order.
pub fn same_key(a: &MetricKey, b: &MetricKey) -> (r: bool)
    ensures
        r == (a.view() == b.view()),
{
    if a.name != b.name || a.labels.len() != b.labels.len() {
        proof {
            if a.view() == b.view() {
                assert(a.labels@.len() == a.view().1.len());
            }
        }
        return false;
    }
    let n = a.labels.len();
    let mut i: usize = 0;
    while i < n
        invariant
            n == a.labels@.len(),
            n == b.labels@.len(),
            i <= n,
            forall|j: int| 0 <= j < i ==> a.view().1[j] == #[trigger] b.view().1[j],
        decreases n - i,
    {
        if a.labels[i].0 != b.labels[i].0 || a.labels[i].1 != b.labels[i].1 {
            assert(a.view().1[i as int] != b.view().1[i as int]);
            return false;
        }
        i = i + 1;
    }
    assert(a.view().1 =~= b.view().1);
    true
}

/// The single line of a scalar metric.
pub fn single_value_to_values(name: String, value: String) -> (r: Vec<String>)
    ensures
        texts(r@) == seq![scalar_line(name@, value@)],
{
    let mut line = name;
    proof {
        reveal_strlit(": ");
    }
    line.append(": ");
    line.append(value.as_str());
    assert(line@ =~= scalar_line(name@, value@));
    let mut r: Vec<String> = Vec::new();
    r.push(line);
    assert(texts(r@) =~= seq![scalar_line(name@, value@)]);
    r
}

/// The lines of a histogram, from its sample count and the label and value of
/// each quantile.
pub fn hist_to_values(name: &String, count: u64, labels: &Vec<String>, values: &Vec<u64>) -> (r: Vec<
    String,
>)
    requires
        labels@.len() == values@.len(),
    ensures
        texts(r@) == hist_lines(name@, count, texts(labels@), values@),
{
    proof {
        reveal_strlit(" count: ");
        reveal_strlit(" ");
        reveal_strlit(": ");
    }
    let mut out: Vec<String> = Vec::new();
    let mut first = name.clone();
    first.append(" count: ");
    first.append(format_u64(count).as_str());
    assert(" count: "@ =~= seq![' ', 'c', 'o', 'u', 'n', 't', ':', ' ']);
    assert(first@ =~= name@ + seq![' ', 'c', 'o', 'u', 'n', 't', ':', ' '] + decimal(count as nat));
    out.push(first);
    let ghost want = hist_lines(name@, count, texts(labels@), values@);
    let n = labels.len();
    let mut i: usize = 0;
    assert(texts(out@) =~= want.take(1));
    while i < n
        invariant
            n == labels@.len(),
            n == values@.len(),
            i <= n,
            want == hist_lines(name@, count, texts(labels@), values@),
            texts(out@) == want.take(i + 1),
            " "@ == seq![' '],
            ": "@ == seq![':', ' '],
        decreases n - i,
    {
        let mut line = name.clone();
        line.append(" ");
        line.append(labels[i].as_str());
        line.append(": ");
        line.append(format_u64(values[i]).as_str());
        assert(line@ =~= want[i + 1]);
        let ghost prev = out@;
        out.push(line);
        assert(texts(out@) =~= texts(prev).push(line@));
        assert(want.take(i + 2) =~= want.take(i + 1).push(want[i + 1]));
        i = i + 1;
    }
    assert(want.take(n + 1) =~= want);
    out
}

/// `t` is `s0` after the lines of each accumulator of `hs` were inserted in
/// turn under its path: its count line, then one line for each of `nq`
/// quantiles with the label and the value read from the accumulator.
pub open spec fn flushed(s0: MetricsTree, hs: Seq<(MetricKey, Samples)>, nq: nat, t: MetricsTree) -> bool
    decreases hs.len(),
{
    if hs.len() == 0 {
        t == s0
    } else {
        exists|mid: MetricsTree, labels: Seq<Seq<char>>, vals: Seq<u64>|
            #[trigger] inserted(
                0,
                mid.current@,
                mid.next@,
                split_dot(hs.last().0.name@).drop_last(),
                hist_lines(leaf_name(hs.last().0.view()), reported_count(hs.last().1), labels, vals),
                t,
            ) && labels.len() == nq && vals.len() == nq && flushed(s0, hs.drop_last(), nq, mid)
    }
}

impl TextObserver {
    /// The observer's invariant: the tree is rooted at depth zero, and each
    /// histogram identity holds one accumulator.
    pub open spec fn inv(&self) -> bool {
        &&& self.structure.level == 0
        &&& wf(self.structure)
        &&& histo_keys(self.histos@).no_duplicates()
    }

    /// An observer with nothing recorded that shows the given quantiles.
    pub fn new(quantiles: Vec<Quantile>) -> (r: TextObserver)
        ensures
            r.inv(),
            r.quantiles == quantiles,
            r.structure.current@.len() == 0,
            r.structure.next@.len() == 0,
            r.histos@.len() == 0,
    {
        let r = TextObserver { quantiles, structure: MetricsTree::with_level(0), histos: Vec::new() };
        assert(histo_keys(r.histos@) =~= seq![]);
        r
    }

    /// Records `<leaf>: <value>` under the counter's path.
    pub fn observe_counter(&mut self, key: MetricKey, value: u64)
        requires
            old(self).inv(),
        ensures
            final(self).inv(),
            final(self).quantiles == old(self).quantiles,
            final(self).histos == old(self).histos,
            inserted(
                0,
                old(self).structure.current@,
                old(self).structure.next@,
                split_dot(key.name@).drop_last(),
                seq![scalar_line(leaf_name(key.view()), decimal(value as nat))],
                final(self).structure,
            ),
    {
        let (name_parts, name) = key_to_parts(key);
        let mut values = single_value_to_values(name, format_u64(value));
        assert(name_parts@.len() == name_parts.len());
        self.structure.insert(name_parts, &mut values);
    }

    /// Records `<leaf>: <value>` under the gauge's path.
    pub fn observe_gauge(&mut self, key: MetricKey, value: i64)
        requires
            old(self).inv(),
        ensures
            final(self).inv(),
            final(self).quantiles == old(self).quantiles,
            final(self).histos == old(self).histos,
            inserted(
                0,
                old(self).structure.current@,
                old(self).structure.next@,
                split_dot(key.name@).drop_last(),
                seq![scalar_line(leaf_name(key.view()), signed_decimal(value as int))],
                final(self).structure,
            ),
    {
        let (name_parts, name) = key_to_parts(key);
        let mut values = single_value_to_values(name, format_i64(value));
        assert(name_parts@.len() == name_parts.len());
        self.structure.insert(name_parts, &mut values);
    }
    /// Inserts a histogram's count line and quantile lines under its path,
    /// from the sample count and each quantile's label and value.
    pub fn insert_histogram_lines(
        &mut self,
        key: MetricKey,
        count: u64,
        labels: &Vec<String>,
        values: &Vec<u64>,
    )
        requires
            old(self).inv(),
            labels@.len() == values@.len(),
        ensures
            final(self).inv(),
            final(self).quantiles == old(self).quantiles,
            final(self).histos == old(self).histos,
            inserted(
                0,
                old(self).structure.current@,
                old(self).structure.next@,
                split_dot(key.name@).drop_last(),
                hist_lines(leaf_name(key.view()), count, texts(labels@), values@),
                final(self).structure,
            ),
    {
        let (name_parts, name) = key_to_parts(key);
        let mut lines = hist_to_values(&name, count, labels, values);
        assert(name_parts@.len() == name_parts.len());
        self.structure.insert(name_parts, &mut lines);
    }

    /// Adds `values` to the accumulator of the histogram `key`, creating it,
    /// last in order, on first use. Every other accumulator is left alone.
    pub fn observe_histogram(&mut self, key: MetricKey, values: &[u64]) -> (ok: bool)
        requires
            old(self).inv(),
        ensures
            ok,
            final(self).inv(),
            final(self).quantiles == old(self).quantiles,
            final(self).structure == old(self).structure,
            ({
                let h0 = old(self).histos@;
                let h1 = final(self).histos@;
                let k = find_histo(h0, key.view());
                &&& h1.len() == (if k < h0.len() { h0.len() } else { h0.len() + 1 })
                &&& forall|j: int| 0 <= j < h0.len() && j != k ==> h1[j] == h0[j]
                &&& h1[k].0.view() == key.view()
                &&& samples_of(h1[k].1) == (if k < h0.len() {
                    samples_of(h0[k].1)
                } else {
                    Multiset::empty()
                }).add(values@.to_multiset())
            }),
    {
        broadcast use vstd::seq_lib::group_to_multiset_ensures, vstd::multiset::group_multiset_axioms;
        let ghost keys0 = histo_keys(self.histos@);
        let mut k: usize = 0;
        while k < self.histos.len() && !same_key(&self.histos[k].0, &key)
            invariant
                k <= self.histos@.len(),
                self.histos@ == old(self).histos@,
                keys0 == histo_keys(self.histos@),
                forall|j: int| 0 <= j < k ==> (#[trigger] self.histos@[j]).0.view() != key.view(),
            decreases self.histos@.len() - k,
        {
            k = k + 1;
        }
        proof {
            lemma_find_histo(self.histos@, key.view(), k as int);
        }
        let found = k < self.histos.len();
        if found {
            assert(keys0[k as int] == key.view());
        } else {
            assert forall|j: int| 0 <= j < keys0.len() implies keys0[j] != key.view() by {
                assert(keys0[j] == self.histos@[j].0.view());
            }
        }
        let (entry_key, mut samples) = if found {
            self.histos.remove(k)
        } else {
            (key, new_histogram().unwrap())
        };
        let ghost kv = entry_key.view();
        let ghost base = samples_of(samples);
        assert(values@.take(0) =~= Seq::<u64>::empty());
        assert(base.add(values@.take(0).to_multiset()) =~= base);
        let mut i: usize = 0;
        while i < values.len()
            invariant
                i <= values@.len(),
                samples_of(samples) == base.add(values@.take(i as int).to_multiset()),
            decreases values@.len() - i,
        {
            let v = values[i];
            record_sample(&mut samples, v);
            assert(values@.take(i + 1) =~= values@.take(i as int).push(v));
            proof {
                vstd::seq_lib::to_multiset_build(values@.take(i as int), v);
            }
            assert(base.add(values@.take(i + 1).to_multiset()) =~= base.add(
                values@.take(i as int).to_multiset(),
            ).insert(v));
            i = i + 1;
        }
        assert(values@.take(i as int) =~= values@);
        if found {
            self.histos.insert(k, (entry_key, samples));
            assert(histo_keys(self.histos@) =~= keys0);
        } else {
            self.histos.push((entry_key, samples));
            assert(histo_keys(self.histos@) =~= keys0.push(kv));
            assert forall|a: int, b: int|
                0 <= a < b < histo_keys(self.histos@).len() implies histo_keys(self.histos@)[a]
                != histo_keys(self.histos@)[b] by {
                if b == keys0.len() {
                    assert(keys0[a] != kv);
                }
            }
        }
        true
    }

    /// Flushes every histogram into the tree as its count and quantile lines,
    /// then renders the whole tree and leaves the observer empty.
    pub fn drain(&mut self) -> (r: String)
        requires
            old(self).inv(),
        ensures
            final(self).inv(),
            final(self).quantiles == old(self).quantiles,
            final(self).histos@.len() == 0,
            final(self).structure.current@.len() == 0,
            final(self).structure.next@.len() == 0,
            exists|t: MetricsTree|
                #[trigger] flushed(old(self).structure, old(self).histos@, old(self).quantiles@.len(), t)
                    && r@ == rendered(t),
            old(self).histos@.len() == 0 ==> r@ == rendered(old(self).structure),
            old(self).histos@.len() == 0 && old(self).structure.current@.len() == 0
                && old(self).structure.next@.len() == 0 ==> r@.len() == 0,
    {
        let mut histos: Vec<(MetricKey, Samples)> = Vec::new();
        std::mem::swap(&mut self.histos, &mut histos);
        assert(histo_keys(self.histos@) =~= seq![]);
        let ghost s0 = self.structure;
        let ghost h0 = histos@;
        let ghost nq = self.quantiles@.len();
        let mut n: usize = 0;
        assert(h0.len() == histos.len());
        assert(h0.take(0) =~= Seq::<(MetricKey, Samples)>::empty());
        while histos.len() > 0
            invariant
                h0 == old(self).histos@,
                nq == old(self).quantiles@.len(),
                n + histos@.len() == h0.len(),
                h0.len() <= usize::MAX,
                histos@ == h0.skip(n as int),
                flushed(s0, h0.take(n as int), nq, self.structure),
                self.structure.level == 0,
                wf(self.structure),
                self.histos@.len() == 0,
                histo_keys(self.histos@).no_duplicates(),
                self.quantiles == old(self).quantiles,
                old(self).histos@.len() == 0 ==> self.structure == s0,
                s0 == old(self).structure,
                histos@.len() <= old(self).histos@.len(),
            decreases histos@.len(),
        {
            let (key, samples) = histos.remove(0);
            assert(h0[n as int] == (key, samples));
            let ghost mid = self.structure;
            let count = sample_count(&samples);
            let mut labels: Vec<String> = Vec::new();
            let mut vals: Vec<u64> = Vec::new();
            let mut i: usize = 0;
            while i < self.quantiles.len()
                invariant
                    i <= self.quantiles@.len(),
                    labels@.len() == i,
                    vals@.len() == i,
                decreases self.quantiles@.len() - i,
            {
                labels.push(quantile_label(&self.quantiles[i]));
                vals.push(value_at(&samples, &self.quantiles[i]));
                i = i + 1;
            }
            self.insert_histogram_lines(key, count, &labels, &vals);
            proof {
                let hs = h0.take(n + 1);
                assert(hs.drop_last() =~= h0.take(n as int));
                assert(hs.last() == h0[n as int]);
                assert(inserted(
                    0,
                    mid.current@,
                    mid.next@,
                    split_dot(hs.last().0.name@).drop_last(),
                    hist_lines(leaf_name(hs.last().0.view()), reported_count(hs.last().1), texts(labels@), vals@),
                    self.structure,
                ));
            }
            n = n + 1;
            assert(histos@ =~= h0.skip(n as int));
        }
        assert(h0.take(n as int) =~= h0);
        assert(histo_keys(self.histos@) =~= seq![]);
        let ghost t_final = self.structure;
        let r = self.structure.render();
        assert(flushed(s0, h0, nq, t_final) && r@ == rendered(t_final));
        proof {
            if old(self).histos@.len() == 0 && s0.current@.len() == 0 && s0.next@.len() == 0 {
                lemma_empty_renders_nothing(s0);
            }
        }
        r
    }
}

} // verus!
