use vstd::prelude::*;
use crate::text::text_eq;

pub mod broker;
pub mod delay_task;
pub mod raft;

verus! {

/// The label values of a sample, as text.
pub open spec fn label_views(labels: Seq<String>) -> Seq<Seq<char>> {
    labels.map_values(|s: String| s@)
}

/// One time series: a metric name, its label values in order, and its value.
pub struct Sample {
    pub name: String,
    pub labels: Vec<String>,
    pub value: i64,
}

pub open spec fn sample_is(s: Sample, name: Seq<char>, labels: Seq<Seq<char>>) -> bool {
    s.name@ == name && label_views(s.labels@) == labels
}

/// The position of the first sample of `s` for `(name, labels)`, or -1.
pub open spec fn first_sample(s: Seq<Sample>, name: Seq<char>, labels: Seq<Seq<char>>) -> int
    decreases s.len(),
{
    if s.len() == 0 {
        -1
    } else if first_sample(s.drop_last(), name, labels) >= 0 {
        first_sample(s.drop_last(), name, labels)
    } else if sample_is(s.last(), name, labels) {
        s.len() - 1
    } else {
        -1
    }
}

proof fn lemma_first_sample(s: Seq<Sample>, name: Seq<char>, labels: Seq<Seq<char>>)
    ensures
        -1 <= first_sample(s, name, labels) < s.len(),
        first_sample(s, name, labels) >= 0 ==> sample_is(s[first_sample(s, name, labels)], name, labels),
        first_sample(s, name, labels) >= 0 ==> forall|j: int| 0 <= j < first_sample(s, name, labels) ==> !sample_is(#[trigger] s[j], name, labels),
        first_sample(s, name, labels) < 0 ==> forall|j: int| 0 <= j < s.len() ==> !sample_is(#[trigger] s[j], name, labels),
    decreases s.len(),
{
    if s.len() > 0 {
        lemma_first_sample(s.drop_last(), name, labels);
        assert forall|j: int| 0 <= j < s.len() - 1 implies s[j] == s.drop_last()[j] by {}
    }
}

proof fn lemma_first_sample_char(s: Seq<Sample>, name: Seq<char>, labels: Seq<Seq<char>>, p: int)
    requires
        -1 <= p < s.len(),
        p >= 0 ==> sample_is(s[p], name, labels),
        p >= 0 ==> forall|j: int| 0 <= j < p ==> !sample_is(#[trigger] s[j], name, labels),
        p < 0 ==> forall|j: int| 0 <= j < s.len() ==> !sample_is(#[trigger] s[j], name, labels),
    ensures
        first_sample(s, name, labels) == p,
{
    lemma_first_sample(s, name, labels);
    let q = first_sample(s, name, labels);
    if q >= 0 && p >= 0 {
        if q < p {
            assert(!sample_is(s[q], name, labels));
        } else if p < q {
            assert(!sample_is(s[p], name, labels));
        }
    } else if q >= 0 {
        assert(!sample_is(s[q], name, labels));
    } else if p >= 0 {
        assert(!sample_is(s[p], name, labels));
    }
}

/// A copy of a list of label values.
fn copy_labels(v: &Vec<String>) -> (r: Vec<String>)
    ensures
        label_views(r@) == label_views(v@),
{
    let r = crate::text::copy_strings(v);
    r
}

fn labels_eq(a: &Vec<String>, b: &Vec<String>) -> (r: bool)
    ensures
        r == (label_views(a@) == label_views(b@)),
{
    if a.len() != b.len() {
        assert(label_views(a@).len() != label_views(b@).len());
        return false;
    }
    let mut i: usize = 0;
    while i < a.len()
        invariant
            a@.len() == b@.len(),
            i <= a@.len(),
            forall|j: int| 0 <= j < i ==> #[trigger] a@[j]@ == b@[j]@,
        decreases a@.len() - i,
    {
        if !text_eq(a[i].as_str(), b[i].as_str()) {
            assert(label_views(a@)[i as int] != label_views(b@)[i as int]);
            return false;
        }
        i += 1;
    }
    assert(label_views(a@) =~= label_views(b@));
    true
}

/// A registry of counters and gauges, each a value per metric name and label values.
pub struct MetricsRegistry {
    pub samples: Vec<Sample>,
}

impl MetricsRegistry {
    /// The value of metric `name` with label values `labels`, if it was ever touched.
    pub open spec fn get(&self, name: Seq<char>, labels: Seq<Seq<char>>) -> Option<i64> {
        let p = first_sample(self.samples@, name, labels);
        if p >= 0 {
            Some(self.samples@[p].value)
        } else {
            None
        }
    }

    /// `self` and `other` agree on every series but `(name, labels)`.
    pub open spec fn same_except(&self, other: &Self, name: Seq<char>, labels: Seq<Seq<char>>) -> bool {
        forall|n: Seq<char>, l: Seq<Seq<char>>|
            !(n == name && l == labels) ==> #[trigger] self.get(n, l) == other.get(n, l)
    }

    pub fn new() -> (r: MetricsRegistry)
        ensures
            forall|n: Seq<char>, l: Seq<Seq<char>>| #[trigger] r.get(n, l) is None,
    {
        MetricsRegistry { samples: Vec::new() }
    }

    fn position(&self, name: &str, labels: &Vec<String>) -> (r: Option<usize>)
        ensures
            match r {
                Some(i) => i < self.samples@.len() && i == first_sample(self.samples@, name@, label_views(labels@)),
                None => first_sample(self.samples@, name@, label_views(labels@)) < 0,
            },
    {
        let ghost lv = label_views(labels@);
        let mut i: usize = 0;
        while i < self.samples.len()
            invariant
                i <= self.samples@.len(),
                lv == label_views(labels@),
                forall|j: int| 0 <= j < i ==> !sample_is(#[trigger] self.samples@[j], name@, lv),
            decreases self.samples@.len() - i,
        {
            if text_eq(self.samples[i].name.as_str(), name) && labels_eq(&self.samples[i].labels, labels) {
                proof {
                    lemma_first_sample_char(self.samples@, name@, lv, i as int);
                }
                return Some(i);
            }
            i += 1;
        }
        proof {
            lemma_first_sample_char(self.samples@, name@, lv, -1);
        }
        None
    }

    /// The value of a series, if it was ever touched.
    pub fn value(&self, name: &str, labels: &Vec<String>) -> (r: Option<i64>)
        ensures
            r == self.get(name@, label_views(labels@)),
    {
        match self.position(name, labels) {
            Some(i) => Some(self.samples[i].value),
            None => None,
        }
    }

    /// Sets a series to `value`, creating it if needed.
    pub fn set(&mut self, name: &str, labels: &Vec<String>, value: i64)
        ensures
            final(self).get(name@, label_views(labels@)) == Some(value),
            final(self).same_except(old(self), name@, label_views(labels@)),
    {
        let ghost lv = label_views(labels@);
        let ghost before = self.samples@;
        match self.position(name, labels) {
            Some(i) => {
                self.samples[i].value = value;
                proof {
                    lemma_first_sample(before, name@, lv);
                    assert(sample_is(self.samples@[i as int], name@, lv));
                    assert forall|j: int| 0 <= j < i implies !sample_is(#[trigger] self.samples@[j], name@, lv) by {
                        assert(self.samples@[j] == before[j]);
                    }
                    lemma_first_sample_char(self.samples@, name@, lv, i as int);
                    assert forall|n: Seq<char>, l: Seq<Seq<char>>|
                        !(n == name@ && l == lv) implies #[trigger] self.get(n, l) == old(self).get(n, l) by {
                        lemma_first_sample(before, n, l);
                        let p = first_sample(before, n, l);
                        if p >= 0 {
                            assert forall|j: int| 0 <= j < p implies !sample_is(#[trigger] self.samples@[j], n, l) by {
                                assert(self.samples@[j].name == before[j].name && self.samples@[j].labels == before[j].labels);
                            }
                            assert(self.samples@[p].name == before[p].name && self.samples@[p].labels == before[p].labels);
                        } else {
                            assert forall|j: int| 0 <= j < self.samples@.len() implies !sample_is(#[trigger] self.samples@[j], n, l) by {
                                assert(self.samples@[j].name == before[j].name && self.samples@[j].labels == before[j].labels);
                            }
                        }
                        lemma_first_sample_char(self.samples@, n, l, p);
                        if p >= 0 && p == i {
                            assert(sample_is(before[p], n, l));
                            assert(sample_is(before[p], name@, lv));
                        }
                    }
                }
            },
            None => {
                let s = Sample { name: String::from_str(name), labels: copy_labels(labels), value };
                self.samples.push(s);
                proof {
                    lemma_first_sample(before, name@, lv);
                    assert(self.samples@.drop_last() =~= before);
                    assert forall|n: Seq<char>, l: Seq<Seq<char>>|
                        !(n == name@ && l == lv) implies #[trigger] self.get(n, l) == old(self).get(n, l) by {
                        lemma_first_sample(before, n, l);
                        let p = first_sample(before, n, l);
                        assert(self.samples@.drop_last() =~= before);
                        assert(self.samples@.last().name@ == name@);
                        assert(label_views(self.samples@.last().labels@) == lv);
                        assert(!sample_is(self.samples@.last(), n, l));
                        if p >= 0 {
                            assert(self.samples@[p] == before[p]);
                        }
                    }
                }
            },
        }
    }

    /// Adds one to a counter, creating it at one if needed; saturates at the
    /// largest value.
    pub fn inc(&mut self, name: &str, labels: &Vec<String>)
        ensures
            final(self).get(name@, label_views(labels@)) == Some(
                match old(self).get(name@, label_views(labels@)) {
                    Some(v) => if v == i64::MAX { v } else { (v + 1) as i64 },
                    None => 1i64,
                },
            ),
            final(self).same_except(old(self), name@, label_views(labels@)),
    {
        let next = match self.value(name, labels) {
            Some(v) => if v == i64::MAX { v } else { v + 1 },
            None => 1,
        };
        self.set(name, labels, next);
    }

    /// Registers a series at zero so that it is exported before its first event;
    /// an existing series keeps its value.
    pub fn touch(&mut self, name: &str, labels: &Vec<String>)
        ensures
            final(self).get(name@, label_views(labels@)) == Some(
                match old(self).get(name@, label_views(labels@)) {
                    Some(v) => v,
                    None => 0i64,
                },
            ),
            final(self).same_except(old(self), name@, label_views(labels@)),
    {
        let v = match self.value(name, labels) {
            Some(v) => v,
            None => 0,
        };
        self.set(name, labels, v);
    }
}

/// The value after one increment of a counter that held `v`.
pub open spec fn bumped(v: Option<i64>) -> i64 {
    match v {
        Some(x) => if x == i64::MAX { x } else { (x + 1) as i64 },
        None => 1i64,
    }
}

/// The label values `[a]`.
pub fn labels1(a: &str) -> (r: Vec<String>)
    ensures
        label_views(r@) == seq![a@],
{
    let mut r: Vec<String> = Vec::new();
    r.push(String::from_str(a));
    assert(label_views(r@) =~= seq![a@]);
    r
}

/// The label values `[a, b]`.
pub fn labels2(a: &str, b: &str) -> (r: Vec<String>)
    ensures
        label_views(r@) == seq![a@, b@],
{
    let mut r: Vec<String> = Vec::new();
    r.push(String::from_str(a));
    r.push(String::from_str(b));
    assert(label_views(r@) =~= seq![a@, b@]);
    r
}

/// No label values.
pub fn labels0() -> (r: Vec<String>)
    ensures
        label_views(r@) == Seq::<Seq<char>>::empty(),
{
    let r: Vec<String> = Vec::new();
    assert(label_views(r@) =~= Seq::<Seq<char>>::empty());
    r
}

} // verus!
