use vstd::prelude::*;

use crate::models::{RegionPingInfo, RegionPingInfoModel};
use crate::parameter_dictionary::{
    assoc_set, lemma_seq_get_push, lemma_seq_get_update, seq_get, seq_key_index, unique_keys,
};
use crate::text::str_eq;

verus! {

/// A list of region reports as an association list from region name to
/// report.
pub open spec fn cache_pairs(s: Seq<RegionPingInfo>) -> Seq<(Seq<char>, RegionPingInfoModel)> {
    s.map_values(|e: RegionPingInfo| (e@.region, e@))
}

/// The node's region ping cache: one entry per region, overwritten on
/// every fresh probe and never dropped while the node lives.
pub struct PingCache {
    entries: Vec<RegionPingInfo>,
}

impl PingCache {
    /// The cache as an association list from region name to report.
    pub closed spec fn model(&self) -> Seq<(Seq<char>, RegionPingInfoModel)> {
        cache_pairs(self.entries@)
    }

    pub open spec fn wf(&self) -> bool {
        unique_keys(self.model())
    }

    /// The report stored for a region.
    pub open spec fn spec_lookup(&self, name: Seq<char>) -> Option<RegionPingInfoModel> {
        seq_get(self.model(), name)
    }

    pub fn new() -> (r: PingCache)
        ensures
            r.wf(),
            r.model() == Seq::<(Seq<char>, RegionPingInfoModel)>::empty(),
    {
        let c = PingCache { entries: Vec::new() };
        proof {
            assert(c.model() =~= Seq::<(Seq<char>, RegionPingInfoModel)>::empty());
        }
        c
    }

    /// Position of the entry for `name`, where one is.
    fn find(&self, name: &str) -> (r: Option<usize>)
        ensures
            match r {
                Some(i) => i < self.model().len() && self.model()[i as int].0 == name@ && i
                    == seq_key_index(self.model(), name@) && seq_get(self.model(), name@)
                    == Some(self.model()[i as int].1),
                None => seq_get(self.model(), name@) is None,
            },
    {
        let n = self.entries.len();
        let mut i: usize = 0;
        proof {
            assert(self.model().skip(0) =~= self.model());
        }
        while i < n
            invariant
                i <= n,
                n == self.model().len(),
                n == self.entries@.len(),
                seq_get(self.model(), name@) == seq_get(self.model().skip(i as int), name@),
                seq_key_index(self.model(), name@) == i + seq_key_index(
                    self.model().skip(i as int),
                    name@,
                ),
                forall|j: int| 0 <= j < i ==> self.model()[j].0 != name@,
            decreases n - i,
        {
            proof {
                assert(self.model()[i as int] == (self.entries@[i as int]@.region,
                self.entries@[i as int]@));
                assert(self.model().skip(i as int)[0] == self.model()[i as int]);
            }
            if str_eq(self.entries[i].region.as_str(), name) {
                return Some(i);
            }
            proof {
                assert(self.model().skip(i as int).drop_first() =~= self.model().skip(i + 1));
            }
            i = i + 1;
        }
        None
    }

    /// Stores a fresh report for a region, measured now: an existing entry
    /// is overwritten, a new region appended.
    pub fn insert(&mut self, region: &str, latency_ms: u64, now_ms: u64)
        requires
            old(self).wf(),
        ensures
            final(self).wf(),
            final(self).model() == assoc_set(
                old(self).model(),
                region@,
                RegionPingInfoModel { region: region@, latency: latency_ms, last_updated: now_ms },
            ),
            final(self).spec_lookup(region@) == Some(
                RegionPingInfoModel { region: region@, latency: latency_ms, last_updated: now_ms },
            ),
            forall|other: Seq<char>|
                other != region@ ==> final(self).spec_lookup(other) == old(self).spec_lookup(
                    other,
                ),
    {
        let ghost m = RegionPingInfoModel {
            region: region@,
            latency: latency_ms,
            last_updated: now_ms,
        };
        let entry = RegionPingInfo {
            region: String::from_str(region),
            latency: latency_ms,
            last_updated: now_ms,
        };
        match self.find(region) {
            Some(i) => {
                self.entries[i] = entry;
                proof {
                    assert(final(self).model() =~= old(self).model().update(
                        seq_key_index(old(self).model(), region@),
                        (region@, m),
                    ));
                    lemma_seq_get_update(
                        old(self).model(),
                        seq_key_index(old(self).model(), region@),
                        region@,
                        m,
                    );
                }
            },
            None => {
                self.entries.push(entry);
                proof {
                    assert(final(self).model() =~= old(self).model().push((region@, m)));
                    lemma_seq_get_push(old(self).model(), region@, m);
                    crate::parameter_dictionary::lemma_absent_key_unique(
                        old(self).model(),
                        region@,
                    );
                    assert(unique_keys(final(self).model())) by {
                        let t = final(self).model();
                        assert forall|a: int, b: int| 0 <= a < b < t.len() implies t[a].0
                            != t[b].0 by {
                            if b < t.len() - 1 {
                                assert(old(self).model()[a].0 != old(self).model()[b].0);
                            }
                        }
                    }
                }
            },
        }
    }

    /// The cached reports: all of them when no region is named or the name
    /// is empty, else the one for the named region.
    pub fn snapshot(&self, target: Option<&str>) -> (r: Vec<RegionPingInfo>)
        ensures
            match target {
                None => r@.len() == self.model().len() && forall|i: int|
                    0 <= i < r@.len() ==> (#[trigger] r@[i])@ == self.model()[i].1,
                Some(name) => if name@.len() == 0 {
                    r@.len() == self.model().len() && forall|i: int|
                        0 <= i < r@.len() ==> (#[trigger] r@[i])@ == self.model()[i].1
                } else {
                    match seq_get(self.model(), name@) {
                        Some(m) => r@.len() == 1 && r@[0]@ == m,
                        None => r@.len() == 0,
                    }
                },
            },
    {
        let all = match target {
            None => true,
            Some(name) => name.unicode_len() == 0,
        };
        if all {
            let n = self.entries.len();
            let mut out: Vec<RegionPingInfo> = Vec::new();
            let mut i: usize = 0;
            while i < n
                invariant
                    i <= n,
                    n == self.entries@.len(),
                    out@.len() == i,
                    forall|j: int|
                        0 <= j < i ==> (#[trigger] out@[j])@ == cache_pairs(self.entries@)[j].1,
                decreases n - i,
            {
                proof {
                    assert(cache_pairs(self.entries@)[i as int].1 == self.entries@[i as int]@);
                }
                let copy = self.entries[i].duplicate();
                out.push(copy);
                i = i + 1;
            }
            out
        } else {
            let name = match target {
                Some(name) => name,
                None => unreached(),
            };
            let mut out: Vec<RegionPingInfo> = Vec::new();
            match self.find(name) {
                Some(i) => {
                    proof {
                        assert(self.model()[i as int].1 == self.entries@[i as int]@);
                    }
                    let copy = self.entries[i].duplicate();
                    out.push(copy);
                },
                None => {},
            }
            out
        }
    }
}

} // verus!
