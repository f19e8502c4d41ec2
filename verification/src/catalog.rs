//! The OTA channel catalog: releases published per channel.

use vstd::prelude::*;

use crate::text::{
    lemma_text_lt_total,
    lemma_text_lt_transitive, push_str, same_text, str_less, text_lt,
};

verus! {

/// One release published on an OTA channel.
#[derive(Debug)]
pub struct ChannelRelease {
    pub channel: String,
    pub version: String,
    /// RAUC `compatible` glob / machine family.
    pub compatible: String,
    pub bundle_url: String,
    pub sha256: Option<String>,
    /// Release time, whole seconds since the Unix epoch (UTC).
    pub released_at_secs: i64,
    /// Nanoseconds past `released_at_secs`.
    pub released_at_nanos: u32,
    pub notes: String,
    /// UX hint for clients: always reboot after install for A/B.
    pub install: String,
}

/// The releases the service announces.
#[derive(Debug)]
pub struct Catalog {
    pub releases: Vec<ChannelRelease>,
}

pub open spec fn channel_names(rs: Seq<ChannelRelease>) -> Seq<Seq<char>> {
    rs.map_values(|r: ChannelRelease| r.channel@)
}

/// Strictly increasing: sorted, and no name twice.
pub open spec fn sorted_unique(s: Seq<Seq<char>>) -> bool {
    forall|i: int, j: int| 0 <= i < j < s.len() ==> text_lt(#[trigger] s[i], #[trigger] s[j])
}

pub open spec fn strings_view(v: Seq<String>) -> Seq<Seq<char>> {
    v.map_values(|s: String| s@)
}

/// Position of the first release on `channel`.
pub open spec fn first_on(rs: Seq<ChannelRelease>, channel: Seq<char>) -> Option<int>
    decreases rs.len(),
{
    if rs.len() == 0 {
        None
    } else {
        match first_on(rs.drop_last(), channel) {
            Some(i) => Some(i),
            None => if rs.last().channel@ == channel {
                Some(rs.len() - 1)
            } else {
                None
            },
        }
    }
}

pub const DEV_DEFAULT_VERSION: &'static str = "0.1.0-dev.1";

/// `{base}/v1/channel/dev/bundle/{version}.raucb`.
pub open spec fn dev_bundle_url(base: Seq<char>, version: Seq<char>) -> Seq<char> {
    base + "/v1/channel/dev/bundle/"@ + version + ".raucb"@
}

proof fn lemma_insert_sorted(v: Seq<Seq<char>>, k: int, x: Seq<char>)
    requires
        sorted_unique(v),
        0 <= k <= v.len(),
        forall|m: int| 0 <= m < k ==> text_lt(#[trigger] v[m], x),
        k < v.len() ==> text_lt(x, v[k]),
    ensures
        sorted_unique(v.insert(k, x)),
{
    let w = v.insert(k, x);
    assert forall|i: int, j: int| 0 <= i < j < w.len() implies text_lt(#[trigger] w[i], #[trigger] w[j]) by {
        if j < k {
            assert(w[i] == v[i] && w[j] == v[j]);
        } else if j == k {
            assert(w[i] == v[i]);
        } else if i == k {
            assert(w[j] == v[j - 1]);
            if j - 1 > k {
                lemma_text_lt_transitive(x, v[k], v[j - 1]);
            }
        } else if i < k {
            assert(w[i] == v[i] && w[j] == v[j - 1]);
        } else {
            assert(w[i] == v[i - 1] && w[j] == v[j - 1]);
        }
    }
}

/// Adds `name` to a strictly increasing list unless it is there.
fn insert_sorted(names: &mut Vec<String>, name: &String)
    requires
        sorted_unique(strings_view(old(names)@)),
    ensures
        sorted_unique(strings_view(final(names)@)),
        strings_view(final(names)@).to_set() == strings_view(old(names)@).to_set().insert(name@),
{
    let ghost v = strings_view(names@);
    let mut k: usize = 0;
    while k < names.len() && str_less(names[k].as_str(), name.as_str())
        invariant
            k <= names@.len(),
            names@ == old(names)@,
            v == strings_view(names@),
            forall|m: int| 0 <= m < k ==> text_lt(#[trigger] v[m], name@),
        decreases names@.len() - k,
    {
        k = k + 1;
    }
    if k < names.len() && same_text(names[k].as_str(), name.as_str()) {
        proof {
            assert(v[k as int] == name@);
            assert(v.contains(name@));
            assert(v.to_set() =~= v.to_set().insert(name@));
        }
        return;
    }
    proof {
        if k < v.len() {
            assert(v[k as int] == names@[k as int]@);
            lemma_text_lt_total(v[k as int], name@);
        }
        lemma_insert_sorted(v, k as int, name@);
    }
    names.insert(k, name.clone());
    proof {
        assert(strings_view(names@) =~= v.insert(k as int, name@));
        assert forall|x: Seq<char>|
            strings_view(names@).to_set().contains(x) == v.to_set().insert(name@).contains(x) by {
            let w = v.insert(k as int, name@);
            if w.contains(x) {
                let j = choose|j: int| 0 <= j < w.len() && w[j] == x;
                if j < k {
                    assert(v[j] == x);
                } else if j > k {
                    assert(v[j - 1] == x);
                }
            }
            if v.contains(x) {
                let j = choose|j: int| 0 <= j < v.len() && v[j] == x;
                if j < k {
                    assert(w[j] == x);
                } else {
                    assert(w[j + 1] == x);
                }
            }
            if x == name@ {
                assert(w[k as int] == x);
            }
        }
        assert(strings_view(names@).to_set() =~= v.to_set().insert(name@));
    }
}

impl Catalog {
    /// The built-in **dev** channel: one release of `version` (by default
    /// `0.1.0-dev.1`) whose bundle is served under `base`, released at the
    /// given time.
    pub fn with_dev_defaults(
        base: &str,
        version: Option<&str>,
        released_at_secs: i64,
        released_at_nanos: u32,
    ) -> (r: Self)
        ensures
            r.releases@.len() == 1,
            ({
                let rel = r.releases@[0];
                let v = match version {
                    Some(v) => v@,
                    None => DEV_DEFAULT_VERSION@,
                };
                &&& rel.channel@ == "dev"@
                &&& rel.version@ == v
                &&& rel.compatible@ == "sigma-racer-wingman-*"@
                &&& rel.bundle_url@ == dev_bundle_url(base@, v)
                &&& rel.sha256 is None
                &&& rel.released_at_secs == released_at_secs
                &&& rel.released_at_nanos == released_at_nanos
                &&& rel.notes@ == "Dev channel sample — install updates and reboot when ready."@
                &&& rel.install@ == "reboot"@
            }),
    {
        let version: &str = match version {
            Some(v) => v,
            None => DEV_DEFAULT_VERSION,
        };
        let mut bundle_url = base.to_string();
        push_str(&mut bundle_url, "/v1/channel/dev/bundle/");
        push_str(&mut bundle_url, version);
        push_str(&mut bundle_url, ".raucb");
        let release = ChannelRelease {
            channel: "dev".to_string(),
            version: version.to_string(),
            compatible: "sigma-racer-wingman-*".to_string(),
            bundle_url,
            sha256: None,
            released_at_secs,
            released_at_nanos,
            notes: "Dev channel sample — install updates and reboot when ready.".to_string(),
            install: "reboot".to_string(),
        };
        let mut releases: Vec<ChannelRelease> = Vec::new();
        releases.push(release);
        Catalog { releases }
    }

    /// Channel names present in the catalog, sorted, each once.
    pub fn channels(&self) -> (r: Vec<String>)
        ensures
            sorted_unique(strings_view(r@)),
            strings_view(r@).to_set() == channel_names(self.releases@).to_set(),
    {
        let ghost cs = channel_names(self.releases@);
        let mut names: Vec<String> = Vec::new();
        let mut i: usize = 0;
        while i < self.releases.len()
            invariant
                i <= self.releases@.len(),
                cs == channel_names(self.releases@),
                sorted_unique(strings_view(names@)),
                strings_view(names@).to_set() == cs.take(i as int).to_set(),
            decreases self.releases@.len() - i,
        {
            insert_sorted(&mut names, &self.releases[i].channel);
            proof {
                assert(cs[i as int] == self.releases@[i as int].channel@);
                assert(cs.take(i + 1) =~= cs.take(i as int).push(cs[i as int]));
                assert forall|x: Seq<char>|
                    cs.take(i + 1).to_set().contains(x) == cs.take(i as int).to_set().insert(
                        cs[i as int],
                    ).contains(x) by {
                    let t = cs.take(i as int);
                    if t.contains(x) {
                        let j = choose|j: int| 0 <= j < t.len() && t[j] == x;
                        assert(cs.take(i + 1)[j] == x);
                    }
                    if x == cs[i as int] {
                        assert(cs.take(i + 1)[i as int] == x);
                    }
                    let u = cs.take(i + 1);
                    if u.contains(x) {
                        let j = choose|j: int| 0 <= j < u.len() && u[j] == x;
                        if j < i {
                            assert(t[j] == x);
                        }
                    }
                }
                assert(cs.take(i + 1).to_set() =~= cs.take(i as int).to_set().insert(cs[i as int]));
            }
            i = i + 1;
        }
        proof {
            assert(cs.take(0).to_set() =~= Set::empty());
            assert(cs.take(self.releases@.len() as int) =~= cs);
        }
        names
    }

    /// The first release on `channel`, if any.
    pub fn latest(&self, channel: &str) -> (r: Option<&ChannelRelease>)
        ensures
            match first_on(self.releases@, channel@) {
                Some(i) => r == Some(&self.releases@[i]),
                None => r is None,
            },
    {
        let ghost rs = self.releases@;
        let mut i: usize = 0;
        while i < self.releases.len()
            invariant
                i <= rs.len(),
                rs == self.releases@,
                first_on(rs.take(i as int), channel@) is None,
            decreases rs.len() - i,
        {
            proof {
                assert(rs.take(i + 1).drop_last() =~= rs.take(i as int));
            }
            if same_text(self.releases[i].channel.as_str(), channel) {
                proof {
                    lemma_first_on_prefix(rs, channel@, i as int);
                }
                return Some(&self.releases[i]);
            }
            i = i + 1;
        }
        proof {
            assert(rs.take(rs.len() as int) =~= rs);
        }
        None
    }
}

proof fn lemma_first_on_prefix(v: Seq<ChannelRelease>, channel: Seq<char>, i: int)
    requires
        0 <= i < v.len(),
        first_on(v.take(i), channel) is None,
        v[i].channel@ == channel,
    ensures
        first_on(v, channel) == Some(i),
    decreases v.len(),
{
    if v.len() - 1 > i {
        assert(v.drop_last().take(i) =~= v.take(i));
        lemma_first_on_prefix(v.drop_last(), channel, i);
    } else {
        assert(v.drop_last() =~= v.take(i));
    }
}

} // verus!
