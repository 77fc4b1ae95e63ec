//! The fingerprint tracker: the last fingerprint seen of each transmitter,
//! the transmitters whose fingerprint changed, and the counts reported at the
//! end of a run.
use vstd::prelude::*;
use crate::beacon::{Beacon, body_elements, is_beacon_control, is_header_address, parse};
use crate::element::{Element, ParseError, element_view, elements_view};

verus! {

/// A fingerprint as the contracts see it: ids and kept payloads, in order.
pub type FingerprintView = Seq<(u8, Seq<u8>)>;

/// The unstable set after `fp` was observed from `a` with history `h`: `a`
/// joins it when `h` held a different fingerprint for it.
pub open spec fn observed_unstable(
    h: Map<Seq<u8>, FingerprintView>,
    u: Set<Seq<u8>>,
    a: Seq<u8>,
    fp: FingerprintView,
) -> Set<Seq<u8>> {
    if h.contains_key(a) && h[a] != fp {
        u.insert(a)
    } else {
        u
    }
}

/// History and unstable set after a stream of observations, in order.
pub open spec fn replay(
    h: Map<Seq<u8>, FingerprintView>,
    u: Set<Seq<u8>>,
    obs: Seq<(Seq<u8>, FingerprintView)>,
) -> (Map<Seq<u8>, FingerprintView>, Set<Seq<u8>>)
    decreases obs.len(),
{
    if obs.len() == 0 {
        (h, u)
    } else {
        let (h1, u1) = replay(h, u, obs.drop_last());
        let (a, fp) = obs.last();
        (h1.insert(a, fp), observed_unstable(h1, u1, a, fp))
    }
}

/// A fingerprint without its SSID elements.
pub open spec fn without_ssid(fp: FingerprintView) -> FingerprintView {
    fp.filter(|e: (u8, Seq<u8>)| e.0 != 0)
}

/// `n` observations of `fp` from `a`.
pub open spec fn repeated(a: Seq<u8>, fp: FingerprintView, n: nat) -> Seq<(Seq<u8>, FingerprintView)> {
    Seq::new(n, |i: int| (a, fp))
}

/// Observing the same address with the same fingerprint any number of times,
/// when the history held no other fingerprint for it, leaves the unstable set
/// as it was and the history as after the first observation, so the unique
/// counts do not move either.
pub proof fn lemma_repeated_observation(
    h: Map<Seq<u8>, FingerprintView>,
    u: Set<Seq<u8>>,
    a: Seq<u8>,
    fp: FingerprintView,
    n: nat,
)
    requires
        n >= 1,
        !h.contains_key(a) || h[a] == fp,
    ensures
        replay(h, u, repeated(a, fp, n)) == (h.insert(a, fp), u),
        unique_count(replay(h, u, repeated(a, fp, n)).0) == unique_count(
            h.insert(a, fp),
        ),
    decreases n,
{
    let obs = repeated(a, fp, n);
    assert(obs.drop_last() =~= repeated(a, fp, (n - 1) as nat));
    assert(obs.last() == (a, fp));
    if n > 1 {
        lemma_repeated_observation(h, u, a, fp, (n - 1) as nat);
        assert(h.insert(a, fp).insert(a, fp) =~= h.insert(a, fp));
        assert(replay(h, u, obs) == (h.insert(a, fp).insert(a, fp), u));
    } else {
        assert(obs.drop_last() =~= Seq::<(Seq<u8>, FingerprintView)>::empty());
        assert(replay(h, u, obs.drop_last()) == (h, u));
        assert(observed_unstable(h, u, a, fp) == u);
    }
}

/// Observing an address with one fingerprint and then with a different one
/// puts the address in the unstable set, once, and leaves the second
/// fingerprint in the history.
pub proof fn lemma_changed_observation(
    h: Map<Seq<u8>, FingerprintView>,
    u: Set<Seq<u8>>,
    a: Seq<u8>,
    fp1: FingerprintView,
    fp2: FingerprintView,
)
    requires
        fp1 != fp2,
    ensures
        replay(h, u, seq![(a, fp1), (a, fp2)]) == (h.insert(a, fp2), u.insert(a)),
{
    let obs = seq![(a, fp1), (a, fp2)];
    assert(obs.drop_last() =~= seq![(a, fp1)]);
    assert(seq![(a, fp1)].drop_last() =~= Seq::<(Seq<u8>, FingerprintView)>::empty());
    assert(replay(h, u, Seq::<(Seq<u8>, FingerprintView)>::empty()) == (h, u));
    let u1 = observed_unstable(h, u, a, fp1);
    assert(replay(h, u, seq![(a, fp1)]) == (h.insert(a, fp1), u1));
    assert(h.insert(a, fp1)[a] == fp1);
    assert(replay(h, u, obs) == (h.insert(a, fp1).insert(a, fp2), u1.insert(a)));
    assert(h.insert(a, fp1).insert(a, fp2) =~= h.insert(a, fp2));
    assert(u.insert(a).insert(a) =~= u.insert(a));
}

/// The counts reported at the end of a run.
#[derive(Debug, Clone, Copy, PartialEq, Eq, Structural)]
pub struct Summary {
    /// Addresses whose fingerprint never changed.
    pub stable: usize,
    /// Addresses whose fingerprint changed at least once.
    pub unstable: usize,
    /// Distinct fingerprints among the last ones seen of each address.
    pub unique: usize,
    /// The same, with the SSID elements taken out first.
    pub unique_without_ssid: usize,
}

/// The last fingerprint seen of each address, and the addresses seen with
/// two different fingerprints.
pub struct Tracker {
    entries: Vec<([u8; 6], Vec<Element>)>,
    unstable_addrs: Vec<[u8; 6]>,
    history_model: Ghost<Map<Seq<u8>, FingerprintView>>,
    unstable_model: Ghost<Set<Seq<u8>>>,
}

/// Whether two addresses hold the same bytes.
fn addr_eq(a: &[u8; 6], b: &[u8; 6]) -> (r: bool)
    ensures
        r == (a@ == b@),
{
    let mut i: usize = 0;
    while i < 6
        invariant
            i <= 6,
            a@.len() == 6,
            b@.len() == 6,
            forall|k: int| 0 <= k < i ==> a@[k] == b@[k],
        decreases 6 - i,
    {
        if a[i] != b[i] {
            return false;
        }
        i = i + 1;
    }
    assert(a@ =~= b@);
    true
}

fn bytes_eq(a: &Vec<u8>, b: &Vec<u8>) -> (r: bool)
    ensures
        r == (a@ == b@),
{
    if a.len() != b.len() {
        return false;
    }
    let mut i: usize = 0;
    while i < a.len()
        invariant
            i <= a@.len(),
            a@.len() == b@.len(),
            forall|k: int| 0 <= k < i ==> a@[k] == b@[k],
        decreases a@.len() - i,
    {
        if a[i] != b[i] {
            return false;
        }
        i = i + 1;
    }
    assert(a@ =~= b@);
    true
}

/// Whether two fingerprints are structurally equal: same length, and the same
/// ids and payload bytes in the same order.
pub fn fingerprint_eq(a: &Vec<Element>, b: &Vec<Element>) -> (r: bool)
    ensures
        r == (elements_view(a@) == elements_view(b@)),
{
    if a.len() != b.len() {
        assert(elements_view(a@).len() != elements_view(b@).len());
        return false;
    }
    let mut i: usize = 0;
    while i < a.len()
        invariant
            i <= a@.len(),
            a@.len() == b@.len(),
            forall|k: int| 0 <= k < i ==> elements_view(a@)[k] == elements_view(b@)[k],
        decreases a@.len() - i,
    {
        if a[i].0 != b[i].0 || !bytes_eq(&a[i].1, &b[i].1) {
            assert(elements_view(a@)[i as int] != elements_view(b@)[i as int]);
            return false;
        }
        i = i + 1;
    }
    assert(elements_view(a@) =~= elements_view(b@));
    true
}

fn copy_bytes(v: &Vec<u8>) -> (r: Vec<u8>)
    ensures
        r@ == v@,
{
    let mut r: Vec<u8> = Vec::new();
    let mut i: usize = 0;
    while i < v.len()
        invariant
            i <= v@.len(),
            r@ == v@.subrange(0, i as int),
        decreases v@.len() - i,
    {
        r.push(v[i]);
        i = i + 1;
        assert(r@ =~= v@.subrange(0, i as int));
    }
    assert(v@.subrange(0, v@.len() as int) =~= v@);
    r
}

/// A copy of `fp` without its SSID elements.
pub fn strip_ssid(fp: &Vec<Element>) -> (r: Vec<Element>)
    ensures
        elements_view(r@) == without_ssid(elements_view(fp@)),
{
    let mut r: Vec<Element> = Vec::new();
    let mut i: usize = 0;
    while i < fp.len()
        invariant
            i <= fp@.len(),
            elements_view(r@) == without_ssid(elements_view(fp@.subrange(0, i as int))),
        decreases fp@.len() - i,
    {
        let ghost pre = elements_view(fp@.subrange(0, i as int));
        let ghost next = elements_view(fp@.subrange(0, i as int + 1));
        assert(next =~= pre.push(elements_view(fp@)[i as int]));
        proof {
            pre.lemma_filter_push(elements_view(fp@)[i as int], |e: (u8, Seq<u8>)| e.0 != 0);
        }
        if fp[i].0 != 0 {
            let ghost before = elements_view(r@);
            r.push((fp[i].0, copy_bytes(&fp[i].1)));
            assert(elements_view(r@) =~= before.push(elements_view(fp@)[i as int]));
        }
        i = i + 1;
    }
    assert(fp@.subrange(0, fp@.len() as int) =~= fp@);
    r
}

/// The number of distinct fingerprints in `fps`.
pub fn count_distinct(fps: &Vec<Vec<Element>>) -> (r: usize)
    ensures
        r == fps@.map_values(|f: Vec<Element>| elements_view(f@)).to_set().len(),
{
    let ghost views = fps@.map_values(|f: Vec<Element>| elements_view(f@));
    let mut count: usize = 0;
    let mut i: usize = 0;
    assert(views.subrange(0, 0).to_set() =~= Set::<FingerprintView>::empty());
    while i < fps.len()
        invariant
            i <= fps@.len(),
            views == fps@.map_values(|f: Vec<Element>| elements_view(f@)),
            count <= i,
            count == views.subrange(0, i as int).to_set().len(),
        decreases fps@.len() - i,
    {
        let ghost pre = views.subrange(0, i as int);
        assert(views.subrange(0, i as int + 1) =~= pre.push(views[i as int]));
        assert forall|x: FingerprintView|
            pre.push(views[i as int]).to_set().contains(x) <==> #[trigger] pre.to_set().insert(
                views[i as int],
            ).contains(x) by {
            if pre.push(views[i as int]).to_set().contains(x) {
                let k = choose|k: int|
                    0 <= k < pre.len() + 1 && #[trigger] pre.push(views[i as int])[k] == x;
                if k < pre.len() {
                    assert(pre[k] == x);
                }
            }
            if pre.to_set().contains(x) {
                let k = choose|k: int| 0 <= k < pre.len() && #[trigger] pre[k] == x;
                assert(pre.push(views[i as int])[k] == x);
            }
            if x == views[i as int] {
                assert(pre.push(views[i as int])[pre.len() as int] == x);
            }
        }
        assert(pre.push(views[i as int]).to_set() =~= pre.to_set().insert(views[i as int]));
        proof {
            broadcast use vstd::seq_lib::seq_to_set_is_finite;
        }
        let mut seen = false;
        let mut j: usize = 0;
        while j < i
            invariant
                j <= i < fps@.len(),
                views == fps@.map_values(|f: Vec<Element>| elements_view(f@)),
                seen == exists|k: int| 0 <= k < j && views[k] == views[i as int],
            decreases i - j,
        {
            assert(views[j as int] == elements_view(fps@[j as int]@));
            assert(views[i as int] == elements_view(fps@[i as int]@));
            if fingerprint_eq(&fps[j], &fps[i]) {
                seen = true;
            }
            j = j + 1;
        }
        if seen {
            proof {
                let k = choose|k: int| 0 <= k < i && views[k] == views[i as int];
                assert(pre[k] == views[i as int]);
                assert(pre.to_set().contains(views[i as int]));
            }
        } else {
            assert(!pre.to_set().contains(views[i as int])) by {
                if pre.to_set().contains(views[i as int]) {
                    let k = choose|k: int| 0 <= k < pre.len() && pre[k] == views[i as int];
                    assert(views[k] == views[i as int]);
                }
            }
            count = count + 1;
        }
        i = i + 1;
    }
    assert(views.subrange(0, fps@.len() as int) =~= views);
    count
}

/// The map that takes a fingerprint to the same fingerprint without SSID.
pub open spec fn ssid_stripper() -> spec_fn(FingerprintView) -> FingerprintView {
    |fp: FingerprintView| without_ssid(fp)
}

/// Distinct fingerprints among the values of a history.
pub open spec fn unique_count(h: Map<Seq<u8>, FingerprintView>) -> nat {
    h.values().len()
}

/// Distinct fingerprints among the values of a history once their SSID
/// elements are taken out.
pub open spec fn unique_count_without_ssid(h: Map<Seq<u8>, FingerprintView>) -> nat {
    h.values().map(ssid_stripper()).len()
}

/// A copy of a fingerprint.
fn copy_fingerprint(fp: &Vec<Element>) -> (r: Vec<Element>)
    ensures
        elements_view(r@) == elements_view(fp@),
{
    let mut r: Vec<Element> = Vec::new();
    let mut i: usize = 0;
    while i < fp.len()
        invariant
            i <= fp@.len(),
            elements_view(r@) == elements_view(fp@.subrange(0, i as int)),
        decreases fp@.len() - i,
    {
        let ghost before = elements_view(r@);
        r.push((fp[i].0, copy_bytes(&fp[i].1)));
        assert(elements_view(r@) =~= before.push(element_view(fp@[i as int])));
        assert(elements_view(fp@.subrange(0, i as int + 1)) =~= elements_view(
            fp@.subrange(0, i as int),
        ).push(element_view(fp@[i as int])));
        i = i + 1;
    }
    assert(fp@.subrange(0, fp@.len() as int) =~= fp@);
    r
}

impl Tracker {
    /// The history: the last fingerprint seen of each address.
    pub closed spec fn history(&self) -> Map<Seq<u8>, FingerprintView> {
        self.history_model@
    }

    /// The addresses seen with two different fingerprints.
    pub closed spec fn unstable(&self) -> Set<Seq<u8>> {
        self.unstable_model@
    }

    pub closed spec fn fingerprint_views(&self) -> Seq<FingerprintView> {
        self.entries@.map_values(|e: ([u8; 6], Vec<Element>)| elements_view(e.1@))
    }

    /// Each address is held once, and the models agree with the vectors.
    pub closed spec fn wf(&self) -> bool {
        &&& forall|i: int, j: int|
            0 <= i < j < self.entries@.len() ==> #[trigger] self.entries@[i].0@
                != #[trigger] self.entries@[j].0@
        &&& forall|i: int|
            #![trigger self.entries@[i]]
            0 <= i < self.entries@.len() ==> self.history_model@.contains_key(self.entries@[i].0@)
                && self.history_model@[self.entries@[i].0@] == elements_view(self.entries@[i].1@)
        &&& forall|a: Seq<u8>|
            #[trigger] self.history_model@.contains_key(a) ==> exists|i: int|
                0 <= i < self.entries@.len() && self.entries@[i].0@ == a
        &&& self.history_model@.dom().finite()
        &&& self.history_model@.dom().len() == self.entries@.len()
        &&& forall|i: int, j: int|
            0 <= i < j < self.unstable_addrs@.len() ==> #[trigger] self.unstable_addrs@[i]@
                != #[trigger] self.unstable_addrs@[j]@
        &&& forall|i: int|
            0 <= i < self.unstable_addrs@.len() ==> self.unstable_model@.contains(
                #[trigger] self.unstable_addrs@[i]@,
            )
        &&& forall|a: Seq<u8>|
            #[trigger] self.unstable_model@.contains(a) ==> exists|i: int|
                0 <= i < self.unstable_addrs@.len() && self.unstable_addrs@[i]@ == a
        &&& self.unstable_model@.finite()
        &&& self.unstable_model@.len() == self.unstable_addrs@.len()
        &&& self.unstable_model@.subset_of(self.history_model@.dom())
    }

    proof fn lemma_values_are_entries(&self)
        requires
            self.wf(),
        ensures
            self.fingerprint_views().to_set() == self.history().values(),
    {
        let e = self.fingerprint_views();
        let h = self.history_model@;
        assert forall|v: FingerprintView| e.to_set().contains(v) <==> #[trigger] h.values().contains(
            v,
        ) by {
            if e.to_set().contains(v) {
                let i = choose|i: int| 0 <= i < e.len() && e[i] == v;
                assert(self.entries@[i] == self.entries@[i]);
                assert(h.dom().contains(self.entries@[i].0@));
            }
            if h.values().contains(v) {
                let k = choose|k: Seq<u8>| #[trigger] h.dom().contains(k) && h[k] == v;
                assert(h.contains_key(k));
                let i = choose|i: int| 0 <= i < self.entries@.len() && self.entries@[i].0@ == k;
                assert(self.entries@[i] == self.entries@[i]);
                assert(e[i] == v);
            }
        }
        assert(e.to_set() =~= h.values());
    }

    /// The counts of the run so far: addresses whose fingerprint never
    /// changed, addresses whose fingerprint changed, and distinct last
    /// fingerprints, with and without their SSID elements.
    pub fn summarize(&self) -> (r: Summary)
        requires
            self.wf(),
        ensures
            r.stable == self.history().dom().len() - self.unstable().len(),
            r.unstable == self.unstable().len(),
            r.unique == unique_count(self.history()),
            r.unique_without_ssid == unique_count_without_ssid(self.history()),
    {
        proof {
            vstd::set_lib::lemma_len_subset(self.unstable_model@, self.history_model@.dom());
        }
        let ghost e = self.fingerprint_views();
        let mut all: Vec<Vec<Element>> = Vec::new();
        let mut stripped: Vec<Vec<Element>> = Vec::new();
        let mut i: usize = 0;
        while i < self.entries.len()
            invariant
                self.wf(),
                e == self.fingerprint_views(),
                i <= self.entries@.len(),
                all@.len() == i,
                stripped@.len() == i,
                all@.map_values(|f: Vec<Element>| elements_view(f@)) == e.subrange(0, i as int),
                stripped@.map_values(|f: Vec<Element>| elements_view(f@)) == e.subrange(
                    0,
                    i as int,
                ).map_values(ssid_stripper()),
            decreases self.entries@.len() - i,
        {
            let ghost a0 = all@;
            let ghost s0 = stripped@;
            all.push(copy_fingerprint(&self.entries[i].1));
            stripped.push(strip_ssid(&self.entries[i].1));
            assert(e[i as int] == elements_view(self.entries@[i as int].1@));
            assert(all@.map_values(|f: Vec<Element>| elements_view(f@)) =~= e.subrange(
                0,
                i as int + 1,
            ));
            let ghost sv = stripped@.map_values(|f: Vec<Element>| elements_view(f@));
            let ghost ev = e.subrange(0, i as int + 1).map_values(ssid_stripper());
            assert(ssid_stripper()(e[i as int]) == without_ssid(e[i as int]));
            assert forall|k: int| 0 <= k < i + 1 implies #[trigger] sv[k] == ev[k] by {
                if k < i {
                    assert(stripped@[k] == s0[k]);
                    assert(s0.map_values(|f: Vec<Element>| elements_view(f@))[k] == e.subrange(
                        0,
                        i as int,
                    ).map_values(ssid_stripper())[k]);
                }
            }
            assert(stripped@.map_values(|f: Vec<Element>| elements_view(f@)) =~= e.subrange(
                0,
                i as int + 1,
            ).map_values(ssid_stripper()));
            i = i + 1;
        }
        assert(e.subrange(0, self.entries@.len() as int) =~= e);
        let unique = count_distinct(&all);
        let unique_without_ssid = count_distinct(&stripped);
        proof {
            self.lemma_values_are_entries();
            e.lemma_to_set_map_commutes(ssid_stripper());
        }
        Summary {
            stable: self.entries.len() - self.unstable_addrs.len(),
            unstable: self.unstable_addrs.len(),
            unique,
            unique_without_ssid,
        }
    }

    /// Reads one captured 802.11 frame and, when it is a beacon that parses,
    /// observes its source and fingerprint. `Ok(false)` means the frame is not
    /// a beacon. A frame that is not observed leaves the tracker as it was.
    pub fn observe_frame(&mut self, frame: &[u8]) -> (r: Result<bool, ParseError>)
        requires
            old(self).wf(),
        ensures
            final(self).wf(),
            frame@.len() < 2 ==> r == Err::<bool, ParseError>(ParseError::Header),
            frame@.len() >= 2 && !is_beacon_control(frame@[0]) ==> r == Ok::<bool, ParseError>(
                false,
            ),
            frame@.len() >= 2 && is_beacon_control(frame@[0]) && frame@.len() < 24 ==> r == Err::<
                bool,
                ParseError,
            >(ParseError::Header),
            frame@.len() >= 24 && is_beacon_control(frame@[0]) ==> match body_elements(
                frame@.subrange(24, frame@.len() as int),
            ) {
                Err(e) => r == Err::<bool, ParseError>(e),
                Ok(fp) => r == Ok::<bool, ParseError>(true) && exists|src: Seq<u8>|
                    is_header_address(frame@, src) && final(self).history() == old(
                        self,
                    ).history().insert(src, fp) && final(self).unstable() == observed_unstable(
                        old(self).history(),
                        old(self).unstable(),
                        src,
                        fp,
                    ),
            },
            r != Ok::<bool, ParseError>(true) ==> final(self).history() == old(self).history()
                && final(self).unstable() == old(self).unstable(),
    {
        match parse(frame) {
            Ok(Some(b)) => {
                let Beacon { source, elements } = b;
                self.observe(source, elements);
                Ok(true)
            },
            Ok(None) => Ok(false),
            Err(e) => Err(e),
        }
    }

    /// The last fingerprint seen of `addr`, if any.
    pub fn fingerprint(&self, addr: &[u8; 6]) -> (r: Option<&Vec<Element>>)
        requires
            self.wf(),
        ensures
            match r {
                Some(f) => self.history().contains_key(addr@) && elements_view(f@)
                    == self.history()[addr@],
                None => !self.history().contains_key(addr@),
            },
    {
        match self.find(addr) {
            Some(i) => {
                assert(self.entries@[i as int] == self.entries@[i as int]);
                Some(&self.entries[i].1)
            },
            None => {
                proof {
                    if self.history_model@.contains_key(addr@) {
                        let k = choose|k: int|
                            0 <= k < self.entries@.len() && self.entries@[k].0@ == addr@;
                        assert(self.entries@[k].0@ != addr@);
                    }
                }
                None
            },
        }
    }

    /// Whether `addr` was seen with two different fingerprints.
    pub fn is_unstable(&self, addr: &[u8; 6]) -> (r: bool)
        requires
            self.wf(),
        ensures
            r == self.unstable().contains(addr@),
    {
        let mut i: usize = 0;
        while i < self.unstable_addrs.len()
            invariant
                self.wf(),
                i <= self.unstable_addrs@.len(),
                forall|k: int| 0 <= k < i ==> #[trigger] self.unstable_addrs@[k]@ != addr@,
            decreases self.unstable_addrs@.len() - i,
        {
            if addr_eq(&self.unstable_addrs[i], addr) {
                assert(self.unstable_model@.contains(self.unstable_addrs@[i as int]@));
                return true;
            }
            i = i + 1;
        }
        proof {
            if self.unstable_model@.contains(addr@) {
                let k = choose|k: int|
                    0 <= k < self.unstable_addrs@.len() && self.unstable_addrs@[k]@ == addr@;
                assert(self.unstable_addrs@[k]@ != addr@);
            }
        }
        false
    }

    /// An empty tracker.
    pub fn new() -> (r: Tracker)
        ensures
            r.wf(),
            r.history() == Map::<Seq<u8>, FingerprintView>::empty(),
            r.unstable() == Set::<Seq<u8>>::empty(),
    {
        Tracker {
            entries: Vec::new(),
            unstable_addrs: Vec::new(),
            history_model: Ghost(Map::empty()),
            unstable_model: Ghost(Set::empty()),
        }
    }

    fn find(&self, addr: &[u8; 6]) -> (r: Option<usize>)
        ensures
            match r {
                Some(i) => i < self.entries@.len() && self.entries@[i as int].0@ == addr@,
                None => forall|i: int|
                    0 <= i < self.entries@.len() ==> #[trigger] self.entries@[i].0@ != addr@,
            },
    {
        let mut i: usize = 0;
        while i < self.entries.len()
            invariant
                i <= self.entries@.len(),
                forall|k: int| 0 <= k < i ==> #[trigger] self.entries@[k].0@ != addr@,
            decreases self.entries@.len() - i,
        {
            if addr_eq(&self.entries[i].0, addr) {
                return Some(i);
            }
            i = i + 1;
        }
        None
    }

    /// Adds `addr`, which the history holds, to the unstable set.
    fn mark_unstable(&mut self, addr: &[u8; 6])
        requires
            old(self).wf(),
            old(self).history().contains_key(addr@),
        ensures
            final(self).wf(),
            final(self).history() == old(self).history(),
            final(self).unstable() == old(self).unstable().insert(addr@),
            final(self).entries@ == old(self).entries@,
    {
        let mut i: usize = 0;
        while i < self.unstable_addrs.len()
            invariant
                self.wf(),
                i <= self.unstable_addrs@.len(),
                forall|k: int| 0 <= k < i ==> #[trigger] self.unstable_addrs@[k]@ != addr@,
            decreases self.unstable_addrs@.len() - i,
        {
            if addr_eq(&self.unstable_addrs[i], addr) {
                assert(self.unstable_model@.insert(addr@) =~= self.unstable_model@);
                return;
            }
            i = i + 1;
        }
        assert(!self.unstable_model@.contains(addr@));
        let ghost mid = *self;
        self.unstable_addrs.push(*addr);
        self.unstable_model = Ghost(self.unstable_model@.insert(addr@));
        assert forall|a: Seq<u8>| #[trigger] self.unstable_model@.contains(a) implies exists|
            i: int,
        | 0 <= i < self.unstable_addrs@.len() && self.unstable_addrs@[i]@ == a by {
            if a == addr@ {
                assert(self.unstable_addrs@[self.unstable_addrs@.len() - 1]@ == a);
            } else {
                let k = choose|k: int|
                    0 <= k < mid.unstable_addrs@.len() && mid.unstable_addrs@[k]@ == a;
                assert(self.unstable_addrs@[k]@ == a);
            }
        }
        assert forall|j: int, k: int|
            0 <= j < k < self.unstable_addrs@.len() implies #[trigger] self.unstable_addrs@[j]@
            != #[trigger] self.unstable_addrs@[k]@ by {
            if k == mid.unstable_addrs@.len() {
                assert(mid.unstable_addrs@[j]@ != addr@);
            } else {
                assert(mid.unstable_addrs@[j]@ != mid.unstable_addrs@[k]@);
            }
        }
        assert forall|a: Seq<u8>| #[trigger]
            self.history_model@.contains_key(a) implies exists|k: int|
            0 <= k < self.entries@.len() && self.entries@[k].0@ == a by {
            assert(mid.history_model@.contains_key(a));
            let k = choose|k: int| 0 <= k < mid.entries@.len() && mid.entries@[k].0@ == a;
            assert(self.entries@[k].0@ == a);
        }
        assert forall|j: int|
            0 <= j < self.unstable_addrs@.len() implies self.unstable_model@.contains(
            #[trigger] self.unstable_addrs@[j]@,
        ) by {
            if j < mid.unstable_addrs@.len() {
                assert(mid.unstable_addrs@[j] == self.unstable_addrs@[j]);
            }
        }
    }

    /// Records that `source` sent a beacon with fingerprint `elements`. The
    /// history then holds `elements` for `source`; `source` joins the
    /// unstable set when the history held a different fingerprint for it.
    pub fn observe(&mut self, source: [u8; 6], elements: Vec<Element>)
        requires
            old(self).wf(),
        ensures
            final(self).wf(),
            final(self).history() == old(self).history().insert(source@, elements_view(elements@)),
            final(self).unstable() == observed_unstable(
                old(self).history(),
                old(self).unstable(),
                source@,
                elements_view(elements@),
            ),
            (final(self).history(), final(self).unstable()) == replay(
                old(self).history(),
                old(self).unstable(),
                seq![(source@, elements_view(elements@))],
            ),
    {
        let ghost fp = elements_view(elements@);
        proof {
            let obs = seq![(source@, fp)];
            assert(obs.drop_last() =~= Seq::<(Seq<u8>, FingerprintView)>::empty());
            assert(replay(self.history(), self.unstable(), obs.drop_last()) == (
            self.history(),
            self.unstable(),
            ));
        }
        match self.find(&source) {
            Some(i) => {
                if !fingerprint_eq(&self.entries[i].1, &elements) {
                    self.mark_unstable(&source);
                }
                let ghost mid = *self;
                self.entries.set(i, (source, elements));
                self.history_model = Ghost(self.history_model@.insert(source@, fp));
                assert(self.history_model@.dom() =~= mid.history_model@.dom());
                assert forall|j: int|
                    #![trigger self.entries@[j]]
                    0 <= j < self.entries@.len() implies self.history_model@.contains_key(
                        self.entries@[j].0@,
                    ) && self.history_model@[self.entries@[j].0@] == elements_view(
                        self.entries@[j].1@,
                    ) by {
                    if j != i {
                        assert(mid.entries@[j] == self.entries@[j]);
                        assert(mid.entries@[j].0@ != source@);
                    }
                }
                assert forall|a: Seq<u8>| #[trigger]
                    self.history_model@.contains_key(a) implies exists|k: int|
                    0 <= k < self.entries@.len() && self.entries@[k].0@ == a by {
                    let k = choose|k: int|
                        0 <= k < mid.entries@.len() && mid.entries@[k].0@ == a;
                    if k == i {
                        assert(self.entries@[k].0@ == a);
                    } else {
                        assert(self.entries@[k] == mid.entries@[k]);
                    }
                }
                assert forall|j: int, k: int|
                    0 <= j < k < self.entries@.len() implies #[trigger] self.entries@[j].0@
                    != #[trigger] self.entries@[k].0@ by {
                    assert(mid.entries@[j].0@ != mid.entries@[k].0@);
                }
                assert forall|a: Seq<u8>| #[trigger]
                    self.unstable_model@.contains(a) implies exists|k: int|
                    0 <= k < self.unstable_addrs@.len() && self.unstable_addrs@[k]@ == a by {
                    assert(mid.unstable_model@.contains(a));
                    let k = choose|k: int|
                        0 <= k < mid.unstable_addrs@.len() && mid.unstable_addrs@[k]@ == a;
                    assert(self.unstable_addrs@[k]@ == a);
                }
            },
            None => {
                let ghost mid = *self;
                assert(!self.history_model@.contains_key(source@));
                self.entries.push((source, elements));
                self.history_model = Ghost(self.history_model@.insert(source@, fp));
                let ghost n: int = self.entries@.len() - 1;
                assert forall|j: int|
                    #![trigger self.entries@[j]]
                    0 <= j < self.entries@.len() implies self.history_model@.contains_key(
                        self.entries@[j].0@,
                    ) && self.history_model@[self.entries@[j].0@] == elements_view(
                        self.entries@[j].1@,
                    ) by {
                    if j != n {
                        assert(mid.entries@[j] == self.entries@[j]);
                        assert(mid.entries@[j].0@ != source@);
                    }
                }
                assert forall|a: Seq<u8>| #[trigger]
                    self.history_model@.contains_key(a) implies exists|k: int|
                    0 <= k < self.entries@.len() && self.entries@[k].0@ == a by {
                    if a == source@ {
                        assert(self.entries@[n].0@ == a);
                    } else {
                        let k = choose|k: int|
                            0 <= k < mid.entries@.len() && mid.entries@[k].0@ == a;
                        assert(self.entries@[k] == mid.entries@[k]);
                    }
                }
                assert forall|j: int, k: int|
                    0 <= j < k < self.entries@.len() implies #[trigger] self.entries@[j].0@
                    != #[trigger] self.entries@[k].0@ by {
                    if k == n {
                        assert(mid.entries@[j].0@ != source@);
                    } else {
                        assert(mid.entries@[j].0@ != mid.entries@[k].0@);
                    }
                }
                assert forall|a: Seq<u8>| #[trigger]
                    self.unstable_model@.contains(a) implies exists|k: int|
                    0 <= k < self.unstable_addrs@.len() && self.unstable_addrs@[k]@ == a by {
                    assert(mid.unstable_model@.contains(a));
                    let k = choose|k: int|
                        0 <= k < mid.unstable_addrs@.len() && mid.unstable_addrs@[k]@ == a;
                    assert(self.unstable_addrs@[k]@ == a);
                }
            },
        }
    }
}

} // verus!
