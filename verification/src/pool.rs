//! The endpoint-pool engine: bootstrap validation, latency-ranked
//! selection, overload-triggered rotation, bounded retry, the per-method
//! TTL response cache, and the diagnostic broadcast.
//!
//! The pool never performs I/O itself: callers make the upstream calls and
//! hand the timed outcomes in as values, so every decision the pool takes
//! is verified for every outcome the transport can produce.

use vstd::prelude::*;
use vstd::pervasive::VecAdditionalExecFns;
use crate::types::{Blockchain, CacheOptions, CacheOptionsModel, Response, ResponseModel,
    ResponseInnerData, RPC, RpcModel, RpcRequest, RpcRequestModel, RpcResponse, RpcResponseModel,
    InnerDataModel};
use crate::errors::{PoolError, PoolErrorModel, TransportError, TransportErrorModel};
use crate::chain_id::{decode_chain_id, spec_decode_chain_id, decimal_digits, u64_to_decimal};

verus! {

/// The pool aggregate for one chain: its identity, the ordered endpoint
/// sequence (index 0 is the primary), the admission/rotation/retry
/// configuration, the cache configuration, and the per-method response
/// cache, one slot per method.
#[derive(Clone, Debug, PartialEq)]
pub struct ExecutionClient {
    pub chain_type: Blockchain,
    pub chain_id: String,
    pub rpc_urls: Vec<RPC>,
    pub max_connections: u64,
    pub max_responses: u64,
    pub max_retries: u64,
    pub cache: CacheOptions,
    pub response_results: Vec<(String, Response)>,
}

/// The mathematical model of a pool.
#[verifier::ext_equal]
pub struct ClientModel {
    pub chain_type: Blockchain,
    pub chain_id: Seq<char>,
    pub rpc_urls: Seq<RpcModel>,
    pub max_connections: u64,
    pub max_responses: u64,
    pub max_retries: u64,
    pub cache: CacheOptionsModel,
    pub response_results: Seq<(Seq<char>, ResponseModel)>,
}

impl DeepView for ExecutionClient {
    type V = ClientModel;

    open spec fn deep_view(&self) -> ClientModel {
        ClientModel {
            chain_type: self.chain_type,
            chain_id: self.chain_id@,
            rpc_urls: self.rpc_urls.deep_view(),
            max_connections: self.max_connections,
            max_responses: self.max_responses,
            max_retries: self.max_retries,
            cache: self.cache.deep_view(),
            response_results: self.response_results.deep_view(),
        }
    }
}

/// No two cache slots serve the same method.
pub open spec fn cache_keys_unique(entries: Seq<(Seq<char>, ResponseModel)>) -> bool {
    forall|i: int, j: int| 0 <= i < j < entries.len() ==> (#[trigger] entries[i]).0 != (
    #[trigger] entries[j]).0
}

/// A pool is well formed when it has at least one endpoint and its cache
/// holds at most one slot per method.
pub open spec fn wf_client(c: ClientModel) -> bool {
    &&& c.rpc_urls.len() >= 1
    &&& cache_keys_unique(c.response_results)
}

/// The cache slot for a method: the first entry with that key.
pub open spec fn cache_find(
    entries: Seq<(Seq<char>, ResponseModel)>,
    m: Seq<char>,
) -> Option<ResponseModel>
    decreases entries.len(),
{
    if entries.len() == 0 {
        None
    } else if entries[0].0 == m {
        Some(entries[0].1)
    } else {
        cache_find(entries.drop_first(), m)
    }
}

/// Whether some cache slot serves the method.
pub open spec fn cache_has_key(entries: Seq<(Seq<char>, ResponseModel)>, m: Seq<char>) -> bool {
    exists|i: int| 0 <= i < entries.len() && (#[trigger] entries[i]).0 == m
}

/// How a cache write relates the new slot sequence to the old one: an
/// existing slot for the method is overwritten in place, and a method
/// without a slot gains one at the end.
pub open spec fn cache_upserted(
    olds: Seq<(Seq<char>, ResponseModel)>,
    news: Seq<(Seq<char>, ResponseModel)>,
    m: Seq<char>,
    rec: ResponseModel,
) -> bool {
    &&& (forall|i: int| 0 <= i < olds.len() && (#[trigger] olds[i]).0 == m ==> news == olds.update(
        i,
        (m, rec),
    ))
    &&& (!cache_has_key(olds, m) ==> news == olds.push((m, rec)))
}

/// A cache write keeps the slots unique.
proof fn lemma_cache_upserted_unique(
    olds: Seq<(Seq<char>, ResponseModel)>,
    news: Seq<(Seq<char>, ResponseModel)>,
    m: Seq<char>,
    rec: ResponseModel,
)
    requires
        cache_keys_unique(olds),
        cache_upserted(olds, news, m, rec),
    ensures
        cache_keys_unique(news),
{
    if cache_has_key(olds, m) {
        let i = choose|i: int| 0 <= i < olds.len() && (#[trigger] olds[i]).0 == m;
        assert(news == olds.update(i, (m, rec)));
        assert forall|p: int, q: int| 0 <= p < q < news.len() implies (#[trigger] news[p]).0 != (
        #[trigger] news[q]).0 by {
            assert(olds[p].0 != olds[q].0);
        }
    } else {
        assert(news == olds.push((m, rec)));
        assert forall|p: int, q: int| 0 <= p < q < news.len() implies (#[trigger] news[p]).0 != (
        #[trigger] news[q]).0 by {
            if q == olds.len() {
                assert(news[p] == olds[p]);
                assert(!(olds[p].0 == m));
            } else {
                assert(olds[p].0 != olds[q].0);
            }
        }
    }
}

/// Whether a cached record is still fresh at `now`: within the TTL window,
/// the boundary itself included.
pub open spec fn fresh_at(rec: ResponseModel, now: u128, ttl: u128) -> bool {
    now <= rec.start_time + ttl
}

/// Behavior at the TTL boundary is pinned: a record whose elapsed time
/// equals the window exactly is still within it, and one past it by any
/// amount is not.
pub proof fn lemma_ttl_boundary(rec: ResponseModel, ttl: u128, now: u128)
    ensures
        now == rec.start_time + ttl ==> fresh_at(rec, now, ttl),
        now > rec.start_time + ttl ==> !fresh_at(rec, now, ttl),
{
}

/// The endpoint sequence after the primary is demoted: its success
/// counter is reset and it trades places with the last endpoint. With a
/// single endpoint only the reset remains.
pub open spec fn demoted(s: Seq<RpcModel>) -> Seq<RpcModel>
    recommends
        s.len() >= 1,
{
    let reset = RpcModel { response_counter: 0, ..s[0] };
    s.update(0, s[s.len() - 1]).update(s.len() - 1, reset)
}

/// The endpoint sequence after a rotation at a requested promotion rank:
/// the primary is demoted to the tail with its counter reset, and if the
/// rank is still ahead of the new tail position, the endpoint at that
/// rank is swapped into position 0.
pub open spec fn rotated(s: Seq<RpcModel>, idx: int) -> Seq<RpcModel>
    recommends
        s.len() >= 1,
        0 <= idx,
{
    let d = demoted(s);
    if idx < s.len() - 1 {
        d.update(0, d[idx]).update(idx, d[0])
    } else {
        d
    }
}

/// The endpoint sequence is ordered by its rolling latency average,
/// fastest first.
pub open spec fn sorted_by_latency(s: Seq<RpcModel>) -> bool {
    forall|i: int, j: int| 0 <= i <= j < s.len() ==> (#[trigger] s[i]).avg_response_time <= (
    #[trigger] s[j]).avg_response_time
}

/// Swapping two positions of a sequence keeps its multiset of elements.
proof fn lemma_swap_multiset<A>(s: Seq<A>, i: int, j: int)
    requires
        0 <= i <= j < s.len(),
    ensures
        s.update(i, s[j]).update(j, s[i]).to_multiset() == s.to_multiset(),
{
    broadcast use vstd::seq_lib::group_to_multiset_ensures;
    broadcast use vstd::seq_lib::to_multiset_insert;
    broadcast use vstd::seq_lib::to_multiset_remove;
    broadcast use vstd::multiset::group_multiset_axioms;

    if i == j {
        assert(s.update(i, s[j]).update(j, s[i]) =~= s);
    } else {
        let t = s.update(i, s[j]);
        let u = t.update(j, s[i]);
        assert(t =~= s.remove(i).insert(i, s[j]));
        assert(u =~= t.remove(j).insert(j, s[i]));
        assert(t[j] == s[j]);
        assert(s.contains(s[i])) by {
            assert(s[i] == s[i]);
        }
        assert(t.contains(t[j]));
        assert(u.to_multiset() =~= s.to_multiset());
    }
}

/// The model of one transport outcome.
pub open spec fn outcome_model(o: Result<Response, TransportError>) -> Result<
    ResponseModel,
    TransportErrorModel,
> {
    match o {
        Ok(r) => Ok(r.deep_view()),
        Err(e) => Err(e.deep_view()),
    }
}

/// The models of a sequence of transport outcomes.
pub open spec fn outcomes_model(os: Seq<Result<Response, TransportError>>) -> Seq<
    Result<ResponseModel, TransportErrorModel>,
> {
    os.map_values(|o: Result<Response, TransportError>| outcome_model(o))
}

/// The transport failure reported when no attempt was ever made.
pub open spec fn empty_transport_error() -> TransportErrorModel {
    TransportErrorModel { status_text: Seq::<char>::empty(), body: Seq::<char>::empty() }
}

/// What bounded retry delivers, given the outcomes of the attempts in
/// order: the first success within the budget, and otherwise the error of
/// the last attempt made — earlier errors are discarded.
pub open spec fn retry_outcome(
    os: Seq<Result<ResponseModel, TransportErrorModel>>,
    budget: nat,
    last: TransportErrorModel,
) -> Result<ResponseModel, TransportErrorModel>
    decreases budget,
{
    if budget == 0 || os.len() == 0 {
        Err(last)
    } else {
        match os.first() {
            Ok(r) => Ok(r),
            Err(e) => retry_outcome(os.drop_first(), (budget - 1) as nat, e),
        }
    }
}

/// A successful retry verdict is one of the given outcomes.
proof fn lemma_retry_outcome_ok_member(
    os: Seq<Result<ResponseModel, TransportErrorModel>>,
    budget: nat,
    last: TransportErrorModel,
)
    ensures
        retry_outcome(os, budget, last) matches Ok(rm) ==> exists|j: int|
            0 <= j < os.len() && os[j] == Ok::<ResponseModel, TransportErrorModel>(rm),
    decreases budget,
{
    if budget == 0 || os.len() == 0 {
    } else {
        match os.first() {
            Ok(r) => {
                assert(os[0] == Ok::<ResponseModel, TransportErrorModel>(r));
            },
            Err(e) => {
                lemma_retry_outcome_ok_member(os.drop_first(), (budget - 1) as nat, e);
                let v = retry_outcome(os, budget, last);
                if v is Ok {
                    let rm = v->Ok_0;
                    let j = choose|j: int|
                        0 <= j < os.drop_first().len() && os.drop_first()[j] == Ok::<
                            ResponseModel,
                            TransportErrorModel,
                        >(rm);
                    assert(os[j + 1] == Ok::<ResponseModel, TransportErrorModel>(rm));
                }
            },
        }
    }
}

/// The retry executor: hands back the first successful outcome within the
/// retry budget, and when every attempt failed, the error of the last
/// attempt made — earlier attempt errors are discarded.
pub fn execute_retries(outcomes: Vec<Result<Response, TransportError>>, max_retries: u64) -> (r:
    Result<Response, TransportError>)
    ensures
        outcome_model(r) == retry_outcome(
            outcomes_model(outcomes@),
            max_retries as nat,
            empty_transport_error(),
        ),
{
    let ghost orig = outcomes@;
    let mut rest = outcomes;
    let mut last: TransportError = TransportError::default();
    let mut attempts: u64 = 0;
    while attempts < max_retries && rest.len() > 0
        invariant
            attempts <= max_retries,
            orig == outcomes@,
            retry_outcome(outcomes_model(orig), max_retries as nat, empty_transport_error())
                == retry_outcome(
                outcomes_model(rest@),
                (max_retries - attempts) as nat,
                last.deep_view(),
            ),
        decreases max_retries - attempts,
    {
        let ghost pre = rest@;
        let o = rest.remove(0);
        proof {
            assert(outcomes_model(pre).first() == outcome_model(o));
            assert(outcomes_model(rest@) =~= outcomes_model(pre).drop_first());
        }
        match o {
            Ok(res) => {
                proof {
                    assert(outcomes_model(pre).len() == pre.len());
                }
                return Ok(res);
            },
            Err(e) => {
                last = e;
            },
        }
        attempts = attempts + 1;
    }
    proof {
        assert(outcomes_model(rest@).len() == rest@.len());
    }
    Err(last)
}

/// Whether the primary endpoint is overloaded: it exceeds the per-endpoint
/// concurrency ceiling or the success-count ceiling.
pub open spec fn overloaded(c: ClientModel) -> bool
    recommends
        c.rpc_urls.len() >= 1,
{
    c.rpc_urls[0].connections > c.max_connections || c.rpc_urls[0].response_counter
        > c.max_responses
}

/// The endpoint sequence after admission: one more in-flight request is
/// admitted through the primary.
pub open spec fn admitted(s: Seq<RpcModel>) -> Seq<RpcModel>
    recommends
        s.len() >= 1,
{
    s.update(0, RpcModel { connections: (s[0].connections + 1) as u64, ..s[0] })
}

/// The endpoint sequence after the success-path bookkeeping on the
/// primary: the admitted request leaves, the record joins the history,
/// the success counter grows, and the rolling mean is recomputed with the
/// new history length as denominator.
pub open spec fn bookkept(s: Seq<RpcModel>, res: ResponseModel) -> Seq<RpcModel>
    recommends
        s.len() >= 1,
        s[0].connections >= 1,
{
    let e = s[0];
    let hist = e.responses.push(res);
    s.update(
        0,
        RpcModel {
            connections: (e.connections - 1) as u64,
            response_counter: (e.response_counter + 1) as u64,
            avg_response_time: (((e.avg_response_time + res.time_taken) as int) / (
            hist.len() as int)) as u128,
            responses: hist,
            ..e
        },
    )
}

/// The machine limits a request must respect: counters must not wrap, the
/// history must not outgrow a vector, and the rolling-mean numerator must
/// fit its word for whichever endpoint is primary when a success lands.
pub open spec fn request_fits(
    c: ClientModel,
    os: Seq<Result<ResponseModel, TransportErrorModel>>,
) -> bool {
    forall|i: int|
        0 <= i < c.rpc_urls.len() ==> {
            let e = #[trigger] c.rpc_urls[i];
            &&& e.connections < u64::MAX
            &&& e.response_counter < u64::MAX
            &&& e.responses.len() < usize::MAX
            &&& forall|j: int|
                0 <= j < os.len() ==> ((#[trigger] os[j]) matches Ok(r)
                    ==> e.avg_response_time + r.time_taken <= u128::MAX)
        }
}

/// The cached record that answers a request at `now`, if its slot exists
/// and is still fresh.
pub open spec fn cache_hit(c: ClientModel, m: Seq<char>, now: u128) -> Option<ResponseModel> {
    match cache_find(c.response_results, m) {
        Some(rec) => if fresh_at(rec, now, c.cache.cache_clear) {
            Some(rec)
        } else {
            None
        },
        None => None,
    }
}

/// The response envelope for a served request: the request's own envelope
/// fields around the result, with no error.
pub open spec fn success_envelope(
    req: RpcRequestModel,
    result: Option<InnerDataModel>,
) -> RpcResponseModel {
    RpcResponseModel { jsonrpc: req.jsonrpc, result: result, id: req.id, error: None }
}

/// What bootstrap makes of one probe outcome: a transport failure aborts,
/// a payload that is not a 0x-prefixed hex text aborts as a decode error,
/// an answer naming a different chain than expected aborts as a
/// validation error naming both ids, and a matching answer passes.
pub open spec fn probe_verdict(
    expected: Seq<char>,
    o: Result<ResponseModel, TransportErrorModel>,
) -> Option<PoolErrorModel> {
    match o {
        Err(e) => Some(PoolErrorModel::Transport(e)),
        Ok(res) => match res.result {
            Some(InnerDataModel::Text(payload)) => match spec_decode_chain_id(payload) {
                Some(v) => if decimal_digits(v as nat) == expected {
                    None
                } else {
                    Some(
                        PoolErrorModel::Validation {
                            expected: expected,
                            actual: decimal_digits(v as nat),
                        },
                    )
                },
                None => Some(PoolErrorModel::Decode(payload)),
            },
            _ => Some(PoolErrorModel::Decode(Seq::<char>::empty())),
        },
    }
}

/// The verdict of the first failing probe, if any probe fails.
pub open spec fn first_probe_error(
    expected: Seq<char>,
    os: Seq<Result<ResponseModel, TransportErrorModel>>,
) -> Option<PoolErrorModel>
    decreases os.len(),
{
    if os.len() == 0 {
        None
    } else {
        match probe_verdict(expected, os.first()) {
            Some(e) => Some(e),
            None => first_probe_error(expected, os.drop_first()),
        }
    }
}

/// When no probe fails, every probe passed.
proof fn lemma_all_probes_pass(
    expected: Seq<char>,
    os: Seq<Result<ResponseModel, TransportErrorModel>>,
)
    requires
        first_probe_error(expected, os) is None,
    ensures
        forall|j: int| 0 <= j < os.len() ==> probe_verdict(expected, #[trigger] os[j]) is None,
    decreases os.len(),
{
    if os.len() > 0 {
        lemma_all_probes_pass(expected, os.drop_first());
        assert forall|j: int| 0 <= j < os.len() implies probe_verdict(
            expected,
            #[trigger] os[j],
        ) is None by {
            if j > 0 {
                assert(os.drop_first()[j - 1] == os[j]);
            }
        }
    }
}

/// The endpoint record bootstrap seeds from one validated probe: the
/// probe's latency as the initial average and the probe record as the
/// single history entry.
pub open spec fn seeded_endpoint(url: Seq<char>, res: ResponseModel) -> RpcModel {
    RpcModel {
        url: url,
        avg_response_time: res.time_taken,
        connections: 0,
        weight: 0,
        response_counter: 0,
        responses: seq![res],
    }
}

/// The endpoint records bootstrap seeds, one per candidate URL.
pub open spec fn seeded_rpcs(
    urls: Seq<Seq<char>>,
    os: Seq<Result<ResponseModel, TransportErrorModel>>,
) -> Seq<RpcModel>
    recommends
        os.len() == urls.len(),
{
    Seq::new(urls.len(), |i: int| seeded_endpoint(urls[i], os[i]->Ok_0))
}

/// The model of one entry of the diagnostic broadcast's answer.
pub open spec fn envelope_outcome_model(e: Result<RpcResponse, TransportError>) -> Result<
    RpcResponseModel,
    TransportErrorModel,
> {
    match e {
        Ok(resp) => Ok(resp.deep_view()),
        Err(t) => Err(t.deep_view()),
    }
}

/// How one broadcast answer entry mirrors one transport outcome: a success
/// is wrapped in the request's envelope, a failure is handed through.
pub open spec fn broadcast_entry(
    req: RpcRequestModel,
    o: Result<ResponseModel, TransportErrorModel>,
    e: Result<RpcResponseModel, TransportErrorModel>,
) -> bool {
    match o {
        Ok(resm) => e matches Ok(resp) && resp == success_envelope(req, resm.result),
        Err(em) => e matches Err(t) && t == em,
    }
}

/// Rotation never removes an endpoint: it keeps the sequence length and
/// the multiset of endpoint URLs; it only reorders and resets a counter.
pub proof fn lemma_rotation_preserves_endpoints(s: Seq<RpcModel>, idx: int)
    requires
        s.len() >= 1,
        0 <= idx,
    ensures
        rotated(s, idx).len() == s.len(),
        rotated(s, idx).map_values(|e: RpcModel| e.url).to_multiset() == s.map_values(
            |e: RpcModel| e.url,
        ).to_multiset(),
{
    let f = |e: RpcModel| e.url;
    let last = s.len() - 1;
    let m = s.map_values(f);
    let dm = m.update(0, m[last]).update(last, m[0]);
    assert(demoted(s).map_values(f) =~= dm);
    lemma_swap_multiset(m, 0, last);
    if idx < s.len() - 1 {
        assert(rotated(s, idx).map_values(f) =~= dm.update(0, dm[idx]).update(idx, dm[0]));
        lemma_swap_multiset(dm, 0, idx);
    }
}

impl ExecutionClient {
    /// Whether this pool is well formed.
    pub open spec fn wf(&self) -> bool {
        wf_client(self.deep_view())
    }

    /// The cached record for a method, if any slot serves it.
    fn cache_slot(&self, method: &String) -> (r: Option<&Response>)
        ensures
            match r {
                Some(rec) => cache_find(self.deep_view().response_results, method@) == Some(
                    rec.deep_view(),
                ),
                None => cache_find(self.deep_view().response_results, method@) is None,
            },
    {
        let ghost entries = self.deep_view().response_results;
        proof {
            assert(entries.skip(0) =~= entries);
        }
        let mut i: usize = 0;
        while i < self.response_results.len()
            invariant
                i <= self.response_results@.len(),
                entries == self.deep_view().response_results,
                entries.len() == self.response_results@.len(),
                cache_find(entries, method@) == cache_find(entries.skip(i as int), method@),
            decreases self.response_results@.len() - i,
        {
            let ghost suffix = entries.skip(i as int);
            proof {
                assert(suffix.first() == entries[i as int]);
                assert(suffix.drop_first() =~= entries.skip(i as int + 1));
            }
            let entry = &self.response_results[i];
            if entry.0 == *method {
                proof {
                    assert(entries[i as int].0 == method@);
                }
                return Some(&entry.1);
            }
            proof {
                assert(entries[i as int].0 != method@);
            }
            i = i + 1;
        }
        proof {
            assert(entries.skip(i as int).len() == 0);
        }
        None
    }

    /// The cached answer for a method if its slot is still fresh at `now`;
    /// a stale slot, or none, yields nothing. The lookup never mutates the
    /// pool, whatever it finds.
    pub fn cached_response(&self, method: &String, now: u128) -> (r: Option<Response>)
        ensures
            match cache_find(self.deep_view().response_results, method@) {
                Some(rec) => {
                    if fresh_at(rec, now, self.cache.cache_clear) {
                        r matches Some(res) && res.deep_view() == rec
                    } else {
                        r is None
                    }
                },
                None => r is None,
            },
    {
        match self.cache_slot(method) {
            Some(rec) => {
                if now < rec.start_time || now - rec.start_time <= self.cache.cache_clear {
                    Some(rec.duplicate())
                } else {
                    None
                }
            },
            None => None,
        }
    }

    /// Rotation: demotes the primary without re-sorting. A nonzero rank
    /// requests the rotation; the primary's success counter is reset and
    /// the primary trades places with the last endpoint, and if the rank
    /// is still ahead of the new tail position, the endpoint at that rank
    /// is swapped into position 0. A rank of zero leaves the pool
    /// untouched. Rotation is a pair of bounded swaps: it keeps every
    /// endpoint and deliberately does not restore global order.
    pub fn swap_rpcs(&mut self, idx: usize)
        requires
            old(self).wf(),
        ensures
            idx == 0 ==> *final(self) == *old(self),
            idx > 0 ==> final(self).deep_view().rpc_urls == rotated(
                old(self).deep_view().rpc_urls,
                idx as int,
            ),
            final(self).chain_type == old(self).chain_type,
            final(self).chain_id == old(self).chain_id,
            final(self).max_connections == old(self).max_connections,
            final(self).max_responses == old(self).max_responses,
            final(self).max_retries == old(self).max_retries,
            final(self).cache == old(self).cache,
            final(self).response_results == old(self).response_results,
            final(self).wf(),
    {
        let ghost s = self.deep_view().rpc_urls;
        if idx > 0 {
            let last = self.rpc_urls.len() - 1;
            let mut first = self.rpc_urls.remove(0);
            first.response_counter = 0;
            proof {
                assert(first.deep_view() == (RpcModel { response_counter: 0, ..s[0] }));
                assert(self.rpc_urls.deep_view() =~= s.drop_first());
            }
            if last == 0 {
                self.rpc_urls.insert(0, first);
                proof {
                    assert(self.rpc_urls.deep_view() =~= rotated(s, idx as int));
                }
            } else {
                let tail = self.rpc_urls.remove(last - 1);
                proof {
                    assert(tail.deep_view() == s[last as int]);
                    assert(self.rpc_urls.deep_view() =~= s.drop_first().drop_last());
                }
                self.rpc_urls.insert(0, tail);
                self.rpc_urls.push(first);
                proof {
                    assert(self.rpc_urls.deep_view() =~= demoted(s));
                }
                if idx < self.rpc_urls.len() - 1 {
                    let ghost d = demoted(s);
                    let front = self.rpc_urls.remove(0);
                    proof {
                        assert(front.deep_view() == d[0]);
                        assert(self.rpc_urls.deep_view() =~= d.drop_first());
                    }
                    let target = self.rpc_urls.remove(idx - 1);
                    proof {
                        assert(target.deep_view() == d[idx as int]);
                    }
                    self.rpc_urls.insert(0, target);
                    self.rpc_urls.insert(idx, front);
                    proof {
                        assert(self.rpc_urls.deep_view() =~= rotated(s, idx as int));
                    }
                } else {
                    proof {
                        assert(self.rpc_urls.deep_view() =~= rotated(s, idx as int));
                    }
                }
            }
        }
    }

    /// Full re-sort of the endpoint sequence, ascending by rolling latency
    /// average: the one operation that restores "index 0 is the fastest
    /// known endpoint".
    pub fn sort_rpcs(&mut self)
        ensures
            sorted_by_latency(final(self).deep_view().rpc_urls),
            final(self).deep_view().rpc_urls.to_multiset() == old(self).deep_view(
            ).rpc_urls.to_multiset(),
            final(self).deep_view().rpc_urls.len() == old(self).deep_view().rpc_urls.len(),
            sorted_by_latency(old(self).deep_view().rpc_urls) ==> final(self).rpc_urls@ == old(
                self,
            ).rpc_urls@,
            final(self).chain_type == old(self).chain_type,
            final(self).chain_id == old(self).chain_id,
            final(self).max_connections == old(self).max_connections,
            final(self).max_responses == old(self).max_responses,
            final(self).max_retries == old(self).max_retries,
            final(self).cache == old(self).cache,
            final(self).response_results == old(self).response_results,
    {
        let n = self.rpc_urls.len();
        if n <= 1 {
            return ;
        }
        let mut i: usize = 1;
        while i < n
            invariant
                1 <= i <= n,
                n == self.rpc_urls@.len(),
                sorted_by_latency(self.deep_view().rpc_urls.take(i as int)),
                sorted_by_latency(old(self).deep_view().rpc_urls) ==> self.rpc_urls@ == old(
                    self,
                ).rpc_urls@,
                self.deep_view().rpc_urls.to_multiset() == old(self).deep_view(
                ).rpc_urls.to_multiset(),
                self.chain_type == old(self).chain_type,
                self.chain_id == old(self).chain_id,
                self.max_connections == old(self).max_connections,
                self.max_responses == old(self).max_responses,
                self.max_retries == old(self).max_retries,
                self.cache == old(self).cache,
                self.response_results == old(self).response_results,
            decreases n - i,
        {
            let ghost dv = self.deep_view().rpc_urls;
            let key = self.rpc_urls[i].avg_response_time;
            let ghost snap = *self;
            let mut j: usize = i;
            while j > 0 && self.rpc_urls[j - 1].avg_response_time > key
                invariant
                    j <= i,
                    i < n,
                    n == self.rpc_urls@.len(),
                    *self == snap,
                    dv == self.deep_view().rpc_urls,
                    key == dv[i as int].avg_response_time,
                    forall|k: int| j <= k < i ==> (#[trigger] dv[k]).avg_response_time > key,
                decreases j,
            {
                j = j - 1;
            }
            proof {
                assert(j > 0 ==> dv[j - 1].avg_response_time <= key);
                if sorted_by_latency(old(self).deep_view().rpc_urls) {
                    // an already-sorted sequence never moves an element
                    assert(dv =~= old(self).deep_view().rpc_urls);
                    if j < i {
                        assert(dv[j as int].avg_response_time > key);
                        assert(dv[j as int].avg_response_time <= dv[i as int].avg_response_time);
                        assert(false);
                    }
                }
            }
            let ghost vseq = self.rpc_urls@;
            let x = self.rpc_urls.remove(i);
            proof {
                assert(x.deep_view() == dv[i as int]);
                assert(self.rpc_urls.deep_view() =~= dv.remove(i as int));
            }
            self.rpc_urls.insert(j, x);
            proof {
                let newdv = self.deep_view().rpc_urls;
                assert(newdv =~= dv.remove(i as int).insert(j as int, dv[i as int]));
                assert(forall|k: int| 0 <= k < j ==> newdv[k] == dv[k]);
                assert(newdv[j as int] == dv[i as int]);
                assert(forall|k: int| j < k <= i ==> newdv[k] == dv[k - 1]);
                assert forall|p: int, q: int| 0 <= p <= q < i + 1 implies (
                #[trigger] newdv[p]).avg_response_time <= (#[trigger] newdv[q]).avg_response_time by {
                    assert(sorted_by_latency(dv.take(i as int)));
                    if p < j && q < j {
                        assert(dv.take(i as int)[p] == dv[p]);
                        assert(dv.take(i as int)[q] == dv[q]);
                    } else if p < j && q == j {
                        assert(dv.take(i as int)[p] == dv[p]);
                        assert(dv.take(i as int)[j - 1] == dv[j - 1]);
                    } else if p < j && q > j {
                        assert(dv.take(i as int)[p] == dv[p]);
                        assert(dv.take(i as int)[q - 1] == dv[q - 1]);
                    } else if p == j {
                        if q > j {
                            assert(dv[q - 1].avg_response_time > key);
                        }
                    } else {
                        assert(dv.take(i as int)[p - 1] == dv[p - 1]);
                        assert(dv.take(i as int)[q - 1] == dv[q - 1]);
                    }
                }
                assert(sorted_by_latency(newdv.take(i + 1))) by {
                    assert(forall|k: int| 0 <= k < i + 1 ==> newdv.take(i + 1)[k] == newdv[k]);
                }
                broadcast use vstd::seq_lib::group_to_multiset_ensures;
                broadcast use vstd::seq_lib::to_multiset_insert;
                broadcast use vstd::seq_lib::to_multiset_remove;
                broadcast use vstd::multiset::group_multiset_axioms;

                assert(dv.contains(dv[i as int])) by {
                    assert(dv[i as int] == dv[i as int]);
                }
                assert(newdv.to_multiset() =~= dv.to_multiset());
                if sorted_by_latency(old(self).deep_view().rpc_urls) {
                    assert(j == i);
                    assert(self.rpc_urls@ =~= vseq);
                }
            }
            i = i + 1;
        }
        proof {
            assert(self.deep_view().rpc_urls.take(i as int) =~= self.deep_view().rpc_urls);
        }
    }

    /// Bootstrap: builds a validated pool from candidate URLs and the
    /// outcomes of one identity probe per URL. Probing is all-or-nothing:
    /// the first failed probe, undecodable payload, or chain-id mismatch
    /// aborts the whole construction and no pool is produced. On full
    /// agreement every endpoint is seeded with its probe latency and a
    /// single-entry history, the probe method's cache slot holds the last
    /// probe record, and the pool comes back sorted fastest-first.
    pub fn new(
        chain_type: Blockchain,
        chain_id: String,
        rpc_urls: Vec<String>,
        probe_results: Vec<Result<Response, TransportError>>,
        max_connections: u64,
        max_responses: u64,
        max_retries: u64,
        cache: CacheOptions,
    ) -> (r: Result<ExecutionClient, PoolError>)
        requires
            rpc_urls@.len() >= 1,
            rpc_urls@.len() == probe_results@.len(),
        ensures
            ({
                let expected = chain_id@;
                let os = outcomes_model(probe_results@);
                match first_probe_error(expected, os) {
                    Some(e) => r matches Err(pe) && pe.deep_view() == e,
                    None => r matches Ok(c) && {
                        let cm = c.deep_view();
                        &&& cm.chain_type == chain_type
                        &&& cm.chain_id == chain_id@
                        &&& sorted_by_latency(cm.rpc_urls)
                        &&& cm.rpc_urls.to_multiset() == seeded_rpcs(
                            rpc_urls.deep_view(),
                            os,
                        ).to_multiset()
                        &&& cm.rpc_urls.len() == rpc_urls@.len()
                        &&& cm.max_connections == max_connections
                        &&& cm.max_responses == max_responses
                        &&& cm.max_retries == max_retries
                        &&& cm.cache == cache.deep_view()
                        &&& cm.response_results.len() == 1
                        &&& cm.response_results[0].0 == "eth_chainId"@
                        &&& cm.response_results[0].1 == os[os.len() - 1]->Ok_0
                        &&& wf_client(cm)
                    },
                }
            }),
    {
        let ghost expected = chain_id@;
        let ghost os = outcomes_model(probe_results@);
        let ghost urls_model = rpc_urls.deep_view();
        let n = rpc_urls.len();
        let mut rpcs: Vec<RPC> = Vec::new();
        let mut i: usize = 0;
        proof {
            assert(os.skip(0) =~= os);
        }
        while i < n
            invariant
                i <= n,
                n == rpc_urls@.len(),
                probe_results@.len() == n,
                expected == chain_id@,
                os == outcomes_model(probe_results@),
                urls_model == rpc_urls.deep_view(),
                os.len() == n,
                first_probe_error(expected, os) == first_probe_error(expected, os.skip(i as int)),
                rpcs@.len() == i,
                forall|j: int| 0 <= j < i ==> (#[trigger] os[j]) is Ok,
                forall|j: int|
                    0 <= j < i ==> (#[trigger] rpcs@[j]).deep_view() == seeded_endpoint(
                        urls_model[j],
                        os[j]->Ok_0,
                    ),
            decreases n - i,
        {
            let ghost suffix = os.skip(i as int);
            proof {
                assert(suffix.first() == os[i as int]);
                assert(suffix.drop_first() =~= os.skip(i as int + 1));
                assert(os[i as int] == outcome_model(probe_results@[i as int]));
            }
            let pr = &probe_results[i];
            match pr {
                Err(e) => {
                    return Err(PoolError::Transport(e.duplicate()));
                },
                Ok(res) => {
                    proof {
                        assert(os[i as int] == Ok::<ResponseModel, TransportErrorModel>(
                            res.deep_view(),
                        ));
                    }
                    let payload = match &res.result {
                        Some(ResponseInnerData::Text(s)) => s,
                        _ => {
                            return Err(PoolError::Decode(String::new()));
                        },
                    };
                    let v = match decode_chain_id(payload.as_str()) {
                        Some(v) => v,
                        None => {
                            return Err(PoolError::Decode(payload.clone()));
                        },
                    };
                    let actual = u64_to_decimal(v);
                    if !(actual == chain_id) {
                        let err = PoolError::Validation { expected: chain_id.clone(), actual };
                        proof {
                            assert(err.deep_view() =~~= probe_verdict(
                                expected,
                                os[i as int],
                            )->Some_0);
                        }
                        return Err(err);
                    }
                    let mut history: Vec<Response> = Vec::new();
                    history.push(res.duplicate());
                    let rpc = RPC {
                        url: rpc_urls[i].clone(),
                        avg_response_time: res.time_taken,
                        connections: 0,
                        weight: 0,
                        response_counter: 0,
                        responses: history,
                    };
                    proof {
                        assert(rpc.deep_view() =~~= seeded_endpoint(
                            urls_model[i as int],
                            os[i as int]->Ok_0,
                        ));
                    }
                    rpcs.push(rpc);
                },
            }
            i = i + 1;
        }
        proof {
            assert(os.skip(i as int).len() == 0);
            assert(first_probe_error(expected, os) is None);
            lemma_all_probes_pass(expected, os);
            assert(os[n - 1] is Ok);
        }
        let lastrec = match &probe_results[n - 1] {
            Ok(res) => res.duplicate(),
            Err(_) => {
                proof {
                    assert(false);
                }
                Response::default()
            },
        };
        let mut response_results: Vec<(String, Response)> = Vec::new();
        response_results.push((String::from_str("eth_chainId"), lastrec));
        let mut client = ExecutionClient {
            chain_type,
            chain_id,
            rpc_urls: rpcs,
            max_connections,
            max_responses,
            max_retries,
            cache,
            response_results,
        };
        proof {
            assert(client.deep_view().rpc_urls =~= seeded_rpcs(urls_model, os));
        }
        client.sort_rpcs();
        Ok(client)
    }

    /// The diagnostic broadcast: one request was sent to every endpoint,
    /// bypassing selection and cache; the per-endpoint outcomes come back
    /// as a full per-endpoint answer list — successes wrapped in the
    /// request's envelope, failures handed through — with no agreement
    /// check between them. The pool itself is untouched.
    pub fn request_and_validate(
        &self,
        request: &RpcRequest,
        outcomes: Vec<Result<Response, TransportError>>,
    ) -> (rs: Vec<Result<RpcResponse, TransportError>>)
        requires
            outcomes@.len() == self.rpc_urls@.len(),
        ensures
            rs@.len() == outcomes@.len(),
            forall|i: int|
                0 <= i < rs@.len() ==> broadcast_entry(
                    request.deep_view(),
                    outcome_model(outcomes@[i]),
                    envelope_outcome_model(#[trigger] rs@[i]),
                ),
    {
        let mut rs: Vec<Result<RpcResponse, TransportError>> = Vec::new();
        let mut i: usize = 0;
        while i < outcomes.len()
            invariant
                i <= outcomes@.len(),
                rs@.len() == i,
                forall|j: int|
                    0 <= j < i ==> broadcast_entry(
                        request.deep_view(),
                        outcome_model(outcomes@[j]),
                        envelope_outcome_model(#[trigger] rs@[j]),
                    ),
            decreases outcomes@.len() - i,
        {
            let entry = match &outcomes[i] {
                Ok(res) => {
                    let result = match &res.result {
                        Some(d) => Some(d.duplicate()),
                        None => None,
                    };
                    let resp = RpcResponse {
                        jsonrpc: request.jsonrpc.clone(),
                        result,
                        id: request.id.duplicate(),
                        error: None,
                    };
                    proof {
                        assert(resp.deep_view() =~= success_envelope(
                            request.deep_view(),
                            res.deep_view().result,
                        ));
                    }
                    Ok(resp)
                },
                Err(e) => Err(e.duplicate()),
            };
            rs.push(entry);
            i = i + 1;
        }
        rs
    }

    /// Where the next request for a method would be dispatched at `now`:
    /// nowhere when a fresh cache slot would answer it, and otherwise the
    /// URL of the endpoint that will be primary once any overload
    /// rotation has run. A caller performing the transport attempts
    /// itself sends them to this URL and hands the outcomes to `request`.
    pub fn dispatch_url(&self, method: &String, now: u128) -> (r: Option<String>)
        requires
            self.wf(),
        ensures
            match cache_hit(self.deep_view(), method@, now) {
                Some(_) => r is None,
                None => r matches Some(u) && ({
                    let base = if overloaded(self.deep_view()) {
                        rotated(self.deep_view().rpc_urls, 1)
                    } else {
                        self.deep_view().rpc_urls
                    };
                    u@ == base[0].url
                }),
            },
    {
        match self.cached_response(method, now) {
            Some(_) => None,
            None => {
                let len = self.rpc_urls.len();
                if (self.rpc_urls[0].connections > self.max_connections
                    || self.rpc_urls[0].response_counter > self.max_responses) && len > 1 {
                    // after the rotation, rank 1 stands at the front: for a
                    // two-endpoint pool it is also the old tail, and for a
                    // larger pool the promotion puts it there
                    Some(self.rpc_urls[1].url.clone())
                } else {
                    Some(self.rpc_urls[0].url.clone())
                }
            },
        }
    }

    /// Serves one logical request. The per-method cache is consulted
    /// first: a fresh slot answers immediately and mutates nothing. On a
    /// miss, an overloaded primary is rotated away, the request is
    /// admitted through the (possibly new) primary, and the supplied
    /// transport outcomes — the results of the attempts made against the
    /// primary's URL, in order — feed bounded retry. A success is recorded
    /// in the primary's history and the cache, the rolling mean is
    /// recomputed, and the pool is re-sorted; when every attempt failed,
    /// the primary is rotated to the tail and the last attempt's error is
    /// surfaced, wrapped, with none of the success-path bookkeeping.
    pub fn request(
        &mut self,
        request: RpcRequest,
        now: u128,
        outcomes: Vec<Result<Response, TransportError>>,
    ) -> (r: Result<RpcResponse, PoolError>)
        requires
            old(self).wf(),
            request_fits(old(self).deep_view(), outcomes_model(outcomes@)),
        ensures
            final(self).wf(),
            ({
                let oldc = old(self).deep_view();
                let m = request.method@;
                let base = if overloaded(oldc) {
                    rotated(oldc.rpc_urls, 1)
                } else {
                    oldc.rpc_urls
                };
                let dispatched = admitted(base);
                let sel = retry_outcome(
                    outcomes_model(outcomes@),
                    oldc.max_retries as nat,
                    empty_transport_error(),
                );
                let newc = final(self).deep_view();
                match cache_hit(oldc, m, now) {
                    Some(rec) => {
                        &&& *final(self) == *old(self)
                        &&& (r matches Ok(resp) && resp.deep_view() == success_envelope(
                            request.deep_view(),
                            rec.result,
                        ))
                    },
                    None => match sel {
                        Ok(resm) => {
                            &&& (r matches Ok(resp) && resp.deep_view() == success_envelope(
                                request.deep_view(),
                                resm.result,
                            ))
                            &&& sorted_by_latency(newc.rpc_urls)
                            &&& newc.rpc_urls.to_multiset() == bookkept(
                                dispatched,
                                resm,
                            ).to_multiset()
                            &&& newc.rpc_urls.len() == oldc.rpc_urls.len()
                            &&& cache_upserted(
                                oldc.response_results,
                                newc.response_results,
                                m,
                                resm,
                            )
                            &&& newc.chain_type == oldc.chain_type
                            &&& newc.chain_id == oldc.chain_id
                            &&& newc.max_connections == oldc.max_connections
                            &&& newc.max_responses == oldc.max_responses
                            &&& newc.max_retries == oldc.max_retries
                            &&& newc.cache == oldc.cache
                        },
                        Err(em) => {
                            &&& (r matches Err(pe) && pe.deep_view()
                                == PoolErrorModel::RetriesExhausted(em))
                            &&& newc.rpc_urls == rotated(dispatched, 1)
                            &&& newc.response_results == oldc.response_results
                            &&& newc.chain_type == oldc.chain_type
                            &&& newc.chain_id == oldc.chain_id
                            &&& newc.max_connections == oldc.max_connections
                            &&& newc.max_responses == oldc.max_responses
                            &&& newc.max_retries == oldc.max_retries
                            &&& newc.cache == oldc.cache
                        },
                    },
                }
            }),
    {
        let ghost oldc = self.deep_view();
        match self.cached_response(&request.method, now) {
            Some(rec) => {
                let resp = RpcResponse {
                    jsonrpc: request.jsonrpc,
                    result: rec.result,
                    id: request.id,
                    error: None,
                };
                proof {
                    assert(resp.deep_view() =~= success_envelope(
                        request.deep_view(),
                        rec.deep_view().result,
                    ));
                }
                return Ok(resp);
            },
            None => {},
        }
        if self.rpc_urls[0].connections > self.max_connections || self.rpc_urls[0].response_counter
            > self.max_responses {
            self.swap_rpcs(1);
        }
        let ghost base = self.deep_view().rpc_urls;
        proof {
            assert(oldc.rpc_urls[0].connections < u64::MAX);
            assert(oldc.rpc_urls[oldc.rpc_urls.len() - 1].connections < u64::MAX);
            assert(base[0].connections < u64::MAX);
        }
        let conns = self.rpc_urls[0].connections;
        self.rpc_urls[0].connections = conns + 1;
        let ghost disp = self.deep_view().rpc_urls;
        proof {
            assert(disp =~= admitted(base));
        }
        let max_retries = self.max_retries;
        let picked = execute_retries(outcomes, max_retries);
        match picked {
            Ok(res) => {
                proof {
                    lemma_retry_outcome_ok_member(
                        outcomes_model(outcomes@),
                        max_retries as nat,
                        empty_transport_error(),
                    );
                    assert(outcome_model(picked) == Ok::<ResponseModel, TransportErrorModel>(
                        res.deep_view(),
                    ));
                    let j = choose|j: int|
                        0 <= j < outcomes_model(outcomes@).len() && outcomes_model(outcomes@)[j]
                            == Ok::<ResponseModel, TransportErrorModel>(res.deep_view());
                    assert(oldc.rpc_urls[0].avg_response_time + res.deep_view().time_taken
                        <= u128::MAX);
                    assert(oldc.rpc_urls[oldc.rpc_urls.len() - 1].avg_response_time
                        + res.deep_view().time_taken <= u128::MAX);
                    assert(oldc.rpc_urls[0].response_counter < u64::MAX);
                    assert(oldc.rpc_urls[oldc.rpc_urls.len() - 1].response_counter < u64::MAX);
                    assert(oldc.rpc_urls[0].responses.len() < usize::MAX);
                    assert(oldc.rpc_urls[oldc.rpc_urls.len() - 1].responses.len() < usize::MAX);
                    assert(disp[0].connections >= 1);
                }
                let c2 = self.rpc_urls[0].connections;
                self.rpc_urls[0].connections = c2 - 1;
                self.rpc_urls[0].responses.push(res.duplicate());
                let rc = self.rpc_urls[0].response_counter;
                self.rpc_urls[0].response_counter = rc + 1;
                let avg = self.rpc_urls[0].avg_response_time;
                let hist_len = self.rpc_urls[0].responses.len();
                self.rpc_urls[0].avg_response_time = (avg + res.time_taken) / (hist_len as u128);
                proof {
                    assert(self.deep_view().rpc_urls =~~= bookkept(disp, res.deep_view()));
                    assert(cache_keys_unique(self.deep_view().response_results));
                }
                self.cache_put(request.method, res.duplicate());
                proof {
                    lemma_cache_upserted_unique(
                        oldc.response_results,
                        self.deep_view().response_results,
                        request.method@,
                        res.deep_view(),
                    );
                }
                self.sort_rpcs();
                let resp = RpcResponse {
                    jsonrpc: request.jsonrpc,
                    result: res.result,
                    id: request.id,
                    error: None,
                };
                proof {
                    assert(resp.deep_view() =~= success_envelope(
                        request.deep_view(),
                        res.deep_view().result,
                    ));
                }
                Ok(resp)
            },
            Err(e) => {
                self.swap_rpcs(1);
                proof {
                    assert(outcome_model(picked) == Err::<ResponseModel, TransportErrorModel>(
                        e.deep_view(),
                    ));
                }
                Err(PoolError::RetriesExhausted(e))
            },
        }
    }

    /// Writes a record into the slot for a method, overwriting the slot in
    /// place if one exists and appending one otherwise. Endpoints and
    /// configuration are untouched.
    fn cache_put(&mut self, method: String, rec: Response)
        requires
            cache_keys_unique(old(self).deep_view().response_results),
        ensures
            cache_upserted(
                old(self).deep_view().response_results,
                final(self).deep_view().response_results,
                method@,
                rec.deep_view(),
            ),
            final(self).chain_type == old(self).chain_type,
            final(self).chain_id == old(self).chain_id,
            final(self).rpc_urls == old(self).rpc_urls,
            final(self).max_connections == old(self).max_connections,
            final(self).max_responses == old(self).max_responses,
            final(self).max_retries == old(self).max_retries,
            final(self).cache == old(self).cache,
    {
        let ghost entries = self.deep_view().response_results;
        let mut i: usize = 0;
        while i < self.response_results.len()
            invariant
                i <= self.response_results@.len(),
                entries == self.deep_view().response_results,
                entries.len() == self.response_results@.len(),
                forall|j: int| 0 <= j < i ==> (#[trigger] entries[j]).0 != method@,
                cache_keys_unique(entries),
                *self == *old(self),
            decreases self.response_results@.len() - i,
        {
            if self.response_results[i].0 == method {
                proof {
                    assert(entries[i as int].0 == method@);
                    assert(cache_has_key(entries, method@));
                }
                self.response_results.set(i, (method, rec));
                proof {
                    assert(self.deep_view().response_results =~= entries.update(
                        i as int,
                        (method@, rec.deep_view()),
                    ));
                    assert forall|k: int|
                        0 <= k < entries.len() && (#[trigger] entries[k]).0
                            == method@ implies self.deep_view().response_results == entries.update(
                        k,
                        (method@, rec.deep_view()),
                    ) by {
                        if k < i as int {
                            assert(entries[k].0 != method@);
                        }
                        if k > i as int {
                            assert(0 <= (i as int) && (i as int) < k && k < entries.len());
                            assert(entries[i as int].0 != entries[k].0);
                        }
                        assert(k == i as int);
                    }
                }
                return ;
            }
            i = i + 1;
        }
        self.response_results.push((method, rec));
        proof {
            assert(!cache_has_key(entries, method@));
            assert(self.deep_view().response_results =~= entries.push(
                (method@, rec.deep_view()),
            ));
        }
    }
}

} // verus!
