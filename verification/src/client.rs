//! The fetch client: resolves one identifier through the cache first, and on
//! a miss prescribes exactly one paced network request.
//!
//! The client never performs I/O itself. [`Api::plan`] says whether the
//! store already answers, and if not, how long to pause and which URL to
//! fetch; [`Api::apply_response`] validates what the network returned and
//! inserts the record. The surrounding program sleeps, sends the request and
//! writes [`Api::store_bytes`] to disk after every successful insertion.

use vstd::prelude::*;

use vstd::string::StringExecFns;

use crate::codec::{deflate_of, enc_store, entries_ok};
use crate::record::{AppDetails, RecordV};
use crate::store::Cache;

verus! {

/// The fixed minimum delay between outbound requests.
pub const MIN_REQUEST_INTERVAL_MS: u64 = 1000;

/// Why a resolution failed.
#[derive(Clone, Debug, PartialEq, Eq)]
pub enum ApiError {
    /// No platform cache directory could be resolved; fatal to the run.
    DirectoryResolution,
    /// The cache file could not be written; the record lives only in memory.
    Persistence(String),
    /// The response body was not the expected shape; carries the raw body.
    ResponseFormat(String),
    /// The response held no entry for the requested identifier.
    MissingEntry,
    /// The response entry reported `success: false`.
    RemoteFailure,
    /// The response entry succeeded but carried no record.
    MissingPayload,
}

/// One entry of the catalog's response: a success flag and an optional record.
pub struct ApiResult {
    pub success: bool,
    pub data: Option<AppDetails>,
}

/// Mathematical value of an [`ApiResult`].
#[verifier::ext_equal]
pub ghost struct ApiResultV {
    pub success: bool,
    pub data: Option<RecordV>,
}

impl View for ApiResult {
    type V = ApiResultV;

    open spec fn view(&self) -> ApiResultV {
        ApiResultV {
            success: self.success,
            data: match self.data {
                Option::Some(r) => Option::Some(r@),
                Option::None => Option::None,
            },
        }
    }
}

/// A parsed response body: a mapping from identifier to [`ApiResult`].
pub struct ApiResponse {
    pub entries: Vec<(u64, ApiResult)>,
}

impl View for ApiResponse {
    type V = Seq<(u64, ApiResultV)>;

    open spec fn view(&self) -> Seq<(u64, ApiResultV)> {
        Seq::new(self.entries@.len(), |i: int| (self.entries@[i].0, self.entries@[i].1@))
    }
}

/// The first entry for `id`, if the response holds one.
pub open spec fn response_lookup(s: Seq<(u64, ApiResultV)>, id: u64) -> Option<ApiResultV>
    decreases s.len(),
{
    if s.len() == 0 {
        Option::None
    } else if s.first().0 == id {
        Option::Some(s.first().1)
    } else {
        response_lookup(s.drop_first(), id)
    }
}

proof fn lemma_response_lookup_at(s: Seq<(u64, ApiResultV)>, id: u64, i: int)
    requires
        0 <= i < s.len(),
        s[i].0 == id,
        forall|j: int| 0 <= j < i ==> s[j].0 != id,
    ensures
        response_lookup(s, id) == Option::Some(s[i].1),
    decreases s.len(),
{
    if i == 0 {
        assert(s.first() == s[0]);
    } else {
        assert(s.first().0 != id);
        assert(forall|j: int| 0 <= j < i - 1 ==> s.drop_first()[j] == s[j + 1]);
        lemma_response_lookup_at(s.drop_first(), id, i - 1);
        assert(s.drop_first()[i - 1] == s[i]);
    }
}

proof fn lemma_response_lookup_none(s: Seq<(u64, ApiResultV)>, id: u64)
    requires
        forall|j: int| 0 <= j < s.len() ==> s[j].0 != id,
    ensures
        response_lookup(s, id) is None,
    decreases s.len(),
{
    if s.len() > 0 {
        assert(s.first() == s[0]);
        assert(forall|j: int| 0 <= j < s.drop_first().len() ==> s.drop_first()[j] == s[j + 1]);
        lemma_response_lookup_none(s.drop_first(), id);
    }
}

/// A token-bucket-of-one pacer: at most one request per interval.
pub struct RateLimiter {
    /// When the most recently granted request was scheduled to go out.
    pub last_scheduled: Option<u64>,
    /// The minimum spacing between granted requests.
    pub min_interval_ms: u64,
}

/// When the next request may go out: the later of `now` and the last grant
/// plus the interval, saturating at the top of the clock.
pub open spec fn next_schedule(last: Option<u64>, min: u64, now: u64) -> int {
    match last {
        Option::None => now as int,
        Option::Some(t) => if t + min > now {
            if t + min <= u64::MAX {
                t + min
            } else {
                u64::MAX as int
            }
        } else {
            now as int
        },
    }
}

/// The pacing law: once a request has been granted at instant `t`, whatever
/// instant the next grant is asked for, it is scheduled no earlier than `t`
/// plus the interval (as long as that sum fits the clock).
pub proof fn lemma_consecutive_grants_spaced(t: u64, min: u64, now: u64)
    requires
        t + min <= u64::MAX,
    ensures
        next_schedule(Some(t), min, now) >= t + min,
        next_schedule(Some(t), min, now) >= now,
{
}

impl RateLimiter {
    pub fn new(min_interval_ms: u64) -> (r: RateLimiter)
        ensures
            r.last_scheduled is None,
            r.min_interval_ms == min_interval_ms,
    {
        RateLimiter { last_scheduled: None, min_interval_ms }
    }

    /// Grants the next request and returns how long to wait before it.
    ///
    /// Two consecutive grants are always at least the interval apart: the
    /// granted instant `now_ms + wait` is no earlier than the previous grant
    /// plus the interval, as long as that sum fits the clock.
    pub fn acquire(&mut self, now_ms: u64) -> (wait: u64)
        ensures
            final(self).min_interval_ms == old(self).min_interval_ms,
            now_ms + wait == next_schedule(
                old(self).last_scheduled,
                old(self).min_interval_ms,
                now_ms,
            ),
            final(self).last_scheduled == Some((now_ms + wait) as u64),
            old(self).last_scheduled is None ==> wait == 0,
            old(self).last_scheduled matches Some(t) ==> (t + old(self).min_interval_ms
                <= u64::MAX ==> now_ms + wait >= t + old(self).min_interval_ms),
    {
        let sched: u64 = match self.last_scheduled {
            Option::None => now_ms,
            Option::Some(t) => {
                let target: u64 = if t <= u64::MAX - self.min_interval_ms {
                    t + self.min_interval_ms
                } else {
                    u64::MAX
                };
                if target > now_ms {
                    target
                } else {
                    now_ms
                }
            },
        };
        let wait = sched - now_ms;
        self.last_scheduled = Some(sched);
        wait
    }
}

/// Decimal digit characters.
pub open spec fn dec_digit(d: int) -> char {
    if d == 0 {
        '0'
    } else if d == 1 {
        '1'
    } else if d == 2 {
        '2'
    } else if d == 3 {
        '3'
    } else if d == 4 {
        '4'
    } else if d == 5 {
        '5'
    } else if d == 6 {
        '6'
    } else if d == 7 {
        '7'
    } else if d == 8 {
        '8'
    } else {
        '9'
    }
}

/// The usual decimal spelling of a non-negative number.
pub open spec fn dec_rep(n: int) -> Seq<char>
    decreases n,
{
    if n < 0 {
        Seq::empty()
    } else if n < 10 {
        seq![dec_digit(n)]
    } else {
        dec_rep(n / 10).push(dec_digit(n % 10))
    }
}

fn digit_str(d: u64) -> (s: &'static str)
    requires
        d < 10,
    ensures
        s@ == seq![dec_digit(d as int)],
{
    match d {
        0 => {
            proof {
                reveal_strlit("0");
                assert("0"@ =~= seq![dec_digit(0int)]);
            }
            "0"
        },
        1 => {
            proof {
                reveal_strlit("1");
                assert("1"@ =~= seq![dec_digit(1int)]);
            }
            "1"
        },
        2 => {
            proof {
                reveal_strlit("2");
                assert("2"@ =~= seq![dec_digit(2int)]);
            }
            "2"
        },
        3 => {
            proof {
                reveal_strlit("3");
                assert("3"@ =~= seq![dec_digit(3int)]);
            }
            "3"
        },
        4 => {
            proof {
                reveal_strlit("4");
                assert("4"@ =~= seq![dec_digit(4int)]);
            }
            "4"
        },
        5 => {
            proof {
                reveal_strlit("5");
                assert("5"@ =~= seq![dec_digit(5int)]);
            }
            "5"
        },
        6 => {
            proof {
                reveal_strlit("6");
                assert("6"@ =~= seq![dec_digit(6int)]);
            }
            "6"
        },
        7 => {
            proof {
                reveal_strlit("7");
                assert("7"@ =~= seq![dec_digit(7int)]);
            }
            "7"
        },
        8 => {
            proof {
                reveal_strlit("8");
                assert("8"@ =~= seq![dec_digit(8int)]);
            }
            "8"
        },
        _ => {
            proof {
                reveal_strlit("9");
                assert("9"@ =~= seq![dec_digit(9int)]);
            }
            "9"
        },
    }
}

fn push_decimal(out: &mut String, n: u64)
    ensures
        final(out)@ == old(out)@ + dec_rep(n as int),
    decreases n,
{
    if n < 10 {
        out.append(digit_str(n));
        proof {
            assert(out@ =~= old(out)@ + dec_rep(n as int));
        }
    } else {
        push_decimal(out, n / 10);
        out.append(digit_str(n % 10));
        proof {
            assert(n as int / 10 == (n / 10) as int);
            assert(out@ =~= old(out)@ + dec_rep(n as int));
        }
    }
}

/// The characters of the catalog URL for `id`.
pub open spec fn url_of(id: u64) -> Seq<char> {
    "https://store.steampowered.com/api/appdetails?appids="@ + dec_rep(id as int) + "&l=en"@
}

/// The catalog endpoint queried on a cache miss, asking for one identifier
/// in the fixed locale.
pub fn request_url(id: u64) -> (s: String)
    ensures
        s@ == url_of(id),
{
    let mut s = String::new();
    s.append("https://store.steampowered.com/api/appdetails?appids=");
    push_decimal(&mut s, id);
    s.append("&l=en");
    proof {
        assert(s@ =~= url_of(id));
    }
    s
}

/// What a single resolution step requires of the surrounding program.
#[derive(Debug, PartialEq, Eq)]
pub enum FetchPlan {
    /// The store already holds the record: answer from it, touch nothing.
    Hit,
    /// A miss: wait `wait_ms`, then issue one GET against `url`.
    Fetch { wait_ms: u64, url: String },
}

/// The fetch context: the store together with the request pacer.
pub struct Api {
    cache: Cache,
    limiter: RateLimiter,
}

impl Api {
    /// The mapping the store currently holds.
    pub closed spec fn store(&self) -> Map<u64, RecordV> {
        self.cache@
    }

    pub closed spec fn store_entries(&self) -> Seq<(u64, RecordV)> {
        self.cache.entry_seq()
    }

    pub closed spec fn scheduled(&self) -> Option<u64> {
        self.limiter.last_scheduled
    }

    pub closed spec fn interval(&self) -> u64 {
        self.limiter.min_interval_ms
    }

    pub closed spec fn wf(&self) -> bool {
        self.cache.wf()
    }

    /// A client over `cache` with the standard one-second pacing.
    pub fn new(cache: Cache) -> (a: Api)
        requires
            cache.wf(),
        ensures
            a.wf(),
            a.store() == cache@,
            a.store_entries() == cache.entry_seq(),
            a.scheduled() is None,
            a.interval() == MIN_REQUEST_INTERVAL_MS,
    {
        Api { cache, limiter: RateLimiter::new(MIN_REQUEST_INTERVAL_MS) }
    }

    /// A client with a chosen pacing interval.
    pub fn with_interval(cache: Cache, min_interval_ms: u64) -> (a: Api)
        requires
            cache.wf(),
        ensures
            a.wf(),
            a.store() == cache@,
            a.store_entries() == cache.entry_seq(),
            a.scheduled() is None,
            a.interval() == min_interval_ms,
    {
        Api { cache, limiter: RateLimiter::new(min_interval_ms) }
    }

    /// The record stored under `id`, if any.
    pub fn get_cached(&self, id: u64) -> (r: Option<&AppDetails>)
        requires
            self.wf(),
        ensures
            match r {
                Some(rec) => self.store().contains_key(id) && rec@ == self.store()[id],
                None => !self.store().contains_key(id),
            },
    {
        self.cache.get(id)
    }

    /// The bytes to persist so the store survives the process.
    pub fn store_bytes(&self) -> (r: Vec<u8>)
        requires
            self.wf(),
        ensures
            r@ == deflate_of(enc_store(self.store_entries())),
            entries_ok(self.store_entries()),
    {
        self.cache.to_bytes()
    }

    /// Decides one resolution step.
    ///
    /// When `id` is in the store the plan is [`FetchPlan::Hit`]: no network
    /// request, no delay, and the client is left untouched. Otherwise the
    /// plan names the one URL to fetch and how long to wait first, as the
    /// pacer prescribes.
    pub fn plan(&mut self, id: u64, now_ms: u64) -> (p: FetchPlan)
        requires
            old(self).wf(),
        ensures
            final(self).wf(),
            final(self).store() == old(self).store(),
            final(self).store_entries() == old(self).store_entries(),
            final(self).interval() == old(self).interval(),
            old(self).store().contains_key(id) ==> p == FetchPlan::Hit && *final(self) == *old(
                self,
            ),
            !old(self).store().contains_key(id) ==> (p matches FetchPlan::Fetch { wait_ms, url }
                && url@ == url_of(id) && now_ms + wait_ms == next_schedule(
                old(self).scheduled(),
                old(self).interval(),
                now_ms,
            ) && final(self).scheduled() == Some((now_ms + wait_ms) as u64) && (old(
                self,
            ).scheduled() matches Some(t) ==> (t + old(self).interval() <= u64::MAX ==> now_ms
                + wait_ms >= t + old(self).interval()))),
    {
        if self.cache.contains(id) {
            FetchPlan::Hit
        } else {
            let wait_ms = self.limiter.acquire(now_ms);
            let url = request_url(id);
            FetchPlan::Fetch { wait_ms, url }
        }
    }

    /// Validates a response for `id` and, on success, inserts and keeps the
    /// record.
    ///
    /// The response must hold an entry for `id`, the entry must report
    /// success, and it must carry a record; each failure is its own error
    /// and leaves the store unchanged. The pacer is never touched.
    pub fn apply_response(&mut self, id: u64, resp: &ApiResponse) -> (r: Result<(), ApiError>)
        requires
            old(self).wf(),
        ensures
            final(self).wf(),
            final(self).interval() == old(self).interval(),
            final(self).scheduled() == old(self).scheduled(),
            response_lookup(resp@, id) is None ==> r == Result::<(), ApiError>::Err(
                ApiError::MissingEntry,
            ) && final(self).store() == old(self).store(),
            (response_lookup(resp@, id) matches Some(ar) && !ar.success) ==> r == Result::<
                (),
                ApiError,
            >::Err(ApiError::RemoteFailure) && final(self).store() == old(self).store(),
            (response_lookup(resp@, id) matches Some(ar) && ar.success && ar.data is None) ==> r
                == Result::<(), ApiError>::Err(ApiError::MissingPayload) && final(self).store()
                == old(self).store(),
            response_lookup(resp@, id) matches Some(ar) ==> (ar.success ==> (ar.data matches Some(
                rv,
            ) ==> r == Result::<(), ApiError>::Ok(()) && final(self).store() == old(
                self,
            ).store().insert(id, rv))),
    {
        let n = resp.entries.len();
        let mut i: usize = 0;
        while i < n
            invariant
                *self == *old(self),
                old(self).wf(),
                n == resp.entries@.len(),
                0 <= i <= n,
                forall|j: int| 0 <= j < i ==> resp@[j].0 != id,
            decreases n - i,
        {
            if resp.entries[i].0 == id {
                let ar = &resp.entries[i].1;
                proof {
                    assert(resp@[i as int] == (resp.entries@[i as int].0, ar@));
                    lemma_response_lookup_at(resp@, id, i as int);
                    assert(response_lookup(resp@, id) == Option::Some(ar@));
                }
                if !ar.success {
                    return Err(ApiError::RemoteFailure);
                }
                match &ar.data {
                    Option::Some(rec) => {
                        let owned = rec.clone();
                        proof {
                            assert(ar@.data == Option::Some(owned@));
                        }
                        self.cache.insert(id, owned);
                        return Ok(());
                    },
                    Option::None => {
                        return Err(ApiError::MissingPayload);
                    },
                }
            }
            i += 1;
        }
        proof {
            lemma_response_lookup_none(resp@, id);
        }
        Err(ApiError::MissingEntry)
    }
}

} // verus!
