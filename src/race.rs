//! Deciding the discovery race: the first remote to answer with an address wins; if
//! every remote fails, each one's error is reported.
use crate::address::{decode_spec, Address, CodecError, IpResponse};
use vstd::prelude::*;
use vstd::set_lib::{lemma_int_range, lemma_subset_equality, set_int_range};

verus! {

/// Why one remote gave no address.
#[derive(Debug)]
pub enum PingerError {
    /// A configured remote is not an absolute URL.
    InvalidRemote { remote: String },
    /// The request did not get through (connection, timeout, TLS).
    Transport { message: String },
    /// The remote answered with a status other than 200.
    ErrorResponse { body: String, status: u16 },
    /// The remote answered 200 with a payload that does not decode.
    InvalidResponse { error: CodecError },
}

/// The failure of one remote, which is named by its position in the configured list.
#[derive(Debug)]
pub struct RemoteFailure {
    pub remote: usize,
    pub error: PingerError,
}

/// The answer of one remote, as it arrives.
pub struct Arrival {
    pub remote: usize,
    pub outcome: Result<Address, PingerError>,
}

/// What one remote's answer comes to: a status outside 2xx is an error response that
/// keeps the status and the body; a 2xx answer gives the address its body decodes to,
/// or the decoder's error.
pub fn classify_answer(status: u16, body: String) -> (r: Result<Address, PingerError>)
    ensures
        !(200 <= status <= 299) ==> (r matches Err(PingerError::ErrorResponse { body: b, status: s })
            && b@ == body@ && s == status),
        200 <= status <= 299 ==> (r is Ok || r matches Err(PingerError::InvalidResponse { .. })),
        r matches Ok(a) ==> decode_spec(body@, Ok(a)),
        r matches Err(PingerError::InvalidResponse { error }) ==> decode_spec(body@, Err(error)),
{
    if status < 200 || status > 299 {
        return Err(PingerError::ErrorResponse { body, status });
    }
    match IpResponse::parse(body) {
        Ok(resp) => Ok(resp.ip_addr()),
        Err(error) => Err(PingerError::InvalidResponse { error }),
    }
}

/// A race in progress over `done.len()` remotes: which have failed, and their
/// failures in the order they came.
pub struct Race {
    pub done: Vec<bool>,
    pub failures: Vec<RemoteFailure>,
}

/// What the race does after an arrival.
pub enum RaceStep {
    /// An address came in: the race is over and every other answer is dropped.
    Won(Address),
    /// Every remote has failed; one failure per remote.
    Failed(Vec<RemoteFailure>),
    /// Some remotes have not answered yet.
    Pending(Race),
}

pub open spec fn has_failed(fs: Seq<RemoteFailure>, i: int) -> bool {
    exists|k: int| 0 <= k < fs.len() && #[trigger] fs[k].remote == i
}

/// Each remote below `n` has exactly one failure in `fs`, and `fs` names no other.
pub open spec fn one_failure_each(fs: Seq<RemoteFailure>, n: nat) -> bool {
    &&& forall|k: int| 0 <= k < fs.len() ==> #[trigger] fs[k].remote < n
    &&& forall|i: int| 0 <= i < n ==> has_failed(fs, i)
    &&& forall|k1: int, k2: int|
        0 <= k1 < k2 < fs.len() ==> #[trigger] fs[k1].remote != #[trigger] fs[k2].remote
}

/// The address of the first arrival that holds one.
pub open spec fn first_win(arr: Seq<Arrival>) -> Option<Address>
    decreases arr.len(),
{
    if arr.len() == 0 {
        None
    } else {
        match arr[0].outcome {
            Ok(a) => Some(a),
            Err(_) => first_win(arr.drop_first()),
        }
    }
}

/// The failures that a sequence of arrivals records, in order, up to the first address.
pub open spec fn failures_of(arr: Seq<Arrival>) -> Seq<RemoteFailure>
    decreases arr.len(),
{
    if arr.len() == 0 {
        seq![]
    } else {
        match arr[0].outcome {
            Ok(_) => seq![],
            Err(e) => seq![RemoteFailure { remote: arr[0].remote, error: e }] + failures_of(
                arr.drop_first(),
            ),
        }
    }
}

/// The arrivals name distinct remotes below `n`, none of which has failed in `fs`.
pub open spec fn fresh_arrivals(arr: Seq<Arrival>, fs: Seq<RemoteFailure>, n: nat) -> bool {
    &&& forall|k: int| 0 <= k < arr.len() ==> #[trigger] arr[k].remote < n
    &&& forall|k: int| 0 <= k < arr.len() ==> !has_failed(fs, #[trigger] arr[k].remote as int)
    &&& forall|k1: int, k2: int|
        0 <= k1 < k2 < arr.len() ==> #[trigger] arr[k1].remote != #[trigger] arr[k2].remote
}

impl Race {
    pub open spec fn remotes(&self) -> nat {
        self.done@.len()
    }

    /// `done` marks exactly the remotes with a failure, each of which has one.
    pub open spec fn wf(&self) -> bool {
        &&& forall|k: int|
            0 <= k < self.failures@.len() ==> #[trigger] self.failures@[k].remote
                < self.remotes()
        &&& forall|i: int| 0 <= i < self.remotes() ==> (self.done@[i] <==> has_failed(self.failures@, i))
        &&& forall|k1: int, k2: int|
            0 <= k1 < k2 < self.failures@.len() ==> #[trigger] self.failures@[k1].remote
                != #[trigger] self.failures@[k2].remote
    }

    /// A race over `n` remotes, none of which has answered.
    pub fn new(n: usize) -> (r: Race)
        ensures
            r.wf(),
            r.remotes() == n,
            r.failures@.len() == 0,
    {
        let mut done: Vec<bool> = Vec::new();
        let mut i: usize = 0;
        while i < n
            invariant
                i <= n,
                done@.len() == i,
                forall|j: int| 0 <= j < i ==> !done@[j],
            decreases n - i,
        {
            done.push(false);
            i = i + 1;
        }
        Race { done, failures: Vec::new() }
    }

    /// Takes in the answer of a remote that has not answered before.
    pub fn record(self, remote: usize, outcome: Result<Address, PingerError>) -> (r: RaceStep)
        requires
            self.wf(),
            remote < self.remotes(),
            !has_failed(self.failures@, remote as int),
        ensures
            outcome matches Ok(a) ==> r == RaceStep::Won(a),
            outcome matches Err(e) ==> {
                let fs = self.failures@.push(RemoteFailure { remote, error: e });
                if one_failure_each(fs, self.remotes()) {
                    r matches RaceStep::Failed(v) && v@ == fs
                } else {
                    r matches RaceStep::Pending(s) && s.wf() && s.remotes() == self.remotes()
                        && s.failures@ == fs
                }
            },
    {
        let Race { mut done, mut failures } = self;
        match outcome {
            Ok(a) => RaceStep::Won(a),
            Err(e) => {
                let ghost old_fs = failures@;
                failures.push(RemoteFailure { remote, error: e });
                done.set(remote, true);
                let ghost fs = failures@;
                assert forall|i: int| 0 <= i < done@.len() implies (done@[i] <==> has_failed(fs, i)) by {
                    if has_failed(old_fs, i) {
                        let k = choose|k: int| 0 <= k < old_fs.len() && #[trigger] old_fs[k].remote == i;
                        assert(fs[k].remote == i);
                    }
                    if i == remote {
                        assert(fs[old_fs.len() as int].remote == i);
                    }
                    if has_failed(fs, i) && i != remote {
                        let k = choose|k: int| 0 <= k < fs.len() && #[trigger] fs[k].remote == i;
                        assert(old_fs[k].remote == i);
                    }
                }
                let mut all = true;
                let mut i: usize = 0;
                while i < done.len()
                    invariant
                        i <= done@.len(),
                        all == (forall|j: int| 0 <= j < i ==> done@[j]),
                    decreases done@.len() - i,
                {
                    if !done[i] {
                        all = false;
                    }
                    i = i + 1;
                }
                let s = Race { done, failures };
                if all {
                    RaceStep::Failed(s.failures)
                } else {
                    let ghost j = choose|j: int| 0 <= j < s.done@.len() && !s.done@[j];
                    assert(!has_failed(fs, j));
                    assert(!one_failure_each(fs, s.remotes()));
                    RaceStep::Pending(s)
                }
            },
        }
    }
}

impl Race {
    /// Runs the race over answers in the order they arrive: it stops at the first
    /// address, or when every remote has failed.
    pub fn race_over(self, arrivals: Vec<Arrival>) -> (r: RaceStep)
        requires
            self.wf(),
            fresh_arrivals(arrivals@, self.failures@, self.remotes()),
        ensures
            first_win(arrivals@) matches Some(a) ==> r == RaceStep::Won(a),
            first_win(arrivals@) is None ==> {
                let fs = self.failures@ + failures_of(arrivals@);
                if one_failure_each(fs, self.remotes()) {
                    r matches RaceStep::Failed(v) && v@ == fs
                } else {
                    r matches RaceStep::Pending(s) && s.wf() && s.remotes() == self.remotes()
                        && s.failures@ == fs
                }
            },
    {
        let ghost n = self.remotes();
        let ghost start = self.failures@;
        let ghost orig = arrivals@;
        let mut arr = arrivals;
        let mut race = self;
        if race.all_done() {
            assert(failures_of(orig) == Seq::<RemoteFailure>::empty()) by {
                if orig.len() > 0 {
                    assert(has_failed(start, orig[0].remote as int));
                }
            }
            assert(start + failures_of(orig) =~= start);
            return RaceStep::Failed(race.failures);
        }
        while arr.len() > 0
            invariant
                orig == arrivals@,
                start == self.failures@,
                n == self.remotes(),
                race.wf(),
                race.remotes() == n,
                first_win(orig) == first_win(arr@),
                first_win(orig) is None ==> start + failures_of(orig) == race.failures@
                    + failures_of(arr@),
                fresh_arrivals(arr@, race.failures@, n),
                !one_failure_each(race.failures@, n),
            decreases arr@.len(),
        {
            let ghost before = arr@;
            let ghost fs0 = race.failures@;
            let a = arr.remove(0);
            assert(arr@ =~= before.drop_first());
            let ghost out = a.outcome;
            assert(before[0] == a);
            match race.record(a.remote, a.outcome) {
                RaceStep::Won(x) => {
                    assert(first_win(before) == Some(x));
                    assert(first_win(orig) == Some(x));
                    return RaceStep::Won(x);
                },
                RaceStep::Failed(v) => {
                    assert(arr@.len() == 0) by {
                        if arr@.len() > 0 {
                            let r0 = arr@[0].remote as int;
                            assert(before[1].remote == r0);
                            assert(has_failed(v@, r0));
                            let k = choose|k: int| 0 <= k < v@.len() && #[trigger] v@[k].remote == r0;
                            if k < fs0.len() {
                                assert(fs0[k].remote == r0);
                            }
                        }
                    }
                    assert(v@ + failures_of(arr@) =~= v@);
                    assert(first_win(arr@) is None);
                    assert(out is Err);
                    assert(first_win(before) is None);
                    assert(failures_of(before.drop_first()) == Seq::<RemoteFailure>::empty());
                    assert(v@ =~= fs0 + failures_of(before));
                    return RaceStep::Failed(v);
                },
                RaceStep::Pending(s) => {
                    race = s;
                    assert forall|k: int| 0 <= k < arr@.len() implies !has_failed(
                        race.failures@,
                        #[trigger] arr@[k].remote as int,
                    ) by {
                        assert(before[k + 1].remote == arr@[k].remote);
                        assert(before[0].remote != before[k + 1].remote);
                        if has_failed(race.failures@, arr@[k].remote as int) {
                            let j = choose|j: int|
                                0 <= j < race.failures@.len() && #[trigger] race.failures@[j].remote
                                    == arr@[k].remote;
                            if j < fs0.len() {
                                assert(fs0[j].remote == arr@[k].remote);
                            }
                        }
                    }
                    assert forall|k1: int, k2: int| 0 <= k1 < k2 < arr@.len() implies #[trigger] arr@[k1].remote
                        != #[trigger] arr@[k2].remote by {
                        assert(before[k1 + 1].remote != before[k2 + 1].remote);
                    }
                    assert forall|k: int| 0 <= k < arr@.len() implies #[trigger] arr@[k].remote < n by {
                        assert(before[k + 1].remote == arr@[k].remote);
                    }
                    assert(race.failures@ + failures_of(arr@) =~= fs0 + failures_of(before));
                },
            }
        }
        assert(race.failures@ + failures_of(arr@) =~= race.failures@);
        RaceStep::Pending(race)
    }

    /// Whether every remote has failed.
    pub fn all_done(&self) -> (r: bool)
        requires
            self.wf(),
        ensures
            r == one_failure_each(self.failures@, self.remotes()),
    {
        let mut i: usize = 0;
        while i < self.done.len()
            invariant
                self.wf(),
                i <= self.done@.len(),
                forall|j: int| 0 <= j < i ==> self.done@[j],
            decreases self.done@.len() - i,
        {
            if !self.done[i] {
                assert(!has_failed(self.failures@, i as int));
                return false;
            }
            i = i + 1;
        }
        true
    }
}

proof fn lemma_failures_when_all_fail(arr: Seq<Arrival>)
    requires
        forall|k: int| 0 <= k < arr.len() ==> (#[trigger] arr[k]).outcome is Err,
    ensures
        first_win(arr) is None,
        failures_of(arr).len() == arr.len(),
        forall|k: int|
            0 <= k < arr.len() ==> #[trigger] failures_of(arr)[k] == (RemoteFailure {
                remote: arr[k].remote,
                error: arr[k].outcome->Err_0,
            }),
    decreases arr.len(),
{
    if arr.len() > 0 {
        let rest = arr.drop_first();
        assert forall|k: int| 0 <= k < rest.len() implies (#[trigger] rest[k]).outcome is Err by {
            assert(rest[k] == arr[k + 1]);
        }
        lemma_failures_when_all_fail(rest);
        assert(arr[0].outcome is Err);
        assert forall|k: int| 0 < k < arr.len() implies #[trigger] failures_of(arr)[k] == (RemoteFailure {
            remote: arr[k].remote,
            error: arr[k].outcome->Err_0,
        }) by {
            assert(failures_of(arr)[k] == failures_of(rest)[k - 1]);
            assert(rest[k - 1] == arr[k]);
        }
    }
}

/// If each of `n` remotes fails once, in any order, the race over their answers
/// reports one failure per remote, each carrying the error that remote gave.
pub proof fn lemma_all_fail(n: nat, arr: Seq<Arrival>)
    requires
        arr.len() == n,
        forall|k: int| 0 <= k < arr.len() ==> (#[trigger] arr[k]).outcome is Err,
        forall|k: int| 0 <= k < arr.len() ==> #[trigger] arr[k].remote < n,
        forall|k1: int, k2: int|
            0 <= k1 < k2 < arr.len() ==> #[trigger] arr[k1].remote != #[trigger] arr[k2].remote,
    ensures
        first_win(arr) is None,
        one_failure_each(failures_of(arr), n),
        failures_of(arr).len() == n,
        forall|k: int|
            0 <= k < n ==> #[trigger] failures_of(arr)[k] == (RemoteFailure {
                remote: arr[k].remote,
                error: arr[k].outcome->Err_0,
            }),
{
    lemma_failures_when_all_fail(arr);
    let fs = failures_of(arr);
    let ids = arr.map_values(|a: Arrival| a.remote as int);
    assert(ids.no_duplicates()) by {
        assert forall|i: int, j: int| 0 <= i < ids.len() && 0 <= j < ids.len() && i != j implies ids[i] != ids[j] by {
            assert(ids[i] == arr[i].remote as int && ids[j] == arr[j].remote as int);
            if i < j {
                assert(arr[i].remote != arr[j].remote);
            } else {
                assert(arr[j].remote != arr[i].remote);
            }
        }
    }
    ids.unique_seq_to_set();
    vstd::seq_lib::seq_to_set_is_finite(ids);
    lemma_int_range(0, n as int);
    assert(ids.to_set().subset_of(set_int_range(0, n as int))) by {
        assert forall|x: int| ids.to_set().contains(x) implies set_int_range(0, n as int).contains(x) by {
            let k = choose|k: int| 0 <= k < ids.len() && ids[k] == x;
            assert(arr[k].remote < n);
        }
    }
    lemma_subset_equality(ids.to_set(), set_int_range(0, n as int));
    assert forall|i: int| 0 <= i < n implies has_failed(fs, i) by {
        assert(set_int_range(0, n as int).contains(i));
        assert(ids.to_set().contains(i));
        let k = choose|k: int| 0 <= k < ids.len() && ids[k] == i;
        assert(fs[k].remote == i);
    }
    assert forall|k1: int, k2: int| 0 <= k1 < k2 < fs.len() implies #[trigger] fs[k1].remote
        != #[trigger] fs[k2].remote by {
        assert(fs[k1].remote == arr[k1].remote);
        assert(fs[k2].remote == arr[k2].remote);
    }
    assert forall|k: int| 0 <= k < fs.len() implies #[trigger] fs[k].remote < n by {
        assert(fs[k].remote == arr[k].remote);
    }
}

} // verus!
