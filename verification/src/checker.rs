//! The bookkeeping of the paid checks: which tokens have been seen, how
//! they are spread over the checkers and proxies, which proxy each check
//! uses, and which tokens were found paid recently.
use vstd::prelude::*;
use vstd::string::*;
use crate::json::{str_eq, texts};

verus! {

/// Position of a text in a list of texts.
fn position_of(list: &Vec<String>, s: &str) -> (r: Option<usize>)
    ensures
        match r {
            Some(i) => i < list@.len() && list@[i as int]@ == s@,
            None => !texts(list@).contains(s@),
        },
{
    let n = list.len();
    let mut i: usize = 0;
    while i < n
        invariant
            i <= n,
            n == list@.len(),
            forall|j: int| 0 <= j < i ==> list@[j]@ != s@,
        decreases n - i,
    {
        if str_eq(list[i].as_str(), s) {
            return Some(i);
        }
        i += 1;
    }
    proof {
        if texts(list@).contains(s@) {
            let j = choose|j: int| 0 <= j < texts(list@).len() && texts(list@)[j] == s@;
            assert(list@[j]@ == s@);
        }
    }
    None
}

/// Adds a text to a list that does not hold it yet.
fn push_new(list: &mut Vec<String>, s: &str)
    requires
        texts(old(list)@).no_duplicates(),
        !texts(old(list)@).contains(s@),
    ensures
        texts(final(list)@) == texts(old(list)@).push(s@),
        texts(final(list)@).no_duplicates(),
{
    let ghost before = texts(list@);
    list.push(s.to_owned());
    assert(texts(list@) =~= before.push(s@));
    assert forall|i: int, j: int|
        0 <= i < texts(list@).len() && 0 <= j < texts(list@).len() && i != j implies texts(
        list@,
    )[i] != texts(list@)[j] by {
        if i == before.len() {
            assert(before[j] == texts(list@)[j]);
        } else if j == before.len() {
            assert(before[i] == texts(list@)[i]);
        }
    }
}

/* Checks of one checker */

/// A token being watched, and the proxy (by its number) that its checks go
/// through.
#[derive(Debug)]
pub struct CheckEntry {
    pub mint: String,
    pub proxy_id: usize,
}

/// What to do with the cooldown after a round of checks.
#[derive(Debug, Clone, Copy, PartialEq, Eq, Structural)]
pub enum CooldownAction {
    /// Leave it as it is.
    Keep,
    /// Start the cooldown (there was none).
    Start,
    /// The cooldown ran out: the recently paid tokens were forgotten; start
    /// it again.
    ClearAndRestart,
}

/// The fields of a checker's state.
struct CheckerState {
    proxies: Vec<String>,
    checks: Vec<CheckEntry>,
    recent_paid: Vec<String>,
    cooldown_started: bool,
}

impl CheckerState {
    /// The proxies and the recently paid tokens are distinct, and every
    /// watched token's proxy has a number.
    spec fn wf(&self) -> bool {
        &&& texts(self.proxies@).no_duplicates()
        &&& texts(self.recent_paid@).no_duplicates()
        &&& forall|i: int|
            0 <= i < self.checks@.len() ==> #[trigger] self.checks@[i].proxy_id
                < self.proxies@.len()
    }

    fn empty() -> (r: CheckerState)
        ensures
            r.wf(),
            r.proxies@.len() == 0,
            r.checks@.len() == 0,
            r.recent_paid@.len() == 0,
            !r.cooldown_started,
    {
        CheckerState {
            proxies: Vec::new(),
            checks: Vec::new(),
            recent_paid: Vec::new(),
            cooldown_started: false,
        }
    }
}

/// One checker's state: the proxies it has clients for (a proxy's number is
/// its place in the list), the tokens it watches, and the tokens found paid
/// since the cooldown last ran out.
pub struct PaidChecker {
    state: CheckerState,
}

impl PaidChecker {
    #[verifier::type_invariant]
    spec fn inv(&self) -> bool {
        self.state.wf()
    }

    /// The proxies, by number.
    pub closed spec fn spec_proxies(&self) -> Seq<Seq<char>> {
        texts(self.state.proxies@)
    }

    /// The watched tokens with their proxy numbers, in the order they came.
    pub closed spec fn spec_checks(&self) -> Seq<(Seq<char>, usize)> {
        self.state.checks@.map_values(|e: CheckEntry| (e.mint@, e.proxy_id))
    }

    /// The tokens found paid since the cooldown last ran out.
    pub closed spec fn spec_recent_paid(&self) -> Set<Seq<char>> {
        texts(self.state.recent_paid@).to_set()
    }

    /// Whether the cooldown has been started.
    pub closed spec fn spec_cooldown_started(&self) -> bool {
        self.state.cooldown_started
    }

    /// A checker with no proxies, no tokens and no cooldown.
    pub fn new() -> (r: PaidChecker)
        ensures
            r.spec_proxies() == Seq::<Seq<char>>::empty(),
            r.spec_checks() == Seq::<(Seq<char>, usize)>::empty(),
            r.spec_recent_paid() == Set::<Seq<char>>::empty(),
            !r.spec_cooldown_started(),
    {
        let r = PaidChecker { state: CheckerState::empty() };
        assert(texts(r.state.recent_paid@).to_set() =~= Set::<Seq<char>>::empty());
        assert(r.spec_proxies() =~= Seq::<Seq<char>>::empty());
        assert(r.spec_checks() =~= Seq::<(Seq<char>, usize)>::empty());
        r
    }

    /// Takes the state out, leaving an empty one in its place.
    fn take_state(&mut self) -> (r: CheckerState)
        ensures
            r == old(self).state,
            r.wf(),
    {
        proof {
            use_type_invariant(&*self);
        }
        let mut st = CheckerState::empty();
        std::mem::swap(&mut st, &mut self.state);
        st
    }

    /// The number of a proxy, if it has one.
    pub fn proxy_id(&self, proxy: &str) -> (r: Option<usize>)
        ensures
            self.spec_proxies().no_duplicates(),
            match r {
                Some(i) => i < self.spec_proxies().len() && self.spec_proxies()[i as int] == proxy@,
                None => !self.spec_proxies().contains(proxy@),
            },
    {
        proof {
            use_type_invariant(self);
        }
        position_of(&self.state.proxies, proxy)
    }

    /// Gives a new proxy the next number.
    pub fn add_proxy(&mut self, proxy: &str) -> (r: usize)
        requires
            !old(self).spec_proxies().contains(proxy@),
        ensures
            r == old(self).spec_proxies().len(),
            final(self).spec_proxies() == old(self).spec_proxies().push(proxy@),
            final(self).spec_checks() == old(self).spec_checks(),
            final(self).spec_recent_paid() == old(self).spec_recent_paid(),
            final(self).spec_cooldown_started() == old(self).spec_cooldown_started(),
    {
        let mut st = self.take_state();
        let r = st.proxies.len();
        let ghost old_len = st.proxies@.len();
        push_new(&mut st.proxies, proxy);
        assert(texts(st.proxies@).len() == old_len + 1);
        self.state = st;
        r
    }

    /// Starts watching a token through a known proxy.
    pub fn add_check(&mut self, mint: String, proxy_id: usize)
        requires
            proxy_id < old(self).spec_proxies().len(),
        ensures
            final(self).spec_checks() == old(self).spec_checks().push((mint@, proxy_id)),
            final(self).spec_proxies() == old(self).spec_proxies(),
            final(self).spec_recent_paid() == old(self).spec_recent_paid(),
            final(self).spec_cooldown_started() == old(self).spec_cooldown_started(),
    {
        let mut st = self.take_state();
        let ghost before = st.checks@;
        let ghost m = mint@;
        st.checks.push(CheckEntry { mint, proxy_id });
        assert(st.checks@.map_values(|e: CheckEntry| (e.mint@, e.proxy_id)) =~= before.map_values(
            |e: CheckEntry| (e.mint@, e.proxy_id),
        ).push((m, proxy_id)));
        self.state = st;
    }

    /// The number of watched tokens.
    pub fn check_count(&self) -> (r: usize)
        ensures
            r == self.spec_checks().len(),
    {
        self.state.checks.len()
    }

    /// The `i`-th watched token and its proxy number.
    pub fn check_at(&self, i: usize) -> (r: (&str, usize))
        requires
            i < self.spec_checks().len(),
        ensures
            (r.0@, r.1) == self.spec_checks()[i as int],
            r.1 < self.spec_proxies().len(),
    {
        proof {
            use_type_invariant(self);
        }
        let e = &self.state.checks[i];
        (e.mint.as_str(), e.proxy_id)
    }

    /// Whether a token was found paid since the cooldown last ran out.
    pub fn is_recent_paid(&self, mint: &str) -> (r: bool)
        ensures
            r == self.spec_recent_paid().contains(mint@),
    {
        let found = position_of(&self.state.recent_paid, mint);
        proof {
            if let Some(i) = found {
                assert(texts(self.state.recent_paid@)[i as int] == mint@);
            }
        }
        found.is_some()
    }

    /// The first watched token, from place `from` on, that was not found paid
    /// since the cooldown last ran out: the next one to check in a round.
    pub fn next_due(&self, from: usize) -> (r: Option<usize>)
        ensures
            match r {
                Some(i) => from <= i < self.spec_checks().len() && !self.spec_recent_paid().contains(
                    self.spec_checks()[i as int].0,
                ) && forall|j: int|
                    from <= j < i ==> self.spec_recent_paid().contains(
                        #[trigger] self.spec_checks()[j].0,
                    ),
                None => forall|j: int|
                    from <= j < self.spec_checks().len() ==> self.spec_recent_paid().contains(
                        #[trigger] self.spec_checks()[j].0,
                    ),
            },
    {
        let n = self.state.checks.len();
        let mut i = from;
        while i < n
            invariant
                n == self.spec_checks().len(),
                from <= i,
                forall|j: int|
                    from <= j < i ==> self.spec_recent_paid().contains(
                        #[trigger] self.spec_checks()[j].0,
                    ),
            decreases n - i,
        {
            let paid = self.is_recent_paid(self.state.checks[i].mint.as_str());
            assert(self.spec_checks()[i as int].0 == self.state.checks@[i as int].mint@);
            if !paid {
                return Some(i);
            }
            i += 1;
        }
        None
    }

    /// Records that a token was found paid.
    pub fn mark_paid(&mut self, mint: &str)
        ensures
            final(self).spec_recent_paid() == old(self).spec_recent_paid().insert(mint@),
            final(self).spec_proxies() == old(self).spec_proxies(),
            final(self).spec_checks() == old(self).spec_checks(),
            final(self).spec_cooldown_started() == old(self).spec_cooldown_started(),
    {
        let mut st = self.take_state();
        match position_of(&st.recent_paid, mint) {
            Some(i) => {
                assert(texts(st.recent_paid@)[i as int] == mint@);
                assert(texts(st.recent_paid@).to_set() =~= texts(st.recent_paid@).to_set().insert(
                    mint@,
                ));
            },
            None => {
                let ghost before = texts(st.recent_paid@);
                push_new(&mut st.recent_paid, mint);
                proof {
                    before.lemma_push_to_set_commute(mint@);
                }
            },
        }
        self.state = st;
    }

    /// Takes in the answer of a paid check of a watched token: a paid token
    /// becomes recently paid and is to be reported (the result); an unpaid
    /// one changes nothing and is not reported.
    pub fn record_result(&mut self, mint: &str, paid: bool) -> (report: bool)
        ensures
            report == paid,
            paid ==> final(self).spec_recent_paid() == old(self).spec_recent_paid().insert(mint@),
            !paid ==> final(self).spec_recent_paid() == old(self).spec_recent_paid(),
            final(self).spec_proxies() == old(self).spec_proxies(),
            final(self).spec_checks() == old(self).spec_checks(),
            final(self).spec_cooldown_started() == old(self).spec_cooldown_started(),
    {
        if paid {
            self.mark_paid(mint);
        }
        paid
    }

    /// Decides what happens to the cooldown at the end of a round of checks,
    /// given whether a started cooldown has run out: with no token found
    /// paid nothing changes; otherwise the cooldown is started if it was
    /// not, and when it has run out the paid tokens are forgotten and it
    /// starts again.
    pub fn end_round(&mut self, cooldown_finished: bool) -> (r: CooldownAction)
        ensures
            old(self).spec_recent_paid().is_empty() ==> r == CooldownAction::Keep
                && final(self).spec_recent_paid() == old(self).spec_recent_paid()
                && final(self).spec_cooldown_started() == old(self).spec_cooldown_started(),
            !old(self).spec_recent_paid().is_empty() && !old(self).spec_cooldown_started() ==> r
                == CooldownAction::Start && final(self).spec_recent_paid() == old(self).spec_recent_paid() && final(self).spec_cooldown_started(),
            !old(self).spec_recent_paid().is_empty() && old(self).spec_cooldown_started()
                && cooldown_finished ==> r == CooldownAction::ClearAndRestart && final(self).spec_recent_paid().is_empty() && final(self).spec_cooldown_started(),
            !old(self).spec_recent_paid().is_empty() && old(self).spec_cooldown_started()
                && !cooldown_finished ==> r == CooldownAction::Keep && final(self).spec_recent_paid() == old(self).spec_recent_paid() && final(self).spec_cooldown_started(),
            final(self).spec_proxies() == old(self).spec_proxies(),
            final(self).spec_checks() == old(self).spec_checks(),
    {
        proof {
            use_type_invariant(&*self);
        }
        let ghost old_recent = self.spec_recent_paid();
        if self.state.recent_paid.len() == 0 {
            assert(old_recent =~= Set::<Seq<char>>::empty());
            return CooldownAction::Keep;
        }
        assert(old_recent.contains(texts(self.state.recent_paid@)[0]));
        if self.state.cooldown_started {
            if cooldown_finished {
                self.state.recent_paid = Vec::new();
                assert(self.spec_recent_paid() =~= Set::<Seq<char>>::empty());
                CooldownAction::ClearAndRestart
            } else {
                CooldownAction::Keep
            }
        } else {
            self.state.cooldown_started = true;
            CooldownAction::Start
        }
    }
}

/* Spreading tokens over checkers and proxies */

/// The turn after `k` passes, going round `n` places from `start`.
pub open spec fn turn_after(start: nat, n: nat, k: nat) -> nat
    decreases k,
{
    if k == 0 {
        start
    } else {
        (turn_after(start, n, (k - 1) as nat) + 1) % n
    }
}

/// Passing the turn on `k` times from `start` lands on `(start + k) % n`:
/// the checkers (and the proxies) are used in turn, round and round.
pub proof fn lemma_round_robin(start: nat, n: nat, k: nat)
    requires
        n > 0,
        start < n,
    ensures
        turn_after(start, n, k) == (start + k) % n,
    decreases k,
{
    if k == 0 {
        vstd::arithmetic::div_mod::lemma_small_mod(start, n);
    } else {
        lemma_round_robin(start, n, (k - 1) as nat);
        let x = (start + k - 1) as int;
        vstd::arithmetic::div_mod::lemma_add_mod_noop(x, 1, n as int);
        if n == 1 {
            vstd::arithmetic::div_mod::lemma_mod_pos_bound(x % 1 + 1, 1);
            vstd::arithmetic::div_mod::lemma_mod_pos_bound(x + 1, 1);
        } else {
            vstd::arithmetic::div_mod::lemma_small_mod(1, n);
        }
    }
}

/// The token dispatcher's state: the tokens seen so far, and the next
/// checker and proxy in turn.
pub struct Dispatcher {
    seen_mints: Vec<String>,
    checker_index: usize,
    proxy_index: usize,
    checkers: usize,
    proxies: usize,
}

/// One pass of the turn: the next checker and proxy, going round.
pub open spec fn route_step(next: (usize, usize), checkers: usize, proxies: usize) -> (usize, usize) {
    (((next.0 + 1) % (checkers as int)) as usize, ((next.1 + 1) % (proxies as int)) as usize)
}

impl Dispatcher {
    /// The seen tokens are distinct and the next checker and proxy exist.
    #[verifier::type_invariant]
    spec fn inv(&self) -> bool {
        &&& texts(self.seen_mints@).no_duplicates()
        &&& self.checker_index < self.checkers
        &&& self.proxy_index < self.proxies
    }

    pub closed spec fn spec_seen(&self) -> Set<Seq<char>> {
        texts(self.seen_mints@).to_set()
    }

    /// The checker and proxy that the next token goes to.
    pub closed spec fn spec_next(&self) -> (usize, usize) {
        (self.checker_index, self.proxy_index)
    }

    pub closed spec fn spec_checkers(&self) -> usize {
        self.checkers
    }

    pub closed spec fn spec_proxies(&self) -> usize {
        self.proxies
    }

    /// A dispatcher over `checkers` checkers and `proxies` proxies that has
    /// seen no token and starts with the first of each.
    pub fn new(checkers: usize, proxies: usize) -> (r: Dispatcher)
        requires
            checkers > 0,
            proxies > 0,
        ensures
            r.spec_seen() == Set::<Seq<char>>::empty(),
            r.spec_next() == (0usize, 0usize),
            r.spec_checkers() == checkers,
            r.spec_proxies() == proxies,
    {
        let r = Dispatcher {
            seen_mints: Vec::new(),
            checker_index: 0,
            proxy_index: 0,
            checkers,
            proxies,
        };
        assert(r.spec_seen() =~= Set::<Seq<char>>::empty());
        r
    }

    /// Whether a token was seen already.
    pub fn is_seen(&self, mint: &str) -> (r: bool)
        ensures
            r == self.spec_seen().contains(mint@),
    {
        let found = position_of(&self.seen_mints, mint);
        proof {
            if let Some(i) = found {
                assert(texts(self.seen_mints@)[i as int] == mint@);
            }
        }
        found.is_some()
    }

    /// Records that a token was seen.
    pub fn mark_seen(&mut self, mint: &str)
        ensures
            final(self).spec_seen() == old(self).spec_seen().insert(mint@),
            final(self).spec_next() == old(self).spec_next(),
            final(self).spec_checkers() == old(self).spec_checkers(),
            final(self).spec_proxies() == old(self).spec_proxies(),
    {
        proof {
            use_type_invariant(&*self);
        }
        let mut seen: Vec<String> = Vec::new();
        std::mem::swap(&mut seen, &mut self.seen_mints);
        match position_of(&seen, mint) {
            Some(i) => {
                assert(texts(seen@)[i as int] == mint@);
                assert(texts(seen@).to_set() =~= texts(seen@).to_set().insert(mint@));
            },
            None => {
                let ghost before = texts(seen@);
                push_new(&mut seen, mint);
                proof {
                    before.lemma_push_to_set_commute(mint@);
                }
            },
        }
        self.seen_mints = seen;
    }

    /// Takes the checker and proxy whose turn it is, and passes the turn on
    /// to the following ones, going round.
    pub fn next_route(&mut self) -> (r: (usize, usize))
        ensures
            r == old(self).spec_next(),
            r.0 < old(self).spec_checkers(),
            r.1 < old(self).spec_proxies(),
            final(self).spec_next() == route_step(
                r,
                old(self).spec_checkers(),
                old(self).spec_proxies(),
            ),
            final(self).spec_seen() == old(self).spec_seen(),
            final(self).spec_checkers() == old(self).spec_checkers(),
            final(self).spec_proxies() == old(self).spec_proxies(),
    {
        proof {
            use_type_invariant(&*self);
        }
        let r = (self.checker_index, self.proxy_index);
        let c = (self.checker_index + 1) % self.checkers;
        let p = (self.proxy_index + 1) % self.proxies;
        self.checker_index = c;
        self.proxy_index = p;
        r
    }
}

/// The tokens are spread round the checkers and the proxies: in any run of
/// a dispatcher made by `new`, where each step passes the turn on as
/// `next_route` does and nothing else changes the turn, the `k`-th token
/// forwarded goes to checker `k % checkers` with proxy `k % proxies`.
pub proof fn lemma_routes_go_round(
    routes: Seq<(usize, usize)>,
    checkers: usize,
    proxies: usize,
    k: int,
)
    requires
        checkers > 0,
        proxies > 0,
        routes.len() > 0,
        routes[0] == (0usize, 0usize),
        forall|i: int|
            0 <= i < routes.len() - 1 ==> #[trigger] routes[i + 1] == route_step(
                routes[i],
                checkers,
                proxies,
            ),
        0 <= k < routes.len(),
    ensures
        routes[k] == ((k % (checkers as int)) as usize, (k % (proxies as int)) as usize),
    decreases k,
{
    if k == 0 {
        vstd::arithmetic::div_mod::lemma_small_mod(0, checkers as nat);
        vstd::arithmetic::div_mod::lemma_small_mod(0, proxies as nat);
    } else {
        lemma_routes_go_round(routes, checkers, proxies, k - 1);
        assert(routes[(k - 1) + 1] == route_step(routes[k - 1], checkers, proxies));
        lemma_round_robin(0, checkers as nat, k as nat);
        lemma_round_robin(0, checkers as nat, (k - 1) as nat);
        lemma_round_robin(0, proxies as nat, k as nat);
        lemma_round_robin(0, proxies as nat, (k - 1) as nat);
        vstd::arithmetic::div_mod::lemma_mod_pos_bound(k - 1, checkers as int);
        vstd::arithmetic::div_mod::lemma_mod_pos_bound(k - 1, proxies as int);
    }
}

/// The seen tokens only grow along a run whose steps each add to them.
proof fn lemma_seen_grows(seen: Seq<Set<Seq<char>>>, a: int, b: int)
    requires
        0 <= a <= b < seen.len(),
        forall|i: int| 0 <= i < seen.len() - 1 ==> #[trigger] seen[i].subset_of(seen[i + 1]),
    ensures
        seen[a].subset_of(seen[b]),
    decreases b - a,
{
    if a < b {
        lemma_seen_grows(seen, a, b - 1);
        assert(seen[b - 1].subset_of(seen[(b - 1) + 1]));
    }
}

/// Each token is forwarded to the checkers at most once: in any run where a
/// token is forwarded only when the dispatcher has not seen it
/// (`is_seen`), it is then marked seen (`mark_seen`), and the seen tokens
/// never shrink, the forwarded tokens are all different.
pub proof fn lemma_forwarded_once(seen: Seq<Set<Seq<char>>>, forwarded: Seq<Seq<char>>)
    requires
        seen.len() == forwarded.len() + 1,
        forall|i: int|
            0 <= i < forwarded.len() ==> !seen[i].contains(#[trigger] forwarded[i])
                && seen[i].insert(forwarded[i]).subset_of(seen[i + 1]),
    ensures
        forwarded.no_duplicates(),
{
    assert forall|i: int| 0 <= i < seen.len() - 1 implies #[trigger] seen[i].subset_of(
        seen[i + 1],
    ) by {
        assert(!seen[i].contains(forwarded[i]));
    }
    assert forall|i: int, j: int|
        0 <= i < forwarded.len() && 0 <= j < forwarded.len() && i != j implies forwarded[i]
        != forwarded[j] by {
        let (a, b) = if i < j {
            (i, j)
        } else {
            (j, i)
        };
        assert(!seen[a].contains(forwarded[a]));
        assert(seen[a].insert(forwarded[a]).subset_of(seen[a + 1]));
        lemma_seen_grows(seen, a + 1, b);
        assert(seen[b].contains(forwarded[a]));
        assert(!seen[b].contains(forwarded[b]));
    }
}

/// A token found paid is not checked again until the cooldown clears: in any
/// run of a checker where each step either adds to the recently paid tokens
/// (`mark_paid`, `end_round` answering `Keep` or `Start`) or clears them
/// (`end_round` answering `ClearAndRestart`), the tokens paid at step `a`
/// are still recently paid, and so passed over by `next_due`, at every later
/// step `b` reached without a clearing.
pub proof fn lemma_paid_kept_until_cleared(
    recent: Seq<Set<Seq<char>>>,
    cleared: Seq<bool>,
    a: int,
    b: int,
)
    requires
        recent.len() == cleared.len() + 1,
        forall|i: int|
            0 <= i < cleared.len() && !#[trigger] cleared[i] ==> recent[i].subset_of(recent[i + 1]),
        0 <= a <= b < recent.len(),
        forall|i: int| a <= i < b ==> !#[trigger] cleared[i],
    ensures
        recent[a].subset_of(recent[b]),
    decreases b - a,
{
    if a < b {
        lemma_paid_kept_until_cleared(recent, cleared, a, b - 1);
        assert(!cleared[b - 1]);
    }
}

} // verus!
