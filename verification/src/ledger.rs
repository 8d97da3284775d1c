//! The vote ledger and its state transition.
//!
//! Each caller identity runs a two-state machine: not voted, then —
//! irreversibly — voted. The ledger records the identities that have
//! voted and keeps running yes/no tallies. A caller is marked as having
//! voted before eligibility is checked, so a caller that fails a policy
//! is permanently barred from voting again; this ordering is deliberate
//! and is pinned by the `vote` contract.

use vstd::prelude::*;

use crate::policy::{
    AgePolicy, Credential, EligibilityConfig, NationalityPolicy, Quantifier,
};

verus! {

/// An individually identified account: an opaque identifier (32 bytes
/// on the host chain; the logic only ever compares it for equality).
pub struct AccountAddress {
    pub id: Vec<u8>,
}

/// An aggregate contract principal.
pub struct ContractAddress {
    pub index: u64,
    pub subindex: u64,
}

/// The originator of an action: an account, or a contract principal.
pub enum Address {
    Account(AccountAddress),
    Contract(ContractAddress),
}

/// The mathematical value of an [`Address`].
pub enum AddressView {
    Account { id: Seq<u8> },
    Contract { index: u64, subindex: u64 },
}

impl View for Address {
    type V = AddressView;

    open spec fn view(&self) -> AddressView {
        match self {
            Address::Account(a) => AddressView::Account { id: a.id@ },
            Address::Contract(c) => AddressView::Contract {
                index: c.index,
                subindex: c.subindex,
            },
        }
    }
}

/// Whether two addresses denote the same principal.
pub fn address_eq(a: &Address, b: &Address) -> (r: bool)
    ensures
        r == (a@ == b@),
{
    match (a, b) {
        (Address::Account(_), Address::Contract(_)) => false,
        (Address::Contract(_), Address::Account(_)) => false,
        (Address::Account(x), Address::Account(y)) => crate::policy::bytes_eq(&x.id, &y.id),
        (Address::Contract(x), Address::Contract(y)) => x.index == y.index && x.subindex
            == y.subindex,
    }
}

/// A caller's binary choice.
#[derive(Clone, Copy, Debug, PartialEq, Eq, Structural)]
pub enum VoteChoice {
    Yes,
    No,
}

/// Why a vote action was rejected.
#[derive(Clone, Copy, Debug, PartialEq, Eq, Structural)]
pub enum ReceiveError {
    /// The originator is not an individually identified account.
    NotAnAccount,
    /// The caller's identity is already in the voter set.
    AlreadyVoted,
    /// The credential set fails the nationality policy.
    NationalityPolicyViolation,
    /// The credential set fails the age policy.
    AgePolicyViolation,
}

/// The persistent vote state: two tallies and the voter set.
pub struct VoteLedger {
    pub yes_count: u64,
    pub no_count: u64,
    pub voters: Vec<Address>,
}

impl VoteLedger {
    /// The recorded voter identities, as mathematical values.
    pub open spec fn voters_view(self) -> Seq<AddressView> {
        self.voters@.map_values(|a: Address| a@)
    }

    /// Whether `a` has already voted.
    pub open spec fn spec_voted(self, a: AddressView) -> bool {
        self.voters_view().contains(a)
    }

    /// The ledger's invariant: no identity is recorded twice, and the
    /// tallies never exceed the number of recorded voters.
    pub open spec fn wf(self) -> bool {
        &&& forall|i: int, j: int|
            0 <= i < j < self.voters_view().len() ==> self.voters_view()[i]
                != self.voters_view()[j]
        &&& self.yes_count + self.no_count <= self.voters_view().len()
    }

    /// A fresh ledger: zero tallies, empty voter set.
    pub fn empty() -> (r: VoteLedger)
        ensures
            r.wf(),
            r.yes_count == 0,
            r.no_count == 0,
            r.voters_view() == Seq::<AddressView>::empty(),
    {
        let r = VoteLedger { yes_count: 0, no_count: 0, voters: Vec::new() };
        proof {
            assert(r.voters_view() =~= Seq::<AddressView>::empty());
        }
        r
    }

    /// Whether the sender is already recorded in the voter set.
    pub fn has_voted(&self, sender: &Address) -> (r: bool)
        ensures
            r == self.spec_voted(sender@),
    {
        let n: usize = self.voters.len();
        let mut i: usize = 0;
        while i < n
            invariant
                n == self.voters@.len(),
                0 <= i <= n,
                forall|k: int| 0 <= k < i ==> #[trigger] self.voters@[k]@ != sender@,
            decreases n - i,
        {
            if address_eq(&self.voters[i], sender) {
                proof {
                    assert(self.voters_view()[i as int] == sender@);
                }
                return true;
            }
            i += 1;
        }
        proof {
            if self.spec_voted(sender@) {
                let k = choose|k: int|
                    0 <= k < self.voters_view().len() && self.voters_view()[k] == sender@;
                assert(self.voters@[k]@ == sender@);
            }
        }
        false
    }
}

/// The whole contract state: immutable policy configuration plus the
/// mutable vote ledger.
pub struct State {
    pub config: EligibilityConfig,
    pub ledger: VoteLedger,
}

impl State {
    /// The state's invariant: a well-formed configuration and ledger.
    pub open spec fn wf(self) -> bool {
        self.config.wf() && self.ledger.wf()
    }

    /// How one `vote` call relates the state before to the state after
    /// and to its result: exactly one case applies to any call.
    pub open spec fn vote_transition(
        pre: State,
        post: State,
        sender: AddressView,
        choice: VoteChoice,
        creds: Seq<Credential>,
        r: Result<u64, ReceiveError>,
    ) -> bool {
        match r {
            Err(ReceiveError::NotAnAccount) => {
                &&& !(sender is Account)
                &&& post == pre
            },
            Err(ReceiveError::AlreadyVoted) => {
                &&& sender is Account
                &&& pre.ledger.spec_voted(sender)
                &&& post == pre
            },
            Err(ReceiveError::NationalityPolicyViolation) => {
                &&& sender is Account
                &&& !pre.ledger.spec_voted(sender)
                &&& !pre.config.nationality.spec_satisfied(creds)
                &&& Self::marked_voted_only(pre, post, sender)
            },
            Err(ReceiveError::AgePolicyViolation) => {
                &&& sender is Account
                &&& !pre.ledger.spec_voted(sender)
                &&& pre.config.nationality.spec_satisfied(creds)
                &&& !pre.config.age.spec_satisfied(creds)
                &&& Self::marked_voted_only(pre, post, sender)
            },
            Ok(n) => {
                &&& sender is Account
                &&& !pre.ledger.spec_voted(sender)
                &&& pre.config.spec_admitted(creds)
                &&& post.config == pre.config
                &&& post.ledger.voters_view() == pre.ledger.voters_view().push(sender)
                &&& match choice {
                    VoteChoice::Yes => {
                        &&& post.ledger.yes_count == pre.ledger.yes_count + 1
                        &&& post.ledger.no_count == pre.ledger.no_count
                        &&& n == post.ledger.yes_count
                    },
                    VoteChoice::No => {
                        &&& post.ledger.no_count == pre.ledger.no_count + 1
                        &&& post.ledger.yes_count == pre.ledger.yes_count
                        &&& n == post.ledger.no_count
                    },
                }
            },
        }
    }

    /// The sender was appended to the voter set; nothing else changed.
    pub open spec fn marked_voted_only(pre: State, post: State, sender: AddressView) -> bool {
        &&& post.config == pre.config
        &&& post.ledger.voters_view() == pre.ledger.voters_view().push(sender)
        &&& post.ledger.yes_count == pre.ledger.yes_count
        &&& post.ledger.no_count == pre.ledger.no_count
    }

    /// Builds a state from an explicit configuration: zero tallies and an
    /// empty voter set.
    pub fn new(config: EligibilityConfig) -> (r: State)
        requires
            config.wf(),
        ensures
            r.wf(),
            r.config == config,
            r.ledger.yes_count == 0,
            r.ledger.no_count == 0,
            r.ledger.voters_view() == Seq::<AddressView>::empty(),
    {
        State { config, ledger: VoteLedger::empty() }
    }

    /// The fixed initial state: the accepted nationality set is the
    /// single code `CH` and the accepted date-of-birth range is
    /// `[19000101, 20020101]`, each under the `All` quantifier.
    pub fn init() -> (r: State)
        ensures
            r.wf(),
            r.config.nationality.allowed_codes() == seq![seq![67u8, 72u8]],
            r.config.nationality.scope is All,
            r.config.age.minimal_dob == 19000101,
            r.config.age.maximal_dob == 20020101,
            r.config.age.scope is All,
            r.ledger.yes_count == 0,
            r.ledger.no_count == 0,
            r.ledger.voters_view() == Seq::<AddressView>::empty(),
    {
        let mut code: Vec<u8> = Vec::new();
        code.push(67);
        code.push(72);
        let mut allowed_nationality: Vec<Vec<u8>> = Vec::new();
        proof {
            assert(code@ =~= seq![67u8, 72u8]);
        }
        allowed_nationality.push(code);
        let nationality = NationalityPolicy { allowed_nationality, scope: Quantifier::All };
        proof {
            assert(nationality.allowed_codes() =~= seq![seq![67u8, 72u8]]);
        }
        let age = AgePolicy {
            minimal_dob: 19000101,
            maximal_dob: 20020101,
            scope: Quantifier::All,
        };
        State::new(EligibilityConfig { nationality, age })
    }

    /// Reads the tallies: the pair `(yes_count, no_count)`. Takes the
    /// state immutably, so any number of reads between votes agree.
    pub fn check_votes(&self) -> (r: (u64, u64))
        ensures
            r == (self.ledger.yes_count, self.ledger.no_count),
    {
        (self.ledger.yes_count, self.ledger.no_count)
    }

    /// Casts a vote. The caller must be an account that has not voted;
    /// the caller is then marked as having voted — even if a policy
    /// check fails afterwards — and on success the chosen tally grows by
    /// one and its new value is returned.
    pub fn vote(
        &mut self,
        sender: Address,
        choice: VoteChoice,
        credentials: &Vec<Credential>,
    ) -> (r: Result<u64, ReceiveError>)
        requires
            old(self).wf(),
            choice is Yes ==> old(self).ledger.yes_count < u64::MAX,
            choice is No ==> old(self).ledger.no_count < u64::MAX,
        ensures
            final(self).wf(),
            Self::vote_transition(*old(self), *final(self), sender@, choice, credentials@, r),
    {
        let sender_account = match &sender {
            Address::Account(_) => true,
            Address::Contract(_) => false,
        };
        if !sender_account {
            return Err(ReceiveError::NotAnAccount);
        }
        if self.ledger.has_voted(&sender) {
            return Err(ReceiveError::AlreadyVoted);
        }
        let ghost pre = *self;
        let ghost sender_view = sender@;
        self.ledger.voters.push(sender);
        proof {
            assert(self.ledger.voters_view() =~= pre.ledger.voters_view().push(sender_view));
            lemma_push_fresh_keeps_unique(pre.ledger.voters_view(), sender_view);
        }
        let nat_ok = self.config.nationality.is_satisfied(credentials);
        if !nat_ok {
            return Err(ReceiveError::NationalityPolicyViolation);
        }
        let age_ok = self.config.age.is_satisfied(credentials);
        if !age_ok {
            return Err(ReceiveError::AgePolicyViolation);
        }
        match choice {
            VoteChoice::Yes => {
                self.ledger.yes_count = self.ledger.yes_count + 1;
                Ok(self.ledger.yes_count)
            },
            VoteChoice::No => {
                self.ledger.no_count = self.ledger.no_count + 1;
                Ok(self.ledger.no_count)
            },
        }
    }
}

/// Reading the tallies never depends on anything but the state: any two
/// results that `check_votes` may return for the same state are the same
/// pair, so repeated reads without an intervening vote agree.
pub proof fn lemma_check_votes_idempotent(s: State, r1: (u64, u64), r2: (u64, u64))
    requires
        r1 == (s.ledger.yes_count, s.ledger.no_count),
        r2 == (s.ledger.yes_count, s.ledger.no_count),
    ensures
        r1 == r2,
{
}

/// After any vote call by an account — whatever its outcome — that
/// account is marked as having voted.
pub proof fn lemma_vote_marks_voted(
    pre: State,
    post: State,
    sender: AddressView,
    choice: VoteChoice,
    creds: Seq<Credential>,
    r: Result<u64, ReceiveError>,
)
    requires
        sender is Account,
        State::vote_transition(pre, post, sender, choice, creds, r),
    ensures
        post.ledger.spec_voted(sender),
{
    match r {
        Err(ReceiveError::AlreadyVoted) => {},
        Err(ReceiveError::NotAnAccount) => {},
        _ => {
            let v = post.ledger.voters_view();
            assert(v == pre.ledger.voters_view().push(sender));
            assert(v[v.len() - 1] == sender);
        },
    }
}

/// A vote call never unmarks a voter: whoever had voted before the call
/// has still voted after it, whatever the call's outcome.
pub proof fn lemma_voted_is_permanent(
    pre: State,
    post: State,
    sender: AddressView,
    choice: VoteChoice,
    creds: Seq<Credential>,
    r: Result<u64, ReceiveError>,
    a: AddressView,
)
    requires
        State::vote_transition(pre, post, sender, choice, creds, r),
        pre.ledger.spec_voted(a),
    ensures
        post.ledger.spec_voted(a),
{
    let i = choose|i: int|
        0 <= i < pre.ledger.voters_view().len() && pre.ledger.voters_view()[i] == a;
    match r {
        Err(ReceiveError::NotAnAccount) => {},
        Err(ReceiveError::AlreadyVoted) => {},
        _ => {
            assert(post.ledger.voters_view() == pre.ledger.voters_view().push(sender));
            assert(post.ledger.voters_view()[i] == a);
        },
    }
}

/// No caller votes twice: once an account is marked as having voted, a
/// further vote call by it fails with `AlreadyVoted` and changes
/// nothing — in particular it increments no tally.
pub proof fn lemma_no_double_vote(
    pre: State,
    post: State,
    sender: AddressView,
    choice: VoteChoice,
    creds: Seq<Credential>,
    r: Result<u64, ReceiveError>,
)
    requires
        sender is Account,
        pre.ledger.spec_voted(sender),
        State::vote_transition(pre, post, sender, choice, creds, r),
    ensures
        r == Err::<u64, ReceiveError>(ReceiveError::AlreadyVoted),
        post == pre,
{
}

/// At most one of any two vote calls by the same account succeeds: if a
/// first call has any outcome at all and a second call by the same
/// account is made later — after any number of further vote calls by
/// other callers — the second fails with `AlreadyVoted`.
pub proof fn lemma_vote_succeeds_at_most_once(
    s1: State,
    s2: State,
    s3: State,
    s4: State,
    sender: AddressView,
    choice1: VoteChoice,
    choice2: VoteChoice,
    creds1: Seq<Credential>,
    creds2: Seq<Credential>,
    r1: Result<u64, ReceiveError>,
    r2: Result<u64, ReceiveError>,
)
    requires
        sender is Account,
        State::vote_transition(s1, s2, sender, choice1, creds1, r1),
        forall|a: AddressView| s2.ledger.spec_voted(a) ==> s3.ledger.spec_voted(a),
        State::vote_transition(s3, s4, sender, choice2, creds2, r2),
    ensures
        r2 == Err::<u64, ReceiveError>(ReceiveError::AlreadyVoted),
        s4 == s3,
{
    lemma_vote_marks_voted(s1, s2, sender, choice1, creds1, r1);
    lemma_no_double_vote(s3, s4, sender, choice2, creds2, r2);
}

/// Appending an identity that is not yet present keeps the voter
/// sequence free of duplicates.
proof fn lemma_push_fresh_keeps_unique(s: Seq<AddressView>, a: AddressView)
    requires
        forall|i: int, j: int| 0 <= i < j < s.len() ==> s[i] != s[j],
        !s.contains(a),
    ensures
        forall|i: int, j: int| 0 <= i < j < s.push(a).len() ==> s.push(a)[i] != s.push(a)[j],
{
    let t = s.push(a);
    assert forall|i: int, j: int| 0 <= i < j < t.len() implies t[i] != t[j] by {
        if j == s.len() {
            assert(t[i] == s[i]);
            assert(!s.contains(a));
            assert(s[i] != a);
        } else {
            assert(t[i] == s[i]);
            assert(t[j] == s[j]);
        }
    }
}

} // verus!
