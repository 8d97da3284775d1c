use voting::ledger::{
    AccountAddress, Address, ContractAddress, ReceiveError, State, VoteChoice,
};
use voting::policy::Credential;
use voting::scanner::{COUNTRY_OF_RESIDENCE, DOB, NATIONALITY};

fn stream(items: &[(u8, &[u8])]) -> Vec<u8> {
    let mut out: Vec<u8> = Vec::new();
    for (tag, value) in items {
        out.push(*tag);
        out.push(value.len() as u8);
        out.extend_from_slice(value);
    }
    out
}

fn credential(items: &[(u8, &[u8])]) -> Credential {
    Credential { created_at: 0, valid_to: 100, identity_provider: 1, attributes: stream(items) }
}

fn account(byte: u8) -> Address {
    Address::Account(AccountAddress { id: vec![byte; 32] })
}

#[test]
fn fresh_ledger_counts_zero() {
    let state = State::init();
    assert_eq!(state.check_votes(), (0, 0));
}

#[test]
fn eligible_caller_votes_yes_once() {
    let mut state = State::init();
    let creds = vec![credential(&[(NATIONALITY, b"CH"), (DOB, b"20000101")])];
    let r = state.vote(account(1), VoteChoice::Yes, &creds);
    assert_eq!(r, Ok(1));
    assert_eq!(state.check_votes(), (1, 0));
}

#[test]
fn second_vote_of_same_caller_fails() {
    let mut state = State::init();
    let creds = vec![credential(&[(NATIONALITY, b"CH"), (DOB, b"20000101")])];
    assert_eq!(state.vote(account(1), VoteChoice::Yes, &creds), Ok(1));
    let r = state.vote(account(1), VoteChoice::No, &creds);
    assert_eq!(r, Err(ReceiveError::AlreadyVoted));
    assert_eq!(state.check_votes(), (1, 0));
}

#[test]
fn wrong_nationality_is_rejected() {
    let mut state = State::init();
    let creds = vec![credential(&[(NATIONALITY, b"DK"), (DOB, b"19990101")])];
    let r = state.vote(account(2), VoteChoice::Yes, &creds);
    assert_eq!(r, Err(ReceiveError::NationalityPolicyViolation));
    assert_eq!(state.check_votes(), (0, 0));
}

#[test]
fn dob_outside_range_is_rejected() {
    let mut state = State::init();
    let creds = vec![credential(&[(NATIONALITY, b"CH"), (DOB, b"18990101")])];
    let r = state.vote(account(3), VoteChoice::No, &creds);
    assert_eq!(r, Err(ReceiveError::AgePolicyViolation));
    assert_eq!(state.check_votes(), (0, 0));
}

#[test]
fn contract_principal_cannot_vote() {
    let mut state = State::init();
    let creds = vec![credential(&[(NATIONALITY, b"CH"), (DOB, b"20000101")])];
    let sender = Address::Contract(ContractAddress { index: 7, subindex: 0 });
    let r = state.vote(sender, VoteChoice::Yes, &creds);
    assert_eq!(r, Err(ReceiveError::NotAnAccount));
    assert_eq!(state.check_votes(), (0, 0));
}

#[test]
fn failed_policy_check_still_marks_caller_voted() {
    // the caller is marked before eligibility runs, so a rejected
    // caller stays barred
    let mut state = State::init();
    let bad = vec![credential(&[(NATIONALITY, b"DK"), (DOB, b"20000101")])];
    let good = vec![credential(&[(NATIONALITY, b"CH"), (DOB, b"20000101")])];
    assert_eq!(
        state.vote(account(4), VoteChoice::Yes, &bad),
        Err(ReceiveError::NationalityPolicyViolation)
    );
    assert_eq!(
        state.vote(account(4), VoteChoice::Yes, &good),
        Err(ReceiveError::AlreadyVoted)
    );
    assert_eq!(state.check_votes(), (0, 0));
}

#[test]
fn distinct_callers_accumulate_tallies() {
    let mut state = State::init();
    let creds = vec![credential(&[(NATIONALITY, b"CH"), (DOB, b"20000101")])];
    assert_eq!(state.vote(account(1), VoteChoice::Yes, &creds), Ok(1));
    assert_eq!(state.vote(account(2), VoteChoice::No, &creds), Ok(1));
    assert_eq!(state.vote(account(3), VoteChoice::Yes, &creds), Ok(2));
    assert_eq!(state.check_votes(), (2, 1));
}

#[test]
fn check_votes_is_idempotent() {
    let mut state = State::init();
    let creds = vec![credential(&[(NATIONALITY, b"CH"), (DOB, b"20000101")])];
    assert_eq!(state.vote(account(5), VoteChoice::Yes, &creds), Ok(1));
    let first = state.check_votes();
    let second = state.check_votes();
    let third = state.check_votes();
    assert_eq!(first, second);
    assert_eq!(second, third);
    assert_eq!(third, (1, 0));
}

#[test]
fn vote_succeeds_with_extra_residence_attribute() {
    // attributes the policies do not ask about are ignored
    let mut state = State::init();
    let creds = vec![credential(&[
        (NATIONALITY, b"CH"),
        (COUNTRY_OF_RESIDENCE, b"DK"),
        (DOB, b"20000101"),
    ])];
    assert!(state.vote(account(1), VoteChoice::Yes, &creds).is_ok());
}

#[test]
fn empty_credential_set_vacuously_passes_all_policies() {
    // both fixed policies quantify with `All`, which holds vacuously
    // over an empty credential set
    let mut state = State::init();
    let creds: Vec<Credential> = Vec::new();
    assert_eq!(state.vote(account(9), VoteChoice::Yes, &creds), Ok(1));
}

#[test]
fn all_quantifier_requires_every_credential_to_match() {
    let mut state = State::init();
    let creds = vec![
        credential(&[(NATIONALITY, b"CH"), (DOB, b"20000101")]),
        credential(&[(NATIONALITY, b"DK"), (DOB, b"20000101")]),
    ];
    assert_eq!(
        state.vote(account(6), VoteChoice::Yes, &creds),
        Err(ReceiveError::NationalityPolicyViolation)
    );
}
