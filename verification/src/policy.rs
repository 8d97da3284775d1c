//! Eligibility policies over a caller's credential set.
//!
//! A policy pairs a rule (nationality membership, or date-of-birth range)
//! with a [`Quantifier`]: under `Any` at least one credential of the set
//! must carry a matching attribute, under `All` every credential must.
//! A malformed credential stream never matches, so it fails its own
//! contribution without aborting the evaluation of the whole set.

use vstd::prelude::*;

use crate::scanner::{items_of, scan, DOB, MAX_ITEM_LEN, NATIONALITY};

verus! {

/// How one policy's verdict is aggregated over a credential set.
#[derive(Clone, Copy, Debug, PartialEq, Eq, Structural)]
pub enum Quantifier {
    /// At least one credential must satisfy the policy.
    Any,
    /// Every credential must satisfy the policy.
    All,
}

/// One identity attestation: a validity window, an issuer, and a raw
/// serialized attribute stream (decoded by [`crate::scanner::scan`]).
pub struct Credential {
    pub created_at: u64,
    pub valid_to: u64,
    pub identity_provider: u32,
    pub attributes: Vec<u8>,
}

/// Accepts callers whose credentials carry an accepted nationality code.
pub struct NationalityPolicy {
    /// The accepted country codes, each canonically two bytes.
    pub allowed_nationality: Vec<Vec<u8>>,
    /// How the verdict aggregates over the credential set.
    pub scope: Quantifier,
}

impl NationalityPolicy {
    /// The accepted codes as abstract byte sequences.
    pub open spec fn allowed_codes(self) -> Seq<Seq<u8>> {
        self.allowed_nationality@.map_values(|c: Vec<u8>| c@)
    }

    /// Whether one decoded attribute item matches this policy: a
    /// nationality tag, exactly two value bytes, and an accepted code.
    pub open spec fn item_matches(self, item: (u8, Seq<u8>)) -> bool {
        &&& item.0 == NATIONALITY
        &&& item.1.len() == 2
        &&& self.allowed_codes().contains(item.1)
    }

    /// Whether some item of a decoded item sequence matches this policy.
    pub open spec fn some_item_matches(self, items: Seq<(u8, Seq<u8>)>) -> bool {
        exists|i: int| 0 <= i < items.len() && self.item_matches(items[i])
    }

    /// Whether one credential satisfies this policy: it decodes, and some
    /// decoded item matches. A malformed credential never satisfies.
    pub open spec fn cred_ok(self, c: Credential) -> bool {
        match items_of(c.attributes@) {
            Some(items) => self.some_item_matches(items),
            None => false,
        }
    }

    /// The policy's verdict over a whole credential set, per its
    /// quantifier. Over an empty set, `All` holds vacuously; `Any` fails.
    pub open spec fn spec_satisfied(self, creds: Seq<Credential>) -> bool {
        match self.scope {
            Quantifier::Any => exists|i: int| 0 <= i < creds.len() && self.cred_ok(creds[i]),
            Quantifier::All => forall|i: int| 0 <= i < creds.len() ==> self.cred_ok(creds[i]),
        }
    }

    /// Whether one credential carries an accepted nationality attribute.
    pub fn credential_satisfies(&self, c: &Credential) -> (r: bool)
        ensures
            r == self.cred_ok(*c),
    {
        let items = match scan(c.attributes.as_slice()) {
            Some(items) => items,
            None => {
                return false;
            },
        };
        let m: usize = items.len();
        let mut j: usize = 0;
        while j < m
            invariant
                m == items@.len(),
                0 <= j <= m,
                items_of(c.attributes@) == Some(crate::scanner::views_of(items@)),
                forall|k: int| 0 <= k < j ==> !self.item_matches(items@[k]@),
            decreases m - j,
        {
            let it = &items[j];
            if it.tag == NATIONALITY && it.value.len() == 2
                && contains_code(&self.allowed_nationality, &it.value) {
                proof {
                    let views = crate::scanner::views_of(items@);
                    assert(views[j as int] == items@[j as int]@);
                    assert(self.some_item_matches(views));
                }
                return true;
            }
            j += 1;
        }
        proof {
            let views = crate::scanner::views_of(items@);
            if self.some_item_matches(views) {
                let k = choose|k: int| 0 <= k < views.len() && self.item_matches(views[k]);
                assert(views[k] == items@[k]@);
            }
        }
        false
    }

    /// Evaluates the policy over the caller's credential set.
    pub fn is_satisfied(&self, credentials: &Vec<Credential>) -> (r: bool)
        ensures
            r == self.spec_satisfied(credentials@),
    {
        let n: usize = credentials.len();
        let mut i: usize = 0;
        while i < n
            invariant
                n == credentials@.len(),
                0 <= i <= n,
                self.scope is Any ==> forall|k: int| 0 <= k < i ==> !self.cred_ok(
                    credentials@[k],
                ),
                self.scope is All ==> forall|k: int| 0 <= k < i ==> self.cred_ok(credentials@[k]),
            decreases n - i,
        {
            let ok = self.credential_satisfies(&credentials[i]);
            match self.scope {
                Quantifier::Any => {
                    if ok {
                        return true;
                    }
                },
                Quantifier::All => {
                    if !ok {
                        return false;
                    }
                },
            }
            i += 1;
        }
        match self.scope {
            Quantifier::Any => false,
            Quantifier::All => true,
        }
    }
}

/// Whether a byte is an ASCII decimal digit.
pub open spec fn is_digit(b: u8) -> bool {
    48 <= b <= 57
}

/// Whether every byte of a value is an ASCII decimal digit.
pub open spec fn all_digits(s: Seq<u8>) -> bool {
    forall|i: int| 0 <= i < s.len() ==> is_digit(#[trigger] s[i])
}

/// The non-negative integer denoted by a sequence of ASCII digit bytes
/// read left to right in base ten (empty reads as zero).
pub open spec fn decimal_value(s: Seq<u8>) -> int
    decreases s.len(),
{
    if s.len() == 0 {
        0
    } else {
        decimal_value(s.drop_last()) * 10 + (s.last() - 48)
    }
}

/// Ten to the `n`-th power.
pub open spec fn pow10(n: nat) -> int
    decreases n,
{
    if n == 0 {
        1
    } else {
        10 * pow10((n - 1) as nat)
    }
}

/// A digit string of length `n` denotes a value below ten to the `n`.
pub proof fn lemma_decimal_value_bound(s: Seq<u8>)
    requires
        all_digits(s),
    ensures
        0 <= decimal_value(s) < pow10(s.len()),
    decreases s.len(),
{
    if s.len() > 0 {
        assert(all_digits(s.drop_last())) by {
            assert(forall|i: int| 0 <= i < s.len() - 1 ==> s.drop_last()[i] == s[i]);
        }
        lemma_decimal_value_bound(s.drop_last());
    }
}

/// Accepts callers whose date of birth lies in an inclusive range.
pub struct AgePolicy {
    /// Earliest accepted date of birth, as a `YYYYMMDD` decimal integer.
    pub minimal_dob: u64,
    /// Latest accepted date of birth, as a `YYYYMMDD` decimal integer.
    pub maximal_dob: u64,
    /// How the verdict aggregates over the credential set.
    pub scope: Quantifier,
}

impl AgePolicy {
    /// A meaningful age policy has a non-empty range.
    pub open spec fn wf(self) -> bool {
        self.minimal_dob <= self.maximal_dob
    }

    /// Builds an age policy; an inverted range is a configuration error.
    pub fn new(minimal_dob: u64, maximal_dob: u64, scope: Quantifier) -> (r: Option<AgePolicy>)
        ensures
            r is Some <==> minimal_dob <= maximal_dob,
            r matches Some(p) ==> p == (AgePolicy { minimal_dob, maximal_dob, scope }) && p.wf(),
    {
        if minimal_dob <= maximal_dob {
            Some(AgePolicy { minimal_dob, maximal_dob, scope })
        } else {
            None
        }
    }

    /// Whether one decoded attribute item matches this policy: a
    /// date-of-birth tag, all digit bytes, denoting a value in range.
    pub open spec fn item_matches(self, item: (u8, Seq<u8>)) -> bool {
        &&& item.0 == DOB
        &&& all_digits(item.1)
        &&& self.minimal_dob <= decimal_value(item.1) <= self.maximal_dob
    }

    /// Whether some item of a decoded item sequence matches this policy.
    pub open spec fn some_item_matches(self, items: Seq<(u8, Seq<u8>)>) -> bool {
        exists|i: int| 0 <= i < items.len() && self.item_matches(items[i])
    }

    /// Whether one credential satisfies this policy: it decodes, and some
    /// decoded item matches. A malformed credential never satisfies.
    pub open spec fn cred_ok(self, c: Credential) -> bool {
        match items_of(c.attributes@) {
            Some(items) => self.some_item_matches(items),
            None => false,
        }
    }

    /// The policy's verdict over a whole credential set, per its
    /// quantifier. Over an empty set, `All` holds vacuously; `Any` fails.
    pub open spec fn spec_satisfied(self, creds: Seq<Credential>) -> bool {
        match self.scope {
            Quantifier::Any => exists|i: int| 0 <= i < creds.len() && self.cred_ok(creds[i]),
            Quantifier::All => forall|i: int| 0 <= i < creds.len() ==> self.cred_ok(creds[i]),
        }
    }

    /// Whether one credential carries a date of birth in the range.
    pub fn credential_satisfies(&self, c: &Credential) -> (r: bool)
        ensures
            r == self.cred_ok(*c),
    {
        let items = match scan(c.attributes.as_slice()) {
            Some(items) => items,
            None => {
                return false;
            },
        };
        let m: usize = items.len();
        let mut j: usize = 0;
        while j < m
            invariant
                m == items@.len(),
                0 <= j <= m,
                items_of(c.attributes@) == Some(crate::scanner::views_of(items@)),
                forall|k: int| 0 <= k < j ==> !self.item_matches(items@[k]@),
            decreases m - j,
        {
            let it = &items[j];
            if it.tag == DOB {
                proof {
                    let views = crate::scanner::views_of(items@);
                    crate::scanner::lemma_items_of_value_len(c.attributes@, views);
                    assert(views[j as int].1.len() <= MAX_ITEM_LEN);
                    assert(views[j as int] == items@[j as int]@);
                    assert(it.value@.len() <= MAX_ITEM_LEN);
                }
                if let Some(dob) = decode_dob(&it.value) {
                    if self.minimal_dob as u128 <= dob && dob <= self.maximal_dob as u128 {
                        proof {
                            let views = crate::scanner::views_of(items@);
                            assert(views[j as int] == items@[j as int]@);
                            assert(self.some_item_matches(views));
                        }
                        return true;
                    }
                }
            }
            j += 1;
        }
        proof {
            let views = crate::scanner::views_of(items@);
            if self.some_item_matches(views) {
                let k = choose|k: int| 0 <= k < views.len() && self.item_matches(views[k]);
                assert(views[k] == items@[k]@);
            }
        }
        false
    }

    /// Evaluates the policy over the caller's credential set.
    pub fn is_satisfied(&self, credentials: &Vec<Credential>) -> (r: bool)
        ensures
            r == self.spec_satisfied(credentials@),
    {
        let n: usize = credentials.len();
        let mut i: usize = 0;
        while i < n
            invariant
                n == credentials@.len(),
                0 <= i <= n,
                self.scope is Any ==> forall|k: int| 0 <= k < i ==> !self.cred_ok(
                    credentials@[k],
                ),
                self.scope is All ==> forall|k: int| 0 <= k < i ==> self.cred_ok(credentials@[k]),
            decreases n - i,
        {
            let ok = self.credential_satisfies(&credentials[i]);
            match self.scope {
                Quantifier::Any => {
                    if ok {
                        return true;
                    }
                },
                Quantifier::All => {
                    if !ok {
                        return false;
                    }
                },
            }
            i += 1;
        }
        match self.scope {
            Quantifier::Any => false,
            Quantifier::All => true,
        }
    }
}

/// Decodes a date-of-birth value: all bytes must be ASCII digits, read
/// left to right in base ten. Returns `None` exactly on a non-digit byte.
fn decode_dob(value: &Vec<u8>) -> (r: Option<u128>)
    requires
        value@.len() <= MAX_ITEM_LEN,
    ensures
        match r {
            Some(v) => all_digits(value@) && v == decimal_value(value@),
            None => !all_digits(value@),
        },
{
    let n: usize = value.len();
    let mut acc: u128 = 0;
    let mut i: usize = 0;
    proof {
        assert(value@.subrange(0, 0) =~= Seq::<u8>::empty());
    }
    while i < n
        invariant
            n == value@.len() <= MAX_ITEM_LEN,
            0 <= i <= n,
            all_digits(value@.subrange(0, i as int)),
            acc == decimal_value(value@.subrange(0, i as int)),
        decreases n - i,
    {
        let b = value[i];
        if b < 48 || b > 57 {
            return None;
        }
        proof {
            let prefix = value@.subrange(0, i as int);
            let prefix1 = value@.subrange(0, i as int + 1);
            assert(prefix1.drop_last() =~= prefix);
            assert(prefix1.last() == value@[i as int]);
            assert(all_digits(prefix1)) by {
                assert(forall|k: int| 0 <= k < i ==> prefix1[k] == prefix[k]);
            }
            // the accumulated value stays far below the `u128` limit:
            // at most MAX_ITEM_LEN digits were read
            lemma_decimal_value_bound(prefix1);
            lemma_pow10_increases(prefix1.len(), MAX_ITEM_LEN as nat);
            lemma_pow10_max_item();
            assert(acc * 10 <= decimal_value(prefix1));
        }
        acc = acc * 10 + (b - 48) as u128;
        i += 1;
    }
    proof {
        assert(value@.subrange(0, n as int) =~= value@);
    }
    Some(acc)
}

/// Ten to the power of [`MAX_ITEM_LEN`] still fits in a `u128`, so a
/// value of at most that many digits can be accumulated without overflow.
proof fn lemma_pow10_max_item()
    ensures
        pow10(MAX_ITEM_LEN as nat) < u128::MAX,
{
    assert(pow10(31) == 10000000000000000000000000000000) by {
        reveal_with_fuel(pow10, 32);
    }
}

/// `pow10` is monotone in its exponent.
proof fn lemma_pow10_increases(a: nat, b: nat)
    requires
        a <= b,
    ensures
        pow10(a) <= pow10(b),
    decreases b,
{
    if a < b {
        lemma_pow10_increases(a, (b - 1) as nat);
        assert(pow10(b) == 10 * pow10((b - 1) as nat));
        assert(pow10((b - 1) as nat) >= 1) by {
            lemma_pow10_positive((b - 1) as nat);
        }
    }
}

/// `pow10` is positive.
proof fn lemma_pow10_positive(n: nat)
    ensures
        pow10(n) >= 1,
    decreases n,
{
    if n > 0 {
        lemma_pow10_positive((n - 1) as nat);
    }
}

/// The configured policies a caller must all satisfy to be admitted.
pub struct EligibilityConfig {
    pub nationality: NationalityPolicy,
    pub age: AgePolicy,
}

impl EligibilityConfig {
    /// A well-formed configuration holds a well-formed age policy.
    pub open spec fn wf(self) -> bool {
        self.age.wf()
    }

    /// Whether a credential set passes every configured policy.
    pub open spec fn spec_admitted(self, creds: Seq<Credential>) -> bool {
        self.nationality.spec_satisfied(creds) && self.age.spec_satisfied(creds)
    }

    /// Admits a caller exactly when the credential set satisfies both the
    /// nationality policy and the age policy.
    pub fn is_admitted(&self, credentials: &Vec<Credential>) -> (r: bool)
        ensures
            r == self.spec_admitted(credentials@),
    {
        self.nationality.is_satisfied(credentials) && self.age.is_satisfied(credentials)
    }
}

/// Over an empty credential set a nationality policy under `All` holds
/// vacuously, and under `Any` fails: quantification over an empty domain.
pub proof fn lemma_nationality_empty_set(p: NationalityPolicy)
    ensures
        p.scope is All ==> p.spec_satisfied(Seq::<Credential>::empty()),
        p.scope is Any ==> !p.spec_satisfied(Seq::<Credential>::empty()),
{
}

/// Over an empty credential set an age policy under `All` holds
/// vacuously, and under `Any` fails: quantification over an empty domain.
pub proof fn lemma_age_empty_set(p: AgePolicy)
    ensures
        p.scope is All ==> p.spec_satisfied(Seq::<Credential>::empty()),
        p.scope is Any ==> !p.spec_satisfied(Seq::<Credential>::empty()),
{
}

/// A credential whose nationality attributes all carry other than two
/// value bytes never satisfies a nationality policy, whatever the bytes
/// hold.
pub proof fn lemma_nationality_needs_two_bytes(
    p: NationalityPolicy,
    c: Credential,
    items: Seq<(u8, Seq<u8>)>,
)
    requires
        items_of(c.attributes@) == Some(items),
        forall|i: int|
            0 <= i < items.len() && (#[trigger] items[i]).0 == NATIONALITY ==> items[i].1.len()
                != 2,
    ensures
        !p.cred_ok(c),
{
    if p.cred_ok(c) {
        let i = choose|i: int| 0 <= i < items.len() && p.item_matches(items[i]);
        assert(items[i].0 == NATIONALITY && items[i].1.len() == 2);
    }
}

/// Reading digit bytes left to right is parsing the concatenation in
/// base ten: the value of `s1 + s2` is the value of `s1` shifted by one
/// decimal place per byte of `s2`, plus the value of `s2`.
pub proof fn lemma_decimal_value_concat(s1: Seq<u8>, s2: Seq<u8>)
    ensures
        decimal_value(s1 + s2) == decimal_value(s1) * pow10(s2.len()) + decimal_value(s2),
    decreases s2.len(),
{
    if s2.len() == 0 {
        assert(s1 + s2 =~= s1);
    } else {
        lemma_decimal_value_concat(s1, s2.drop_last());
        assert((s1 + s2).drop_last() =~= s1 + s2.drop_last());
        assert((s1 + s2).last() == s2.last());
        let a = decimal_value(s1);
        let b = pow10(s2.drop_last().len());
        assert(a * b * 10 == a * (b * 10)) by (nonlinear_arith);
        assert(pow10(s2.len()) == 10 * pow10((s2.len() - 1) as nat));
        assert(b * 10 == pow10(s2.len()));
    }
}

/// An attribute carrying exactly the minimal or the maximal date of
/// birth matches the age policy: the range is inclusive at both ends.
pub proof fn lemma_age_boundaries_match(p: AgePolicy, item: (u8, Seq<u8>))
    requires
        p.wf(),
        item.0 == DOB,
        all_digits(item.1),
        decimal_value(item.1) == p.minimal_dob || decimal_value(item.1) == p.maximal_dob,
    ensures
        p.item_matches(item),
{
}

/// Whether `v`'s bytes equal some code of `codes`.
fn contains_code(codes: &Vec<Vec<u8>>, v: &Vec<u8>) -> (r: bool)
    ensures
        r == codes@.map_values(|c: Vec<u8>| c@).contains(v@),
{
    let n: usize = codes.len();
    let mut i: usize = 0;
    while i < n
        invariant
            n == codes@.len(),
            0 <= i <= n,
            forall|k: int| 0 <= k < i ==> #[trigger] codes@[k]@ != v@,
        decreases n - i,
    {
        if bytes_eq(&codes[i], v) {
            assert(codes@.map_values(|c: Vec<u8>| c@)[i as int] == v@);
            return true;
        }
        i += 1;
    }
    proof {
        let mapped = codes@.map_values(|c: Vec<u8>| c@);
        if mapped.contains(v@) {
            let k = choose|k: int| 0 <= k < mapped.len() && mapped[k] == v@;
            assert(codes@[k]@ == v@);
        }
    }
    false
}

/// Whether two byte vectors hold the same bytes.
pub(crate) fn bytes_eq(a: &Vec<u8>, b: &Vec<u8>) -> (r: bool)
    ensures
        r == (a@ == b@),
{
    if a.len() != b.len() {
        return false;
    }
    let n: usize = a.len();
    let mut i: usize = 0;
    while i < n
        invariant
            n == a@.len() == b@.len(),
            0 <= i <= n,
            forall|k: int| 0 <= k < i ==> a@[k] == b@[k],
        decreases n - i,
    {
        if a[i] != b[i] {
            return false;
        }
        i += 1;
    }
    proof {
        assert(a@ =~= b@);
    }
    true
}

} // verus!

