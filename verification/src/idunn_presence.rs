//! Idunn runtime presence: what a daemon that Idunn launched says about itself.
//!
//! Idunn hands over a runtime bundle (the Expected incarnation and the activation that it
//! issued), a one-shot activation credential, and the path of this host's provider identity.
//! This module decides, between the reads of those, whether they belong together, and fills
//! in the presence record that the provider identity and the activation then sign. The
//! reading and the signing are the caller's.

use vstd::prelude::*;

use crate::text;

verus! {

pub const RUNTIME_BUNDLE_ENVIRONMENT: &'static str = "GAMECULT_IDUNN_RUNTIME_BUNDLE";

pub const ACTIVATION_CREDENTIAL_ENVIRONMENT: &'static str = "GAMECULT_IDUNN_ACTIVATION_CREDENTIAL";

pub const PROVIDER_IDENTITY_ENVIRONMENT: &'static str = "GAMECULT_RUNTIME_PRESENCE_IDENTITY";

/// How the provider identity signs.
pub const SIGNATURE_ALGORITHM: &'static str = "ed25519";

/// Why there is no presence to publish.
#[derive(Debug, PartialEq, Eq)]
pub enum PresenceError {
    CredentialUnset,
    ProviderIdentityUnset,
    BundleNotAbsolute,
    EntryCount { path: String, count: usize },
    WrongRecord { path: String, record_type: String, schema: String },
    ExpectedKeySubstituted,
    ActivationKeySubstituted,
    ActivationUnbound,
    ForeignCredential,
    ForeignProviderIdentity,
    WriteLeaseRequired,
    SequenceExhausted,
}

/// The message for an error.
pub open spec fn error_text(error: PresenceError) -> Seq<char> {
    match error {
        PresenceError::CredentialUnset => RUNTIME_BUNDLE_ENVIRONMENT@ + " is set but "@
            + ACTIVATION_CREDENTIAL_ENVIRONMENT@ + " is not"@,
        PresenceError::ProviderIdentityUnset => RUNTIME_BUNDLE_ENVIRONMENT@ + " is set but "@
            + PROVIDER_IDENTITY_ENVIRONMENT@ + " is not"@,
        PresenceError::BundleNotAbsolute => "Idunn runtime bundle is not absolute"@,
        PresenceError::EntryCount { path, count } => "runtime record "@ + path@ + " holds "@
            + text::decimal_text(count as nat) + " entries, expected one"@,
        PresenceError::WrongRecord { path, record_type, schema } => "runtime record "@ + path@
            + " is not a "@ + record_type@ + " under "@ + schema@,
        PresenceError::ExpectedKeySubstituted => "Expected key is substituted"@,
        PresenceError::ActivationKeySubstituted => "activation key is substituted"@,
        PresenceError::ActivationUnbound => "activation does not bind this Expected projection"@,
        PresenceError::ForeignCredential =>
            "activation credential does not belong to this activation"@,
        PresenceError::ForeignProviderIdentity =>
            "provider identity is not the signer selected by Expected"@,
        PresenceError::WriteLeaseRequired =>
            "Muninn declares no process-bound state; a write lease cannot be presented"@,
        PresenceError::SequenceExhausted => "runtime presence publisher sequence exhausted"@,
    }
}

impl PresenceError {
    /// The message for this error.
    pub fn message(&self) -> (message: String)
        ensures
            message@ == error_text(*self),
    {
        match self {
            PresenceError::CredentialUnset => {
                let mut message = RUNTIME_BUNDLE_ENVIRONMENT.to_owned();
                message.append(" is set but ");
                message.append(ACTIVATION_CREDENTIAL_ENVIRONMENT);
                message.append(" is not");
                message
            },
            PresenceError::ProviderIdentityUnset => {
                let mut message = RUNTIME_BUNDLE_ENVIRONMENT.to_owned();
                message.append(" is set but ");
                message.append(PROVIDER_IDENTITY_ENVIRONMENT);
                message.append(" is not");
                message
            },
            PresenceError::BundleNotAbsolute => "Idunn runtime bundle is not absolute".to_owned(),
            PresenceError::EntryCount { path, count } => {
                let mut message = "runtime record ".to_owned();
                message.append(path.as_str());
                message.append(" holds ");
                message.append(text::decimal(*count as u64).as_str());
                message.append(" entries, expected one");
                message
            },
            PresenceError::WrongRecord { path, record_type, schema } => {
                let mut message = "runtime record ".to_owned();
                message.append(path.as_str());
                message.append(" is not a ");
                message.append(record_type.as_str());
                message.append(" under ");
                message.append(schema.as_str());
                message
            },
            PresenceError::ExpectedKeySubstituted => "Expected key is substituted".to_owned(),
            PresenceError::ActivationKeySubstituted => "activation key is substituted".to_owned(),
            PresenceError::ActivationUnbound => {
                "activation does not bind this Expected projection".to_owned()
            },
            PresenceError::ForeignCredential => {
                "activation credential does not belong to this activation".to_owned()
            },
            PresenceError::ForeignProviderIdentity => {
                "provider identity is not the signer selected by Expected".to_owned()
            },
            PresenceError::WriteLeaseRequired => {
                "Muninn declares no process-bound state; a write lease cannot be presented".to_owned()
            },
            PresenceError::SequenceExhausted => {
                "runtime presence publisher sequence exhausted".to_owned()
            },
        }
    }
}

/// A capability that the Expected incarnation asks for.
#[derive(Debug, PartialEq, Eq)]
pub struct ExpectedCapability {
    pub capability: String,
    pub schema: String,
    pub compatibility: String,
    pub minimum_capacity: u64,
}

/// Where the Expected incarnation is to be reached.
#[derive(Debug, PartialEq, Eq)]
pub struct ExpectedRoute {
    pub candidate_endpoint: String,
}

/// The incarnation that Idunn expects.
#[derive(Debug, PartialEq, Eq)]
pub struct ExpectedIncarnation {
    pub target: String,
    pub plan_id: String,
    pub incarnation_id: String,
    pub sealed_release_id: String,
    pub state_schema_generation: String,
    pub state_contract_sha256: String,
    pub runtime_id: String,
    pub route: Option<ExpectedRoute>,
    pub capabilities: Vec<ExpectedCapability>,
    pub health_contract: String,
    pub write_lease_required: bool,
    pub expected_signer_identity_id: String,
}

/// The activation that Idunn issued.
#[derive(Debug, PartialEq, Eq)]
pub struct RuntimeActivation {
    pub expected_projection_sha256: String,
    pub runtime_id: String,
    pub runtime_instance_id: String,
    pub activation_signer_identity_id: String,
    pub activation_signer_public_key: Vec<u8>,
}

/// A capability that the runtime presents.
#[derive(Debug, PartialEq, Eq)]
pub struct PresentedCapability {
    pub capability: String,
    pub schema: String,
    pub compatibility: String,
    pub capacity: u64,
}

/// A presence record before it is signed.
#[derive(Debug, PartialEq, Eq)]
pub struct RuntimePresence {
    pub schema_version: String,
    pub target: String,
    pub expected_projection_sha256: String,
    pub plan_id: String,
    pub incarnation_id: String,
    pub sealed_release_id: String,
    pub activation_witness_sha256: String,
    pub state_schema_generation: String,
    pub state_contract_sha256: String,
    pub runtime_id: String,
    pub runtime_instance_id: String,
    pub bound_endpoint: Option<String>,
    pub capabilities: Vec<PresentedCapability>,
    pub health_contract: String,
    pub state: String,
    pub detail: String,
    pub write_lease_sha256: Option<String>,
    pub signer_identity_id: String,
    pub publisher_sequence: u64,
    pub observed_at_unix_millis: u64,
    pub signature_algorithm: String,
    pub activation_signer_identity_id: String,
}

/// The paths that Idunn hands over in the environment.
#[derive(Debug, PartialEq, Eq)]
pub struct RuntimePaths<P> {
    pub bundle: P,
    pub credential: P,
    pub provider_identity: P,
}

/// An entry of a runtime record file.
#[derive(Debug, PartialEq, Eq)]
pub struct RuntimeEntry {
    pub record_type: String,
    pub schema_id: Option<String>,
    pub key: String,
    pub payload: Vec<u8>,
}

/// Whether an entry is a `record_type` under `schema`.
pub open spec fn is_record(entry: RuntimeEntry, record_type: Seq<char>, schema: Seq<char>) -> bool {
    &&& entry.record_type@ == record_type
    &&& entry.schema_id is Some
    &&& entry.schema_id->0@ == schema
}

/// Takes the key and the payload of the one entry of a runtime record file.
pub fn read_single_runtime_record(
    path: &str,
    entries: Vec<RuntimeEntry>,
    record_type: &str,
    schema: &str,
) -> (outcome: Result<(String, Vec<u8>), PresenceError>)
    ensures
        match outcome {
            Ok((key, payload)) => {
                &&& entries@.len() == 1
                &&& entries@[0].record_type@ == record_type@
                &&& entries@[0].schema_id matches Some(schema_id) && schema_id@ == schema@
                &&& is_record(entries@[0], record_type@, schema@)
                &&& key == entries@[0].key
                &&& payload == entries@[0].payload
            },
            Err(PresenceError::EntryCount { path: p, count }) => {
                &&& entries@.len() != 1
                &&& p@ == path@
                &&& count == entries@.len()
            },
            Err(PresenceError::WrongRecord { path: p, record_type: t, schema: s }) => {
                &&& entries@.len() == 1
                &&& !is_record(entries@[0], record_type@, schema@)
                &&& p@ == path@
                &&& t@ == record_type@
                &&& s@ == schema@
            },
            Err(_) => false,
        },
        outcome is Ok <==> {
            &&& entries@.len() == 1
            &&& entries@[0].record_type@ == record_type@
            &&& entries@[0].schema_id matches Some(schema_id) && schema_id@ == schema@
        },
{
    let mut entries = entries;
    if entries.len() != 1 {
        return Err(PresenceError::EntryCount { path: path.to_owned(), count: entries.len() });
    }
    let entry = entries.swap_remove(0);
    let wanted_type = record_type.to_owned();
    let wanted_schema = schema.to_owned();
    let schema_fits = match &entry.schema_id {
        Some(schema_id) => *schema_id == wanted_schema,
        None => false,
    };
    if !(entry.record_type == wanted_type && schema_fits) {
        return Err(
            PresenceError::WrongRecord {
                path: path.to_owned(),
                record_type: wanted_type,
                schema: wanted_schema,
            },
        );
    }
    Ok((entry.key, entry.payload))
}

/// Whether an activation binds an Expected incarnation with the digest `expected_sha256`.
pub open spec fn binds(
    activation: RuntimeActivation,
    expected: ExpectedIncarnation,
    expected_sha256: Seq<char>,
) -> bool {
    activation.expected_projection_sha256@ == expected_sha256 && activation.runtime_id@
        == expected.runtime_id@
}

/// What a bundle holds whose Expected incarnation and activation are known.
#[verifier::ext_equal]
pub struct Bundle {
    pub expected: ExpectedIncarnation,
    pub expected_sha256: Seq<char>,
    pub activation: RuntimeActivation,
}

/// What an `IdunnRuntimeAuthority` holds.
#[verifier::ext_equal]
pub struct Authority {
    pub bundle: Bundle,
    pub activation_sha256: Seq<char>,
    pub provider_identity_id: Seq<char>,
    pub publisher_sequence: u64,
}

/// Whether the parts of a bundle belong together.
pub open spec fn bound(bundle: Bundle) -> bool {
    binds(bundle.activation, bundle.expected, bundle.expected_sha256)
}

/// Whether the parts of an authority belong together: its activation binds its Expected
/// incarnation, which selected its provider identity.
pub open spec fn coherent(authority: Authority) -> bool {
    &&& bound(authority.bundle)
    &&& authority.provider_identity_id
        == authority.bundle.expected.expected_signer_identity_id@
}

/// A bundle at an absolute path, whose Expected incarnation is to be read.
#[derive(Debug, PartialEq, Eq)]
pub struct ExpectedWanted {
    bundle_is_absolute: bool,
}

impl ExpectedWanted {
    #[verifier::type_invariant]
    spec fn opened(self) -> bool {
        self.bundle_is_absolute
    }
}

/// A bundle whose Expected incarnation is known and whose activation is to be read.
#[derive(Debug, PartialEq, Eq)]
pub struct ActivationWanted {
    expected: ExpectedIncarnation,
}

impl View for ActivationWanted {
    type V = ExpectedIncarnation;

    closed spec fn view(&self) -> ExpectedIncarnation {
        self.expected
    }
}

/// A bundle whose parts belong together. The activation credential may be read and is then
/// to be retired.
#[derive(Debug, PartialEq, Eq)]
pub struct CredentialWanted {
    expected: ExpectedIncarnation,
    expected_sha256: String,
    activation: RuntimeActivation,
}

impl View for CredentialWanted {
    type V = Bundle;

    closed spec fn view(&self) -> Bundle {
        Bundle {
            expected: self.expected,
            expected_sha256: self.expected_sha256@,
            activation: self.activation,
        }
    }
}

impl CredentialWanted {
    #[verifier::type_invariant]
    spec fn belongs_together(self) -> bool {
        bound(self@)
    }
}

/// A bundle whose activation credential is known. The provider identity is to be opened.
#[derive(Debug, PartialEq, Eq)]
pub struct ProviderIdentityWanted {
    expected: ExpectedIncarnation,
    expected_sha256: String,
    activation: RuntimeActivation,
}

impl View for ProviderIdentityWanted {
    type V = Bundle;

    closed spec fn view(&self) -> Bundle {
        Bundle {
            expected: self.expected,
            expected_sha256: self.expected_sha256@,
            activation: self.activation,
        }
    }
}

impl ProviderIdentityWanted {
    #[verifier::type_invariant]
    spec fn belongs_together(self) -> bool {
        bound(self@)
    }
}

/// Everything but the keys that an Idunn-launched process needs to sign its presence.
#[derive(Debug, PartialEq, Eq)]
pub struct IdunnRuntimeAuthority {
    expected: ExpectedIncarnation,
    expected_sha256: String,
    activation: RuntimeActivation,
    activation_sha256: String,
    provider_identity_id: String,
    publisher_sequence: u64,
}

impl View for IdunnRuntimeAuthority {
    type V = Authority;

    closed spec fn view(&self) -> Authority {
        Authority {
            bundle: Bundle {
                expected: self.expected,
                expected_sha256: self.expected_sha256@,
                activation: self.activation,
            },
            activation_sha256: self.activation_sha256@,
            provider_identity_id: self.provider_identity_id@,
            publisher_sequence: self.publisher_sequence,
        }
    }
}

impl IdunnRuntimeAuthority {
    #[verifier::type_invariant]
    spec fn belongs_together(self) -> bool {
        coherent(self@)
    }
}

fn same_bytes(a: &Vec<u8>, b: &Vec<u8>) -> (same: bool)
    ensures
        same == (a@ == b@),
{
    if a.len() != b.len() {
        return false;
    }
    let mut i: usize = 0;
    while i < a.len()
        invariant
            i <= a@.len() == b@.len(),
            forall|k: int| 0 <= k < i ==> a@[k] == b@[k],
        decreases a@.len() - i,
    {
        if a[i] != b[i] {
            return false;
        }
        i = i + 1;
    }
    assert(a@ =~= b@);
    true
}

impl ExpectedWanted {
    /// Takes in the Expected incarnation and the key that it was stored under.
    pub fn with_expected(self, key: String, expected: ExpectedIncarnation) -> (outcome: Result<
        ActivationWanted,
        PresenceError,
    >)
        ensures
            match outcome {
                Ok(next) => key@ == expected.target@ && next@ == expected,
                Err(error) => key@ != expected.target@ && error
                    == PresenceError::ExpectedKeySubstituted,
            },
    {
        if !(key == expected.target) {
            return Err(PresenceError::ExpectedKeySubstituted);
        }
        Ok(ActivationWanted { expected })
    }
}

impl ActivationWanted {
    /// Takes in the activation, the key that it was stored under and the digest of the
    /// Expected incarnation.
    pub fn with_activation(
        self,
        key: String,
        activation: RuntimeActivation,
        expected_sha256: String,
    ) -> (outcome: Result<CredentialWanted, PresenceError>)
        ensures
            match outcome {
                Ok(next) => {
                    &&& key@ == self@.target@
                    &&& bound(next@)
                    &&& activation.expected_projection_sha256@ == expected_sha256@
                    &&& activation.runtime_id@ == self@.runtime_id@
                    &&& next@ == (Bundle {
                        expected: self@,
                        expected_sha256: expected_sha256@,
                        activation,
                    })
                },
                Err(error) => if key@ != self@.target@ {
                    error == PresenceError::ActivationKeySubstituted
                } else {
                    &&& !binds(activation, self@, expected_sha256@)
                    &&& error == PresenceError::ActivationUnbound
                },
            },
    {
        if !(key == self.expected.target) {
            return Err(PresenceError::ActivationKeySubstituted);
        }
        if !(activation.expected_projection_sha256 == expected_sha256 && activation.runtime_id
            == self.expected.runtime_id) {
            return Err(PresenceError::ActivationUnbound);
        }
        Ok(CredentialWanted { expected: self.expected, expected_sha256, activation })
    }
}

impl CredentialWanted {
    /// Takes in whom the activation credential belongs to.
    pub fn with_activation_signer(self, identity_id: String, public_key: Vec<u8>) -> (outcome:
        Result<ProviderIdentityWanted, PresenceError>)
        ensures
            ({
                let fits = identity_id@ == self@.activation.activation_signer_identity_id@
                    && public_key@ == self@.activation.activation_signer_public_key@;
                match outcome {
                    Ok(next) => fits && next@ == self@ && bound(next@),
                    Err(error) => !fits && error == PresenceError::ForeignCredential,
                }
            }),
    {
        proof {
            use_type_invariant(&self);
        }
        if !(identity_id == self.activation.activation_signer_identity_id && same_bytes(
            &public_key,
            &self.activation.activation_signer_public_key,
        )) {
            return Err(PresenceError::ForeignCredential);
        }
        Ok(
            ProviderIdentityWanted {
                expected: self.expected,
                expected_sha256: self.expected_sha256,
                activation: self.activation,
            },
        )
    }
}

impl ProviderIdentityWanted {
    /// Takes in whom the provider identity belongs to and the digest of the activation.
    pub fn with_provider_identity(self, identity_id: String, activation_sha256: String) -> (outcome:
        Result<IdunnRuntimeAuthority, PresenceError>)
        ensures
            ({
                let fits = identity_id@ == self@.expected.expected_signer_identity_id@;
                match outcome {
                    Ok(authority) => {
                        &&& fits
                        &&& authority@ == (Authority {
                            bundle: self@,
                            activation_sha256: activation_sha256@,
                            provider_identity_id: identity_id@,
                            publisher_sequence: 0,
                        })
                        &&& coherent(authority@)
                    },
                    Err(error) => !fits && error == PresenceError::ForeignProviderIdentity,
                }
            }),
    {
        proof {
            use_type_invariant(&self);
        }
        if !(identity_id == self.expected.expected_signer_identity_id) {
            return Err(PresenceError::ForeignProviderIdentity);
        }
        Ok(
            IdunnRuntimeAuthority {
                expected: self.expected,
                expected_sha256: self.expected_sha256,
                activation: self.activation,
                activation_sha256,
                provider_identity_id: identity_id,
                publisher_sequence: 0,
            },
        )
    }
}

/// The publisher sequence behind `last`: the clock, unless that would not rise.
pub open spec fn next_sequence(last: u64, observed_at_unix_millis: u64) -> int {
    if observed_at_unix_millis > last {
        observed_at_unix_millis as int
    } else {
        last + 1
    }
}

/// Whether `presented` is `expected` with its minimum as its capacity.
pub open spec fn presents(presented: PresentedCapability, expected: ExpectedCapability) -> bool {
    &&& presented.capability == expected.capability
    &&& presented.schema == expected.schema
    &&& presented.compatibility == expected.compatibility
    &&& presented.capacity == expected.minimum_capacity
}

/// Whether `record` is what `authority` says of itself under a schema, in a state, with a
/// detail, at a time, as publication `sequence`.
pub open spec fn is_presence(
    record: RuntimePresence,
    authority: Authority,
    schema: Seq<char>,
    state: Seq<char>,
    detail: Seq<char>,
    observed_at_unix_millis: u64,
    sequence: u64,
) -> bool {
    let expected = authority.bundle.expected;
    let activation = authority.bundle.activation;
    &&& record.schema_version@ == schema
    &&& record.target == expected.target
    &&& record.expected_projection_sha256@ == authority.bundle.expected_sha256
    &&& record.plan_id == expected.plan_id
    &&& record.incarnation_id == expected.incarnation_id
    &&& record.sealed_release_id == expected.sealed_release_id
    &&& record.activation_witness_sha256@ == authority.activation_sha256
    &&& record.state_schema_generation == expected.state_schema_generation
    &&& record.state_contract_sha256 == expected.state_contract_sha256
    &&& record.runtime_id == expected.runtime_id
    &&& record.runtime_instance_id == activation.runtime_instance_id
    &&& record.bound_endpoint == match expected.route {
        Some(route) => Some(route.candidate_endpoint),
        None => None,
    }
    &&& record.capabilities@.len() == expected.capabilities@.len()
    &&& forall|i: int|
        0 <= i < record.capabilities@.len() ==> presents(
            #[trigger] record.capabilities@[i],
            expected.capabilities@[i],
        )
    &&& record.health_contract == expected.health_contract
    &&& record.state@ == state
    &&& record.detail@ == detail
    &&& record.write_lease_sha256 is None
    &&& record.signer_identity_id@ == authority.provider_identity_id
    &&& record.publisher_sequence == sequence
    &&& record.observed_at_unix_millis == observed_at_unix_millis
    &&& record.signature_algorithm@ == SIGNATURE_ALGORITHM@
    &&& record.activation_signer_identity_id == activation.activation_signer_identity_id
}

fn present_capabilities(expected: &Vec<ExpectedCapability>) -> (presented: Vec<PresentedCapability>)
    ensures
        presented@.len() == expected@.len(),
        forall|i: int|
            0 <= i < presented@.len() ==> presents(#[trigger] presented@[i], expected@[i]),
{
    let mut presented: Vec<PresentedCapability> = Vec::new();
    let mut i: usize = 0;
    while i < expected.len()
        invariant
            i <= expected@.len(),
            presented@.len() == i,
            forall|k: int| 0 <= k < i ==> presents(#[trigger] presented@[k], expected@[k]),
        decreases expected@.len() - i,
    {
        presented.push(
            PresentedCapability {
                capability: expected[i].capability.clone(),
                schema: expected[i].schema.clone(),
                compatibility: expected[i].compatibility.clone(),
                capacity: expected[i].minimum_capacity,
            },
        );
        i = i + 1;
    }
    presented
}

impl IdunnRuntimeAuthority {
    /// The paths to open, or `None` when this process was not started by Idunn.
    pub fn from_environment<P>(
        bundle: Option<P>,
        credential: Option<P>,
        provider_identity: Option<P>,
    ) -> (outcome: Result<Option<RuntimePaths<P>>, PresenceError>)
        ensures
            match outcome {
                Ok(None) => bundle is None,
                Ok(Some(paths)) => {
                    &&& bundle == Some(paths.bundle)
                    &&& credential == Some(paths.credential)
                    &&& provider_identity == Some(paths.provider_identity)
                },
                Err(error) => bundle is Some && if credential is None {
                    error == PresenceError::CredentialUnset
                } else {
                    provider_identity is None && error == PresenceError::ProviderIdentityUnset
                },
            },
    {
        let bundle = match bundle {
            Some(bundle) => bundle,
            None => {
                return Ok(None);
            },
        };
        let credential = match credential {
            Some(credential) => credential,
            None => {
                return Err(PresenceError::CredentialUnset);
            },
        };
        let provider_identity = match provider_identity {
            Some(provider_identity) => provider_identity,
            None => {
                return Err(PresenceError::ProviderIdentityUnset);
            },
        };
        Ok(Some(RuntimePaths { bundle, credential, provider_identity }))
    }

    /// Begins to open a bundle, whose path has to be absolute.
    pub fn open(bundle_is_absolute: bool) -> (outcome: Result<ExpectedWanted, PresenceError>)
        ensures
            match outcome {
                Ok(_) => bundle_is_absolute,
                Err(error) => !bundle_is_absolute && error == PresenceError::BundleNotAbsolute,
            },
    {
        if !bundle_is_absolute {
            return Err(PresenceError::BundleNotAbsolute);
        }
        Ok(ExpectedWanted { bundle_is_absolute })
    }

    /// The target that Idunn expects this process to be.
    pub fn target(&self) -> (target: &str)
        ensures
            target@ == self@.bundle.expected.target@,
    {
        self.expected.target.as_str()
    }

    /// The runtime that Idunn expects this process to be.
    pub fn runtime_id(&self) -> (runtime_id: &str)
        ensures
            runtime_id@ == self@.bundle.expected.runtime_id@,
    {
        self.expected.runtime_id.as_str()
    }

    /// The instance that the activation names.
    pub fn runtime_instance_id(&self) -> (runtime_instance_id: &str)
        ensures
            runtime_instance_id@ == self@.bundle.activation.runtime_instance_id@,
    {
        self.activation.runtime_instance_id.as_str()
    }

    /// The next presence record, to be signed by the provider identity and the activation.
    /// Odin takes a presence only with a publisher sequence above the last one it stored for
    /// this signer, across restarts; so the sequence is the clock where that rises.
    pub fn presence(
        &mut self,
        schema: &str,
        state: &str,
        detail: &str,
        observed_at_unix_millis: u64,
    ) -> (outcome: Result<RuntimePresence, PresenceError>)
        ensures
            coherent(final(self)@),
            match outcome {
                Ok(record) => {
                    &&& !old(self)@.bundle.expected.write_lease_required
                    &&& next_sequence(old(self)@.publisher_sequence, observed_at_unix_millis)
                        <= u64::MAX
                    &&& final(self)@ == (Authority {
                        publisher_sequence: next_sequence(
                            old(self)@.publisher_sequence,
                            observed_at_unix_millis,
                        ) as u64,
                        ..old(self)@
                    })
                    &&& is_presence(
                        record,
                        old(self)@,
                        schema@,
                        state@,
                        detail@,
                        observed_at_unix_millis,
                        final(self)@.publisher_sequence,
                    )
                },
                Err(error) => {
                    &&& final(self)@ == old(self)@
                    &&& if old(self)@.bundle.expected.write_lease_required {
                        error == PresenceError::WriteLeaseRequired
                    } else {
                        &&& old(self)@.publisher_sequence == u64::MAX
                        &&& error == PresenceError::SequenceExhausted
                    }
                },
            },
            outcome is Ok <==> !old(self)@.bundle.expected.write_lease_required && old(
                self,
            )@.publisher_sequence < u64::MAX,
            final(self)@.bundle == old(self)@.bundle,
            final(self)@.activation_sha256 == old(self)@.activation_sha256,
            final(self)@.provider_identity_id == old(self)@.provider_identity_id,
            outcome is Err ==> final(self)@.publisher_sequence == old(self)@.publisher_sequence,
            outcome matches Ok(record) ==> {
                &&& record.publisher_sequence == final(self)@.publisher_sequence
                &&& record.publisher_sequence == if observed_at_unix_millis > old(
                    self,
                )@.publisher_sequence {
                    observed_at_unix_millis as int
                } else {
                    old(self)@.publisher_sequence + 1
                }
                &&& record.schema_version@ == schema@
                &&& record.target@ == old(self)@.bundle.expected.target@
                &&& record.plan_id@ == old(self)@.bundle.expected.plan_id@
                &&& record.incarnation_id@ == old(self)@.bundle.expected.incarnation_id@
                &&& record.sealed_release_id@ == old(self)@.bundle.expected.sealed_release_id@
                &&& record.state_schema_generation@ == old(self)@.bundle.expected.state_schema_generation@
                &&& record.state_contract_sha256@ == old(self)@.bundle.expected.state_contract_sha256@
                &&& record.runtime_id@ == old(self)@.bundle.expected.runtime_id@
                &&& record.health_contract@ == old(self)@.bundle.expected.health_contract@
                &&& record.expected_projection_sha256@ == old(self)@.bundle.expected_sha256
                &&& record.activation_witness_sha256@ == old(self)@.activation_sha256
                &&& record.runtime_instance_id@ == old(self)@.bundle.activation.runtime_instance_id@
                &&& record.activation_signer_identity_id@
                    == old(self)@.bundle.activation.activation_signer_identity_id@
                &&& record.signer_identity_id@ == old(self)@.provider_identity_id
                &&& record.bound_endpoint is Some <==> old(self)@.bundle.expected.route is Some
                &&& record.bound_endpoint is Some ==> record.bound_endpoint->0@
                    == old(self)@.bundle.expected.route->0.candidate_endpoint@
                &&& record.capabilities@.len() == old(self)@.bundle.expected.capabilities@.len()
                &&& forall|i: int|
                    #![trigger record.capabilities@[i]]
                    0 <= i < record.capabilities@.len() ==> {
                        let wanted = old(self)@.bundle.expected.capabilities@[i];
                        &&& record.capabilities@[i].capability@ == wanted.capability@
                        &&& record.capabilities@[i].schema@ == wanted.schema@
                        &&& record.capabilities@[i].compatibility@ == wanted.compatibility@
                        &&& record.capabilities@[i].capacity == wanted.minimum_capacity
                    }
                &&& record.state@ == state@
                &&& record.detail@ == detail@
                &&& record.write_lease_sha256 is None
                &&& record.observed_at_unix_millis == observed_at_unix_millis
                &&& record.signature_algorithm@ == "ed25519"@
            },
    {
        proof {
            use_type_invariant(&*self);
        }
        if self.expected.write_lease_required {
            return Err(PresenceError::WriteLeaseRequired);
        }
        let above: u64 = match self.publisher_sequence.checked_add(1) {
            Some(above) => above,
            None => {
                return Err(PresenceError::SequenceExhausted);
            },
        };
        self.publisher_sequence = if observed_at_unix_millis > above {
            observed_at_unix_millis
        } else {
            above
        };
        let bound_endpoint = match &self.expected.route {
            Some(route) => Some(route.candidate_endpoint.clone()),
            None => None,
        };
        Ok(
            RuntimePresence {
                schema_version: schema.to_owned(),
                target: self.expected.target.clone(),
                expected_projection_sha256: self.expected_sha256.clone(),
                plan_id: self.expected.plan_id.clone(),
                incarnation_id: self.expected.incarnation_id.clone(),
                sealed_release_id: self.expected.sealed_release_id.clone(),
                activation_witness_sha256: self.activation_sha256.clone(),
                state_schema_generation: self.expected.state_schema_generation.clone(),
                state_contract_sha256: self.expected.state_contract_sha256.clone(),
                runtime_id: self.expected.runtime_id.clone(),
                runtime_instance_id: self.activation.runtime_instance_id.clone(),
                bound_endpoint,
                capabilities: present_capabilities(&self.expected.capabilities),
                health_contract: self.expected.health_contract.clone(),
                state: state.to_owned(),
                detail: detail.to_owned(),
                write_lease_sha256: None,
                signer_identity_id: self.provider_identity_id.clone(),
                publisher_sequence: self.publisher_sequence,
                observed_at_unix_millis,
                signature_algorithm: SIGNATURE_ALGORITHM.to_owned(),
                activation_signer_identity_id:
                    self.activation.activation_signer_identity_id.clone(),
            },
        )
    }
}

/// A presence record names the incarnation that Idunn expects and nothing else: what it
/// says is signed by the identity that the Expected incarnation selected, for the runtime
/// that the activation was issued for.
pub proof fn law_presence_is_of_the_expected_incarnation(
    record: RuntimePresence,
    authority: Authority,
    schema: Seq<char>,
    state: Seq<char>,
    detail: Seq<char>,
    observed_at_unix_millis: u64,
    sequence: u64,
)
    requires
        coherent(authority),
        is_presence(record, authority, schema, state, detail, observed_at_unix_millis, sequence),
    ensures
        record.signer_identity_id@ == authority.bundle.expected.expected_signer_identity_id@,
        record.runtime_id@ == authority.bundle.activation.runtime_id@,
        record.expected_projection_sha256@
            == authority.bundle.activation.expected_projection_sha256@,
{
}

/// Publisher sequences rise with every record and never fall behind the clock.
pub proof fn law_sequences_rise(last: u64, observed_at_unix_millis: u64)
    ensures
        next_sequence(last, observed_at_unix_millis) > last,
        next_sequence(last, observed_at_unix_millis) >= observed_at_unix_millis,
        next_sequence(last, observed_at_unix_millis) == observed_at_unix_millis || next_sequence(
            last,
            observed_at_unix_millis,
        ) == last + 1,
{
}

/// A later process publishes above what an earlier one published by the clock, whatever
/// the two published before.
pub proof fn law_later_processes_publish_above_earlier_ones(
    earlier_last: u64,
    earlier_observed: u64,
    later_last: u64,
    later_observed: u64,
)
    requires
        next_sequence(earlier_last, earlier_observed) == earlier_observed,
        earlier_observed < later_observed,
    ensures
        next_sequence(later_last, later_observed) > next_sequence(earlier_last, earlier_observed),
{
}

/// An activation binds an Expected incarnation exactly where it names its digest and its
/// runtime; an authority belongs together exactly where its activation does and the Expected
/// incarnation names its provider identity as the signer.
pub proof fn law_what_belongs_together(
    activation: RuntimeActivation,
    expected: ExpectedIncarnation,
    expected_sha256: Seq<char>,
    authority: Authority,
)
    ensures
        binds(activation, expected, expected_sha256) <==> {
            &&& activation.expected_projection_sha256@ == expected_sha256
            &&& activation.runtime_id@ == expected.runtime_id@
        },
        coherent(authority) <==> {
            let bundle = authority.bundle;
            &&& bundle.activation.expected_projection_sha256@ == bundle.expected_sha256
            &&& bundle.activation.runtime_id@ == bundle.expected.runtime_id@
            &&& authority.provider_identity_id == bundle.expected.expected_signer_identity_id@
        },
{
}

/// A presence record says of each thing what Idunn expects or issued, and of itself what the
/// caller gave.
pub proof fn law_presence_says_what_was_given(
    record: RuntimePresence,
    authority: Authority,
    schema: Seq<char>,
    state: Seq<char>,
    detail: Seq<char>,
    observed_at_unix_millis: u64,
    sequence: u64,
)
    requires
        is_presence(record, authority, schema, state, detail, observed_at_unix_millis, sequence),
    ensures
        record.publisher_sequence == sequence,
        record.schema_version@ == schema,
        record.target@ == authority.bundle.expected.target@,
        record.plan_id@ == authority.bundle.expected.plan_id@,
        record.incarnation_id@ == authority.bundle.expected.incarnation_id@,
        record.sealed_release_id@ == authority.bundle.expected.sealed_release_id@,
        record.state_schema_generation@ == authority.bundle.expected.state_schema_generation@,
        record.state_contract_sha256@ == authority.bundle.expected.state_contract_sha256@,
        record.runtime_id@ == authority.bundle.expected.runtime_id@,
        record.health_contract@ == authority.bundle.expected.health_contract@,
        record.expected_projection_sha256@ == authority.bundle.expected_sha256,
        record.activation_witness_sha256@ == authority.activation_sha256,
        record.runtime_instance_id@ == authority.bundle.activation.runtime_instance_id@,
        record.activation_signer_identity_id@
            == authority.bundle.activation.activation_signer_identity_id@,
        record.signer_identity_id@ == authority.provider_identity_id,
        record.bound_endpoint is Some <==> authority.bundle.expected.route is Some,
        record.bound_endpoint is Some ==> record.bound_endpoint->0@
            == authority.bundle.expected.route->0.candidate_endpoint@,
        record.capabilities@.len() == authority.bundle.expected.capabilities@.len(),
        forall|i: int|
            #![trigger record.capabilities@[i]]
            0 <= i < record.capabilities@.len() ==> {
                let wanted = authority.bundle.expected.capabilities@[i];
                &&& record.capabilities@[i].capability@ == wanted.capability@
                &&& record.capabilities@[i].schema@ == wanted.schema@
                &&& record.capabilities@[i].compatibility@ == wanted.compatibility@
                &&& record.capabilities@[i].capacity == wanted.minimum_capacity
            },
        record.state@ == state,
        record.detail@ == detail,
        record.write_lease_sha256 is None,
        record.observed_at_unix_millis == observed_at_unix_millis,
        record.signature_algorithm@ == "ed25519"@,
{
    assert forall|i: int| #![trigger record.capabilities@[i]] 0 <= i
        < record.capabilities@.len() implies {
        let wanted = authority.bundle.expected.capabilities@[i];
        &&& record.capabilities@[i].capability@ == wanted.capability@
        &&& record.capabilities@[i].schema@ == wanted.schema@
        &&& record.capabilities@[i].compatibility@ == wanted.compatibility@
        &&& record.capabilities@[i].capacity == wanted.minimum_capacity
    } by {
        assert(presents(record.capabilities@[i], authority.bundle.expected.capabilities@[i]));
    }
}

/// What a runtime record file holds too much or too little of is told with its path, the
/// number of its entries, and the record that was looked for.
pub proof fn law_messages_tell_the_record(
    path: String,
    count: usize,
    record_type: String,
    schema: String,
)
    ensures
        error_text(PresenceError::EntryCount { path, count }) == "runtime record "@ + path@
            + " holds "@ + text::decimal_text(count as nat) + " entries, expected one"@,
        error_text(PresenceError::WrongRecord { path, record_type, schema }) == "runtime record "@
            + path@ + " is not a "@ + record_type@ + " under "@ + schema@,
{
}

} // verus!
