use muninn_daemon::idunn_presence::{
    read_single_runtime_record, CredentialWanted, ExpectedCapability, ExpectedIncarnation,
    ExpectedRoute, IdunnRuntimeAuthority, PresenceError, PresentedCapability, RuntimeActivation,
    RuntimeEntry, RuntimePaths, RuntimePresence,
};

const SCHEMA: &str = "gamecult.runtime_presence_health.v2";

fn expected() -> ExpectedIncarnation {
    ExpectedIncarnation {
        target: "muninn.raven".to_string(),
        plan_id: "plan".to_string(),
        incarnation_id: "incarnation".to_string(),
        sealed_release_id: "release".to_string(),
        state_schema_generation: "generation".to_string(),
        state_contract_sha256: "contract".to_string(),
        runtime_id: "runtime".to_string(),
        route: Some(ExpectedRoute { candidate_endpoint: "udp://raven:9".to_string() }),
        capabilities: vec![
            ExpectedCapability {
                capability: "screen".to_string(),
                schema: "s1".to_string(),
                compatibility: "c1".to_string(),
                minimum_capacity: 2,
            },
            ExpectedCapability {
                capability: "audio".to_string(),
                schema: "s2".to_string(),
                compatibility: "c2".to_string(),
                minimum_capacity: 5,
            },
        ],
        health_contract: "health".to_string(),
        write_lease_required: false,
        expected_signer_identity_id: "provider".to_string(),
    }
}

fn activation() -> RuntimeActivation {
    RuntimeActivation {
        expected_projection_sha256: "digest".to_string(),
        runtime_id: "runtime".to_string(),
        runtime_instance_id: "instance".to_string(),
        activation_signer_identity_id: "activator".to_string(),
        activation_signer_public_key: vec![1, 2, 3],
    }
}

fn bound(expected: ExpectedIncarnation) -> CredentialWanted {
    IdunnRuntimeAuthority::open(true)
        .unwrap()
        .with_expected("muninn.raven".to_string(), expected)
        .unwrap()
        .with_activation("muninn.raven".to_string(), activation(), "digest".to_string())
        .unwrap()
}

fn authority(expected: ExpectedIncarnation) -> IdunnRuntimeAuthority {
    bound(expected)
        .with_activation_signer("activator".to_string(), vec![1, 2, 3])
        .unwrap()
        .with_provider_identity("provider".to_string(), "witness".to_string())
        .unwrap()
}

#[test]
fn a_process_that_idunn_did_not_start_has_no_paths() {
    assert_eq!(IdunnRuntimeAuthority::from_environment::<u8>(None, Some(1), Some(2)), Ok(None));
    assert_eq!(
        IdunnRuntimeAuthority::from_environment(Some(0), Some(1), Some(2)),
        Ok(Some(RuntimePaths { bundle: 0, credential: 1, provider_identity: 2 }))
    );
    let error = IdunnRuntimeAuthority::from_environment(Some(0), None, None).unwrap_err();
    assert_eq!(
        error.message(),
        "GAMECULT_IDUNN_RUNTIME_BUNDLE is set but GAMECULT_IDUNN_ACTIVATION_CREDENTIAL is not"
    );
    let error = IdunnRuntimeAuthority::from_environment(Some(0), Some(1), None).unwrap_err();
    assert_eq!(
        error.message(),
        "GAMECULT_IDUNN_RUNTIME_BUNDLE is set but GAMECULT_RUNTIME_PRESENCE_IDENTITY is not"
    );
}

fn entry(record_type: &str, schema_id: Option<&str>) -> RuntimeEntry {
    RuntimeEntry {
        record_type: record_type.to_string(),
        schema_id: schema_id.map(|schema| schema.to_string()),
        key: "key".to_string(),
        payload: vec![4, 5],
    }
}

#[test]
fn runtime_record_files_hold_one_record() {
    let read = |entries| read_single_runtime_record("/b/expected.cc", entries, "Expected", "v1");
    assert_eq!(read(vec![entry("Expected", Some("v1"))]), Ok(("key".to_string(), vec![4, 5])));
    assert_eq!(
        read(vec![]).unwrap_err().message(),
        "runtime record /b/expected.cc holds 0 entries, expected one"
    );
    assert_eq!(
        read(vec![entry("Expected", Some("v1")), entry("Expected", Some("v1"))])
            .unwrap_err()
            .message(),
        "runtime record /b/expected.cc holds 2 entries, expected one"
    );
    for wrong in [
        entry("Activation", Some("v1")),
        entry("Expected", Some("v2")),
        entry("Expected", None),
    ] {
        assert_eq!(
            read(vec![wrong]).unwrap_err().message(),
            "runtime record /b/expected.cc is not a Expected under v1"
        );
    }
}

#[test]
fn parts_that_do_not_belong_together_are_refused() {
    assert_eq!(IdunnRuntimeAuthority::open(false), Err(PresenceError::BundleNotAbsolute));
    let wanted = IdunnRuntimeAuthority::open(true).unwrap();
    assert_eq!(
        wanted.with_expected("other".to_string(), expected()),
        Err(PresenceError::ExpectedKeySubstituted)
    );
    let with = |key: &str, activation: RuntimeActivation, digest: &str| {
        IdunnRuntimeAuthority::open(true)
            .unwrap()
            .with_expected("muninn.raven".to_string(), expected())
            .unwrap()
            .with_activation(key.to_string(), activation, digest.to_string())
    };
    assert_eq!(
        with("other", activation(), "digest"),
        Err(PresenceError::ActivationKeySubstituted)
    );
    assert_eq!(
        with("muninn.raven", activation(), "another"),
        Err(PresenceError::ActivationUnbound)
    );
    let mut foreign = activation();
    foreign.runtime_id = "another".to_string();
    assert_eq!(with("muninn.raven", foreign, "digest"), Err(PresenceError::ActivationUnbound));
    for (identity, key) in [
        ("another", vec![1, 2, 3]),
        ("activator", vec![1, 2, 4]),
        ("activator", vec![1, 2]),
    ] {
        assert_eq!(
            bound(expected()).with_activation_signer(identity.to_string(), key),
            Err(PresenceError::ForeignCredential)
        );
    }
    assert_eq!(
        bound(expected())
            .with_activation_signer("activator".to_string(), vec![1, 2, 3])
            .unwrap()
            .with_provider_identity("another".to_string(), "witness".to_string()),
        Err(PresenceError::ForeignProviderIdentity)
    );
}

#[test]
fn presence_says_what_idunn_expects() {
    let mut authority = authority(expected());
    assert_eq!(authority.target(), "muninn.raven");
    assert_eq!(authority.runtime_id(), "runtime");
    assert_eq!(authority.runtime_instance_id(), "instance");
    let record = authority.presence(SCHEMA, "warming", "opening capture", 1_000).unwrap();
    assert_eq!(
        record,
        RuntimePresence {
            schema_version: "gamecult.runtime_presence_health.v2".to_string(),
            target: "muninn.raven".to_string(),
            expected_projection_sha256: "digest".to_string(),
            plan_id: "plan".to_string(),
            incarnation_id: "incarnation".to_string(),
            sealed_release_id: "release".to_string(),
            activation_witness_sha256: "witness".to_string(),
            state_schema_generation: "generation".to_string(),
            state_contract_sha256: "contract".to_string(),
            runtime_id: "runtime".to_string(),
            runtime_instance_id: "instance".to_string(),
            bound_endpoint: Some("udp://raven:9".to_string()),
            capabilities: vec![
                PresentedCapability {
                    capability: "screen".to_string(),
                    schema: "s1".to_string(),
                    compatibility: "c1".to_string(),
                    capacity: 2,
                },
                PresentedCapability {
                    capability: "audio".to_string(),
                    schema: "s2".to_string(),
                    compatibility: "c2".to_string(),
                    capacity: 5,
                },
            ],
            health_contract: "health".to_string(),
            state: "warming".to_string(),
            detail: "opening capture".to_string(),
            write_lease_sha256: None,
            signer_identity_id: "provider".to_string(),
            publisher_sequence: 1_000,
            observed_at_unix_millis: 1_000,
            signature_algorithm: "ed25519".to_string(),
            activation_signer_identity_id: "activator".to_string(),
        }
    );
    let mut without_route = expected();
    without_route.route = None;
    let mut authority = self::authority(without_route);
    assert_eq!(authority.presence(SCHEMA, "active", "", 0).unwrap().bound_endpoint, None);
}

#[test]
fn sequences_rise_with_every_record() {
    let mut authority = authority(expected());
    let mut sequence = |observed| {
        authority.presence(SCHEMA, "active", "", observed).unwrap().publisher_sequence
    };
    assert_eq!(sequence(0), 1);
    assert_eq!(sequence(0), 2);
    assert_eq!(sequence(500), 500);
    assert_eq!(sequence(500), 501);
    assert_eq!(sequence(400), 502);
    assert_eq!(sequence(503), 503);
    assert_eq!(sequence(u64::MAX), u64::MAX);
    for observed in [7, u64::MAX] {
        assert_eq!(
            authority.presence(SCHEMA, "active", "", observed),
            Err(PresenceError::SequenceExhausted)
        );
    }
}

#[test]
fn a_later_process_publishes_above_an_earlier_one() {
    let mut earlier = authority(expected());
    let last = earlier.presence(SCHEMA, "active", "", 9_000).unwrap().publisher_sequence;
    assert_eq!(last, 9_000);
    let mut later = authority(expected());
    assert!(later.presence(SCHEMA, "warming", "", 9_001).unwrap().publisher_sequence > last);
}

#[test]
fn a_write_lease_cannot_be_presented() {
    let mut leased = expected();
    leased.write_lease_required = true;
    let mut authority = authority(leased);
    for _ in 0..2 {
        assert_eq!(
            authority.presence(SCHEMA, "active", "", 7),
            Err(PresenceError::WriteLeaseRequired)
        );
    }
}

#[test]
fn presence_errors_have_their_messages() {
    for (error, text) in [
        (PresenceError::BundleNotAbsolute, "Idunn runtime bundle is not absolute"),
        (PresenceError::ExpectedKeySubstituted, "Expected key is substituted"),
        (PresenceError::ActivationKeySubstituted, "activation key is substituted"),
        (
            PresenceError::ActivationUnbound,
            "activation does not bind this Expected projection",
        ),
        (
            PresenceError::ForeignCredential,
            "activation credential does not belong to this activation",
        ),
        (
            PresenceError::ForeignProviderIdentity,
            "provider identity is not the signer selected by Expected",
        ),
        (
            PresenceError::WriteLeaseRequired,
            "Muninn declares no process-bound state; a write lease cannot be presented",
        ),
        (
            PresenceError::SequenceExhausted,
            "runtime presence publisher sequence exhausted",
        ),
    ] {
        assert_eq!(error.message(), text);
    }
}
