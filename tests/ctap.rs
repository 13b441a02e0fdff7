use k256::ecdsa::signature::Verifier;
use k256::ecdsa::{Signature, VerifyingKey};
use pico_fido::ctap::{
    attested_auth_data, status_message, CredentialCommand, Ctap, CtapError, DispatcherState,
    PinCommand, Request, Response, Step, Version, ES256K, PIN_RETRIES,
};
use pico_fido::framing::{CTAPHID_CBOR, MAX_MESSAGE};
use pico_fido::keys::{sha256, Keys};
use pico_fido::presence::{LedState, Poll, PresenceReason, PresenceRequest, Verdict};

fn authenticator() -> Ctap {
    Ctap::new(Keys::new([42u8; 32]))
}

fn make_credential(rp: &str, exclude_list: Vec<Vec<u8>>) -> Request {
    Request::MakeCredential {
        rp_id: rp.as_bytes().to_vec(),
        user_handle: b"alice".to_vec(),
        exclude_list,
        algorithm: ES256K,
        resident: true,
    }
}

fn get_assertion(rp: &str) -> Request {
    Request::GetAssertion {
        rp_id: rp.as_bytes().to_vec(),
        allow_list: None,
        client_data_hash: vec![0x5A; 32],
    }
}

fn register(ctap: &mut Ctap, rp: &str) -> (Vec<u8>, Vec<u8>) {
    assert!(matches!(
        ctap.handle(make_credential(rp, vec![])),
        Step::AwaitPresence(PresenceReason::Registration)
    ));
    match ctap.presence(Verdict::Granted, 10) {
        Ok(Response::Registered { credential_id, public_key }) => (credential_id, public_key),
        _ => panic!("registration failed"),
    }
}

#[test]
fn registration_scenario() {
    let mut ctap = authenticator();
    let (id, pk) = register(&mut ctap, "example.com");
    assert!(id.len() >= 16);
    assert_eq!(pk.len(), 65);
    assert_eq!(pk[0], 0x04);
    assert_eq!(ctap.credential_count_for(b"example.com"), 1);
    assert_eq!(ctap.credential_count(), 1);
    assert!(ctap.has_credential_id(&id));
    let cred = ctap.get_credential_id(&id).unwrap();
    assert_eq!(cred.rp_id_hash, sha256(b"example.com"));
    assert_eq!(cred.sign_count, 0);
    assert_eq!(cred.user_handle, b"alice".to_vec());
}

#[test]
fn assertion_scenario() {
    let mut ctap = authenticator();
    let (id, pk) = register(&mut ctap, "example.com");
    assert!(matches!(
        ctap.handle(get_assertion("example.com")),
        Step::AwaitPresence(PresenceReason::Assertion)
    ));
    match ctap.presence(Verdict::Granted, 20) {
        Ok(Response::Assertion {
            credential_id,
            user_handle,
            auth_data,
            signature,
            sign_count,
            number_of_credentials,
        }) => {
            assert_eq!(number_of_credentials, Some(1));
            assert_eq!(credential_id, id);
            assert_eq!(user_handle, b"alice".to_vec());
            assert!(sign_count > 0);
            assert_eq!(sign_count, 1);
            assert_eq!(&auth_data[0..32], &sha256(b"example.com")[..]);
            assert_eq!(auth_data[32], 0x01);
            assert_eq!(&auth_data[33..37], &[0, 0, 0, 1]);
            let mut signed = auth_data.clone();
            signed.extend_from_slice(&[0x5A; 32]);
            let vk = VerifyingKey::from_sec1_bytes(&pk).unwrap();
            let sig = Signature::from_der(&signature).unwrap();
            assert!(vk.verify(&signed, &sig).is_ok());
        }
        _ => panic!("assertion failed"),
    }
    assert_eq!(ctap.get_credential_id(&id).unwrap().sign_count, 1);
}

#[test]
fn excluded_credential_after_presence() {
    let mut ctap = authenticator();
    let (id, _) = register(&mut ctap, "example.com");
    let step = ctap.handle(make_credential("example.com", vec![vec![1, 2, 3], id.clone()]));
    assert!(matches!(step, Step::AwaitPresence(PresenceReason::Registration)));
    assert!(ctap.is_awaiting_presence());
    assert_eq!(ctap.presence(Verdict::Granted, 30).err(), Some(CtapError::CredentialExcluded));
    assert_eq!(ctap.credential_count(), 1);
    assert!(!ctap.is_awaiting_presence());
}

#[test]
fn exclusion_for_other_relying_party_does_not_apply() {
    let mut ctap = authenticator();
    let (id, _) = register(&mut ctap, "example.com");
    ctap.handle(make_credential("other.org", vec![id]));
    assert!(ctap.presence(Verdict::Granted, 30).is_ok());
    assert_eq!(ctap.credential_count(), 2);
}

#[test]
fn exclusion_is_not_revealed_without_presence() {
    let mut ctap = authenticator();
    let (id, _) = register(&mut ctap, "example.com");
    ctap.handle(make_credential("example.com", vec![id]));
    assert_eq!(ctap.presence(Verdict::Denied, 30).err(), Some(CtapError::PresenceDenied));
    assert_eq!(ctap.credential_count(), 1);
}

#[test]
fn no_credentials_without_presence() {
    let mut ctap = authenticator();
    register(&mut ctap, "example.com");
    match ctap.handle(get_assertion("unknown.net")) {
        Step::Reply(Err(e)) => assert_eq!(e, CtapError::NoCredentials),
        _ => panic!("expected NoCredentials"),
    }
    assert!(!ctap.is_awaiting_presence());
    assert_eq!(ctap.presence(Verdict::Granted, 1).err(), Some(CtapError::NotAllowed));
}

#[test]
fn allow_list_narrows_assertion() {
    let mut ctap = authenticator();
    register(&mut ctap, "example.com");
    let req = Request::GetAssertion {
        rp_id: b"example.com".to_vec(),
        allow_list: Some(vec![vec![9; 32]]),
        client_data_hash: vec![0; 32],
    };
    assert!(matches!(ctap.handle(req), Step::Reply(Err(CtapError::NoCredentials))));
}

#[test]
fn presence_timeout_then_retry_succeeds() {
    let mut ctap = authenticator();
    let step = ctap.handle(make_credential("example.com", vec![]));
    let reason = match step {
        Step::AwaitPresence(r) => r,
        _ => panic!("expected a presence request"),
    };
    let (req, led) = PresenceRequest::start(reason, 1000, 500);
    assert_eq!(led, LedState::Confirm);
    assert_eq!(req.poll(false, 1200), (Poll::Waiting, LedState::Confirm));
    let (outcome, led) = req.poll(false, 1500);
    assert_eq!(outcome, Poll::Done(Verdict::TimedOut));
    assert_eq!(led, LedState::Idle);
    assert_eq!(ctap.presence(Verdict::TimedOut, 1500).err(), Some(CtapError::PresenceTimeout));
    assert_eq!(ctap.credential_count(), 0);

    ctap.handle(make_credential("example.com", vec![]));
    let (req, _) = PresenceRequest::start(PresenceReason::Registration, 2000, 500);
    let (outcome, led) = req.poll(true, 2100);
    assert_eq!(outcome, Poll::Done(Verdict::Granted));
    assert_eq!(led, LedState::Active);
    assert!(matches!(ctap.presence(Verdict::Granted, 2100), Ok(Response::Registered { .. })));
    assert_eq!(ctap.credential_count(), 1);
}

#[test]
fn confirmation_after_deadline_does_not_count() {
    let (req, _) = PresenceRequest::start(PresenceReason::Assertion, 0, 100);
    assert_eq!(req.poll(true, 100).0, Poll::Done(Verdict::TimedOut));
    assert_eq!(req.cancel(), LedState::Idle);
    let (late, _) = PresenceRequest::start(PresenceReason::Reset, u64::MAX - 1, 10);
    assert_eq!(late.deadline, u64::MAX);
    assert_eq!(LedState::default(), LedState::Idle);
}

#[test]
fn unsupported_algorithm_is_refused_at_once() {
    let mut ctap = authenticator();
    let req = Request::MakeCredential {
        rp_id: b"example.com".to_vec(),
        user_handle: vec![],
        exclude_list: vec![],
        algorithm: -7,
        resident: false,
    };
    assert!(matches!(ctap.handle(req), Step::Reply(Err(CtapError::UnsupportedAlgorithm))));
    assert!(!ctap.is_awaiting_presence());
}

#[test]
fn commands_are_refused_while_presence_is_awaited() {
    let mut ctap = authenticator();
    assert_eq!(ctap.state(), DispatcherState::Idle);
    ctap.handle(Request::Reset);
    assert_eq!(ctap.state(), DispatcherState::AwaitingPresence);
    assert!(matches!(ctap.handle(Request::GetInfo), Step::Reply(Err(CtapError::ChannelBusy))));
    ctap.bus_reset();
    assert!(!ctap.is_awaiting_presence());
    assert!(matches!(ctap.handle(Request::GetInfo), Step::Reply(Ok(Response::Info(_)))));
}

#[test]
fn next_assertion_walks_remaining_matches() {
    let mut ctap = authenticator();
    let (a, _) = register(&mut ctap, "example.com");
    let (b, _) = register(&mut ctap, "example.com");
    register(&mut ctap, "other.org");
    ctap.handle(get_assertion("example.com"));
    match ctap.presence(Verdict::Granted, 5) {
        Ok(Response::Assertion { credential_id, number_of_credentials, .. }) => {
            assert_eq!(credential_id, a);
            assert_eq!(number_of_credentials, Some(2));
        }
        _ => panic!("first assertion"),
    }
    match ctap.handle(Request::GetNextAssertion) {
        Step::Reply(Ok(Response::Assertion { credential_id, sign_count, number_of_credentials, .. })) => {
            assert_eq!(number_of_credentials, None);
            assert_eq!(credential_id, b);
            assert_eq!(sign_count, 1);
        }
        _ => panic!("second assertion"),
    }
    assert!(matches!(
        ctap.handle(Request::GetNextAssertion),
        Step::Reply(Err(CtapError::NoPendingAssertion))
    ));
}

#[test]
fn next_assertion_without_context() {
    let mut ctap = authenticator();
    assert_eq!(ctap.get_next_assertion().err(), Some(CtapError::NoPendingAssertion));
}

#[test]
fn reset_needs_presence() {
    let mut ctap = authenticator();
    register(&mut ctap, "example.com");
    assert!(matches!(ctap.handle(Request::Reset), Step::AwaitPresence(PresenceReason::Reset)));
    assert_eq!(ctap.presence(Verdict::Denied, 1).err(), Some(CtapError::PresenceDenied));
    assert_eq!(ctap.credential_count(), 1);
    ctap.handle(Request::Reset);
    assert!(matches!(ctap.presence(Verdict::Granted, 2), Ok(Response::Done)));
    assert_eq!(ctap.credential_count(), 0);
}

#[test]
fn get_info_is_fixed() {
    let ctap = authenticator();
    let info = ctap.get_info();
    assert_eq!(info.versions, vec![Version::Fido2_0, Version::Fido2_1, Version::Fido2_1Pre]);
    assert_eq!(info.aaguid, vec![0u8; 16]);
    assert_eq!(info.algorithms, vec![ES256K]);
    assert!(info.resident_keys && info.user_presence);
    assert_eq!(info.max_message_size, MAX_MESSAGE);
}

#[test]
fn client_pin_subcommands() {
    let mut ctap = authenticator();
    assert!(matches!(ctap.client_pin(PinCommand::GetRetries), Ok(Response::PinRetries(n)) if n == PIN_RETRIES));
    match ctap.client_pin(PinCommand::GetKeyAgreement) {
        Ok(Response::KeyAgreement(k)) => assert_eq!(k.len(), 65),
        _ => panic!("key agreement"),
    }
    for cmd in [PinCommand::SetPin, PinCommand::ChangePin, PinCommand::GetPinToken] {
        assert_eq!(ctap.client_pin(cmd).err(), Some(CtapError::NotSupported));
    }
}

#[test]
fn credential_management_subcommands() {
    let mut ctap = authenticator();
    let (a, _) = register(&mut ctap, "example.com");
    match ctap.handle(Request::CredentialManagement(CredentialCommand::GetMetadata)) {
        Step::Reply(Ok(Response::Metadata { existing, remaining })) => {
            assert_eq!(existing, 1);
            assert_eq!(remaining, 63);
        }
        _ => panic!("metadata"),
    }
    let h = sha256(b"example.com");
    match ctap.handle(Request::CredentialManagement(CredentialCommand::EnumerateCredentials(h))) {
        Step::Reply(Ok(Response::CredentialIds(ids))) => assert_eq!(ids, vec![a.clone()]),
        _ => panic!("enumerate"),
    }
    let step = ctap.handle(Request::CredentialManagement(CredentialCommand::DeleteCredential(a.clone())));
    assert!(matches!(step, Step::AwaitPresence(PresenceReason::Deletion)));
    assert!(matches!(ctap.presence(Verdict::Granted, 3), Ok(Response::Done)));
    assert!(!ctap.has_credential_id(&a));
    ctap.handle(Request::CredentialManagement(CredentialCommand::DeleteCredential(a)));
    assert_eq!(ctap.presence(Verdict::Granted, 4).err(), Some(CtapError::NoCredentials));
}

#[test]
fn selection_and_vendor() {
    let mut ctap = authenticator();
    assert!(matches!(ctap.handle(Request::Selection), Step::AwaitPresence(PresenceReason::Selection)));
    assert!(matches!(ctap.presence(Verdict::Granted, 1), Ok(Response::Done)));
    assert!(matches!(ctap.handle(Request::Vendor(0x41)), Step::Reply(Err(CtapError::NotSupported))));
}

#[test]
fn status_bytes() {
    assert_eq!(CtapError::CredentialExcluded.status(), 0x19);
    assert_eq!(CtapError::NoCredentials.status(), 0x2E);
    assert_eq!(CtapError::PresenceTimeout.status(), 0x2F);
    assert_eq!(CtapError::PresenceDenied.status(), 0x27);
    assert_eq!(CtapError::UnsupportedAlgorithm.status(), 0x26);
    let m = status_message(3, CtapError::KeyStoreFull);
    assert_eq!(m.command, CTAPHID_CBOR);
    assert_eq!(m.payload, vec![0x28]);
}

#[test]
fn registration_auth_data_layout() {
    let mut pk = vec![0x04u8];
    pk.extend_from_slice(&[3u8; 32]);
    pk.extend_from_slice(&[4u8; 32]);
    let ad = attested_auth_data(&[1u8; 32], &[2u8; 20], &pk);
    assert_eq!(ad.len(), 32 + 1 + 4 + 16 + 2 + 20 + 78);
    assert_eq!(&ad[0..32], &[1u8; 32]);
    assert_eq!(ad[32], 0x41);
    assert_eq!(&ad[33..37], &[0, 0, 0, 0]);
    assert_eq!(&ad[37..53], &[0u8; 16]);
    assert_eq!(&ad[53..55], &[0, 20]);
    assert_eq!(&ad[55..75], &[2u8; 20]);
    assert_eq!(&ad[75..86], &[0xA5, 0x01, 0x02, 0x03, 0x38, 0x2E, 0x20, 0x08, 0x21, 0x58, 0x20]);
    assert_eq!(&ad[86..118], &[3u8; 32]);
    assert_eq!(&ad[118..121], &[0x22, 0x58, 0x20]);
    assert_eq!(&ad[121..153], &[4u8; 32]);
}

fn register_non_resident(ctap: &mut Ctap, rp: &str) -> Vec<u8> {
    let req = Request::MakeCredential {
        rp_id: rp.as_bytes().to_vec(),
        user_handle: b"carol".to_vec(),
        exclude_list: vec![],
        algorithm: ES256K,
        resident: false,
    };
    ctap.handle(req);
    match ctap.presence(Verdict::Granted, 1) {
        Ok(Response::Registered { credential_id, .. }) => credential_id,
        _ => panic!("registration failed"),
    }
}

#[test]
fn management_sees_resident_credentials_only() {
    let mut ctap = authenticator();
    register_non_resident(&mut ctap, "example.com");
    let h = sha256(b"example.com");
    assert!(matches!(
        ctap.handle(Request::CredentialManagement(CredentialCommand::EnumerateCredentials(h.clone()))),
        Step::Reply(Err(CtapError::NoCredentials))
    ));
    let (a, _) = register(&mut ctap, "example.com");
    match ctap.handle(Request::CredentialManagement(CredentialCommand::EnumerateCredentials(h))) {
        Step::Reply(Ok(Response::CredentialIds(ids))) => assert_eq!(ids, vec![a]),
        _ => panic!("enumerate"),
    }
    match ctap.handle(Request::CredentialManagement(CredentialCommand::GetMetadata)) {
        Step::Reply(Ok(Response::Metadata { existing, remaining })) => {
            assert_eq!(existing, 1);
            assert_eq!(remaining, 62);
        }
        _ => panic!("metadata"),
    }
}

#[test]
fn refused_reset_keeps_assertion_context() {
    let mut ctap = authenticator();
    register(&mut ctap, "example.com");
    let (b, _) = register(&mut ctap, "example.com");
    ctap.handle(get_assertion("example.com"));
    assert!(ctap.presence(Verdict::Granted, 5).is_ok());
    ctap.handle(Request::Reset);
    assert_eq!(ctap.presence(Verdict::TimedOut, 6).err(), Some(CtapError::PresenceTimeout));
    assert!(matches!(ctap.handle(Request::GetInfo), Step::Reply(Ok(Response::Info(_)))));
    match ctap.handle(Request::GetNextAssertion) {
        Step::Reply(Ok(Response::Assertion { credential_id, .. })) => assert_eq!(credential_id, b),
        _ => panic!("context should survive"),
    }
}

#[test]
fn granted_reset_drops_assertion_context() {
    let mut ctap = authenticator();
    register(&mut ctap, "example.com");
    register(&mut ctap, "example.com");
    ctap.handle(get_assertion("example.com"));
    assert!(ctap.presence(Verdict::Granted, 5).is_ok());
    ctap.handle(Request::Reset);
    assert!(ctap.presence(Verdict::Granted, 6).is_ok());
    assert!(matches!(
        ctap.handle(Request::GetNextAssertion),
        Step::Reply(Err(CtapError::NoPendingAssertion))
    ));
}

#[test]
fn failed_durable_write_takes_registration_back() {
    let mut ctap = authenticator();
    ctap.handle(make_credential("example.com", vec![]));
    let reply = ctap.presence(Verdict::Granted, 1);
    let id = match &reply {
        Ok(Response::Registered { credential_id, .. }) => credential_id.clone(),
        _ => panic!("registration failed"),
    };
    assert!(ctap.has_credential_id(&id));
    assert_eq!(ctap.durable_write_failed(&reply).err(), Some(CtapError::StorageFailure));
    assert!(!ctap.has_credential_id(&id));
    assert_eq!(ctap.credential_count(), 0);
}

#[test]
fn failed_durable_write_of_other_reply_changes_nothing() {
    let mut ctap = authenticator();
    register(&mut ctap, "example.com");
    let reply: Result<Response, CtapError> = Ok(Response::Done);
    assert_eq!(ctap.durable_write_failed(&reply).err(), Some(CtapError::StorageFailure));
    assert_eq!(ctap.credential_count(), 1);
}

#[test]
fn registrations_follow_the_seed() {
    let mut a = authenticator();
    let mut b = authenticator();
    assert_eq!(register(&mut a, "example.com"), register(&mut b, "example.com"));
    let mut c = Ctap::new(Keys::new([43u8; 32]));
    assert_ne!(register(&mut a, "example.com").0, register(&mut c, "example.com").0);
}
