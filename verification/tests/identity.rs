use libp2p::identity::Keypair;
use sunset_relay::identity::{decode_identity, load_or_create_identity, pick_identity, plan_generated, IdentityError, KeySource};

fn fresh() -> sunset_relay::identity::IdentityPlan {
    match load_or_create_identity(None) {
        Ok(plan) => plan,
        Err(_) => panic!("a new Ed25519 keypair has an encoded form"),
    }
}

#[test]
fn identity_round_trip() {
    let created = fresh();
    assert_eq!(created.source, KeySource::Generated);
    assert!(!created.replaces_undecodable);
    let stored = created.persist.clone().expect("a new identity is to be stored");
    let reloaded = match load_or_create_identity(Some(stored.clone())) {
        Ok(plan) => plan,
        Err(_) => panic!("stored bytes are read back"),
    };
    assert_eq!(reloaded.source, KeySource::Encoded);
    assert!(reloaded.persist.is_none());
    assert!(!reloaded.replaces_undecodable);
    assert_eq!(reloaded.identity.peer_id().as_bytes(), created.identity.peer_id().as_bytes());
    assert_eq!(reloaded.identity.keypair().to_protobuf_encoding().unwrap(), stored);
}

#[test]
fn peer_id_is_that_of_the_keypair() {
    let keypair = Keypair::generate_ed25519();
    let encoded = keypair.to_protobuf_encoding().unwrap();
    let (identity, source) = decode_identity(&encoded).expect("an encoded keypair is read");
    assert_eq!(source, KeySource::Encoded);
    assert_eq!(identity.peer_id(), &keypair.public().to_peer_id().to_string());
    assert_eq!(identity.keypair().public(), keypair.public());
}

#[test]
fn raw_secret_of_32_bytes_is_read() {
    let secret = [7u8; 32];
    let (identity, source) = decode_identity(&secret).expect("32 bytes are a secret key");
    assert_eq!(source, KeySource::RawSecret);
    let expected = Keypair::ed25519_from_bytes(secret.to_vec()).unwrap();
    assert_eq!(identity.peer_id(), &expected.public().to_peer_id().to_string());
    let plan = match load_or_create_identity(Some(secret.to_vec())) {
        Ok(plan) => plan,
        Err(_) => panic!("32 bytes are a secret key"),
    };
    assert_eq!(plan.source, KeySource::RawSecret);
    assert!(plan.persist.is_none());
    assert_eq!(plan.identity.peer_id(), identity.peer_id());
}

#[test]
fn undecodable_bytes_give_a_new_identity() {
    assert!(decode_identity(&[1, 2, 3]).is_none());
    assert!(decode_identity(&[]).is_none());
    assert!(decode_identity(&[0xff; 31]).is_none());
    let plan = match load_or_create_identity(Some(vec![1, 2, 3])) {
        Ok(plan) => plan,
        Err(_) => panic!("a new identity is made"),
    };
    assert_eq!(plan.source, KeySource::Generated);
    assert!(plan.replaces_undecodable);
    let stored = plan.persist.expect("the new identity is to be stored");
    let (again, _) = decode_identity(&stored).expect("what is stored can be read");
    assert_eq!(again.peer_id(), plan.identity.peer_id());
}

#[test]
fn new_identities_differ() {
    assert_ne!(fresh().identity.peer_id(), fresh().identity.peer_id());
}

#[test]
fn encoded_reading_wins_over_raw() {
    let a = fresh().identity;
    let b = fresh().identity;
    let a_id = a.peer_id().clone();
    let (picked, source) = pick_identity(32, Some(a), Some(b)).expect("an encoded reading counts");
    assert_eq!(source, KeySource::Encoded);
    assert_eq!(picked.peer_id(), &a_id);
}

#[test]
fn raw_reading_counts_only_at_32_bytes() {
    let a = fresh().identity;
    let a_id = a.peer_id().clone();
    let (picked, source) = pick_identity(32, None, Some(a)).expect("a raw reading of 32 bytes counts");
    assert_eq!(source, KeySource::RawSecret);
    assert_eq!(picked.peer_id(), &a_id);
    assert!(pick_identity(31, None, Some(fresh().identity)).is_none());
    assert!(pick_identity(64, None, Some(fresh().identity)).is_none());
    assert!(pick_identity(32, None, None).is_none());
}

#[test]
fn plan_for_a_new_identity() {
    let id = fresh().identity;
    let peer = id.peer_id().clone();
    match plan_generated(id, Ok(vec![9, 8, 7]), true) {
        Ok(plan) => {
            assert_eq!(plan.persist, Some(vec![9, 8, 7]));
            assert_eq!(plan.source, KeySource::Generated);
            assert!(plan.replaces_undecodable);
            assert_eq!(plan.identity.peer_id(), &peer);
        }
        Err(_) => panic!("an encoded form gives a plan"),
    }
}

#[test]
fn no_plan_without_an_encoded_form() {
    let failure = Keypair::from_protobuf_encoding(&[0xff]).unwrap_err();
    match plan_generated(fresh().identity, Err(failure), false) {
        Ok(_) => panic!("nothing to store"),
        Err(e) => assert_eq!(e, IdentityError::EncodingFailed),
    }
}
