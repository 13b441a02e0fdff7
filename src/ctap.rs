//! The CTAP2 command dispatcher: a state machine that answers commands and
//! holds every credential-affecting operation until user presence is settled.
use crate::framing::{Message, MessageModel, CTAPHID_CBOR, MAX_MESSAGE};
use crate::keys::{
    drawn_bytes, drawn_secret, key_pair_draw, public_key_of, ecdsa_signature, sha256, sha256_of, sign, KeyPair, Keys, CREDENTIAL_ID_LEN, PUBLIC_KEY_LEN,
    SECRET_KEY_LEN,
};
use crate::persist::{all_storable, store_bytes};
use crate::presence::{PresenceReason, Verdict};
use crate::store::{
    ids_unique, bytes_eq, copy_bytes, counted, for_rp, has_id, CredentialModel, CredentialStore,
    CtapCredential, MAX_CREDENTIALS,
};
use vstd::prelude::*;
use vstd::slice::slice_subrange;

verus! {

/// COSE identifier of ECDSA over secp256k1 with SHA-256, the one algorithm offered.
pub const ES256K: i64 = -47;

/// PIN attempts left on a fresh device.
pub const PIN_RETRIES: u8 = 8;

/// Authenticator-data flag: the user was present.
pub const FLAG_USER_PRESENT: u8 = 0x01;

/// Errors reported to the host, each as one CTAP2 status byte.
#[derive(Clone, Copy, Debug, PartialEq, Eq, Structural)]
pub enum CtapError {
    UnsupportedCommand,
    UnsupportedAlgorithm,
    CredentialExcluded,
    PresenceDenied,
    PresenceTimeout,
    PinInvalid,
    NoCredentials,
    NoPendingAssertion,
    NotAllowed,
    NotSupported,
    KeyStoreFull,
    ChannelBusy,
    StorageFailure,
}

pub open spec fn status_of(e: CtapError) -> u8 {
    match e {
        CtapError::UnsupportedCommand => 0x01,
        CtapError::ChannelBusy => 0x06,
        CtapError::CredentialExcluded => 0x19,
        CtapError::UnsupportedAlgorithm => 0x26,
        CtapError::PresenceDenied => 0x27,
        CtapError::KeyStoreFull => 0x28,
        CtapError::NoCredentials => 0x2E,
        CtapError::PresenceTimeout => 0x2F,
        CtapError::NoPendingAssertion => 0x30,
        CtapError::NotAllowed => 0x30,
        CtapError::PinInvalid => 0x31,
        CtapError::NotSupported => 0x3E,
        CtapError::StorageFailure => 0x7F,
    }
}

impl CtapError {
    /// The CTAP2 status byte of this error.
    pub fn status(&self) -> (r: u8)
        ensures
            r == status_of(*self),
    {
        match self {
            CtapError::UnsupportedCommand => 0x01,
            CtapError::ChannelBusy => 0x06,
            CtapError::CredentialExcluded => 0x19,
            CtapError::UnsupportedAlgorithm => 0x26,
            CtapError::PresenceDenied => 0x27,
            CtapError::KeyStoreFull => 0x28,
            CtapError::NoCredentials => 0x2E,
            CtapError::PresenceTimeout => 0x2F,
            CtapError::NoPendingAssertion => 0x30,
            CtapError::NotAllowed => 0x30,
            CtapError::PinInvalid => 0x31,
            CtapError::NotSupported => 0x3E,
            CtapError::StorageFailure => 0x7F,
        }
    }
}

/// The CTAP2 reply on `channel` that carries only the status byte of `e`.
pub fn status_message(channel: u32, e: CtapError) -> (r: Message)
    ensures
        r@ == (MessageModel { channel, command: CTAPHID_CBOR, payload: seq![status_of(e)] }),
        r@.wf(),
{
    let mut payload: Vec<u8> = Vec::new();
    payload.push(e.status());
    assert(payload@ =~= seq![status_of(e)]);
    Message { channel, command: CTAPHID_CBOR, payload }
}

/// Authenticator-data flags of a registration: user present, credential data attached.
pub const FLAGS_REGISTRATION: u8 = 0x41;

/// The COSE_Key of an uncompressed secp256k1 point `pk` (`0x04 || x || y`):
/// key type EC2, algorithm ES256K, curve secp256k1, then x and y.
pub open spec fn cose_key(pk: Seq<u8>) -> Seq<u8> {
    seq![0xA5u8, 0x01, 0x02, 0x03, 0x38, 0x2E, 0x20, 0x08, 0x21, 0x58, 0x20] + pk.subrange(1, 33)
        + seq![0x22u8, 0x58, 0x20] + pk.subrange(33, 65)
}

/// Authenticator data of a registration: relying-party id hash, flags, a zero
/// counter, a zero AAGUID, the credential id with its length, and the public key.
pub open spec fn registration_auth_data(rp_id_hash: Seq<u8>, id: Seq<u8>, pk: Seq<u8>) -> Seq<u8> {
    rp_id_hash + seq![FLAGS_REGISTRATION] + u32_be(0) + Seq::new(16, |k: int| 0u8) + seq![
        (id.len() / 256) as u8,
        (id.len() % 256) as u8,
    ] + id + cose_key(pk)
}

/// Builds the authenticator data of a new credential.
pub fn attested_auth_data(rp_id_hash: &[u8], credential_id: &[u8], public_key: &[u8]) -> (r: Vec<u8>)
    requires
        public_key@.len() == PUBLIC_KEY_LEN,
        credential_id@.len() < 65536,
    ensures
        r@ == registration_auth_data(rp_id_hash@, credential_id@, public_key@),
{
    let mut out = copy_bytes(rp_id_hash);
    out.push(FLAGS_REGISTRATION);
    push_u32_be(&mut out, 0);
    let ghost base = out@;
    let mut k: usize = 0;
    while k < 16
        invariant
            k <= 16,
            out@ == base + Seq::new(k as nat, |j: int| 0u8),
        decreases 16 - k,
    {
        out.push(0);
        k = k + 1;
        assert(out@ =~= base + Seq::new(k as nat, |j: int| 0u8));
    }
    let n = credential_id.len();
    out.push((n / 256) as u8);
    out.push((n % 256) as u8);
    extend_bytes(&mut out, credential_id);
    let header: [u8; 11] = [0xA5, 0x01, 0x02, 0x03, 0x38, 0x2E, 0x20, 0x08, 0x21, 0x58, 0x20];
    extend_bytes(&mut out, &header);
    extend_bytes(&mut out, slice_subrange(public_key, 1, 33));
    let middle: [u8; 3] = [0x22, 0x58, 0x20];
    extend_bytes(&mut out, &middle);
    extend_bytes(&mut out, slice_subrange(public_key, 33, 65));
    assert(header@ =~= seq![0xA5u8, 0x01, 0x02, 0x03, 0x38, 0x2E, 0x20, 0x08, 0x21, 0x58, 0x20]);
    assert(middle@ =~= seq![0x22u8, 0x58, 0x20]);
    assert(out@ =~= registration_auth_data(rp_id_hash@, credential_id@, public_key@));
    out
}

#[derive(Clone, Copy, Debug, PartialEq, Eq, Structural)]
pub enum Version {
    Fido2_0,
    Fido2_1,
    Fido2_1Pre,
}

/// The capability descriptor.
pub struct Info {
    pub versions: Vec<Version>,
    pub aaguid: Vec<u8>,
    pub algorithms: Vec<i64>,
    pub resident_keys: bool,
    pub user_presence: bool,
    pub max_message_size: usize,
}

pub open spec fn fixed_info(i: Info) -> bool {
    &&& i.versions@ == seq![Version::Fido2_0, Version::Fido2_1, Version::Fido2_1Pre]
    &&& i.aaguid@ == Seq::new(16, |k: int| 0u8)
    &&& i.algorithms@ == seq![ES256K]
    &&& i.resident_keys
    &&& i.user_presence
    &&& i.max_message_size == MAX_MESSAGE
}

/// A successful answer.
pub enum Response {
    Info(Info),
    Registered { credential_id: Vec<u8>, public_key: Vec<u8> },
    Assertion {
        credential_id: Vec<u8>,
        user_handle: Vec<u8>,
        auth_data: Vec<u8>,
        signature: Vec<u8>,
        sign_count: u32,
        /// How many credentials matched; given on the first assertion only.
        number_of_credentials: Option<usize>,
    },
    PinRetries(u8),
    KeyAgreement(Vec<u8>),
    Metadata { existing: usize, remaining: usize },
    CredentialIds(Vec<Vec<u8>>),
    Done,
}

/// Subcommands of the PIN protocol.
#[derive(Clone, Copy, Debug, PartialEq, Eq, Structural)]
pub enum PinCommand {
    GetRetries,
    GetKeyAgreement,
    SetPin,
    ChangePin,
    GetPinToken,
}

/// Subcommands of credential management.
pub enum CredentialCommand {
    GetMetadata,
    /// Ids of the credentials of one relying party, by its id hash.
    EnumerateCredentials(Vec<u8>),
    DeleteCredential(Vec<u8>),
}

/// A decoded CTAP2 command.
pub enum Request {
    GetInfo,
    MakeCredential {
        rp_id: Vec<u8>,
        user_handle: Vec<u8>,
        exclude_list: Vec<Vec<u8>>,
        algorithm: i64,
        resident: bool,
    },
    GetAssertion { rp_id: Vec<u8>, allow_list: Option<Vec<Vec<u8>>>, client_data_hash: Vec<u8> },
    GetNextAssertion,
    Reset,
    ClientPin(PinCommand),
    CredentialManagement(CredentialCommand),
    Selection,
    Vendor(u8),
}

/// What the dispatcher does with a command: answer now, or first ask for presence.
pub enum Step {
    Reply(Result<Response, CtapError>),
    AwaitPresence(PresenceReason),
}

/// Where the dispatcher stands between calls. `Processing` lasts only while
/// a call runs, so no call returns in it.
#[derive(Clone, Copy, Debug, PartialEq, Eq, Structural)]
pub enum DispatcherState {
    Idle,
    AwaitingPresence,
    Processing,
}

/// An operation held until presence is settled.
pub enum PendingModel {
    Registration {
        rp_id_hash: Seq<u8>,
        user_handle: Seq<u8>,
        exclude_list: Seq<Seq<u8>>,
        resident: bool,
    },
    Assertion { ids: Seq<Seq<u8>>, client_data_hash: Seq<u8> },
    Reset,
    Delete(Seq<u8>),
    Selection,
}

enum Pending {
    Registration {
        rp_id_hash: Vec<u8>,
        user_handle: Vec<u8>,
        exclude_list: Vec<Vec<u8>>,
        resident: bool,
    },
    Assertion { ids: Vec<Vec<u8>>, client_data_hash: Vec<u8> },
    Reset,
    Delete(Vec<u8>),
    Selection,
}

pub open spec fn byte_seqs(v: Seq<Vec<u8>>) -> Seq<Seq<u8>> {
    v.map_values(|x: Vec<u8>| x@)
}

impl View for Pending {
    type V = PendingModel;

    closed spec fn view(&self) -> PendingModel {
        match self {
            Pending::Registration { rp_id_hash, user_handle, exclude_list, resident } => {
                PendingModel::Registration {
                    rp_id_hash: rp_id_hash@,
                    user_handle: user_handle@,
                    exclude_list: byte_seqs(exclude_list@),
                    resident: *resident,
                }
            },
            Pending::Assertion { ids, client_data_hash } => PendingModel::Assertion {
                ids: byte_seqs(ids@),
                client_data_hash: client_data_hash@,
            },
            Pending::Reset => PendingModel::Reset,
            Pending::Delete(id) => PendingModel::Delete(id@),
            Pending::Selection => PendingModel::Selection,
        }
    }
}

/// The dispatcher's state as the contracts see it.
pub struct CtapModel {
    pub store: Seq<CredentialModel>,
    pub pending: Option<PendingModel>,
    /// Ids still to be handed out by `GetNextAssertion`.
    pub queue: Seq<Seq<u8>>,
    pub queue_client_data: Seq<u8>,
    pub pin_retries: u8,
    pub agreement_public: Seq<u8>,
}

/// The authenticator: credential store, key manager and dispatcher state.
pub struct Ctap {
    store: CredentialStore,
    keys: Keys,
    pending: Option<Pending>,
    queue: Vec<Vec<u8>>,
    queue_client_data: Vec<u8>,
    pin_retries: u8,
    agreement: KeyPair,
}

impl View for Ctap {
    type V = CtapModel;

    closed spec fn view(&self) -> CtapModel {
        CtapModel {
            store: self.store@,
            pending: match self.pending {
                Some(p) => Some(p@),
                None => None,
            },
            queue: byte_seqs(self.queue@),
            queue_client_data: self.queue_client_data@,
            pin_retries: self.pin_retries,
            agreement_public: self.agreement.public@,
        }
    }
}

/// What holds of the state between calls: ids unique, store within capacity.
pub open spec fn model_wf(s: CtapModel) -> bool {
    ids_unique(s.store) && s.store.len() <= MAX_CREDENTIALS
}

/// The state with any assertion context dropped.
pub open spec fn idle(s: CtapModel) -> CtapModel {
    CtapModel { queue: Seq::empty(), queue_client_data: Seq::empty(), ..s }
}

/// `s` waiting for presence before `p`.
pub open spec fn awaiting(s: CtapModel, p: PendingModel) -> CtapModel {
    CtapModel { pending: Some(p), ..s }
}

pub open spec fn failed(r: Step, e: CtapError) -> bool {
    r == Step::Reply(Err(e))
}

/// Some stored credential of `rp` has an id in `list`.
pub open spec fn excluded(store: Seq<CredentialModel>, rp: Seq<u8>, list: Seq<Seq<u8>>) -> bool {
    exists|i: int, j: int|
        0 <= i < store.len() && 0 <= j < list.len() && (#[trigger] store[i]).id == (
        #[trigger] list[j]) && store[i].rp_id_hash == rp
}

/// Ids of the credentials of `rp`, in store order, narrowed to `allow` if given.
pub open spec fn assertion_ids(
    s: Seq<CredentialModel>,
    rp: Seq<u8>,
    allow: Option<Seq<Seq<u8>>>,
) -> Seq<Seq<u8>>
    decreases s.len(),
{
    if s.len() == 0 {
        Seq::empty()
    } else {
        let rest = assertion_ids(s.drop_last(), rp, allow);
        let c = s.last();
        if c.rp_id_hash == rp && (allow is None || allow->0.contains(c.id)) {
            rest.push(c.id)
        } else {
            rest
        }
    }
}

/// Ids of the resident credentials of `rp`, in store order.
pub open spec fn resident_ids(s: Seq<CredentialModel>, rp: Seq<u8>) -> Seq<Seq<u8>>
    decreases s.len(),
{
    if s.len() == 0 {
        Seq::empty()
    } else {
        let rest = resident_ids(s.drop_last(), rp);
        let c = s.last();
        if c.resident && c.rp_id_hash == rp {
            rest.push(c.id)
        } else {
            rest
        }
    }
}

/// Number of resident credentials in `s`.
pub open spec fn resident_count(s: Seq<CredentialModel>) -> nat
    decreases s.len(),
{
    if s.len() == 0 {
        0
    } else {
        resident_count(s.drop_last()) + if s.last().resident {
            1nat
        } else {
            0nat
        }
    }
}

pub open spec fn u32_be(n: u32) -> Seq<u8> {
    seq![(n >> 24u32) as u8, (n >> 16u32) as u8, (n >> 8u32) as u8, n as u8]
}

/// Authenticator data of an assertion: relying-party id hash, flags, sign counter.
pub open spec fn auth_data(rp_id_hash: Seq<u8>, count: u32) -> Seq<u8> {
    rp_id_hash + seq![FLAG_USER_PRESENT] + u32_be(count)
}

pub open spec fn assertion_response(
    r: Result<Response, CtapError>,
    c: CredentialModel,
    ad: Seq<u8>,
    sig: Seq<u8>,
    n: Option<usize>,
) -> bool {
    match r {
        Ok(
            Response::Assertion {
                credential_id,
                user_handle,
                auth_data,
                signature,
                sign_count,
                number_of_credentials,
            },
        ) => {
            &&& number_of_credentials == n
            &&& credential_id@ == c.id
            &&& user_handle@ == c.user_handle
            &&& auth_data@ == ad
            &&& signature@ == sig
            &&& sign_count == c.sign_count
        },
        _ => false,
    }
}

/// The assertion made with the credential at position `i`.
pub open spec fn assertion_at(
    s: Seq<CredentialModel>,
    i: int,
    cdh: Seq<u8>,
    n: Option<usize>,
    t: Seq<CredentialModel>,
    r: Result<Response, CtapError>,
) -> bool {
    let c = counted(s[i]);
    let ad = auth_data(c.rp_id_hash, c.sign_count);
    match ecdsa_signature(c.secret_key, ad + cdh) {
        None => t == s && r == Err::<Response, CtapError>(CtapError::StorageFailure),
        Some(sig) => t == s.update(i, c) && assertion_response(r, c, ad, sig, n),
    }
}

/// An assertion with the credential `id` over the client data hash `cdh`:
/// its counter is advanced and the new authenticator data signed.
pub open spec fn asserted(
    s: Seq<CredentialModel>,
    id: Seq<u8>,
    cdh: Seq<u8>,
    n: Option<usize>,
    t: Seq<CredentialModel>,
    r: Result<Response, CtapError>,
) -> bool {
    if !has_id(s, id) {
        t == s && r == Err::<Response, CtapError>(CtapError::NoCredentials)
    } else {
        exists|i: int| 0 <= i < s.len() && (#[trigger] s[i]).id == id && assertion_at(s, i, cdh, n, t, r)
    }
}

pub open spec fn registered(r: Result<Response, CtapError>, id: Seq<u8>, pk: Seq<u8>) -> bool {
    match r {
        Ok(Response::Registered { credential_id, public_key }) => credential_id@ == id
            && public_key@ == pk,
        _ => false,
    }
}

/// How the held operation of `s` ends on `v`; `id`, `sk` and `pk` are the fresh
/// id and key pair a registration would use.
pub open spec fn concluded(
    s: CtapModel,
    v: Verdict,
    now: u64,
    id: Seq<u8>,
    sk: Seq<u8>,
    pk: Seq<u8>,
    t: CtapModel,
    r: Result<Response, CtapError>,
) -> bool {
    match s.pending {
        None => t == s && r == Err::<Response, CtapError>(CtapError::NotAllowed),
        Some(p) => {
            let s0 = CtapModel { pending: None, ..s };
            match v {
                Verdict::Denied => t == s0 && r == Err::<Response, CtapError>(
                    CtapError::PresenceDenied,
                ),
                Verdict::TimedOut => t == s0 && r == Err::<Response, CtapError>(
                    CtapError::PresenceTimeout,
                ),
                Verdict::Granted => match p {
                    PendingModel::Registration { rp_id_hash, user_handle, exclude_list, resident } => {
                        if excluded(s.store, rp_id_hash, exclude_list) {
                            t == s0 && r == Err::<Response, CtapError>(CtapError::CredentialExcluded)
                        } else if s.store.len() >= MAX_CREDENTIALS {
                            t == s0 && r == Err::<Response, CtapError>(CtapError::KeyStoreFull)
                        } else if has_id(s.store, id) {
                            t == s0 && r == Err::<Response, CtapError>(CtapError::StorageFailure)
                        } else {
                            &&& t == CtapModel {
                                store: s.store.push(
                                    CredentialModel {
                                        id,
                                        rp_id_hash,
                                        user_handle,
                                        public_key: pk,
                                        secret_key: sk,
                                        sign_count: 0,
                                        resident,
                                        created_at: now,
                                    },
                                ),
                                ..s0
                            }
                            &&& registered(r, id, pk)
                        }
                    },
                    PendingModel::Assertion { ids, client_data_hash } => {
                        &&& asserted(s.store, ids[0], client_data_hash, Some(ids.len() as usize), t.store, r)
                        &&& t == CtapModel {
                            store: t.store,
                            queue: ids.drop_first(),
                            queue_client_data: client_data_hash,
                            ..s0
                        }
                    },
                    PendingModel::Reset => {
                        &&& t == CtapModel { store: Seq::empty(), ..idle(s0) }
                        &&& r matches Ok(Response::Done)
                    },
                    PendingModel::Delete(id) => {
                        if has_id(s.store, id) {
                            &&& r matches Ok(Response::Done)
                            &&& t == CtapModel { store: t.store, ..s0 }
                            &&& exists|i: int|
                                0 <= i < s.store.len() && (#[trigger] s.store[i]).id == id
                                    && t.store == s.store.remove(i)
                            &&& !has_id(t.store, id)
                        } else {
                            t == s0 && r == Err::<Response, CtapError>(CtapError::NoCredentials)
                        }
                    },
                    PendingModel::Selection => t == s0 && r matches Ok(Response::Done),
                },
            }
        },
    }
}

pub open spec fn allow_view(a: Option<Vec<Vec<u8>>>) -> Option<Seq<Seq<u8>>> {
    match a {
        Some(l) => Some(byte_seqs(l@)),
        None => None,
    }
}

pub open spec fn make_credential_post(
    s: CtapModel,
    rp_id: Seq<u8>,
    user_handle: Seq<u8>,
    exclude_list: Seq<Seq<u8>>,
    algorithm: i64,
    resident: bool,
    t: CtapModel,
    r: Step,
) -> bool {
    if algorithm != ES256K {
        t == s && failed(r, CtapError::UnsupportedAlgorithm)
    } else {
        &&& t == awaiting(
            s,
            PendingModel::Registration {
                rp_id_hash: sha256_of(rp_id),
                user_handle,
                exclude_list,
                resident,
            },
        )
        &&& r == Step::AwaitPresence(PresenceReason::Registration)
    }
}

pub open spec fn get_assertion_post(
    s: CtapModel,
    rp_id: Seq<u8>,
    allow_list: Option<Seq<Seq<u8>>>,
    client_data_hash: Seq<u8>,
    t: CtapModel,
    r: Step,
) -> bool {
    let ids = assertion_ids(s.store, sha256_of(rp_id), allow_list);
    if ids.len() == 0 {
        t == s && failed(r, CtapError::NoCredentials)
    } else {
        &&& t == awaiting(s, PendingModel::Assertion { ids, client_data_hash })
        &&& r == Step::AwaitPresence(PresenceReason::Assertion)
    }
}

pub open spec fn get_next_assertion_post(s: CtapModel, t: CtapModel, r: Result<Response, CtapError>) -> bool {
    if s.queue.len() == 0 {
        t == s && r == Err::<Response, CtapError>(CtapError::NoPendingAssertion)
    } else {
        &&& asserted(s.store, s.queue[0], s.queue_client_data, None, t.store, r)
        &&& t == CtapModel { store: t.store, queue: s.queue.drop_first(), ..s }
    }
}

pub open spec fn client_pin_post(s: CtapModel, cmd: PinCommand, t: CtapModel, r: Result<Response, CtapError>) -> bool {
    &&& t == s
    &&& match cmd {
        PinCommand::GetRetries => (r matches Ok(Response::PinRetries(n)) && n == s.pin_retries),
        PinCommand::GetKeyAgreement => (r matches Ok(Response::KeyAgreement(k)) && k@
            == s.agreement_public),
        _ => r == Err::<Response, CtapError>(CtapError::NotSupported),
    }
}

pub open spec fn credential_management_post(
    s: CtapModel,
    cmd: CredentialCommand,
    t: CtapModel,
    r: Step,
) -> bool {
    match cmd {
        CredentialCommand::GetMetadata => {
            &&& t == s
            &&& (r matches Step::Reply(Ok(Response::Metadata { existing, remaining }))
                && existing == resident_count(s.store) && remaining == MAX_CREDENTIALS
                - s.store.len())
        },
        CredentialCommand::EnumerateCredentials(h) => {
            let ids = resident_ids(s.store, h@);
            &&& t == s
            &&& if ids.len() == 0 {
                failed(r, CtapError::NoCredentials)
            } else {
                (r matches Step::Reply(Ok(Response::CredentialIds(v))) && byte_seqs(v@) == ids)
            }
        },
        CredentialCommand::DeleteCredential(id) => {
            &&& t == awaiting(s, PendingModel::Delete(id@))
            &&& r == Step::AwaitPresence(PresenceReason::Deletion)
        },
    }
}

/// What `handle` does with `req` in state `s`.
pub open spec fn handled(s: CtapModel, req: Request, t: CtapModel, r: Step) -> bool {
    if s.pending is Some {
        t == s && failed(r, CtapError::ChannelBusy)
    } else {
        match req {
            Request::GetInfo => t == s && (r matches Step::Reply(Ok(Response::Info(i)))
                && fixed_info(i)),
            Request::MakeCredential { rp_id, user_handle, exclude_list, algorithm, resident } => {
                make_credential_post(
                    s,
                    rp_id@,
                    user_handle@,
                    byte_seqs(exclude_list@),
                    algorithm,
                    resident,
                    t,
                    r,
                )
            },
            Request::GetAssertion { rp_id, allow_list, client_data_hash } => get_assertion_post(
                s,
                rp_id@,
                allow_view(allow_list),
                client_data_hash@,
                t,
                r,
            ),
            Request::GetNextAssertion => match r {
                Step::Reply(res) => get_next_assertion_post(s, t, res),
                _ => false,
            },
            Request::Reset => t == awaiting(s, PendingModel::Reset) && r == Step::AwaitPresence(
                PresenceReason::Reset,
            ),
            Request::ClientPin(cmd) => match r {
                Step::Reply(res) => client_pin_post(s, cmd, t, res),
                _ => false,
            },
            Request::CredentialManagement(cmd) => credential_management_post(s, cmd, t, r),
            Request::Selection => t == awaiting(s, PendingModel::Selection) && r
                == Step::AwaitPresence(PresenceReason::Selection),
            Request::Vendor(_) => t == s && failed(r, CtapError::NotSupported),
        }
    }
}

fn extend_bytes(dst: &mut Vec<u8>, src: &[u8])
    ensures
        final(dst)@ == old(dst)@ + src@,
{
    let ghost base = dst@;
    let mut i: usize = 0;
    while i < src.len()
        invariant
            i <= src@.len(),
            dst@ == base + src@.take(i as int),
        decreases src@.len() - i,
    {
        dst.push(src[i]);
        i = i + 1;
        assert(dst@ =~= base + src@.take(i as int));
    }
    assert(src@.take(i as int) =~= src@);
}

fn push_u32_be(v: &mut Vec<u8>, n: u32)
    ensures
        final(v)@ == old(v)@ + u32_be(n),
{
    v.push((n >> 24u32) as u8);
    v.push((n >> 16u32) as u8);
    v.push((n >> 8u32) as u8);
    v.push(n as u8);
    assert(v@ =~= old(v)@ + u32_be(n));
}

/// Whether `list` holds the byte string `x`.
fn contains_bytes(list: &Vec<Vec<u8>>, x: &[u8]) -> (r: bool)
    ensures
        r == byte_seqs(list@).contains(x@),
{
    let mut j: usize = 0;
    while j < list.len()
        invariant
            j <= list@.len(),
            forall|k: int| 0 <= k < j ==> (#[trigger] list@[k])@ != x@,
        decreases list@.len() - j,
    {
        if bytes_eq(&list[j], x) {
            assert(byte_seqs(list@)[j as int] == x@);
            return true;
        }
        j = j + 1;
    }
    assert forall|k: int| 0 <= k < byte_seqs(list@).len() implies byte_seqs(list@)[k] != x@ by {
        assert(byte_seqs(list@)[k] == list@[k]@);
    }
    false
}

/// Whether some credential of `rp` in the store has an id in `list`.
fn is_excluded(store: &CredentialStore, rp: &[u8], list: &Vec<Vec<u8>>) -> (r: bool)
    requires
        store.wf(),
    ensures
        r == excluded(store@, rp@, byte_seqs(list@)),
{
    let ghost l = byte_seqs(list@);
    let mut j: usize = 0;
    while j < list.len()
        invariant
            store.wf(),
            l == byte_seqs(list@),
            j <= list@.len(),
            forall|i: int, k: int|
                0 <= i < store@.len() && 0 <= k < j && (#[trigger] store@[i]).id == (
                #[trigger] l[k]) ==> store@[i].rp_id_hash != rp@,
        decreases list@.len() - j,
    {
        assert(l[j as int] == list@[j as int]@);
        match store.find(&list[j]) {
            Some(i) => {
                if bytes_eq(&store.at(i).rp_id_hash, rp) {
                    return true;
                }
                assert forall|i2: int|
                    0 <= i2 < store@.len() && (#[trigger] store@[i2]).id == l[j as int] implies store@[i2].rp_id_hash
                    != rp@ by {
                    assert(i2 == i as int);
                }
            },
            None => {},
        }
        j = j + 1;
    }
    false
}

/// The ids that an assertion for `rp` may use, in store order.
fn collect_assertion_ids(store: &CredentialStore, rp: &[u8], allow: &Option<Vec<Vec<u8>>>) -> (r:
    Vec<Vec<u8>>)
    ensures
        byte_seqs(r@) == assertion_ids(store@, rp@, allow_view(*allow)),
{
    let ghost a = allow_view(*allow);
    let mut out: Vec<Vec<u8>> = Vec::new();
    let mut i: usize = 0;
    let n = store.len();
    while i < n
        invariant
            n == store@.len(),
            i <= n,
            a == allow_view(*allow),
            byte_seqs(out@) == assertion_ids(store@.take(i as int), rp@, a),
        decreases n - i,
    {
        assert(store@.take(i + 1).drop_last() =~= store@.take(i as int));
        let c = store.at(i);
        let allowed = match allow {
            Some(l) => contains_bytes(l, &c.id),
            None => true,
        };
        if allowed && bytes_eq(&c.rp_id_hash, rp) {
            let ghost before = out@;
            out.push(copy_bytes(&c.id));
            assert(byte_seqs(out@) =~= byte_seqs(before).push(c.id@));
        }
        i = i + 1;
    }
    assert(store@.take(n as int) =~= store@);
    out
}

/// The ids of the resident credentials of `rp`, in store order.
fn collect_resident_ids(store: &CredentialStore, rp: &[u8]) -> (r: Vec<Vec<u8>>)
    ensures
        byte_seqs(r@) == resident_ids(store@, rp@),
{
    let mut out: Vec<Vec<u8>> = Vec::new();
    let mut i: usize = 0;
    let n = store.len();
    while i < n
        invariant
            n == store@.len(),
            i <= n,
            byte_seqs(out@) == resident_ids(store@.take(i as int), rp@),
        decreases n - i,
    {
        assert(store@.take(i + 1).drop_last() =~= store@.take(i as int));
        let c = store.at(i);
        if c.resident && bytes_eq(&c.rp_id_hash, rp) {
            let ghost before = out@;
            out.push(copy_bytes(&c.id));
            assert(byte_seqs(out@) =~= byte_seqs(before).push(c.id@));
        }
        i = i + 1;
    }
    assert(store@.take(n as int) =~= store@);
    out
}

/// The number of resident credentials in the store.
fn count_resident(store: &CredentialStore) -> (r: usize)
    ensures
        r == resident_count(store@),
{
    let mut k: usize = 0;
    let mut i: usize = 0;
    let n = store.len();
    while i < n
        invariant
            n == store@.len(),
            i <= n,
            k <= i,
            k == resident_count(store@.take(i as int)),
        decreases n - i,
    {
        assert(store@.take(i + 1).drop_last() =~= store@.take(i as int));
        if store.at(i).resident {
            k = k + 1;
        }
        i = i + 1;
    }
    assert(store@.take(n as int) =~= store@);
    k
}

/// Signs an assertion with the credential `id` and advances its counter.
fn make_assertion(store: &mut CredentialStore, id: &[u8], cdh: &[u8], n: Option<usize>) -> (r: Result<
    Response,
    CtapError,
>)
    requires
        old(store).wf(),
    ensures
        final(store).wf(),
        asserted(old(store)@, id@, cdh@, n, final(store)@, r),
{
    match store.find(id) {
        None => Err(CtapError::NoCredentials),
        Some(i) => {
            let c = store.at(i);
            let count = if c.sign_count < u32::MAX {
                c.sign_count + 1
            } else {
                c.sign_count
            };
            let mut ad = copy_bytes(&c.rp_id_hash);
            ad.push(FLAG_USER_PRESENT);
            push_u32_be(&mut ad, count);
            let mut msg = copy_bytes(&ad);
            extend_bytes(&mut msg, cdh);
            let ghost cm = counted(old(store)@[i as int]);
            assert(ad@ =~= auth_data(cm.rp_id_hash, cm.sign_count));
            assert(msg@ == auth_data(cm.rp_id_hash, cm.sign_count) + cdh@);
            match sign(&c.secret_key, &msg) {
                None => {
                    let r = Err(CtapError::StorageFailure);
                    assert(assertion_at(old(store)@, i as int, cdh@, n, store@, r));
                    r
                },
                Some(sig) => {
                    let credential_id = copy_bytes(&c.id);
                    let user_handle = copy_bytes(&c.user_handle);
                    let count_now = store.bump_sign_count(i);
                    let r = Ok(
                        Response::Assertion {
                            credential_id,
                            user_handle,
                            auth_data: ad,
                            signature: sig,
                            sign_count: count_now,
                            number_of_credentials: n,
                        },
                    );
                    assert(assertion_at(old(store)@, i as int, cdh@, n, store@, r));
                    r
                },
            }
        },
    }
}

impl Ctap {
    /// Stored ids are unique, the store is within capacity, and the private
    /// parts are consistent.
    pub open spec fn wf(&self) -> bool {
        self.inner_wf() && model_wf(self@)
    }

    /// The key-agreement pair is complete and a held assertion has at least
    /// one credential.
    pub closed spec fn inner_wf(&self) -> bool {
        &&& self.store.wf()
        &&& self.agreement.wf()
        &&& match self.pending {
            Some(Pending::Assertion { ids, .. }) => ids@.len() > 0,
            _ => true,
        }
    }

    /// The seed of the key manager's generator.
    pub closed spec fn key_seed(&self) -> Seq<u8> {
        self.keys.seed()
    }

    /// The draws made so far from the key manager's generator.
    pub closed spec fn key_draws(&self) -> Seq<int> {
        self.keys.draws()
    }

    /// An authenticator with an empty store; its key-agreement pair is drawn from `keys`.
    pub fn new(keys: Keys) -> (r: Ctap)
        ensures
            r.wf(),
            r.key_seed() == keys.seed(),
            r.key_draws() == keys.draws().push(key_pair_draw()),
            r@.agreement_public == public_key_of(drawn_secret(keys.seed(), keys.draws())),
            r@.store == Seq::<CredentialModel>::empty(),
            r@.pending is None,
            r@.queue == Seq::<Seq<u8>>::empty(),
            r@.queue_client_data == Seq::<u8>::empty(),
            r@.pin_retries == PIN_RETRIES,
            r@.agreement_public.len() == PUBLIC_KEY_LEN,
    {
        let mut keys = keys;
        let agreement = keys.new_key_pair();
        let r = Ctap {
            store: CredentialStore::new(),
            keys,
            pending: None,
            queue: Vec::new(),
            queue_client_data: Vec::new(),
            pin_retries: PIN_RETRIES,
            agreement,
        };
        assert(byte_seqs(r.queue@) =~= Seq::<Seq<u8>>::empty());
        r
    }

    /// An authenticator over a store read back from durable storage.
    pub fn with_store(keys: Keys, store: CredentialStore) -> (r: Ctap)
        requires
            store.wf(),
        ensures
            r.wf(),
            r.key_seed() == keys.seed(),
            r.key_draws() == keys.draws().push(key_pair_draw()),
            r@.agreement_public == public_key_of(drawn_secret(keys.seed(), keys.draws())),
            r@.store == store@,
            r@.pending is None,
            r@.queue == Seq::<Seq<u8>>::empty(),
            r@.queue_client_data == Seq::<u8>::empty(),
            r@.pin_retries == PIN_RETRIES,
            r@.agreement_public.len() == PUBLIC_KEY_LEN,
    {
        let mut r = Ctap::new(keys);
        r.store = store;
        r
    }

    /// The durable form of the store, to be written after a command changed it.
    pub fn durable_bytes(&self) -> (r: Option<Vec<u8>>)
        requires
            self.wf(),
        ensures
            r is Some <==> all_storable(self@.store),
            r is Some ==> r->0@ == store_bytes(self@.store),
    {
        self.store.encode()
    }

    fn drop_queue(&mut self)
        ensures
            final(self)@ == idle(old(self)@),
            final(self).store == old(self).store,
            final(self).pending == old(self).pending,
            final(self).agreement == old(self).agreement,
            final(self).keys == old(self).keys,
    {
        self.queue = Vec::new();
        self.queue_client_data = Vec::new();
        assert(byte_seqs(self.queue@) =~= Seq::<Seq<u8>>::empty());
        assert(self@ =~= idle(old(self)@));
    }

    /// The dispatcher's state.
    pub fn state(&self) -> (r: DispatcherState)
        ensures
            r == (if self@.pending is Some {
                DispatcherState::AwaitingPresence
            } else {
                DispatcherState::Idle
            }),
    {
        if self.pending.is_some() {
            DispatcherState::AwaitingPresence
        } else {
            DispatcherState::Idle
        }
    }

    /// Whether a command waits for presence.
    pub fn is_awaiting_presence(&self) -> (r: bool)
        ensures
            r == self@.pending is Some,
    {
        self.pending.is_some()
    }

    /// Whether a credential with id `id` is stored.
    pub fn has_credential_id(&self, id: &[u8]) -> (r: bool)
        ensures
            r == has_id(self@.store, id@),
    {
        self.store.contains(id)
    }

    /// A copy of the stored credential with id `id`.
    pub fn get_credential_id(&self, id: &[u8]) -> (r: Option<CtapCredential>)
        ensures
            r is Some <==> has_id(self@.store, id@),
            r is Some ==> r->0@.id == id@ && self@.store.contains(r->0@),
    {
        self.store.get(id)
    }

    /// Number of stored credentials.
    pub fn credential_count(&self) -> (r: usize)
        ensures
            r == self@.store.len(),
    {
        self.store.len()
    }

    /// Number of stored credentials of the relying party `rp_id`.
    pub fn credential_count_for(&self, rp_id: &[u8]) -> (r: usize)
        ensures
            r == for_rp(self@.store, sha256_of(rp_id@)).len(),
    {
        let h = sha256(rp_id);
        let l = self.store.list(&h);
        assert(l@.map_values(|c: CtapCredential| c@).len() == l@.len());
        l.len()
    }

    /// The capability descriptor.
    pub fn get_info(&self) -> (r: Info)
        ensures
            fixed_info(r),
    {
        let mut versions: Vec<Version> = Vec::new();
        versions.push(Version::Fido2_0);
        versions.push(Version::Fido2_1);
        versions.push(Version::Fido2_1Pre);
        let mut aaguid: Vec<u8> = Vec::new();
        let mut k: usize = 0;
        while k < 16
            invariant
                k <= 16,
                aaguid@ == Seq::new(k as nat, |j: int| 0u8),
            decreases 16 - k,
        {
            aaguid.push(0);
            k = k + 1;
            assert(aaguid@ =~= Seq::new(k as nat, |j: int| 0u8));
        }
        let mut algorithms: Vec<i64> = Vec::new();
        algorithms.push(ES256K);
        assert(versions@ =~= seq![Version::Fido2_0, Version::Fido2_1, Version::Fido2_1Pre]);
        assert(algorithms@ =~= seq![ES256K]);
        Info {
            versions,
            aaguid,
            algorithms,
            resident_keys: true,
            user_presence: true,
            max_message_size: MAX_MESSAGE,
        }
    }

    /// Registration: refuses an unsupported algorithm at once; otherwise holds
    /// the request until presence is settled, before the exclusion list is read.
    pub fn make_credential(
        &mut self,
        rp_id: &[u8],
        user_handle: Vec<u8>,
        exclude_list: Vec<Vec<u8>>,
        algorithm: i64,
        resident: bool,
    ) -> (r: Step)
        requires
            old(self).wf(),
            old(self)@.pending is None,
        ensures
            final(self).wf(),
            final(self).key_seed() == old(self).key_seed(),
            final(self).key_draws() == old(self).key_draws(),
            make_credential_post(
                old(self)@,
                rp_id@,
                user_handle@,
                byte_seqs(exclude_list@),
                algorithm,
                resident,
                final(self)@,
                r,
            ),
    {
        if algorithm != ES256K {
            return Step::Reply(Err(CtapError::UnsupportedAlgorithm));
        }
        let rp_id_hash = sha256(rp_id);
        self.pending = Some(Pending::Registration { rp_id_hash, user_handle, exclude_list, resident });
        Step::AwaitPresence(PresenceReason::Registration)
    }

    /// Assertion: with no matching credential, answers `NoCredentials` without
    /// asking for presence; otherwise holds the matches until presence is settled.
    pub fn get_assertion(
        &mut self,
        rp_id: &[u8],
        allow_list: Option<Vec<Vec<u8>>>,
        client_data_hash: Vec<u8>,
    ) -> (r: Step)
        requires
            old(self).wf(),
            old(self)@.pending is None,
        ensures
            final(self).wf(),
            final(self).key_seed() == old(self).key_seed(),
            final(self).key_draws() == old(self).key_draws(),
            get_assertion_post(
                old(self)@,
                rp_id@,
                allow_view(allow_list),
                client_data_hash@,
                final(self)@,
                r,
            ),
    {
        let h = sha256(rp_id);
        let ids = collect_assertion_ids(&self.store, &h, &allow_list);
        if ids.len() == 0 {
            return Step::Reply(Err(CtapError::NoCredentials));
        }
        assert(byte_seqs(ids@).len() == ids@.len());
        self.pending = Some(Pending::Assertion { ids, client_data_hash });
        Step::AwaitPresence(PresenceReason::Assertion)
    }

    /// The next credential of the last assertion, without a new presence check.
    pub fn get_next_assertion(&mut self) -> (r: Result<Response, CtapError>)
        requires
            old(self).wf(),
            old(self)@.pending is None,
        ensures
            final(self).wf(),
            final(self).key_seed() == old(self).key_seed(),
            final(self).key_draws() == old(self).key_draws(),
            get_next_assertion_post(old(self)@, final(self)@, r),
    {
        if self.queue.len() == 0 {
            return Err(CtapError::NoPendingAssertion);
        }
        let id = self.queue.remove(0);
        assert(byte_seqs(self.queue@) =~= old(self)@.queue.drop_first());
        make_assertion(&mut self.store, &id, &self.queue_client_data, None)
    }

    /// Wiping the store: held until presence is settled. Only a grant clears
    /// the store and the assertion context; otherwise nothing changes.
    pub fn reset(&mut self) -> (r: Step)
        requires
            old(self).wf(),
            old(self)@.pending is None,
        ensures
            final(self).wf(),
            final(self).key_seed() == old(self).key_seed(),
            final(self).key_draws() == old(self).key_draws(),
            final(self)@ == awaiting(old(self)@, PendingModel::Reset),
            r == Step::AwaitPresence(PresenceReason::Reset),
    {
        self.pending = Some(Pending::Reset);
        Step::AwaitPresence(PresenceReason::Reset)
    }

    /// Device selection: asks for presence and touches nothing else.
    pub fn selection(&mut self) -> (r: Step)
        requires
            old(self).wf(),
            old(self)@.pending is None,
        ensures
            final(self).wf(),
            final(self).key_seed() == old(self).key_seed(),
            final(self).key_draws() == old(self).key_draws(),
            final(self)@ == awaiting(old(self)@, PendingModel::Selection),
            r == Step::AwaitPresence(PresenceReason::Selection),
    {
        self.pending = Some(Pending::Selection);
        Step::AwaitPresence(PresenceReason::Selection)
    }

    /// The PIN protocol: retry count and key agreement; the rest is not supported.
    pub fn client_pin(&mut self, cmd: PinCommand) -> (r: Result<Response, CtapError>)
        requires
            old(self).wf(),
        ensures
            final(self).wf(),
            final(self).key_seed() == old(self).key_seed(),
            final(self).key_draws() == old(self).key_draws(),
            client_pin_post(old(self)@, cmd, final(self)@, r),
    {
        match cmd {
            PinCommand::GetRetries => Ok(Response::PinRetries(self.pin_retries)),
            PinCommand::GetKeyAgreement => Ok(Response::KeyAgreement(copy_bytes(&self.agreement.public))),
            _ => Err(CtapError::NotSupported),
        }
    }

    /// Credential management: metadata and enumeration answer at once, deletion
    /// waits for presence.
    pub fn credential_management(&mut self, cmd: CredentialCommand) -> (r: Step)
        requires
            old(self).wf(),
            old(self)@.pending is None,
        ensures
            final(self).wf(),
            final(self).key_seed() == old(self).key_seed(),
            final(self).key_draws() == old(self).key_draws(),
            credential_management_post(old(self)@, cmd, final(self)@, r),
    {
        match cmd {
            CredentialCommand::GetMetadata => {
                let existing = count_resident(&self.store);
                Step::Reply(
                    Ok(
                        Response::Metadata {
                            existing,
                            remaining: MAX_CREDENTIALS - self.store.len(),
                        },
                    ),
                )
            },
            CredentialCommand::EnumerateCredentials(h) => {
                let ids = collect_resident_ids(&self.store, &h);
                if ids.len() == 0 {
                    Step::Reply(Err(CtapError::NoCredentials))
                } else {
                    Step::Reply(Ok(Response::CredentialIds(ids)))
                }
            },
            CredentialCommand::DeleteCredential(id) => {
                self.pending = Some(Pending::Delete(id));
                Step::AwaitPresence(PresenceReason::Deletion)
            },
        }
    }

    /// Vendor commands: none is implemented.
    pub fn vendor(&mut self, op: u8) -> (r: Result<Response, CtapError>)
        requires
            old(self).wf(),
        ensures
            final(self).wf(),
            final(self).key_seed() == old(self).key_seed(),
            final(self).key_draws() == old(self).key_draws(),
            final(self)@ == old(self)@,
            r == Err::<Response, CtapError>(CtapError::NotSupported),
    {
        Err(CtapError::NotSupported)
    }

    /// Runs one command; while presence is awaited every command is refused as busy.
    pub fn handle(&mut self, req: Request) -> (r: Step)
        requires
            old(self).wf(),
        ensures
            final(self).wf(),
            final(self).key_seed() == old(self).key_seed(),
            final(self).key_draws() == old(self).key_draws(),
            handled(old(self)@, req, final(self)@, r),
            final(self).key_seed() == old(self).key_seed(),
            final(self).key_draws() == old(self).key_draws(),
    {
        if self.pending.is_some() {
            return Step::Reply(Err(CtapError::ChannelBusy));
        }
        match req {
            Request::GetInfo => {
                Step::Reply(Ok(Response::Info(self.get_info())))
            },
            Request::MakeCredential { rp_id, user_handle, exclude_list, algorithm, resident } => {
                self.make_credential(&rp_id, user_handle, exclude_list, algorithm, resident)
            },
            Request::GetAssertion { rp_id, allow_list, client_data_hash } => {
                self.get_assertion(&rp_id, allow_list, client_data_hash)
            },
            Request::GetNextAssertion => Step::Reply(self.get_next_assertion()),
            Request::Reset => self.reset(),
            Request::ClientPin(cmd) => Step::Reply(self.client_pin(cmd)),
            Request::CredentialManagement(cmd) => self.credential_management(cmd),
            Request::Selection => self.selection(),
            Request::Vendor(op) => Step::Reply(self.vendor(op)),
        }
    }

    /// Answers a command whose durable write failed with a generic denial in
    /// place of `reply`; a registration that `reply` reports is taken back.
    pub fn durable_write_failed(&mut self, reply: &Result<Response, CtapError>) -> (r: Result<
        Response,
        CtapError,
    >)
        requires
            old(self).wf(),
        ensures
            final(self).wf(),
            final(self).key_seed() == old(self).key_seed(),
            final(self).key_draws() == old(self).key_draws(),
            r == Err::<Response, CtapError>(CtapError::StorageFailure),
            final(self)@ == (CtapModel { store: final(self)@.store, ..old(self)@ }),
            match reply {
                Ok(Response::Registered { credential_id, .. }) => {
                    &&& !has_id(final(self)@.store, credential_id@)
                    &&& !has_id(old(self)@.store, credential_id@) ==> final(self)@.store == old(
                        self,
                    )@.store
                    &&& has_id(old(self)@.store, credential_id@) ==> exists|i: int|
                        0 <= i < old(self)@.store.len() && (#[trigger] old(self)@.store[i]).id
                            == credential_id@ && final(self)@.store == old(self)@.store.remove(i)
                },
                _ => final(self)@ == old(self)@,
            },
    {
        match reply {
            Ok(Response::Registered { credential_id, .. }) => {
                let _ = self.store.delete(credential_id);
            },
            _ => {},
        }
        Err(CtapError::StorageFailure)
    }

    /// Drops the held operation and any assertion context, as on a bus reset;
    /// the store is untouched.
    pub fn bus_reset(&mut self)
        requires
            old(self).wf(),
        ensures
            final(self).wf(),
            final(self).key_seed() == old(self).key_seed(),
            final(self).key_draws() == old(self).key_draws(),
            final(self)@ == (CtapModel { pending: None, ..idle(old(self)@) }),
    {
        self.drop_queue();
        self.pending = None;
    }

    /// Ends the held operation on the presence verdict `v`. A registration
    /// that goes ahead uses `fresh_id` and `fresh_key` for the new credential.
    pub fn conclude(&mut self, v: Verdict, now: u64, fresh_id: Vec<u8>, fresh_key: KeyPair) -> (r:
        Result<Response, CtapError>)
        requires
            old(self).wf(),
        ensures
            final(self).wf(),
            final(self).key_seed() == old(self).key_seed(),
            final(self).key_draws() == old(self).key_draws(),
            concluded(
                old(self)@,
                v,
                now,
                fresh_id@,
                fresh_key.secret@,
                fresh_key.public@,
                final(self)@,
                r,
            ),
    {
        let held = self.pending.take();
        match held {
            None => Err(CtapError::NotAllowed),
            Some(p) => match v {
                Verdict::Denied => Err(CtapError::PresenceDenied),
                Verdict::TimedOut => Err(CtapError::PresenceTimeout),
                Verdict::Granted => match p {
                    Pending::Registration { rp_id_hash, user_handle, exclude_list, resident } => {
                        if is_excluded(&self.store, &rp_id_hash, &exclude_list) {
                            return Err(CtapError::CredentialExcluded);
                        }
                        if self.store.len() >= MAX_CREDENTIALS {
                            return Err(CtapError::KeyStoreFull);
                        }
                        let credential_id = copy_bytes(&fresh_id);
                        let public_key = copy_bytes(&fresh_key.public);
                        let cred = CtapCredential::new(
                            fresh_id,
                            rp_id_hash,
                            user_handle,
                            fresh_key,
                            resident,
                            now,
                        );
                        match self.store.insert(cred) {
                            Ok(()) => Ok(Response::Registered { credential_id, public_key }),
                            Err(_) => Err(CtapError::StorageFailure),
                        }
                    },
                    Pending::Assertion { ids, client_data_hash } => {
                        let mut ids = ids;
                        let ghost all = byte_seqs(ids@);
                        let matched = ids.len();
                        let first = ids.remove(0);
                        assert(all[0] == first@);
                        assert(byte_seqs(ids@) =~= all.drop_first());
                        let r = make_assertion(
                            &mut self.store,
                            &first,
                            &client_data_hash,
                            Some(matched),
                        );
                        self.queue = ids;
                        self.queue_client_data = client_data_hash;
                        r
                    },
                    Pending::Reset => {
                        self.store.clear();
                        self.drop_queue();
                        Ok(Response::Done)
                    },
                    Pending::Delete(id) => match self.store.delete(&id) {
                        Ok(()) => Ok(Response::Done),
                        Err(_) => Err(CtapError::NoCredentials),
                    },
                    Pending::Selection => Ok(Response::Done),
                },
            },
        }
    }

    /// Ends the held operation on the presence verdict `v`, drawing the id and
    /// key pair of a new credential from the key manager when one is made.
    pub fn presence(&mut self, v: Verdict, now: u64) -> (r: Result<Response, CtapError>)
        requires
            old(self).wf(),
        ensures
            final(self).wf(),
            final(self).key_seed() == old(self).key_seed(),
            ({
                let seed = old(self).key_seed();
                let draws = old(self).key_draws();
                let sk = drawn_secret(seed, draws.push(CREDENTIAL_ID_LEN as int));
                let registering = v == Verdict::Granted && old(self)@.pending matches Some(
                    PendingModel::Registration { .. },
                );
                &&& concluded(
                    old(self)@,
                    v,
                    now,
                    drawn_bytes(seed, draws, CREDENTIAL_ID_LEN as nat),
                    sk,
                    public_key_of(sk),
                    final(self)@,
                    r,
                )
                &&& final(self).key_draws() == if registering {
                    draws.push(CREDENTIAL_ID_LEN as int).push(key_pair_draw())
                } else {
                    draws
                }
            }),
    {
        let registering = match (&self.pending, v) {
            (Some(Pending::Registration { .. }), Verdict::Granted) => true,
            _ => false,
        };
        if registering {
            let id = self.keys.random_id();
            let key = self.keys.new_key_pair();
            self.conclude(v, now, id, key)
        } else {
            let ghost seed = old(self).key_seed();
            let ghost draws = old(self).key_draws();
            let ghost sk = drawn_secret(seed, draws.push(CREDENTIAL_ID_LEN as int));
            let r = self.conclude(v, now, Vec::new(), KeyPair { secret: Vec::new(), public: Vec::new() });
            assert(concluded(
                old(self)@,
                v,
                now,
                drawn_bytes(seed, draws, CREDENTIAL_ID_LEN as nat),
                sk,
                public_key_of(sk),
                self@,
                r,
            ));
            r
        }
    }
}

/// An exclusion list naming a stored credential of the relying party is read
/// only after presence: on an authenticator with no command in flight, the
/// command first waits for presence, and on a grant answers
/// `CredentialExcluded` with the store as it was.
pub proof fn lemma_exclusion_after_presence(
    s: CtapModel,
    req: Request,
    t: CtapModel,
    r: Step,
    now: u64,
    id: Seq<u8>,
    sk: Seq<u8>,
    pk: Seq<u8>,
    u: CtapModel,
    r2: Result<Response, CtapError>,
)
    requires
        s.pending is None,
        req matches Request::MakeCredential { rp_id, exclude_list, algorithm, .. } && algorithm
            == ES256K && excluded(s.store, sha256_of(rp_id@), byte_seqs(exclude_list@)),
        handled(s, req, t, r),
        concluded(t, Verdict::Granted, now, id, sk, pk, u, r2),
    ensures
        r == Step::AwaitPresence(PresenceReason::Registration),
        t.store == s.store,
        r2 == Err::<Response, CtapError>(CtapError::CredentialExcluded),
        u.store == s.store,
{
}

/// On an authenticator with no command in flight, an assertion for a relying
/// party with no matching credential answers `NoCredentials` at once: presence
/// is never asked for and nothing is held.
pub proof fn lemma_no_credentials_no_presence(s: CtapModel, req: Request, t: CtapModel, r: Step)
    requires
        s.pending is None,
        req matches Request::GetAssertion { rp_id, allow_list, .. } && assertion_ids(
            s.store,
            sha256_of(rp_id@),
            allow_view(allow_list),
        ).len() == 0,
        handled(s, req, t, r),
    ensures
        failed(r, CtapError::NoCredentials),
        !(r is AwaitPresence),
        t.pending is None,
        t.store == s.store,
{
}

/// On an authenticator with no command in flight, a registration whose
/// presence wait times out answers `PresenceTimeout` and leaves the store as
/// it was; the same request made again and confirmed then creates the
/// credential, provided the store has room and the drawn id is new.
pub proof fn lemma_timeout_then_retry(
    s: CtapModel,
    req: Request,
    t: CtapModel,
    r: Step,
    now: u64,
    id: Seq<u8>,
    sk: Seq<u8>,
    pk: Seq<u8>,
    u: CtapModel,
    r2: Result<Response, CtapError>,
    t2: CtapModel,
    r3: Step,
    later: u64,
    v: CtapModel,
    r4: Result<Response, CtapError>,
)
    requires
        s.pending is None,
        req matches Request::MakeCredential { rp_id, exclude_list, algorithm, .. } && algorithm
            == ES256K && !excluded(s.store, sha256_of(rp_id@), byte_seqs(exclude_list@)),
        s.store.len() < MAX_CREDENTIALS,
        !has_id(s.store, id),
        handled(s, req, t, r),
        concluded(t, Verdict::TimedOut, now, id, sk, pk, u, r2),
        handled(u, req, t2, r3),
        concluded(t2, Verdict::Granted, later, id, sk, pk, v, r4),
    ensures
        r2 == Err::<Response, CtapError>(CtapError::PresenceTimeout),
        u.store == s.store,
        u.pending is None,
        r3 == r,
        registered(r4, id, pk),
        v.store.len() == s.store.len() + 1,
        v.store.drop_last() == s.store,
        v.store.last().id == id,
{
    assert(v.store.drop_last() =~= s.store);
}

/// The store after `t` keeps every credential of `s` in place, with the same
/// id and a sign counter no smaller.
pub open spec fn counters_kept(s: Seq<CredentialModel>, t: Seq<CredentialModel>) -> bool {
    &&& t.len() == s.len()
    &&& forall|i: int|
        0 <= i < s.len() ==> (#[trigger] t[i]).id == s[i].id && t[i].rp_id_hash == s[i].rp_id_hash
            && t[i].sign_count >= s[i].sign_count
}

/// A presence request that is denied or times out answers with an error and
/// leaves the store exactly as it was: nothing is created, deleted or revealed.
pub proof fn lemma_no_grant_no_change(
    s: CtapModel,
    v: Verdict,
    now: u64,
    id: Seq<u8>,
    sk: Seq<u8>,
    pk: Seq<u8>,
    t: CtapModel,
    r: Result<Response, CtapError>,
)
    requires
        v != Verdict::Granted,
        concluded(s, v, now, id, sk, pk, t, r),
    ensures
        t.store == s.store,
        r is Err,
        t.pending is None,
        s.pending is Some ==> t == (CtapModel { pending: None, ..s }),
{
}

/// No command run by `handle` creates or removes a credential, and sign
/// counters never go down.
pub proof fn lemma_handle_keeps_credentials(s: CtapModel, req: Request, t: CtapModel, r: Step)
    requires
        handled(s, req, t, r),
    ensures
        counters_kept(s.store, t.store),
{
    if s.pending is None && req is GetNextAssertion && s.queue.len() > 0 {
        let id = s.queue[0];
        if has_id(s.store, id) {
            let i = choose|i: int|
                0 <= i < s.store.len() && (#[trigger] s.store[i]).id == id && assertion_at(
                    s.store,
                    i,
                    s.queue_client_data,
                    None,
                    t.store,
                    match r {
                        Step::Reply(res) => res,
                        _ => Err(CtapError::NotAllowed),
                    },
                );
            assert(counters_kept(s.store, t.store));
        }
    }
}

/// Ending an assertion or a selection, or any request that presence did not
/// grant, creates and removes no credential, and sign counters never go down.
pub proof fn lemma_conclude_keeps_credentials(
    s: CtapModel,
    v: Verdict,
    now: u64,
    id: Seq<u8>,
    sk: Seq<u8>,
    pk: Seq<u8>,
    t: CtapModel,
    r: Result<Response, CtapError>,
)
    requires
        v != Verdict::Granted || s.pending matches Some(PendingModel::Assertion { .. }) || s.pending
            == Some(PendingModel::Selection) || s.pending is None,
        concluded(s, v, now, id, sk, pk, t, r),
    ensures
        counters_kept(s.store, t.store),
{
    if v == Verdict::Granted && s.pending matches Some(PendingModel::Assertion { .. }) {
        let ids = s.pending->0->Assertion_ids;
        let cdh = s.pending->0->Assertion_client_data_hash;
        if has_id(s.store, ids[0]) {
            let i = choose|i: int|
                0 <= i < s.store.len() && (#[trigger] s.store[i]).id == ids[0] && assertion_at(
                    s.store,
                    i,
                    cdh,
                    Some(ids.len() as usize),
                    t.store,
                    r,
                );
            assert(counters_kept(s.store, t.store));
        }
    }
}

} // verus!
