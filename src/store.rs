//! The credential store: registered credentials with unique ids.
use crate::keys::{
    drawn_bytes, drawn_secret, key_pair_draw, public_key_of, KeyPair, Keys, CREDENTIAL_ID_LEN,
    PUBLIC_KEY_LEN, SECRET_KEY_LEN,
};
use vstd::prelude::*;

verus! {

/// How many credentials the store holds at most.
pub const MAX_CREDENTIALS: usize = 64;

pub struct CredentialModel {
    pub id: Seq<u8>,
    pub rp_id_hash: Seq<u8>,
    pub user_handle: Seq<u8>,
    pub public_key: Seq<u8>,
    pub secret_key: Seq<u8>,
    pub sign_count: u32,
    pub resident: bool,
    pub created_at: u64,
}

/// A registered credential.
pub struct CtapCredential {
    pub id: Vec<u8>,
    pub rp_id_hash: Vec<u8>,
    pub user_handle: Vec<u8>,
    pub public_key: Vec<u8>,
    pub secret_key: Vec<u8>,
    pub sign_count: u32,
    pub resident: bool,
    pub created_at: u64,
}

impl View for CtapCredential {
    type V = CredentialModel;

    open spec fn view(&self) -> CredentialModel {
        CredentialModel {
            id: self.id@,
            rp_id_hash: self.rp_id_hash@,
            user_handle: self.user_handle@,
            public_key: self.public_key@,
            secret_key: self.secret_key@,
            sign_count: self.sign_count,
            resident: self.resident,
            created_at: self.created_at,
        }
    }
}

/// Failures of the durable credential store.
#[derive(Clone, Copy, Debug, PartialEq, Eq, Structural)]
pub enum StorageError {
    NotFound,
    Full,
    Corrupt,
}

/// A copy of a byte vector.
pub fn copy_bytes(v: &[u8]) -> (r: Vec<u8>)
    ensures
        r@ == v@,
{
    let mut r: Vec<u8> = Vec::new();
    let mut i: usize = 0;
    while i < v.len()
        invariant
            i <= v@.len(),
            r@ == v@.take(i as int),
        decreases v@.len() - i,
    {
        r.push(v[i]);
        i = i + 1;
        assert(r@ =~= v@.take(i as int));
    }
    assert(v@.take(v@.len() as int) =~= v@);
    r
}

/// Whether two byte strings are equal.
pub fn bytes_eq(a: &[u8], b: &[u8]) -> (r: bool)
    ensures
        r == (a@ == b@),
{
    if a.len() != b.len() {
        return false;
    }
    let mut i: usize = 0;
    while i < a.len()
        invariant
            i <= a@.len() == b@.len(),
            a@.take(i as int) == b@.take(i as int),
        decreases a@.len() - i,
    {
        if a[i] != b[i] {
            return false;
        }
        i = i + 1;
        assert(a@.take(i as int) =~= b@.take(i as int));
    }
    assert(a@ =~= a@.take(i as int));
    assert(b@ =~= b@.take(i as int));
    true
}

impl CtapCredential {
    /// A new credential with a zero sign counter.
    pub fn new(
        id: Vec<u8>,
        rp_id_hash: Vec<u8>,
        user_handle: Vec<u8>,
        key: KeyPair,
        resident: bool,
        created_at: u64,
    ) -> (r: CtapCredential)
        ensures
            r@ == (CredentialModel {
                id: id@,
                rp_id_hash: rp_id_hash@,
                user_handle: user_handle@,
                public_key: key.public@,
                secret_key: key.secret@,
                sign_count: 0,
                resident,
                created_at,
            }),
    {
        CtapCredential {
            id,
            rp_id_hash,
            user_handle,
            public_key: key.public,
            secret_key: key.secret,
            sign_count: 0,
            resident,
            created_at,
        }
    }

    /// A field-by-field copy.
    pub fn duplicate(&self) -> (r: CtapCredential)
        ensures
            r@ == self@,
    {
        CtapCredential {
            id: copy_bytes(&self.id),
            rp_id_hash: copy_bytes(&self.rp_id_hash),
            user_handle: copy_bytes(&self.user_handle),
            public_key: copy_bytes(&self.public_key),
            secret_key: copy_bytes(&self.secret_key),
            sign_count: self.sign_count,
            resident: self.resident,
            created_at: self.created_at,
        }
    }
}

/// Whether some credential in `s` has id `id`.
pub open spec fn has_id(s: Seq<CredentialModel>, id: Seq<u8>) -> bool {
    exists|i: int| 0 <= i < s.len() && (#[trigger] s[i]).id == id
}

/// No two credentials share an id.
pub open spec fn ids_unique(s: Seq<CredentialModel>) -> bool {
    forall|i: int, j: int| 0 <= i < s.len() && 0 <= j < s.len() && i != j ==> (#[trigger] s[i]).id
        != (#[trigger] s[j]).id
}

/// `new` is `old` with the credential `c`, whose id was not in `old`, added.
pub open spec fn created(old: Seq<CredentialModel>, c: CredentialModel, new: Seq<CredentialModel>) -> bool {
    !has_id(old, c.id) && new == old.push(c)
}

/// The credentials of `s` registered for the relying party `rp`, in store order.
pub open spec fn for_rp(s: Seq<CredentialModel>, rp: Seq<u8>) -> Seq<CredentialModel>
    decreases s.len(),
{
    if s.len() == 0 {
        Seq::empty()
    } else if s.last().rp_id_hash == rp {
        for_rp(s.drop_last(), rp).push(s.last())
    } else {
        for_rp(s.drop_last(), rp)
    }
}

/// A credential with its sign counter advanced by one, held at its maximum.
pub open spec fn counted(c: CredentialModel) -> CredentialModel {
    CredentialModel {
        sign_count: if c.sign_count < u32::MAX {
            (c.sign_count + 1) as u32
        } else {
            c.sign_count
        },
        ..c
    }
}

/// The credential `create` makes from a generator keyed by `seed` after the
/// draws `draws`: an id of the next 32 bytes, then a fresh key pair.
pub open spec fn fresh_credential(
    seed: Seq<u8>,
    draws: Seq<int>,
    rp_id_hash: Seq<u8>,
    user_handle: Seq<u8>,
    resident: bool,
    created_at: u64,
) -> CredentialModel {
    let secret = drawn_secret(seed, draws.push(CREDENTIAL_ID_LEN as int));
    CredentialModel {
        id: drawn_bytes(seed, draws, CREDENTIAL_ID_LEN as nat),
        rp_id_hash,
        user_handle,
        public_key: public_key_of(secret),
        secret_key: secret,
        sign_count: 0,
        resident,
        created_at,
    }
}

/// Every credential, with ids unique across the store.
pub struct CredentialStore {
    creds: Vec<CtapCredential>,
}

impl View for CredentialStore {
    type V = Seq<CredentialModel>;

    closed spec fn view(&self) -> Seq<CredentialModel> {
        self.creds@.map_values(|c: CtapCredential| c@)
    }
}

impl CredentialStore {
    pub open spec fn wf(&self) -> bool {
        self@.len() <= MAX_CREDENTIALS && ids_unique(self@)
    }

    pub fn new() -> (r: CredentialStore)
        ensures
            r.wf(),
            r@ == Seq::<CredentialModel>::empty(),
    {
        let r = CredentialStore { creds: Vec::new() };
        assert(r@ =~= Seq::<CredentialModel>::empty());
        r
    }

    pub fn len(&self) -> (r: usize)
        ensures
            r == self@.len(),
    {
        self.creds.len()
    }

    /// The credential at position `i`.
    pub fn at(&self, i: usize) -> (r: &CtapCredential)
        requires
            i < self@.len(),
        ensures
            r@ == self@[i as int],
    {
        &self.creds[i]
    }

    /// The position of the credential with id `id`.
    pub fn find(&self, id: &[u8]) -> (r: Option<usize>)
        ensures
            match r {
                Some(i) => i < self@.len() && self@[i as int].id == id@,
                None => !has_id(self@, id@),
            },
    {
        let mut i: usize = 0;
        while i < self.creds.len()
            invariant
                i <= self@.len(),
                self@.len() == self.creds@.len(),
                forall|j: int| 0 <= j < i ==> (#[trigger] self@[j]).id != id@,
            decreases self@.len() - i,
        {
            if bytes_eq(&self.creds[i].id, id) {
                return Some(i);
            }
            i = i + 1;
        }
        None
    }

    /// Whether a credential with id `id` is stored.
    pub fn contains(&self, id: &[u8]) -> (r: bool)
        ensures
            r == has_id(self@, id@),
    {
        self.find(id).is_some()
    }

    /// A copy of the credential with id `id`.
    pub fn get(&self, id: &[u8]) -> (r: Option<CtapCredential>)
        ensures
            r is Some <==> has_id(self@, id@),
            r is Some ==> r->0@.id == id@ && self@.contains(r->0@),
    {
        match self.find(id) {
            Some(i) => Some(self.creds[i].duplicate()),
            None => None,
        }
    }

    /// Adds `cred`: refused when the store is full or already holds its id.
    pub fn insert(&mut self, cred: CtapCredential) -> (r: Result<(), StorageError>)
        requires
            old(self).wf(),
        ensures
            final(self).wf(),
            old(self)@.len() >= MAX_CREDENTIALS ==> r == Err::<(), StorageError>(StorageError::Full),
            old(self)@.len() < MAX_CREDENTIALS && has_id(old(self)@, cred@.id) ==> r == Err::<
                (),
                StorageError,
            >(StorageError::Corrupt),
            old(self)@.len() < MAX_CREDENTIALS && !has_id(old(self)@, cred@.id) ==> r is Ok,
            r is Ok ==> created(old(self)@, cred@, final(self)@),
            r is Err ==> final(self)@ == old(self)@,
    {
        if self.creds.len() >= MAX_CREDENTIALS {
            return Err(StorageError::Full);
        }
        if self.contains(&cred.id) {
            return Err(StorageError::Corrupt);
        }
        let ghost c = cred@;
        self.creds.push(cred);
        assert(self@ =~= old(self)@.push(c));
        assert(ids_unique(self@)) by {
            assert forall|i: int, j: int|
                0 <= i < self@.len() && 0 <= j < self@.len() && i != j implies (
            #[trigger] self@[i]).id != (#[trigger] self@[j]).id by {
                if i < old(self)@.len() && j < old(self)@.len() {
                } else if i < old(self)@.len() {
                    assert(old(self)@[i].id != c.id);
                } else {
                    assert(old(self)@[j].id != c.id);
                }
            }
        }
        Ok(())
    }

    /// Generates and stores a new credential: a random id and key pair from
    /// `keys`, a zero sign counter. Refused when the store is full (nothing is
    /// drawn then) or when the drawn id is already stored.
    pub fn create(
        &mut self,
        keys: &mut Keys,
        rp_id_hash: Vec<u8>,
        user_handle: Vec<u8>,
        resident: bool,
        created_at: u64,
    ) -> (r: Result<CtapCredential, StorageError>)
        requires
            old(self).wf(),
        ensures
            final(self).wf(),
            final(keys).seed() == old(keys).seed(),
            old(self)@.len() >= MAX_CREDENTIALS ==> {
                &&& r == Err::<CtapCredential, StorageError>(StorageError::Full)
                &&& final(keys).draws() == old(keys).draws()
            },
            old(self)@.len() < MAX_CREDENTIALS ==> {
                let c = fresh_credential(
                    old(keys).seed(),
                    old(keys).draws(),
                    rp_id_hash@,
                    user_handle@,
                    resident,
                    created_at,
                );
                &&& final(keys).draws() == old(keys).draws().push(CREDENTIAL_ID_LEN as int).push(
                    key_pair_draw(),
                )
                &&& has_id(old(self)@, c.id) ==> r == Err::<CtapCredential, StorageError>(
                    StorageError::Corrupt,
                )
                &&& !has_id(old(self)@, c.id) ==> r is Ok && r->Ok_0@ == c
            },
            r is Err ==> final(self)@ == old(self)@,
            r is Ok ==> {
                let c = r->Ok_0@;
                &&& created(old(self)@, c, final(self)@)
                &&& c.id.len() == CREDENTIAL_ID_LEN
                &&& c.secret_key.len() == SECRET_KEY_LEN
                &&& c.public_key.len() == PUBLIC_KEY_LEN
                &&& c.public_key == public_key_of(c.secret_key)
                &&& c.rp_id_hash == rp_id_hash@
                &&& c.user_handle == user_handle@
                &&& c.sign_count == 0
                &&& c.resident == resident
                &&& c.created_at == created_at
            },
    {
        if self.creds.len() >= MAX_CREDENTIALS {
            return Err(StorageError::Full);
        }
        let id = keys.random_id();
        let key = keys.new_key_pair();
        let cred = CtapCredential::new(id, rp_id_hash, user_handle, key, resident, created_at);
        let copy = cred.duplicate();
        match self.insert(cred) {
            Ok(()) => Ok(copy),
            Err(e) => Err(e),
        }
    }

    /// Removes the credential with id `id`.
    pub fn delete(&mut self, id: &[u8]) -> (r: Result<(), StorageError>)
        requires
            old(self).wf(),
        ensures
            final(self).wf(),
            r is Err <==> !has_id(old(self)@, id@),
            r is Err ==> r == Err::<(), StorageError>(StorageError::NotFound) && final(self)@ == old(
                self,
            )@,
            r is Ok ==> exists|i: int|
                0 <= i < old(self)@.len() && (#[trigger] old(self)@[i]).id == id@ && final(self)@
                    == old(self)@.remove(i),
            !has_id(final(self)@, id@),
    {
        match self.find(id) {
            None => Err(StorageError::NotFound),
            Some(i) => {
                self.creds.remove(i);
                assert(self@ =~= old(self)@.remove(i as int));
                assert(ids_unique(self@)) by {
                    assert forall|a: int, b: int|
                        0 <= a < self@.len() && 0 <= b < self@.len() && a != b implies (
                    #[trigger] self@[a]).id != (#[trigger] self@[b]).id by {
                        let a0 = if a < i { a } else { a + 1 };
                        let b0 = if b < i { b } else { b + 1 };
                        assert(self@[a] == old(self)@[a0]);
                        assert(self@[b] == old(self)@[b0]);
                    }
                }
                assert(old(self)@[i as int].id == id@);
                assert(!has_id(self@, id@)) by {
                    if has_id(self@, id@) {
                        let a = choose|a: int| 0 <= a < self@.len() && (#[trigger] self@[a]).id == id@;
                        let a0 = if a < i { a } else { a + 1 };
                        assert(self@[a] == old(self)@[a0]);
                    }
                }
                Ok(())
            },
        }
    }

    /// Removes every credential.
    pub fn clear(&mut self)
        ensures
            final(self).wf(),
            final(self)@ == Seq::<CredentialModel>::empty(),
    {
        self.creds.clear();
        assert(self@ =~= Seq::<CredentialModel>::empty());
    }

    /// Copies of the credentials registered for `rp_id_hash`, in store order.
    pub fn list(&self, rp_id_hash: &[u8]) -> (r: Vec<CtapCredential>)
        ensures
            r@.map_values(|c: CtapCredential| c@) == for_rp(self@, rp_id_hash@),
    {
        let mut out: Vec<CtapCredential> = Vec::new();
        let mut i: usize = 0;
        while i < self.creds.len()
            invariant
                i <= self@.len(),
                self@.len() == self.creds@.len(),
                out@.map_values(|c: CtapCredential| c@) == for_rp(self@.take(i as int), rp_id_hash@),
            decreases self@.len() - i,
        {
            assert(self@.take(i + 1).drop_last() =~= self@.take(i as int));
            if bytes_eq(&self.creds[i].rp_id_hash, rp_id_hash) {
                let c = self.creds[i].duplicate();
                let ghost before = out@;
                out.push(c);
                assert(out@.map_values(|c: CtapCredential| c@) =~= before.map_values(
                    |c: CtapCredential| c@,
                ).push(c@));
            }
            i = i + 1;
        }
        assert(self@.take(i as int) =~= self@);
        out
    }

    /// Advances the sign counter of the credential at position `i`; returns the new value.
    pub fn bump_sign_count(&mut self, i: usize) -> (r: u32)
        requires
            old(self).wf(),
            i < old(self)@.len(),
        ensures
            final(self).wf(),
            final(self)@ == old(self)@.update(i as int, counted(old(self)@[i as int])),
            r == counted(old(self)@[i as int]).sign_count,
    {
        let mut c = self.creds.remove(i);
        if c.sign_count < u32::MAX {
            c.sign_count = c.sign_count + 1;
        }
        let r = c.sign_count;
        self.creds.insert(i, c);
        assert(self@ =~= old(self)@.update(i as int, counted(old(self)@[i as int])));
        assert(ids_unique(self@)) by {
            assert forall|a: int, b: int|
                0 <= a < self@.len() && 0 <= b < self@.len() && a != b implies (
            #[trigger] self@[a]).id != (#[trigger] self@[b]).id by {
                assert(self@[a].id == old(self)@[a].id);
                assert(self@[b].id == old(self)@[b].id);
            }
        }
        r
    }
}

/// Two credentials created one after the other never share an id.
pub proof fn lemma_created_ids_differ(
    s0: Seq<CredentialModel>,
    c1: CredentialModel,
    s1: Seq<CredentialModel>,
    c2: CredentialModel,
    s2: Seq<CredentialModel>,
)
    requires
        created(s0, c1, s1),
        created(s1, c2, s2),
    ensures
        c1.id != c2.id,
{
    assert(s1[s0.len() as int] == c1);
}

} // verus!
