//! The durable form of the credential store: a byte string that the flash
//! collaborator keeps, with a decoder that gives back exactly what was encoded.
use crate::store::{
    copy_bytes, ids_unique, CredentialModel, CredentialStore, CtapCredential, MAX_CREDENTIALS,
};
use vstd::prelude::*;
use vstd::slice::slice_subrange;

verus! {

/// A credential fits a record when each byte field has at most 255 bytes.
pub open spec fn storable(c: CredentialModel) -> bool {
    &&& c.id.len() <= 255
    &&& c.rp_id_hash.len() <= 255
    &&& c.user_handle.len() <= 255
    &&& c.public_key.len() <= 255
    &&& c.secret_key.len() <= 255
}

/// A length-prefixed byte field.
pub open spec fn field(x: Seq<u8>) -> Seq<u8> {
    seq![x.len() as u8] + x
}

pub open spec fn be32(n: u32) -> Seq<u8> {
    seq![(n >> 24u32) as u8, (n >> 16u32) as u8, (n >> 8u32) as u8, n as u8]
}

pub open spec fn be64(n: u64) -> Seq<u8> {
    seq![
        (n >> 56u64) as u8,
        (n >> 48u64) as u8,
        (n >> 40u64) as u8,
        (n >> 32u64) as u8,
        (n >> 24u64) as u8,
        (n >> 16u64) as u8,
        (n >> 8u64) as u8,
        n as u8,
    ]
}

/// One credential: its five byte fields, sign counter, resident flag and creation time.
#[verifier::opaque]
pub open spec fn record(c: CredentialModel) -> Seq<u8> {
    field(c.id) + (field(c.rp_id_hash) + (field(c.user_handle) + (field(c.public_key) + (field(
        c.secret_key,
    ) + record_tail(c)))))
}

/// Sign counter, resident flag and creation time.
pub open spec fn record_tail(c: CredentialModel) -> Seq<u8> {
    be32(c.sign_count) + seq![if c.resident { 1u8 } else { 0u8 }] + be64(c.created_at)
}

pub open spec fn records(s: Seq<CredentialModel>) -> Seq<u8>
    decreases s.len(),
{
    if s.len() == 0 {
        Seq::empty()
    } else {
        records(s.drop_last()) + record(s.last())
    }
}

/// The whole store: the number of credentials, then their records in order.
pub open spec fn store_bytes(s: Seq<CredentialModel>) -> Seq<u8> {
    seq![s.len() as u8] + records(s)
}

pub open spec fn read_be32(b: Seq<u8>, p: int) -> u32 {
    ((b[p] as u32) << 24u32) | ((b[p + 1] as u32) << 16u32) | ((b[p + 2] as u32) << 8u32) | (b[p
        + 3] as u32)
}

pub open spec fn read_be64(b: Seq<u8>, p: int) -> u64 {
    ((b[p] as u64) << 56u64) | ((b[p + 1] as u64) << 48u64) | ((b[p + 2] as u64) << 40u64) | ((b[p
        + 3] as u64) << 32u64) | ((b[p + 4] as u64) << 24u64) | ((b[p + 5] as u64) << 16u64) | ((b[p
        + 6] as u64) << 8u64) | (b[p + 7] as u64)
}

#[verifier::opaque]
pub open spec fn parse_field(b: Seq<u8>, p: int) -> Option<(Seq<u8>, int)> {
    if 0 <= p < b.len() && p + 1 + b[p] <= b.len() {
        Some((b.subrange(p + 1, p + 1 + b[p]), p + 1 + b[p]))
    } else {
        None
    }
}

/// The counter, flag and time that close a record, read at `p`.
#[verifier::opaque]
pub open spec fn parse_tail(b: Seq<u8>, p: int) -> Option<(u32, bool, u64, int)> {
    if 0 <= p && p + 13 <= b.len() && b[p + 4] <= 1 {
        Some((read_be32(b, p), b[p + 4] == 1, read_be64(b, p + 5), p + 13))
    } else {
        None
    }
}

#[verifier::opaque]
pub open spec fn parse_record(b: Seq<u8>, p: int) -> Option<(CredentialModel, int)> {
    match parse_field(b, p) {
        None => None,
        Some((id, p1)) => match parse_field(b, p1) {
            None => None,
            Some((rp, p2)) => match parse_field(b, p2) {
                None => None,
                Some((user, p3)) => match parse_field(b, p3) {
                    None => None,
                    Some((pk, p4)) => match parse_field(b, p4) {
                        None => None,
                        Some((sk, p5)) => match parse_tail(b, p5) {
                            None => None,
                            Some((count, resident, created, p6)) => Some(
                                (
                                    CredentialModel {
                                        id,
                                        rp_id_hash: rp,
                                        user_handle: user,
                                        public_key: pk,
                                        secret_key: sk,
                                        sign_count: count,
                                        resident,
                                        created_at: created,
                                    },
                                    p6,
                                ),
                            ),
                        },
                    },
                },
            },
        },
    }
}

/// Parses `n` consecutive records starting at `p`.
pub open spec fn parse_records(b: Seq<u8>, p: int, n: nat) -> Option<(Seq<CredentialModel>, int)>
    decreases n,
{
    if n == 0 {
        Some((Seq::empty(), p))
    } else {
        match parse_records(b, p, (n - 1) as nat) {
            None => None,
            Some((s, q)) => match parse_record(b, q) {
                None => None,
                Some((c, q2)) => Some((s.push(c), q2)),
            },
        }
    }
}

/// The store a byte string holds: a count, exactly that many records and
/// nothing after them, ids unique and within capacity.
pub open spec fn decode_spec(b: Seq<u8>) -> Option<Seq<CredentialModel>> {
    if b.len() == 0 {
        None
    } else {
        match parse_records(b, 1, b[0] as nat) {
            Some((s, q)) => if q == b.len() && ids_unique(s) && s.len() <= MAX_CREDENTIALS {
                Some(s)
            } else {
                None
            },
            None => None,
        }
    }
}

proof fn lemma_be32(n: u32)
    ensures
        read_be32(be32(n), 0) == n,
{
    assert(((((n >> 24u32) as u8) as u32) << 24u32) | ((((n >> 16u32) as u8) as u32) << 16u32) | ((
    ((n >> 8u32) as u8) as u32) << 8u32) | ((n as u8) as u32) == n) by (bit_vector);
}

proof fn lemma_be64(n: u64)
    ensures
        read_be64(be64(n), 0) == n,
{
    assert(((((n >> 56u64) as u8) as u64) << 56u64) | ((((n >> 48u64) as u8) as u64) << 48u64) | ((
    ((n >> 40u64) as u8) as u64) << 40u64) | ((((n >> 32u64) as u8) as u64) << 32u64) | ((((n
        >> 24u64) as u8) as u64) << 24u64) | ((((n >> 16u64) as u8) as u64) << 16u64) | ((((n
        >> 8u64) as u8) as u64) << 8u64) | ((n as u8) as u64) == n) by (bit_vector);
}

proof fn lemma_parse_field(pre: Seq<u8>, x: Seq<u8>, post: Seq<u8>)
    requires
        x.len() <= 255,
    ensures
        parse_field(pre + field(x) + post, pre.len() as int) == Some(
            (x, pre.len() + 1 + x.len() as int),
        ),
{
    reveal(parse_field);
    let b = pre + field(x) + post;
    let p = pre.len() as int;
    assert(b[p] == x.len() as u8);
    assert(b.subrange(p + 1, p + 1 + x.len()) =~= x);
}

proof fn lemma_parse_tail(pre: Seq<u8>, c: CredentialModel, post: Seq<u8>)
    ensures
        parse_tail(pre + record_tail(c) + post, pre.len() as int) == Some((c.sign_count, c.resident, c.created_at, pre.len() + 13 as int)),
{
    reveal(parse_tail);
    let t = record_tail(c);
    let b = pre + t + post;
    let p = pre.len() as int;
    lemma_be32(c.sign_count);
    lemma_be64(c.created_at);
    assert(b.subrange(p, p + 4) =~= be32(c.sign_count));
    assert(b.subrange(p + 5, p + 13) =~= be64(c.created_at));
    assert(read_be32(b, p) == read_be32(be32(c.sign_count), 0));
    assert(read_be64(b, p + 5) == read_be64(be64(c.created_at), 0));
}

proof fn lemma_field_step(pre: Seq<u8>, x: Seq<u8>, rest: Seq<u8>, post: Seq<u8>)
    requires
        x.len() <= 255,
    ensures
        parse_field(pre + (field(x) + rest) + post, pre.len() as int) == Some(
            (x, (pre + field(x)).len() as int),
        ),
        pre + (field(x) + rest) + post == (pre + field(x)) + rest + post,
{
    assert(pre + (field(x) + rest) + post =~= (pre + field(x)) + rest + post);
    assert(pre + (field(x) + rest) + post =~= pre + field(x) + (rest + post));
    lemma_parse_field(pre, x, rest + post);
}

proof fn lemma_parse_record(pre: Seq<u8>, c: CredentialModel, post: Seq<u8>)
    requires
        storable(c),
    ensures
        parse_record(pre + record(c) + post, pre.len() as int) == Some(
            (c, pre.len() + record(c).len() as int),
        ),
{
    reveal(parse_record);
    reveal(record);
    let t = record_tail(c);
    let f1 = field(c.id);
    let f2 = field(c.rp_id_hash);
    let f3 = field(c.user_handle);
    let f4 = field(c.public_key);
    let f5 = field(c.secret_key);
    let r5 = f5 + t;
    let r4 = f4 + r5;
    let r3 = f3 + r4;
    let r2 = f2 + r3;
    lemma_field_step(pre, c.id, r2, post);
    lemma_field_step(pre + f1, c.rp_id_hash, r3, post);
    lemma_field_step(pre + f1 + f2, c.user_handle, r4, post);
    lemma_field_step(pre + f1 + f2 + f3, c.public_key, r5, post);
    lemma_field_step(pre + f1 + f2 + f3 + f4, c.secret_key, t, post);
    lemma_parse_tail(pre + f1 + f2 + f3 + f4 + f5, c, post);
}

proof fn lemma_parse_records(pre: Seq<u8>, s: Seq<CredentialModel>, post: Seq<u8>)
    requires
        forall|i: int| 0 <= i < s.len() ==> storable(#[trigger] s[i]),
    ensures
        parse_records(pre + records(s) + post, pre.len() as int, s.len()) == Some(
            (s, pre.len() + records(s).len() as int),
        ),
    decreases s.len(),
{
    if s.len() > 0 {
        let init = s.drop_last();
        let c = s.last();
        assert(forall|i: int| 0 <= i < init.len() ==> #[trigger] init[i] == s[i]);
        lemma_parse_records(pre, init, record(c) + post);
        assert(pre + records(s) + post =~= pre + records(init) + (record(c) + post));
        assert(pre + records(s) + post =~= (pre + records(init)) + record(c) + post);
        lemma_parse_record(pre + records(init), c, post);
        assert(init.push(c) =~= s);
    } else {
        assert(records(s) =~= Seq::<u8>::empty());
    }
}

/// Decoding the bytes of a well-formed store gives back that store.
pub proof fn lemma_decode_store_bytes(s: Seq<CredentialModel>)
    requires
        s.len() <= MAX_CREDENTIALS,
        ids_unique(s),
        forall|i: int| 0 <= i < s.len() ==> storable(#[trigger] s[i]),
    ensures
        decode_spec(store_bytes(s)) == Some(s),
{
    let b = store_bytes(s);
    lemma_parse_records(seq![s.len() as u8], s, Seq::empty());
    assert(b =~= seq![s.len() as u8] + records(s) + Seq::<u8>::empty());
    assert(b[0] == s.len() as u8);
}

/// Every credential of `s` fits a record.
pub open spec fn all_storable(s: Seq<CredentialModel>) -> bool {
    forall|i: int| 0 <= i < s.len() ==> storable(#[trigger] s[i])
}

pub open spec fn models(v: Seq<CtapCredential>) -> Seq<CredentialModel> {
    v.map_values(|c: CtapCredential| c@)
}

proof fn lemma_parse_records_stuck(b: Seq<u8>, p: int, k: nat, n: nat)
    requires
        k <= n,
        parse_records(b, p, k) is None,
    ensures
        parse_records(b, p, n) is None,
    decreases n - k,
{
    if k < n {
        lemma_parse_records_stuck(b, p, k + 1, n);
    }
}

fn push_field(out: &mut Vec<u8>, x: &[u8])
    requires
        x@.len() <= 255,
    ensures
        final(out)@ == old(out)@ + field(x@),
{
    out.push(x.len() as u8);
    let ghost mid = out@;
    let mut i: usize = 0;
    while i < x.len()
        invariant
            i <= x@.len(),
            out@ == mid + x@.take(i as int),
        decreases x@.len() - i,
    {
        out.push(x[i]);
        i = i + 1;
        assert(out@ =~= mid + x@.take(i as int));
    }
    assert(out@ =~= old(out)@ + field(x@));
}

fn push_record(out: &mut Vec<u8>, c: &CtapCredential)
    requires
        storable(c@),
    ensures
        final(out)@ == old(out)@ + record(c@),
{
    reveal(record);
    let ghost o = out@;
    push_field(out, &c.id);
    push_field(out, &c.rp_id_hash);
    push_field(out, &c.user_handle);
    push_field(out, &c.public_key);
    push_field(out, &c.secret_key);
    push_tail(out, c);
    let ghost f1 = field(c.id@);
    let ghost f2 = field(c.rp_id_hash@);
    let ghost f3 = field(c.user_handle@);
    let ghost f4 = field(c.public_key@);
    let ghost f5 = field(c.secret_key@);
    let ghost t = record_tail(c@);
    assert(out@ == o + f1 + f2 + f3 + f4 + f5 + t);
    assert(f1 + (f2 + (f3 + (f4 + (f5 + t)))) =~= f1 + f2 + f3 + f4 + f5 + t);
    assert(o + f1 + f2 + f3 + f4 + f5 + t =~= o + (f1 + f2 + f3 + f4 + f5 + t));
}

fn push_tail(out: &mut Vec<u8>, c: &CtapCredential)
    ensures
        final(out)@ == old(out)@ + record_tail(c@),
{
    let n = c.sign_count;
    out.push((n >> 24u32) as u8);
    out.push((n >> 16u32) as u8);
    out.push((n >> 8u32) as u8);
    out.push(n as u8);
    out.push(if c.resident { 1u8 } else { 0u8 });
    let t = c.created_at;
    out.push((t >> 56u64) as u8);
    out.push((t >> 48u64) as u8);
    out.push((t >> 40u64) as u8);
    out.push((t >> 32u64) as u8);
    out.push((t >> 24u64) as u8);
    out.push((t >> 16u64) as u8);
    out.push((t >> 8u64) as u8);
    out.push(t as u8);
    assert(out@ =~= old(out)@ + record_tail(c@));
}

fn read_field(b: &[u8], pos: usize) -> (r: Option<(Vec<u8>, usize)>)
    ensures
        match r {
            Some((v, p)) => parse_field(b@, pos as int) == Some((v@, p as int)),
            None => parse_field(b@, pos as int) is None,
        },
{
    reveal(parse_field);
    if pos >= b.len() {
        return None;
    }
    let n = b[pos] as usize;
    if n > b.len() - pos - 1 {
        return None;
    }
    let v = copy_bytes(slice_subrange(b, pos + 1, pos + 1 + n));
    Some((v, pos + 1 + n))
}

fn read_tail(b: &[u8], p: usize) -> (r: Option<(u32, bool, u64, usize)>)
    ensures
        match r {
            Some((n, f, t, q)) => parse_tail(b@, p as int) == Some((n, f, t, q as int)),
            None => parse_tail(b@, p as int) is None,
        },
{
    reveal(parse_tail);
    if b.len() < 13 || p > b.len() - 13 || b[p + 4] > 1 {
        return None;
    }
    let n: u32 = ((b[p] as u32) << 24u32) | ((b[p + 1] as u32) << 16u32) | ((b[p + 2] as u32)
        << 8u32) | (b[p + 3] as u32);
    let t: u64 = ((b[p + 5] as u64) << 56u64) | ((b[p + 6] as u64) << 48u64) | ((b[p + 7] as u64)
        << 40u64) | ((b[p + 8] as u64) << 32u64) | ((b[p + 9] as u64) << 24u64) | ((b[p + 10] as u64)
        << 16u64) | ((b[p + 11] as u64) << 8u64) | (b[p + 12] as u64);
    Some((n, b[p + 4] == 1, t, p + 13))
}

fn read_record(b: &[u8], pos: usize) -> (r: Option<(CtapCredential, usize)>)
    ensures
        match r {
            Some((c, p)) => parse_record(b@, pos as int) == Some((c@, p as int)),
            None => parse_record(b@, pos as int) is None,
        },
{
    reveal(parse_record);
    let (id, p1) = read_field(b, pos)?;
    let (rp_id_hash, p2) = read_field(b, p1)?;
    let (user_handle, p3) = read_field(b, p2)?;
    let (public_key, p4) = read_field(b, p3)?;
    let (secret_key, p5) = read_field(b, p4)?;
    let (sign_count, resident, created_at, p6) = read_tail(b, p5)?;
    Some(
        (
            CtapCredential {
                id,
                rp_id_hash,
                user_handle,
                public_key,
                secret_key,
                sign_count,
                resident,
                created_at,
            },
            p6,
        ),
    )
}

impl CredentialStore {
    /// The durable form of the store; `None` when a credential has a byte
    /// field longer than a record can hold.
    pub fn encode(&self) -> (r: Option<Vec<u8>>)
        requires
            self.wf(),
        ensures
            r is Some <==> all_storable(self@),
            r is Some ==> r->0@ == store_bytes(self@),
    {
        let n = self.len();
        let mut out: Vec<u8> = Vec::new();
        out.push(n as u8);
        let mut i: usize = 0;
        while i < n
            invariant
                n == self@.len() <= MAX_CREDENTIALS,
                i <= n,
                forall|j: int| 0 <= j < i ==> storable(#[trigger] self@[j]),
                out@ == seq![n as u8] + records(self@.take(i as int)),
            decreases n - i,
        {
            let c = self.at(i);
            if c.id.len() > 255 || c.rp_id_hash.len() > 255 || c.user_handle.len() > 255
                || c.public_key.len() > 255 || c.secret_key.len() > 255 {
                return None;
            }
            push_record(&mut out, c);
            assert(self@.take(i + 1).drop_last() =~= self@.take(i as int));
            i = i + 1;
            assert(out@ =~= seq![n as u8] + records(self@.take(i as int)));
        }
        assert(self@.take(n as int) =~= self@);
        Some(out)
    }

    /// The store held by `b`, if `b` is the durable form of a well-formed store.
    pub fn decode(b: &[u8]) -> (r: Option<CredentialStore>)
        ensures
            match r {
                Some(st) => st.wf() && decode_spec(b@) == Some(st@),
                None => decode_spec(b@) is None,
            },
    {
        if b.len() == 0 {
            return None;
        }
        let n = b[0] as usize;
        let mut pos: usize = 1;
        let mut creds: Vec<CtapCredential> = Vec::new();
        let mut i: usize = 0;
        while i < n
            invariant
                b@.len() > 0,
                n == b@[0] as nat,
                i <= n,
                parse_records(b@, 1, i as nat) == Some((models(creds@), pos as int)),
            decreases n - i,
        {
            match read_record(b, pos) {
                None => {
                    assert(parse_records(b@, 1, (i + 1) as nat) is None);
                    proof {
                        lemma_parse_records_stuck(b@, 1, (i + 1) as nat, n as nat);
                    }
                    return None;
                },
                Some((c, p)) => {
                    let ghost before = creds@;
                    creds.push(c);
                    assert(models(creds@) =~= models(before).push(c@));
                    pos = p;
                },
            }
            i = i + 1;
        }
        if pos != b.len() {
            return None;
        }
        let ghost s = models(creds@);
        let mut st = CredentialStore::new();
        let mut k: usize = 0;
        while k < creds.len()
            invariant
                b@.len() > 0,
                parse_records(b@, 1, b@[0] as nat) == Some((s, b@.len() as int)),
                s == models(creds@),
                k <= creds@.len(),
                st.wf(),
                st@ == s.take(k as int),
            decreases creds@.len() - k,
        {
            let c = creds[k].duplicate();
            match st.insert(c) {
                Ok(()) => {},
                Err(_) => {
                    assert(!ids_unique(s) || s.len() > MAX_CREDENTIALS) by {
                        if st@.len() < MAX_CREDENTIALS {
                            let j = choose|j: int| 0 <= j < st@.len() && (#[trigger] st@[j]).id == s[k as int].id;
                            assert(s[j].id == s[k as int].id);
                        }
                    }
                    return None;
                },
            }
            k = k + 1;
            assert(st@ =~= s.take(k as int));
        }
        assert(s.take(k as int) =~= s);
        Some(st)
    }
}

} // verus!
