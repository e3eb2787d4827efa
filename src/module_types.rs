//! Types shared by the core and the modules: module identities, operation
//! ids, type-erased module values and the decoders that read them.
use rand::RngCore;
use vstd::prelude::*;
use vstd::std_specs::cmp::PartialEqSpec;

use crate::bytes::{compare_bytes, copy_bytes, KeyOrder};
use crate::codec::{be_u16, enc_bytes, parse_bytes, put_bytes, put_u16, read_bytes, read_u16, u16_of_be};
use crate::hex::{from_hex, hex_decoded, hex_encoded, is_hex_text, to_hex};

verus! {

/// Identifies one module instance within a federation.
pub type ModuleInstanceId = u16;

/// Reserved for federation-wide items.
pub const MODULE_INSTANCE_ID_GLOBAL: u16 = 65535;

pub const LEGACY_HARDCODED_INSTANCE_ID_LN: u16 = 0;

pub const LEGACY_HARDCODED_INSTANCE_ID_MINT: u16 = 1;

pub const LEGACY_HARDCODED_INSTANCE_ID_WALLET: u16 = 2;

/// Relies on `rand::thread_rng` filling 32 bytes; nothing is known of them.
#[verifier::external_body]
fn random_bytes32() -> [u8; 32] {
    let mut bytes = [0u8; 32];
    rand::thread_rng().fill_bytes(&mut bytes);
    bytes
}

/// Identifies one user-visible operation; random, or a transaction hash.
#[derive(Clone, Copy, PartialEq, Eq, Hash, Debug)]
pub struct OperationId(pub [u8; 32]);

/// Why a text is not an operation id.
#[derive(Clone, Copy, PartialEq, Eq, Structural, Debug)]
pub enum OperationIdParseError {
    /// Not an even number of hex digits.
    InvalidHex,
    /// Hex, but not of 32 bytes.
    WrongLength,
}

impl OperationId {
    pub fn new_random() -> (r: Self) {
        OperationId(random_bytes32())
    }

    /// The 64 lowercase hex digits of the id.
    pub fn to_hex_string(&self) -> (r: String)
        ensures
            r@ == hex_encoded(self.0@),
    {
        to_hex(self.0.as_slice())
    }

    /// Reads an id from 64 hex digits.
    pub fn parse_hex(s: &str) -> (r: Result<OperationId, OperationIdParseError>)
        ensures
            !is_hex_text(s@) <==> r == Err::<OperationId, _>(OperationIdParseError::InvalidHex),
            (is_hex_text(s@) && s@.len() != 64) <==> r == Err::<OperationId, _>(
                OperationIdParseError::WrongLength,
            ),
            r.is_ok() ==> is_hex_text(s@) && s@.len() == 64 && r.unwrap().0@ == hex_decoded(s@),
    {
        match from_hex(s) {
            None => Err(OperationIdParseError::InvalidHex),
            Some(v) => {
                if v.len() != 32 {
                    Err(OperationIdParseError::WrongLength)
                } else {
                    let mut out = [0u8; 32];
                    let mut i: usize = 0;
                    while i < 32
                        invariant
                            v@.len() == 32,
                            i <= 32,
                            forall|j: int| 0 <= j < i ==> out@[j] == v@[j],
                        decreases 32 - i,
                    {
                        out[i] = v[i];
                        i += 1;
                    }
                    assert(out@ =~= v@);
                    Ok(OperationId(out))
                }
            },
        }
    }
}

/// The kind of a module: a short name such as `mint`, `wallet` or `ln`.
#[derive(Debug, Clone)]
pub struct ModuleKind(String);

impl ModuleKind {
    pub closed spec fn view(&self) -> Seq<char> {
        self.0@
    }

    pub fn clone_from_str(s: &str) -> (r: Self)
        ensures
            r.view() == s@,
    {
        ModuleKind(String::from_str(s))
    }

    pub fn from_static_str(s: &'static str) -> (r: Self)
        ensures
            r.view() == s@,
    {
        ModuleKind(String::from_str(s))
    }

    pub fn as_str(&self) -> (r: &str)
        ensures
            r@ == self.view(),
    {
        self.0.as_str()
    }
}

/// The kinds of type-erased module values.
#[derive(Clone, Copy, PartialEq, Eq, Structural, Debug)]
pub enum DynKind {
    Input,
    Output,
    OutputOutcome,
    ConsensusItem,
    ClientConfig,
}

/// A module value with its type erased: the instance that owns it and its
/// consensus encoding. Two such values are equal when their encodings are,
/// whatever instance owns them; a hash covers the instance too.
#[derive(Debug, Hash)]
pub struct DynValue {
    pub module_instance_id: u16,
    pub payload: Vec<u8>,
}

pub type DynInput = DynValue;

pub type DynOutput = DynValue;

pub type DynOutputOutcome = DynValue;

pub type DynModuleConsensusItem = DynValue;

pub type DynClientConfig = DynValue;

impl View for DynValue {
    type V = (u16, Seq<u8>);

    open spec fn view(&self) -> (u16, Seq<u8>) {
        (self.module_instance_id, self.payload@)
    }
}

impl PartialEq for DynValue {
    fn eq(&self, other: &DynValue) -> (r: bool) {
        compare_bytes(self.payload.as_slice(), other.payload.as_slice()) == KeyOrder::Equal
    }
}

impl vstd::std_specs::cmp::PartialEqSpecImpl for DynValue {
    open spec fn obeys_eq_spec() -> bool {
        true
    }

    open spec fn eq_spec(&self, other: &DynValue) -> bool {
        self.payload@ == other.payload@
    }
}

impl DynValue {
    pub fn new(module_instance_id: u16, payload: Vec<u8>) -> (r: Self)
        ensures
            r@ == (module_instance_id, payload@),
    {
        DynValue { module_instance_id, payload }
    }

    /// A copy of the value.
    pub fn copy(&self) -> (r: Self)
        ensures
            r@ == self@,
    {
        DynValue { module_instance_id: self.module_instance_id, payload: copy_bytes(self.payload.as_slice()) }
    }

    /// Appends the consensus encoding: the instance id, then the
    /// length-prefixed payload.
    pub fn consensus_encode(&self, buf: &mut Vec<u8>)
        ensures
            final(buf)@ == old(buf)@ + enc_dyn(self@),
    {
        put_u16(buf, self.module_instance_id);
        put_bytes(buf, self.payload.as_slice());
        assert(buf@ =~= old(buf)@ + enc_dyn(self@));
    }
}

/// The encoding of a type-erased value.
pub open spec fn enc_dyn(v: (u16, Seq<u8>)) -> Seq<u8> {
    be_u16(v.0) + enc_bytes(v.1)
}

/// What a reader of a type-erased value finds at `pos`: the instance id,
/// the payload, and the position after them.
pub open spec fn parse_dyn(b: Seq<u8>, pos: int) -> Option<(u16, Seq<u8>, int)> {
    if 0 <= pos && pos + 2 <= b.len() {
        match parse_bytes(b, pos + 2) {
            Some(p) => Some((u16_of_be(b.subrange(pos, pos + 2)), p.0, p.1)),
            None => None,
        }
    } else {
        None
    }
}

/// A module value of an instance whose decoder is unknown: its payload,
/// kept as it is so the outer structure still encodes the same.
#[derive(Debug, Hash, PartialEq, Clone)]
pub struct DynUnknown(pub Vec<u8>);

impl DynUnknown {
    /// The hex digits of the length-prefixed payload.
    pub fn to_hex_string(&self) -> (r: String)
        ensures
            r@ == hex_encoded(enc_bytes(self.0@)),
    {
        let mut buf: Vec<u8> = Vec::new();
        put_bytes(&mut buf, self.0.as_slice());
        assert(buf@ =~= enc_bytes(self.0@));
        to_hex(buf.as_slice())
    }
}

/// A type that has a type-erased counterpart.
pub trait IntoDynInstance {
    /// Converts `self` into its type-erased form, owned by `instance_id`.
    fn into_dyn(self, instance_id: u16) -> DynValue;
}

/// The client configuration of a module.
pub trait IClientConfig {
    /// The consensus encoding of the configuration.
    fn consensus_encode_payload(&self) -> Vec<u8>;
}

/// A module's transaction input.
pub trait IInput {
    /// The consensus encoding of the input.
    fn consensus_encode_payload(&self) -> Vec<u8>;
}

/// A module's transaction output.
pub trait IOutput {
    /// The consensus encoding of the output.
    fn consensus_encode_payload(&self) -> Vec<u8>;
}

/// What became of a module's transaction output.
pub trait IOutputOutcome {
    /// The consensus encoding of the outcome.
    fn consensus_encode_payload(&self) -> Vec<u8>;
}

/// A module's consensus item.
pub trait IModuleConsensusItem {
    /// The consensus encoding of the item.
    fn consensus_encode_payload(&self) -> Vec<u8>;
}

#[derive(Clone, Copy, PartialEq, Eq, Structural, Debug)]
pub enum FinalizationError {
    SomethingWentWrong,
}

/// Why a type-erased value could not be read.
#[derive(Clone, Copy, PartialEq, Eq, Structural, Debug)]
pub enum DecodeError {
    /// The bytes end before the value does.
    Truncated,
    /// The owning module has no decoder for this kind of value.
    UnregisteredType,
}

/// Collects the kinds of values a module can decode.
pub struct DecoderBuilder {
    kinds: Vec<DynKind>,
}

impl DecoderBuilder {
    pub closed spec fn kinds(&self) -> Seq<DynKind> {
        self.kinds@
    }

    pub fn has_decodable_type(&self, kind: DynKind) -> (r: bool)
        ensures
            r == self.kinds().contains(kind),
    {
        contains_kind(&self.kinds, kind)
    }

    /// Registers a kind. Registering one kind twice is a programming error.
    pub fn with_decodable_type(&mut self, kind: DynKind)
        requires
            !old(self).kinds().contains(kind),
        ensures
            final(self).kinds() == old(self).kinds().push(kind),
    {
        self.kinds.push(kind);
    }

    pub fn build(self) -> (r: Decoder)
        ensures
            r.kinds() == self.kinds(),
    {
        Decoder { kinds: self.kinds }
    }
}

fn contains_kind(kinds: &Vec<DynKind>, kind: DynKind) -> (r: bool)
    ensures
        r == kinds@.contains(kind),
{
    let mut i: usize = 0;
    while i < kinds.len()
        invariant
            i <= kinds@.len(),
            forall|j: int| 0 <= j < i ==> kinds@[j] != kind,
        decreases kinds@.len() - i,
    {
        if kinds[i] == kind {
            return true;
        }
        i += 1;
    }
    false
}

/// Decodes the values of one module.
pub struct Decoder {
    kinds: Vec<DynKind>,
}

impl Decoder {
    pub closed spec fn kinds(&self) -> Seq<DynKind> {
        self.kinds@
    }

    pub fn builder() -> (r: DecoderBuilder)
        ensures
            r.kinds() == Seq::<DynKind>::empty(),
    {
        DecoderBuilder { kinds: Vec::new() }
    }

    pub fn can_decode(&self, kind: DynKind) -> (r: bool)
        ensures
            r == self.kinds().contains(kind),
    {
        contains_kind(&self.kinds, kind)
    }

    /// Decodes a value of a registered kind from its payload.
    pub fn decode(&self, payload: &[u8], kind: DynKind, instance_id: u16) -> (r: DynValue)
        requires
            self.kinds().contains(kind),
        ensures
            r@ == (instance_id, payload@),
    {
        DynValue { module_instance_id: instance_id, payload: copy_bytes(payload) }
    }
}

/// A decoded type-erased value.
#[derive(Debug)]
pub enum DecodedDyn {
    Known(DynValue),
    /// Its instance has no decoder here.
    Unknown(u16, DynUnknown),
}

/// The decoders of the registered module instances.
pub struct ModuleDecoderRegistry {
    decoders: Vec<(u16, Decoder)>,
}

impl ModuleDecoderRegistry {
    /// The instances with a decoder, each with the kinds it decodes.
    pub closed spec fn view(&self) -> Map<u16, Seq<DynKind>> {
        Map::new(
            |id: u16| exists|i: int| 0 <= i < self.decoders@.len() && self.decoders@[i].0 == id,
            |id: u16|
                self.decoders@[choose|i: int|
                    0 <= i < self.decoders@.len() && self.decoders@[i].0 == id].1.kinds(),
        )
    }

    pub closed spec fn wf(&self) -> bool {
        forall|i: int, j: int|
            0 <= i < j < self.decoders@.len() ==> self.decoders@[i].0 != self.decoders@[j].0
    }

    pub fn new() -> (r: Self)
        ensures
            r.wf(),
            r.view() == Map::<u16, Seq<DynKind>>::empty(),
    {
        let r = ModuleDecoderRegistry { decoders: Vec::new() };
        assert(r.view() =~= Map::<u16, Seq<DynKind>>::empty());
        r
    }

    fn index_of(&self, id: u16) -> (r: Option<usize>)
        requires
            self.wf(),
        ensures
            r.is_some() <==> self.view().contains_key(id),
            r.is_some() ==> r.unwrap() < self.decoders@.len() && self.decoders@[r.unwrap() as int].0
                == id && self.view()[id] == self.decoders@[r.unwrap() as int].1.kinds(),
    {
        let mut i: usize = 0;
        while i < self.decoders.len()
            invariant
                self.wf(),
                i <= self.decoders@.len(),
                forall|j: int| 0 <= j < i ==> self.decoders@[j].0 != id,
            decreases self.decoders@.len() - i,
        {
            if self.decoders[i].0 == id {
                proof {
                    let c = choose|c: int| 0 <= c < self.decoders@.len() && self.decoders@[c].0 == id;
                    if c < i {
                        assert(self.decoders@[c].0 != self.decoders@[i as int].0);
                    } else if c > i {
                        assert(self.decoders@[i as int].0 != self.decoders@[c].0);
                    }
                }
                return Some(i);
            }
            i += 1;
        }
        None
    }

    pub fn contains(&self, id: u16) -> (r: bool)
        requires
            self.wf(),
        ensures
            r == self.view().contains_key(id),
    {
        self.index_of(id).is_some()
    }

    /// Adds the decoder of an instance. Adding one instance twice is a
    /// programming error.
    pub fn register(&mut self, id: u16, decoder: Decoder)
        requires
            old(self).wf(),
            !old(self).view().contains_key(id),
        ensures
            final(self).wf(),
            final(self).view() == old(self).view().insert(id, decoder.kinds()),
    {
        let ghost old_self = *self;
        let ghost kinds = decoder.kinds();
        self.decoders.push((id, decoder));
        proof {
            let d = self.decoders@;
            let n = old_self.decoders@.len() as int;
            assert forall|i: int| 0 <= i < n implies d[i] == old_self.decoders@[i] by {}
            assert forall|x: u16| #[trigger] self.view().contains_key(x) == old_self.view().insert(id, kinds).contains_key(x) by {
                if self.view().contains_key(x) && x != id {
                    let c = choose|c: int| 0 <= c < d.len() && d[c].0 == x;
                    assert(old_self.decoders@[c].0 == x);
                }
                if old_self.view().contains_key(x) {
                    let c = choose|c: int| 0 <= c < n && old_self.decoders@[c].0 == x;
                    assert(d[c].0 == x);
                }
                assert(d[n].0 == id);
            }
            assert forall|x: u16| self.view().contains_key(x) implies #[trigger] self.view()[x] == old_self.view().insert(id, kinds)[x] by {
                let c = choose|c: int| 0 <= c < d.len() && d[c].0 == x;
                if x == id {
                    assert(d[n].0 == id);
                    if c != n {
                        assert(old_self.decoders@[c].0 == id);
                        assert(old_self.view().contains_key(id));
                    }
                } else {
                    let c2 = choose|c2: int| 0 <= c2 < n && old_self.decoders@[c2].0 == x;
                    assert(d[c2].0 == x);
                }
            }
            assert(self.view() =~= old_self.view().insert(id, kinds));
        }
    }

    /// Reads a type-erased value of `kind` at `pos`: the instance id, then
    /// the length-prefixed payload. A value of an instance without a
    /// decoder is kept as `DecodedDyn::Unknown`.
    pub fn decode_dyn(&self, b: &[u8], pos: usize, kind: DynKind) -> (r: Result<
        (DecodedDyn, usize),
        DecodeError,
    >)
        requires
            self.wf(),
        ensures
            parse_dyn(b@, pos as int) is None <==> r == Err::<(DecodedDyn, usize), _>(
                DecodeError::Truncated,
            ),
            r == Err::<(DecodedDyn, usize), _>(DecodeError::UnregisteredType) <==> (parse_dyn(
                b@,
                pos as int,
            ) is Some && self.view().contains_key(parse_dyn(b@, pos as int).unwrap().0)
                && !self.view()[parse_dyn(b@, pos as int).unwrap().0].contains(kind)),
            r.is_ok() ==> ({
                let (id, payload, next) = parse_dyn(b@, pos as int).unwrap();
                &&& r.unwrap().1 == next
                &&& match r.unwrap().0 {
                    DecodedDyn::Known(v) => self.view().contains_key(id) && v@ == (id, payload),
                    DecodedDyn::Unknown(uid, u) => !self.view().contains_key(id) && uid == id
                        && u.0@ == payload,
                }
            }),
    {
        let id = match read_u16(b, pos) {
            Some(id) => id,
            None => {
                return Err(DecodeError::Truncated);
            },
        };
        assert(b@.len() == b.len());
        let (payload, next) = match read_bytes(b, pos + 2) {
            Some(p) => p,
            None => {
                return Err(DecodeError::Truncated);
            },
        };
        match self.index_of(id) {
            None => Ok((DecodedDyn::Unknown(id, DynUnknown(payload)), next)),
            Some(i) => {
                let decoder = &self.decoders[i].1;
                if decoder.can_decode(kind) {
                    Ok((DecodedDyn::Known(decoder.decode(payload.as_slice(), kind, id)), next))
                } else {
                    Err(DecodeError::UnregisteredType)
                }
            },
        }
    }
}

/// A type-erased value reads back as itself, whatever follows it, and is
/// equal to the same payload under any other instance id.
pub proof fn lemma_dyn_round_trip(pre: Seq<u8>, v: DynValue, rest: Seq<u8>, other_instance: u16)
    requires
        v.payload@.len() <= usize::MAX,
    ensures
        parse_dyn(pre + enc_dyn(v@) + rest, pre.len() as int) == Some(
            (v.module_instance_id, v.payload@, (pre.len() + 10 + v.payload@.len()) as int),
        ),
        v.eq_spec(&DynValue { module_instance_id: other_instance, payload: v.payload }),
{
    let b = pre + enc_dyn(v@) + rest;
    let p = pre.len() as int;
    let head = pre + be_u16(v.module_instance_id);
    assert(b =~= head + enc_bytes(v.payload@) + rest);
    crate::codec::lemma_bytes_round_trip(head, v.payload@, rest);
    assert(head.len() == p + 2);
    assert(parse_bytes(b, p + 2) == Some((v.payload@, p + 10 + v.payload@.len())));
    assert(b.subrange(p, p + 2) =~= be_u16(v.module_instance_id));
    crate::codec::lemma_u16_round_trip(v.module_instance_id);
}

} // verus!
