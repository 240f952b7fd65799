//! The service-binding (SVCB/HTTPS) record: priority, target name, and an
//! ordered list of typed parameters.
//!
//! The wire form carries no parameter count: the list is bounded only by
//! the record's own length, so decoding reads parameters while more than
//! four bytes — the footprint of one more key and length header — remain,
//! and tolerates up to four leftover bytes.

use vstd::prelude::*;

use vstd::string::StrSliceExecFns;
use vstd::string::StringExecFns;

use crate::binary::{u16_from_bytes, u16_to_bytes, BinDecoder, BinEncoder};
use crate::errors::ProtoError;
use crate::name::{
    lemma_name_bytes_round_trip, lower_name, spec_name_text, spec_name_to_bytes,
    spec_origin_labels, spec_origin_wf, spec_parse_name, spec_read_name, wf_name, Name,
};
use crate::registry::{
    code_to_key, key_display_name, key_to_code, spec_code_to_key, spec_key_display_name,
    spec_key_to_code, SVCBKey,
};
use crate::text::{
    ascii_bytes_to_string, find_char, lemma_find_at, parse_u16, spec_dec_chars, spec_find,
    spec_parse_u16, u16_dec_string,
};

verus! {

/// One service parameter: a symbolic key and its raw byte payload, built
/// during decode or parse and immutable afterwards.
#[derive(Debug, PartialEq, Eq, Hash, Clone)]
pub struct KeyValue {
    pub key: SVCBKey,
    pub value: Vec<u8>,
}

impl View for KeyValue {
    type V = (SVCBKey, Seq<u8>);

    open spec fn view(&self) -> (SVCBKey, Seq<u8>) {
        (self.key, self.value@)
    }
}

impl DeepView for KeyValue {
    type V = (SVCBKey, Seq<u8>);

    open spec fn deep_view(&self) -> (SVCBKey, Seq<u8>) {
        self@
    }
}

/// The mathematical value of a service-binding record.
pub ghost struct SvcbView {
    pub priority: u16,
    pub target: Seq<Seq<u8>>,
    pub values: Seq<(SVCBKey, Seq<u8>)>,
}

/// A service-binding record. Parameter order is the read order and is kept;
/// keys are not required to be unique. Priority 0 is the alias form; this
/// codec is purely structural and does not enforce its semantics.
#[derive(Debug, PartialEq, Eq, Hash, Clone)]
pub struct SVCB {
    priority: u16,
    target: Name,
    values: Vec<KeyValue>,
}

/// The HTTPS record: the identical shape under a distinct record-type tag.
pub type HTTPS = SVCB;

impl View for SVCB {
    type V = SvcbView;

    closed spec fn view(&self) -> SvcbView {
        SvcbView {
            priority: self.priority,
            target: self.target@,
            values: self.values.deep_view(),
        }
    }
}

impl SVCB {
    /// The record's target name is acceptable.
    pub open spec fn wf(&self) -> bool {
        wf_name(self@.target)
    }

    /// A new SVCB record from its parts; the parameter list keeps its
    /// order.
    pub fn new(priority: u16, target: Name, values: Vec<KeyValue>) -> (r: Self)
        ensures
            r@ == (SvcbView { priority, target: target@, values: values.deep_view() }),
            target.wf() ==> r.wf(),
    {
        Self { priority, target, values }
    }

    /// The record's priority; 0 is the alias form.
    pub fn priority(&self) -> (r: u16)
        ensures
            r == self@.priority,
    {
        self.priority
    }

    /// The record's target name.
    pub fn target(&self) -> (r: &Name)
        ensures
            r@ == self@.target,
    {
        &self.target
    }

    /// A fixed placeholder payload, kept for interface compatibility.
    pub fn value(&self) -> (r: Vec<u8>)
        ensures
            r@ == seq![1u8, 2u8],
    {
        let mut v: Vec<u8> = Vec::new();
        v.push(1);
        v.push(2);
        proof {
            assert(v@ =~= seq![1u8, 2u8]);
        }
        v
    }
}

/// The wire form of a parameter list: for each parameter its key code, the
/// payload's byte length, and the payload, with no count and no terminator.
pub open spec fn spec_values_to_bytes(values: Seq<(SVCBKey, Seq<u8>)>) -> Seq<u8>
    decreases values.len(),
{
    if values.len() == 0 {
        Seq::empty()
    } else {
        u16_to_bytes(spec_key_to_code(values[0].0)) + u16_to_bytes(values[0].1.len() as u16)
            + values[0].1 + spec_values_to_bytes(values.drop_first())
    }
}

/// Every payload fits its 16-bit length field.
pub open spec fn spec_values_fit(values: Seq<(SVCBKey, Seq<u8>)>) -> bool {
    forall|i: int| 0 <= i < values.len() ==> (#[trigger] values[i]).1.len() <= 0xffff
}

/// The wire form of a whole record: priority, target name (folded to
/// lowercase for canonical emission), then the parameter list.
pub open spec fn spec_svcb_to_bytes(v: SvcbView, canonical: bool) -> Seq<u8> {
    u16_to_bytes(v.priority) + spec_name_to_bytes(
        if canonical {
            lower_name(v.target)
        } else {
            v.target
        },
    ) + spec_values_to_bytes(v.values)
}

/// What reading the parameter list from `s` yields. Reading stops as soon
/// as four or fewer bytes remain — too few for another key and length
/// header — and hands the leftover back unread; a declared payload length
/// that overruns the record is an unterminated value. An unregistered key
/// code still decodes, to the registry's fallback key.
pub open spec fn spec_read_values(s: Seq<u8>) -> Result<
    (Seq<(SVCBKey, Seq<u8>)>, Seq<u8>),
    ProtoError,
>
    decreases s.len(),
{
    if s.len() <= 4 {
        Ok((Seq::empty(), s))
    } else {
        let key = spec_code_to_key(u16_from_bytes(s[0], s[1]));
        let vlen = u16_from_bytes(s[2], s[3]) as int;
        if s.len() - 4 < vlen {
            Err(ProtoError::UnterminatedValue)
        } else {
            match spec_read_values(s.skip(4 + vlen)) {
                Ok((values, rest)) => Ok((seq![(key, s.subrange(4, 4 + vlen))] + values, rest)),
                Err(e) => Err(e),
            }
        }
    }
}

/// What reading a whole record from `s` yields: priority, target name,
/// then the self-terminated parameter list.
pub open spec fn spec_read_svcb(s: Seq<u8>) -> Result<(SvcbView, Seq<u8>), ProtoError> {
    if s.len() < 2 {
        Err(ProtoError::BufferUnderflow)
    } else {
        match spec_read_name(s.skip(2)) {
            Ok((labels, after_name)) => match spec_read_values(after_name) {
                Ok((values, rest)) => Ok(
                    (
                        SvcbView {
                            priority: u16_from_bytes(s[0], s[1]),
                            target: labels,
                            values,
                        },
                        rest,
                    ),
                ),
                Err(e) => Err(e),
            },
            Err(e) => Err(e),
        }
    }
}

/// Reads an SVCB/HTTPS record from the cursor. The parameter list is read
/// while more than four bytes remain; one to four leftover bytes are
/// tolerated and left unread.
pub fn read(decoder: &mut BinDecoder) -> (r: Result<SVCB, ProtoError>)
    ensures
        match spec_read_svcb(old(decoder)@) {
            Ok((v, rest)) => r matches Ok(s) && s@ == v && s.wf() && final(decoder)@ == rest,
            Err(e) => r matches Err(f) && f == e,
        },
{
    let ghost orig = decoder@;
    let priority = match decoder.read_u16() {
        Ok(v) => v,
        Err(e) => {
            return Err(e);
        },
    };
    let target = match Name::read(decoder) {
        Ok(n) => n,
        Err(e) => {
            return Err(e);
        },
    };
    let mut values: Vec<KeyValue> = Vec::new();
    loop
        invariant
            orig == old(decoder)@,
            target.wf(),
            spec_read_svcb(orig) == match spec_read_values(decoder@) {
                Ok((vs, rest)) => Ok::<_, ProtoError>(
                    (
                        SvcbView {
                            priority,
                            target: target@,
                            values: values.deep_view() + vs,
                        },
                        rest,
                    ),
                ),
                Err(e) => Err(e),
            },
        decreases decoder@.len(),
    {
        let remaining = decoder.len();
        if remaining <= 4 {
            let s = SVCB { priority, target, values };
            proof {
                assert(s@.values + Seq::<(SVCBKey, Seq<u8>)>::empty() =~= s@.values);
            }
            return Ok(s);
        }
        let ghost before = decoder@;
        let key_code = match decoder.read_u16() {
            Ok(v) => v,
            Err(e) => {
                return Err(e);
            },
        };
        let val_len = match decoder.read_u16() {
            Ok(v) => v,
            Err(e) => {
                return Err(e);
            },
        };
        if decoder.len() < val_len as usize {
            proof {
                assert(decoder@ =~= before.skip(4));
                assert(before.len() - 4 < u16_from_bytes(before[2], before[3]));
            }
            return Err(ProtoError::UnterminatedValue);
        }
        let buf = match decoder.read_vec(val_len as usize) {
            Ok(b) => b,
            Err(e) => {
                return Err(e);
            },
        };
        let key = code_to_key(key_code);
        let kv = KeyValue { key, value: buf };
        let ghost old_deep = values.deep_view();
        values.push(kv);
        proof {
            let vlen = u16_from_bytes(before[2], before[3]) as int;
            assert(before.skip(2)[0] == before[2]);
            assert(before.skip(2)[1] == before[3]);
            assert(before.skip(2).skip(2) =~= before.skip(4));
            assert(before.skip(4).take(vlen) =~= before.subrange(4, 4 + vlen));
            assert(decoder@ =~= before.skip(4 + vlen));
            assert(values.deep_view() =~~= old_deep.push(
                (spec_code_to_key(u16_from_bytes(before[0], before[1])), before.subrange(
                    4,
                    4 + vlen,
                )),
            ));
            let res = spec_read_values(decoder@);
            if res is Ok {
                let vs = res->Ok_0.0;
                assert(old_deep.push(
                    (spec_code_to_key(u16_from_bytes(before[0], before[1])), before.subrange(
                        4,
                        4 + vlen,
                    )),
                ) + vs =~~= old_deep + (seq![
                    (spec_code_to_key(u16_from_bytes(before[0], before[1])), before.subrange(
                        4,
                        4 + vlen,
                    )),
                ] + vs));
            }
        }
    }
}

/// Writes an SVCB/HTTPS record's wire form: priority, target name — folded
/// to lowercase when the encoder was configured for canonical emission —
/// then each parameter in list order. Fails with an overflow exactly when
/// some payload is too long for its 16-bit length field.
pub fn emit(encoder: &mut BinEncoder, svcb: &SVCB) -> (r: Result<(), ProtoError>)
    requires
        svcb.wf(),
    ensures
        r is Ok <==> spec_values_fit(svcb@.values),
        r is Ok ==> final(encoder)@ == old(encoder)@ + spec_svcb_to_bytes(
            svcb@,
            old(encoder).spec_canonical_names(),
        ),
        r matches Err(e) ==> e == ProtoError::BufferOverflow,
        final(encoder).spec_canonical_names() == old(encoder).spec_canonical_names(),
    {
    let is_canonical_names = encoder.is_canonical_names();
    let ghost orig = encoder@;
    encoder.emit_u16(svcb.priority);
    svcb.target.emit_with_lowercase(encoder, is_canonical_names);
    let ghost head = encoder@;
    let mut i: usize = 0;
    while i < svcb.values.len()
        invariant
            i <= svcb@.values.len(),
            svcb@.values.len() == svcb.values@.len(),
            forall|j: int| 0 <= j < i ==> (#[trigger] svcb@.values[j]).1.len() <= 0xffff,
            encoder@ == head + spec_values_to_bytes(svcb@.values.take(i as int)),
            encoder.spec_canonical_names() == old(encoder).spec_canonical_names(),
        decreases svcb.values@.len() - i,
    {
        let kv = &svcb.values[i];
        proof {
            assert(svcb@.values[i as int] == kv@);
        }
        if kv.value.len() > 0xffff {
            return Err(ProtoError::BufferOverflow);
        }
        let code = key_to_code(&kv.key);
        encoder.emit_u16(code);
        encoder.emit_u16(kv.value.len() as u16);
        encoder.emit_bytes(kv.value.as_slice());
        i = i + 1;
        proof {
            lemma_values_bytes_snoc(svcb@.values.take(i - 1), kv@);
            assert(svcb@.values.take(i as int) =~~= svcb@.values.take(i - 1).push(kv@));
            assert(encoder@ =~= head + spec_values_to_bytes(svcb@.values.take(i as int)));
        }
    }
    proof {
        assert(svcb@.values.take(svcb@.values.len() as int) =~~= svcb@.values);
        assert(encoder@ =~= old(encoder)@ + spec_svcb_to_bytes(
            svcb@,
            old(encoder).spec_canonical_names(),
        ));
    }
    Ok(())
}

/// Appending one parameter extends the list's wire form at its end.
proof fn lemma_values_bytes_snoc(values: Seq<(SVCBKey, Seq<u8>)>, kv: (SVCBKey, Seq<u8>))
    ensures
        spec_values_to_bytes(values.push(kv)) == spec_values_to_bytes(values) + u16_to_bytes(
            spec_key_to_code(kv.0),
        ) + u16_to_bytes(kv.1.len() as u16) + kv.1,
    decreases values.len(),
{
    if values.len() == 0 {
        assert(values.push(kv) =~~= seq![kv]);
        assert(seq![kv].drop_first() =~~= Seq::<(SVCBKey, Seq<u8>)>::empty());
        assert(spec_values_to_bytes(Seq::<(SVCBKey, Seq<u8>)>::empty()) == Seq::<u8>::empty());
        assert(spec_values_to_bytes(values.push(kv)) =~= spec_values_to_bytes(values)
            + u16_to_bytes(spec_key_to_code(kv.0)) + u16_to_bytes(kv.1.len() as u16) + kv.1);
    } else {
        lemma_values_bytes_snoc(values.drop_first(), kv);
        assert(values.push(kv).drop_first() =~~= values.drop_first().push(kv));
        assert(values.push(kv)[0] == values[0]);
        assert(spec_values_to_bytes(values.push(kv)) =~= spec_values_to_bytes(values)
            + u16_to_bytes(spec_key_to_code(kv.0)) + u16_to_bytes(kv.1.len() as u16) + kv.1);
    }
}

/// Reading back an emitted parameter list yields the same list and leaves
/// nothing over, provided every payload fits its length field and the last
/// payload is not empty. A trailing empty payload is exactly four bytes,
/// which the reader's boundary rule leaves unread; such a list does not
/// round-trip.
pub proof fn lemma_values_bytes_round_trip(values: Seq<(SVCBKey, Seq<u8>)>)
    requires
        spec_values_fit(values),
        values.len() > 0 ==> values.last().1.len() > 0,
    ensures
        spec_read_values(spec_values_to_bytes(values)) == Ok::<_, ProtoError>(
            (values, Seq::<u8>::empty()),
        ),
    decreases values.len(),
{
    let s = spec_values_to_bytes(values);
    if values.len() == 0 {
        assert(values =~~= Seq::<(SVCBKey, Seq<u8>)>::empty());
        assert(s =~= Seq::<u8>::empty());
    } else {
        let kv = values[0];
        let value = kv.1;
        let tail = spec_values_to_bytes(values.drop_first());
        assert(s =~= u16_to_bytes(spec_key_to_code(kv.0)) + u16_to_bytes(value.len() as u16)
            + value + tail);
        if values.len() == 1 {
            assert(values.last() == kv);
            assert(value.len() > 0);
            assert(values.drop_first() =~~= Seq::<(SVCBKey, Seq<u8>)>::empty());
            assert(tail =~= Seq::<u8>::empty());
            assert(s.len() == 4 + value.len());
        } else {
            assert(values.drop_first().len() > 0);
            assert(tail.len() >= 4);
            assert(s.len() > 4);
        }
        assert(s.len() > 4);
        assert(s[0] == u16_to_bytes(spec_key_to_code(kv.0))[0]);
        assert(s[1] == u16_to_bytes(spec_key_to_code(kv.0))[1]);
        assert(s[2] == u16_to_bytes(value.len() as u16)[0]);
        assert(s[3] == u16_to_bytes(value.len() as u16)[1]);
        assert(u16_from_bytes(s[0], s[1]) == spec_key_to_code(kv.0));
        assert(u16_from_bytes(s[2], s[3]) == value.len());
        assert(spec_code_to_key(spec_key_to_code(kv.0)) == kv.0);
        let vlen = value.len() as int;
        assert(s.len() - 4 >= vlen);
        assert(s.subrange(4, 4 + vlen) =~= value);
        assert(s.skip(4 + vlen) =~= tail);
        assert(spec_values_fit(values.drop_first()));
        if values.drop_first().len() > 0 {
            assert(values.drop_first().last() == values.last());
        }
        lemma_values_bytes_round_trip(values.drop_first());
        assert(seq![(kv.0, value)] + values.drop_first() =~~= values);
        assert(spec_read_values(s) == Ok::<_, ProtoError>((values, Seq::<u8>::empty())));
    }
}

/// Binary round trip: reading back an emitted SVCB/HTTPS record, emitted
/// without canonical folding, yields the same record and consumes the
/// whole buffer. Excluded, besides oversized payloads: a record whose last
/// parameter has an empty payload, which the boundary rule cannot see.
pub proof fn lemma_svcb_binary_round_trip(v: SvcbView)
    requires
        wf_name(v.target),
        spec_values_fit(v.values),
        v.values.len() > 0 ==> v.values.last().1.len() > 0,
    ensures
        spec_read_svcb(spec_svcb_to_bytes(v, false)) == Ok::<_, ProtoError>(
            (v, Seq::<u8>::empty()),
        ),
{
    let s = spec_svcb_to_bytes(v, false);
    let value_bytes = spec_values_to_bytes(v.values);
    assert(s =~= u16_to_bytes(v.priority) + spec_name_to_bytes(v.target) + value_bytes);
    assert(u16_from_bytes(s[0], s[1]) == v.priority);
    assert(s.skip(2) =~= spec_name_to_bytes(v.target) + value_bytes);
    lemma_name_bytes_round_trip(v.target, value_bytes);
    lemma_values_bytes_round_trip(v.values);
}

/// The key whose registry display name `s` is; any other text falls back
/// to `Reserved`, whose own display name is empty.
pub open spec fn spec_key_from_name(s: Seq<char>) -> SVCBKey {
    if s == spec_key_display_name(SVCBKey::Mandatory) {
        SVCBKey::Mandatory
    } else if s == spec_key_display_name(SVCBKey::Alpn) {
        SVCBKey::Alpn
    } else if s == spec_key_display_name(SVCBKey::NoDefaultAlpn) {
        SVCBKey::NoDefaultAlpn
    } else if s == spec_key_display_name(SVCBKey::Port) {
        SVCBKey::Port
    } else if s == spec_key_display_name(SVCBKey::IPv4Hint) {
        SVCBKey::IPv4Hint
    } else if s == spec_key_display_name(SVCBKey::ECHConfig) {
        SVCBKey::ECHConfig
    } else if s == spec_key_display_name(SVCBKey::IPv6Hint) {
        SVCBKey::IPv6Hint
    } else if s == spec_key_display_name(SVCBKey::ODoHConfig) {
        SVCBKey::ODoHConfig
    } else {
        SVCBKey::Reserved
    }
}

/// One `key=value` pair of the value block: the key's display name before
/// the first equals sign, the payload's bytes after it; a pair with no
/// equals sign has an empty payload.
pub open spec fn spec_pair(p: Seq<char>) -> (SVCBKey, Seq<u8>) {
    let n = spec_find(p, '=');
    (
        spec_key_from_name(p.take(n)),
        if n == p.len() {
            Seq::empty()
        } else {
            p.skip(n + 1).map_values(|c: char| c as u8)
        },
    )
}

/// What the value-block token denotes: comma-separated `key=value` pairs,
/// in order; the empty token denotes no parameters. This grammar is total:
/// an unknown key name falls back to `Reserved`.
pub open spec fn spec_parse_value_block(s: Seq<char>) -> Seq<(SVCBKey, Seq<u8>)>
    decreases s.len(),
    via spec_parse_value_block_decreases
{
    if s.len() == 0 {
        Seq::empty()
    } else {
        let n = spec_find(s, ',');
        if n == s.len() {
            seq![spec_pair(s)]
        } else {
            seq![spec_pair(s.take(n))] + spec_parse_value_block(s.skip(n + 1))
        }
    }
}

#[via_fn]
proof fn spec_parse_value_block_decreases(s: Seq<char>) {
    if s.len() != 0 {
        crate::text::lemma_find_bounds(s, ',');
    }
}

/// True when the characters `s[from..to]` equal the text `lit`.
fn range_eq_lit(s: &str, from: usize, to: usize, lit: &str) -> (r: bool)
    requires
        from <= to <= s@.len(),
    ensures
        r == (s@.subrange(from as int, to as int) == lit@),
{
    let n = lit.unicode_len();
    if to - from != n {
        proof {
            assert(s@.subrange(from as int, to as int).len() != lit@.len());
        }
        return false;
    }
    let mut i: usize = 0;
    while i < n
        invariant
            i <= n,
            from + n <= to + n,
            to == from + n,
            to <= s@.len(),
            n == lit@.len(),
            forall|m: int| 0 <= m < i ==> s@.subrange(from as int, to as int)[m] == lit@[m],
        decreases n - i,
    {
        let a = s.get_char(from + i);
        let b = lit.get_char(i);
        if a != b {
            proof {
                assert(s@.subrange(from as int, to as int)[i as int] == s@[from + i]);
            }
            return false;
        }
        i = i + 1;
        proof {
            assert(s@.subrange(from as int, to as int)[i - 1] == s@[from + i - 1]);
        }
    }
    proof {
        assert(s@.subrange(from as int, to as int) =~= lit@);
    }
    true
}

/// The key whose registry display name stands at `s[from..to]`.
fn key_from_name_range(s: &str, from: usize, to: usize) -> (r: SVCBKey)
    requires
        from <= to <= s@.len(),
    ensures
        r == spec_key_from_name(s@.subrange(from as int, to as int)),
{
    if range_eq_lit(s, from, to, "mandatory") {
        SVCBKey::Mandatory
    } else if range_eq_lit(s, from, to, "alpn") {
        SVCBKey::Alpn
    } else if range_eq_lit(s, from, to, "no-default-alpn") {
        SVCBKey::NoDefaultAlpn
    } else if range_eq_lit(s, from, to, "port") {
        SVCBKey::Port
    } else if range_eq_lit(s, from, to, "ipv4hint") {
        SVCBKey::IPv4Hint
    } else if range_eq_lit(s, from, to, "echconfig") {
        SVCBKey::ECHConfig
    } else if range_eq_lit(s, from, to, "ipv6hint") {
        SVCBKey::IPv6Hint
    } else if range_eq_lit(s, from, to, "odohconfig") {
        SVCBKey::ODoHConfig
    } else {
        SVCBKey::Reserved
    }
}

/// The low bytes of the characters `s[from..to]`.
fn chars_to_bytes(s: &str, from: usize, to: usize) -> (r: Vec<u8>)
    requires
        from <= to <= s@.len(),
    ensures
        r@ == s@.subrange(from as int, to as int).map_values(|c: char| c as u8),
{
    let mut v: Vec<u8> = Vec::new();
    let mut j = from;
    proof {
        assert(v@ =~= s@.subrange(from as int, from as int).map_values(|c: char| c as u8));
    }
    while j < to
        invariant
            from <= j <= to <= s@.len(),
            v@ == s@.subrange(from as int, j as int).map_values(|c: char| c as u8),
        decreases to - j,
    {
        let c = s.get_char(j);
        v.push(c as u8);
        j = j + 1;
        proof {
            assert(v@ =~= s@.subrange(from as int, j as int).map_values(|c: char| c as u8));
        }
    }
    v
}

/// Parses the value-block token into its ordered parameter list; total, as
/// `spec_parse_value_block` describes.
pub fn parse_value_block(s: &str) -> (r: Vec<KeyValue>)
    ensures
        r.deep_view() == spec_parse_value_block(s@),
{
    let n_chars = s.unicode_len();
    let mut values: Vec<KeyValue> = Vec::new();
    let mut pos: usize = 0;
    proof {
        assert(s@.skip(0) =~= s@);
        assert(values.deep_view() =~~= Seq::<(SVCBKey, Seq<u8>)>::empty());
        assert(values.deep_view() + spec_parse_value_block(s@) =~~= spec_parse_value_block(s@));
    }
    while pos < n_chars
        invariant
            pos <= n_chars == s@.len(),
            spec_parse_value_block(s@) =~~= values.deep_view() + spec_parse_value_block(
                s@.skip(pos as int),
            ),
        decreases n_chars - pos,
    {
        let k = find_char(s, pos, ',');
        proof {
            assert forall|m: int| 0 <= m < k - pos implies s@.skip(pos as int)[m] != ',' by {
                assert(s@.skip(pos as int)[m] == s@[pos + m]);
            }
            if k < s@.len() {
                assert(s@.skip(pos as int)[k - pos] == s@[k as int]);
            }
            lemma_find_at(s@.skip(pos as int), ',', k - pos);
        }
        let e = find_char(s, pos, '=');
        let e = if e > k {
            k
        } else {
            e
        };
        let ghost seg = s@.skip(pos as int).take(k - pos);
        proof {
            assert forall|m: int| 0 <= m < e - pos implies seg[m] != '=' by {
                assert(seg[m] == s@[pos + m]);
            }
            if e < k {
                assert(seg[e - pos] == s@[e as int]);
            }
            lemma_find_at(seg, '=', e - pos);
            assert(seg =~= s@.subrange(pos as int, k as int));
        }
        let key = key_from_name_range(s, pos, e);
        let value: Vec<u8> = if e < k {
            chars_to_bytes(s, e + 1, k)
        } else {
            Vec::new()
        };
        let ghost pair = spec_pair(seg);
        proof {
            assert(seg.take(e - pos) =~= s@.subrange(pos as int, e as int));
            if e < k {
                assert(seg.skip(e - pos + 1) =~= s@.subrange(e + 1, k as int));
                assert(pair == (spec_key_from_name(s@.subrange(pos as int, e as int)), s@.subrange(
                    e + 1,
                    k as int,
                ).map_values(|c: char| c as u8)));
            } else {
                assert(e - pos == seg.len());
            }
            assert((key, value@) == pair);
        }
        let ghost old_deep = values.deep_view();
        values.push(KeyValue { key, value });
        proof {
            assert(values.deep_view() =~~= old_deep.push(pair));
        }
        if k == n_chars {
            pos = n_chars;
            proof {
                assert(spec_parse_value_block(s@.skip(pos as int)) =~~= Seq::<
                    (SVCBKey, Seq<u8>),
                >::empty());
                assert(old_deep.push(pair) + Seq::<(SVCBKey, Seq<u8>)>::empty() =~~= old_deep
                    + seq![pair]);
            }
        } else {
            let ghost p0 = pos as int;
            pos = k + 1;
            proof {
                assert(s@.skip(p0).skip(k - p0 + 1) =~= s@.skip(pos as int));
                let vs = spec_parse_value_block(s@.skip(pos as int));
                assert(old_deep.push(pair) + vs =~~= old_deep + (seq![pair] + vs));
            }
        }
    }
    proof {
        assert(s@.skip(pos as int) =~= Seq::<char>::empty());
        assert(values.deep_view() + Seq::<(SVCBKey, Seq<u8>)>::empty() =~~= values.deep_view());
    }
    values
}

/// What parsing the three textual fields yields once all three tokens are
/// present: the priority as a 16-bit decimal, the target name resolved
/// against the optional origin, and the value block.
pub open spec fn spec_parse_svcb_fields(
    t0: Seq<char>,
    t1: Seq<char>,
    t2: Seq<char>,
    origin: Seq<Seq<u8>>,
) -> Result<SvcbView, ProtoError> {
    match spec_parse_u16(t0) {
        None => Err(ProtoError::MalformedNumber),
        Some(priority) => match spec_parse_name(t1, origin) {
            Ok(target) => Ok(
                SvcbView { priority, target, values: spec_parse_value_block(t2) },
            ),
            Err(e) => Err(e),
        },
    }
}

/// Parses an SVCB/HTTPS record from its whitespace-split tokens: priority,
/// target, then the single value-block token. A missing token names the
/// absent field; extra tokens are ignored.
pub fn parse(tokens: &Vec<String>, origin: Option<&Name>) -> (r: Result<SVCB, ProtoError>)
    ensures
        tokens@.len() == 0 ==> (r matches Err(e) && e.is_missing_token("priority"@)),
        tokens@.len() == 1 ==> (r matches Err(e) && e.is_missing_token("target"@)),
        tokens@.len() == 2 ==> (r matches Err(e) && e.is_missing_token("values"@)),
        tokens@.len() >= 3 ==> match spec_parse_svcb_fields(
            tokens@[0]@,
            tokens@[1]@,
            tokens@[2]@,
            spec_origin_labels(origin),
        ) {
            Ok(v) => r matches Ok(svcb) && svcb@ == v && (spec_origin_wf(origin) ==> svcb.wf()),
            Err(e) => r matches Err(f) && f == e,
        },
{
    if tokens.len() == 0 {
        return Err(ProtoError::MissingToken("priority".to_owned()));
    }
    if tokens.len() == 1 {
        return Err(ProtoError::MissingToken("target".to_owned()));
    }
    if tokens.len() == 2 {
        return Err(ProtoError::MissingToken("values".to_owned()));
    }
    let priority = match parse_u16(tokens[0].as_str()) {
        Ok(v) => v,
        Err(e) => {
            return Err(e);
        },
    };
    let target = match Name::parse(tokens[1].as_str(), origin) {
        Ok(n) => n,
        Err(e) => {
            return Err(e);
        },
    };
    let values = parse_value_block(tokens[2].as_str());
    Ok(SVCB { priority, target, values })
}

/// Every parameter payload is plain ASCII, so the record has a text form.
pub open spec fn spec_values_ascii(values: Seq<(SVCBKey, Seq<u8>)>) -> bool {
    forall|i: int|
        0 <= i < values.len() ==> forall|j: int|
            0 <= j < (#[trigger] values[i]).1.len() ==> (#[trigger] values[i].1[j]) < 0x80
}

/// The text of one parameter: the key's display name, an equals sign, and
/// the payload's characters.
pub open spec fn spec_kv_display(kv: (SVCBKey, Seq<u8>)) -> Seq<char> {
    spec_key_display_name(kv.0) + seq!['='] + kv.1.map_values(|b: u8| b as char)
}

/// The text of the value block: each parameter's text in order, with no
/// separator between successive pairs — a presentation defect kept as is,
/// which makes multi-parameter output ambiguous (see `parse_value_block`,
/// whose grammar expects commas).
pub open spec fn spec_kvs_display(values: Seq<(SVCBKey, Seq<u8>)>) -> Seq<char>
    decreases values.len(),
{
    if values.len() == 0 {
        Seq::empty()
    } else {
        spec_kv_display(values[0]) + spec_kvs_display(values.drop_first())
    }
}

/// The zone-file text of a whole record: priority, dotted target and the
/// concatenated value block, separated by single spaces.
pub open spec fn spec_svcb_display(v: SvcbView) -> Seq<char> {
    spec_dec_chars(v.priority) + seq![' '] + spec_name_text(v.target) + seq![' ']
        + spec_kvs_display(v.values)
}

/// Appending one parameter extends the block's text at its end.
proof fn lemma_kvs_display_snoc(values: Seq<(SVCBKey, Seq<u8>)>, kv: (SVCBKey, Seq<u8>))
    ensures
        spec_kvs_display(values.push(kv)) == spec_kvs_display(values) + spec_kv_display(kv),
    decreases values.len(),
{
    if values.len() == 0 {
        assert(values.push(kv) =~~= seq![kv]);
        assert(seq![kv].drop_first() =~~= Seq::<(SVCBKey, Seq<u8>)>::empty());
        assert(spec_kvs_display(Seq::<(SVCBKey, Seq<u8>)>::empty()) == Seq::<char>::empty());
        assert(spec_kvs_display(values.push(kv)) =~= spec_kvs_display(values) + spec_kv_display(
            kv,
        ));
    } else {
        lemma_kvs_display_snoc(values.drop_first(), kv);
        assert(values.push(kv).drop_first() =~~= values.drop_first().push(kv));
        assert(values.push(kv)[0] == values[0]);
        assert(spec_kvs_display(values.push(kv)) =~= spec_kvs_display(values) + spec_kv_display(
            kv,
        ));
    }
}

impl KeyValue {
    /// The parameter's payload bytes are plain ASCII.
    pub open spec fn ascii(&self) -> bool {
        forall|j: int| 0 <= j < self@.1.len() ==> (#[trigger] self@.1[j]) < 0x80
    }

    /// The parameter's text: `name=value`.
    pub fn display(&self) -> (r: String)
        requires
            self.ascii(),
        ensures
            r@ == spec_kv_display(self@),
    {
        proof {
            reveal_strlit("=");
        }
        let mut s = key_display_name(&self.key);
        s.append("=");
        let v = ascii_bytes_to_string(vstd::slice::slice_to_vec(self.value.as_slice()));
        s.append(v.as_str());
        proof {
            assert("="@ =~= seq!['=']);
            assert(s@ =~= spec_kv_display(self@));
        }
        s
    }
}

impl SVCB {
    /// The record's zone-file text. Successive parameters are run together
    /// with no separator, a presentation defect kept as is.
    pub fn display(&self) -> (r: String)
        requires
            self.wf(),
            spec_values_ascii(self@.values),
        ensures
            r@ == spec_svcb_display(self@),
    {
        proof {
            reveal_strlit(" ");
        }
        let mut s = u16_dec_string(self.priority);
        s.append(" ");
        let t = self.target.display();
        s.append(t.as_str());
        s.append(" ");
        let ghost head = s@;
        let mut i: usize = 0;
        proof {
            assert(self@.values.take(0) =~~= Seq::<(SVCBKey, Seq<u8>)>::empty());
        }
        let n = self.values.len();
        while i < n
            invariant
                i <= n == self.values@.len(),
                self.values@.len() == self@.values.len(),
                spec_values_ascii(self@.values),
                head == s@.take(head.len() as int) && head.len() <= s@.len(),
                s@ == head + spec_kvs_display(self@.values.take(i as int)),
            decreases n - i,
        {
            let kv = &self.values[i];
            proof {
                assert(self@.values[i as int] == kv@);
                assert(kv.ascii());
            }
            let d = kv.display();
            s.append(d.as_str());
            i = i + 1;
            proof {
                lemma_kvs_display_snoc(self@.values.take(i - 1), kv@);
                assert(self@.values.take(i as int) =~~= self@.values.take(i - 1).push(kv@));
                assert(s@ =~= head + spec_kvs_display(self@.values.take(i as int)));
                assert(head =~= s@.take(head.len() as int));
            }
        }
        proof {
            assert(self@.values.take(self@.values.len() as int) =~~= self@.values);
            assert(s@ =~= spec_svcb_display(self@));
        }
        s
    }
}

/// The boundary rule, first half: a parameter-list remainder of at most
/// four bytes decodes to zero parameters and is left wholly unread.
pub proof fn lemma_boundary_short_tail_unread(s: Seq<u8>)
    requires
        s.len() <= 4,
    ensures
        spec_read_values(s) == Ok::<_, ProtoError>((Seq::<(SVCBKey, Seq<u8>)>::empty(), s)),
{
}

/// The boundary rule, second half: a five-byte remainder whose declared
/// payload length exceeds the one byte left is rejected as an unterminated
/// value, not silently swallowed. (With a declared length of 0 or 1 the
/// five bytes do hold a whole parameter, which decodes.)
pub proof fn lemma_boundary_five_bytes_unterminated(s: Seq<u8>)
    requires
        s.len() == 5,
        u16_from_bytes(s[2], s[3]) > 1,
    ensures
        spec_read_values(s) == Err::<(Seq<(SVCBKey, Seq<u8>)>, Seq<u8>), ProtoError>(
            ProtoError::UnterminatedValue,
        ),
{
}

} // verus!

