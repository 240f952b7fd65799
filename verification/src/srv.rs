//! The service-locator (SRV) record: four fixed fields, their wire form,
//! and the minimal codec contract every record type satisfies.

use vstd::prelude::*;

use vstd::string::StringExecFns;

use crate::binary::{u16_from_bytes, u16_to_bytes, BinDecoder, BinEncoder};
use crate::errors::ProtoError;
use crate::name::{
    lemma_name_bytes_round_trip, lemma_name_text_round_trip, spec_name_text, spec_name_to_bytes,
    spec_origin_labels, spec_origin_wf, spec_parse_name, spec_read_name, wf_name, Name,
};
use crate::text::{
    lemma_u16_dec_round_trip, parse_u16, spec_dec_chars, spec_parse_u16, u16_dec_string,
};

verus! {

/// The mathematical value of an SRV record.
pub ghost struct SrvView {
    pub priority: u16,
    pub weight: u16,
    pub port: u16,
    pub target: Seq<Seq<u8>>,
}

/// A service-locator record: priority, weight, port and target host, all
/// immutable once built.
#[derive(Debug, PartialEq, Eq, Hash, Clone)]
pub struct SRV {
    priority: u16,
    weight: u16,
    port: u16,
    target: Name,
}

impl View for SRV {
    type V = SrvView;

    closed spec fn view(&self) -> SrvView {
        SrvView {
            priority: self.priority,
            weight: self.weight,
            port: self.port,
            target: self.target@,
        }
    }
}

impl SRV {
    /// The record's target name is acceptable.
    pub open spec fn wf(&self) -> bool {
        wf_name(self@.target)
    }

    /// A new SRV record from its four fields.
    pub fn new(priority: u16, weight: u16, port: u16, target: Name) -> (r: SRV)
        ensures
            r@ == (SrvView { priority, weight, port, target: target@ }),
            target.wf() ==> r.wf(),
    {
        SRV { priority, weight, port, target }
    }

    /// The priority: clients contact the lowest-numbered priority first.
    pub fn get_priority(&self) -> (r: u16)
        ensures
            r == self@.priority,
    {
        self.priority
    }

    /// The relative weight among records of equal priority.
    pub fn get_weight(&self) -> (r: u16)
        ensures
            r == self@.weight,
    {
        self.weight
    }

    /// The port on which the target host serves.
    pub fn get_port(&self) -> (r: u16)
        ensures
            r == self@.port,
    {
        self.port
    }

    /// The target host's domain name.
    pub fn get_target(&self) -> (r: &Name)
        ensures
            r@ == self@.target,
    {
        &self.target
    }
}

/// The wire form of an SRV record: the three 16-bit fields big-endian, then
/// the uncompressed target name.
pub open spec fn spec_srv_to_bytes(v: SrvView) -> Seq<u8> {
    u16_to_bytes(v.priority) + u16_to_bytes(v.weight) + u16_to_bytes(v.port) + spec_name_to_bytes(
        v.target,
    )
}

/// What reading an SRV record from the front of `s` yields: the record and
/// the bytes left over, or the first failure.
pub open spec fn spec_read_srv(s: Seq<u8>) -> Result<(SrvView, Seq<u8>), ProtoError> {
    if s.len() < 6 {
        Err(ProtoError::BufferUnderflow)
    } else {
        match spec_read_name(s.skip(6)) {
            Ok((labels, rest)) => Ok(
                (
                    SrvView {
                        priority: u16_from_bytes(s[0], s[1]),
                        weight: u16_from_bytes(s[2], s[3]),
                        port: u16_from_bytes(s[4], s[5]),
                        target: labels,
                    },
                    rest,
                ),
            ),
            Err(e) => Err(e),
        }
    }
}

/// Reads an SRV record from the cursor: priority, weight, port, then the
/// target name, failing the instant any read runs short.
pub fn read(decoder: &mut BinDecoder) -> (r: Result<SRV, ProtoError>)
    ensures
        match spec_read_srv(old(decoder)@) {
            Ok((v, rest)) => r matches Ok(srv) && srv@ == v && srv.wf() && final(decoder)@ == rest,
            Err(e) => r matches Err(f) && f == e,
        },
{
    let ghost orig = decoder@;
    let priority = match decoder.read_u16() {
        Ok(v) => v,
        Err(e) => {
            return Err(e);
        },
    };
    let weight = match decoder.read_u16() {
        Ok(v) => v,
        Err(e) => {
            return Err(e);
        },
    };
    let port = match decoder.read_u16() {
        Ok(v) => v,
        Err(e) => {
            return Err(e);
        },
    };
    proof {
        assert(orig.skip(2).skip(2).skip(2) =~= orig.skip(6));
    }
    let target = match Name::read(decoder) {
        Ok(n) => n,
        Err(e) => {
            return Err(e);
        },
    };
    Ok(SRV { priority, weight, port, target })
}

/// Writes an SRV record's wire form: the three 16-bit fields, then the
/// target name uncompressed. The growing encoder accepts every record, so
/// the result is always `Ok`.
pub fn emit(encoder: &mut BinEncoder, srv: &SRV) -> (r: Result<(), ProtoError>)
    requires
        srv.wf(),
    ensures
        r is Ok,
        final(encoder)@ == old(encoder)@ + spec_srv_to_bytes(srv@),
        final(encoder).spec_canonical_names() == old(encoder).spec_canonical_names(),
{
    encoder.emit_u16(srv.get_priority());
    encoder.emit_u16(srv.get_weight());
    encoder.emit_u16(srv.get_port());
    srv.get_target().emit(encoder);
    proof {
        assert(encoder@ =~= old(encoder)@ + spec_srv_to_bytes(srv@));
    }
    Ok(())
}

/// What parsing the four textual fields yields once all four tokens are
/// present: priority, weight and port as 16-bit decimals, then the target
/// name resolved against the optional origin.
pub open spec fn spec_parse_srv_fields(
    t0: Seq<char>,
    t1: Seq<char>,
    t2: Seq<char>,
    t3: Seq<char>,
    origin: Seq<Seq<u8>>,
) -> Result<SrvView, ProtoError> {
    match spec_parse_u16(t0) {
        None => Err(ProtoError::MalformedNumber),
        Some(priority) => match spec_parse_u16(t1) {
            None => Err(ProtoError::MalformedNumber),
            Some(weight) => match spec_parse_u16(t2) {
                None => Err(ProtoError::MalformedNumber),
                Some(port) => match spec_parse_name(t3, origin) {
                    Ok(target) => Ok(SrvView { priority, weight, port, target }),
                    Err(e) => Err(e),
                },
            },
        },
    }
}

/// Parses an SRV record from its whitespace-split tokens: priority, weight,
/// port and target, in that order. A missing token names the absent field;
/// extra tokens are ignored.
pub fn parse(tokens: &Vec<String>, origin: Option<&Name>) -> (r: Result<SRV, ProtoError>)
    ensures
        tokens@.len() == 0 ==> (r matches Err(e) && e.is_missing_token("priority"@)),
        tokens@.len() == 1 ==> (r matches Err(e) && e.is_missing_token("weight"@)),
        tokens@.len() == 2 ==> (r matches Err(e) && e.is_missing_token("port"@)),
        tokens@.len() == 3 ==> (r matches Err(e) && e.is_missing_token("target"@)),
        tokens@.len() >= 4 ==> match spec_parse_srv_fields(
            tokens@[0]@,
            tokens@[1]@,
            tokens@[2]@,
            tokens@[3]@,
            spec_origin_labels(origin),
        ) {
            Ok(v) => r matches Ok(srv) && srv@ == v && (spec_origin_wf(origin) ==> srv.wf()),
            Err(e) => r matches Err(f) && f == e,
        },
{
    if tokens.len() == 0 {
        return Err(ProtoError::MissingToken("priority".to_owned()));
    }
    if tokens.len() == 1 {
        return Err(ProtoError::MissingToken("weight".to_owned()));
    }
    if tokens.len() == 2 {
        return Err(ProtoError::MissingToken("port".to_owned()));
    }
    if tokens.len() == 3 {
        return Err(ProtoError::MissingToken("target".to_owned()));
    }
    let priority = match parse_u16(tokens[0].as_str()) {
        Ok(v) => v,
        Err(e) => {
            return Err(e);
        },
    };
    let weight = match parse_u16(tokens[1].as_str()) {
        Ok(v) => v,
        Err(e) => {
            return Err(e);
        },
    };
    let port = match parse_u16(tokens[2].as_str()) {
        Ok(v) => v,
        Err(e) => {
            return Err(e);
        },
    };
    let target = match Name::parse(tokens[3].as_str(), origin) {
        Ok(n) => n,
        Err(e) => {
            return Err(e);
        },
    };
    Ok(SRV { priority, weight, port, target })
}

/// The zone-file text of an SRV record: the three decimal fields and the
/// dotted target name, separated by single spaces.
pub open spec fn spec_srv_display(v: SrvView) -> Seq<char> {
    spec_dec_chars(v.priority) + seq![' '] + spec_dec_chars(v.weight) + seq![' ']
        + spec_dec_chars(v.port) + seq![' '] + spec_name_text(v.target)
}

impl SRV {
    /// The record's zone-file text.
    pub fn display(&self) -> (r: String)
        requires
            self.wf(),
        ensures
            r@ == spec_srv_display(self@),
    {
        proof {
            reveal_strlit(" ");
        }
        let mut s = u16_dec_string(self.priority);
        s.append(" ");
        let w = u16_dec_string(self.weight);
        s.append(w.as_str());
        s.append(" ");
        let p = u16_dec_string(self.port);
        s.append(p.as_str());
        s.append(" ");
        let t = self.target.display();
        s.append(t.as_str());
        proof {
            assert(" "@ =~= seq![' ']);
            assert(s@ =~= spec_srv_display(self@));
        }
        s
    }
}

/// Text round trip: the four fields an SRV record displays parse back to
/// the record, whatever the origin — the displayed name's closing dot
/// makes it absolute. (The external tokenizer splits the record's text on
/// the single spaces the display places between the fields.)
pub proof fn lemma_srv_text_round_trip(v: SrvView, origin: Seq<Seq<u8>>)
    requires
        wf_name(v.target),
    ensures
        spec_parse_srv_fields(
            spec_dec_chars(v.priority),
            spec_dec_chars(v.weight),
            spec_dec_chars(v.port),
            spec_name_text(v.target),
            origin,
        ) == Ok::<_, ProtoError>(v),
{
    lemma_u16_dec_round_trip(v.priority);
    lemma_u16_dec_round_trip(v.weight);
    lemma_u16_dec_round_trip(v.port);
    lemma_name_text_round_trip(v.target, origin);
}

/// Binary round trip: reading back an emitted SRV record yields the same
/// record and consumes the whole buffer.
pub proof fn lemma_srv_binary_round_trip(v: SrvView)
    requires
        wf_name(v.target),
    ensures
        spec_read_srv(spec_srv_to_bytes(v)) == Ok::<_, ProtoError>((v, Seq::<u8>::empty())),
{
    let s = spec_srv_to_bytes(v);
    lemma_name_bytes_round_trip(v.target, Seq::<u8>::empty());
    assert(s.skip(6) =~= spec_name_to_bytes(v.target) + Seq::<u8>::empty());
    assert(u16_from_bytes(s[0], s[1]) == v.priority);
    assert(u16_from_bytes(s[2], s[3]) == v.weight);
    assert(u16_from_bytes(s[4], s[5]) == v.port);
}

} // verus!
