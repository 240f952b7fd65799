//! Domain names: dotted labels, their uncompressed wire form, and their
//! zone-file text form.
//!
//! A label is a run of 1 to 63 ASCII bytes none of which is a dot. On the
//! wire a name is each label preceded by its length byte, closed by a zero
//! byte; compression pointers are out of scope here.

use vstd::prelude::*;
use vstd::string::StrSliceExecFns;
use vstd::string::StringSliceAdditionalSpecFns;

use crate::binary::{BinDecoder, BinEncoder};
use crate::errors::ProtoError;
use crate::text::{ascii_bytes_to_string, find_char, lemma_find_at, spec_find};

verus! {

/// An acceptable label: 1 to 63 bytes, ASCII, no dot.
pub open spec fn wf_label(label: Seq<u8>) -> bool {
    &&& 1 <= label.len() <= 63
    &&& forall|i: int| 0 <= i < label.len() ==> label[i] < 0x80 && label[i] != 0x2e
}

/// An acceptable name: every label acceptable.
pub open spec fn wf_name(labels: Seq<Seq<u8>>) -> bool {
    forall|i: int| 0 <= i < labels.len() ==> wf_label(#[trigger] labels[i])
}

/// The lowercase form of one byte: ASCII letters fold, all else stays.
pub open spec fn lower_byte(b: u8) -> u8 {
    if 0x41 <= b <= 0x5a {
        (b + 0x20) as u8
    } else {
        b
    }
}

/// The lowercase form of a label.
pub open spec fn lower_label(label: Seq<u8>) -> Seq<u8> {
    label.map_values(|b: u8| lower_byte(b))
}

/// The lowercase form of a whole name.
pub open spec fn lower_name(labels: Seq<Seq<u8>>) -> Seq<Seq<u8>> {
    labels.map_values(|l: Seq<u8>| lower_label(l))
}

/// The uncompressed wire form of a name: each label preceded by its length,
/// closed by a zero byte.
pub open spec fn spec_name_to_bytes(labels: Seq<Seq<u8>>) -> Seq<u8>
    decreases labels.len(),
{
    if labels.len() == 0 {
        seq![0u8]
    } else {
        seq![labels[0].len() as u8] + labels[0] + spec_name_to_bytes(labels.drop_first())
    }
}

/// What reading a name from the front of `s` yields: the labels and the
/// bytes left over, or the first failure. A zero length byte ends the name;
/// a length over 63 or a label byte that is not plain ASCII (or is a dot) is
/// a name error; running out of bytes is an underflow.
pub open spec fn spec_read_name(s: Seq<u8>) -> Result<(Seq<Seq<u8>>, Seq<u8>), ProtoError>
    decreases s.len(),
{
    if s.len() == 0 {
        Err(ProtoError::BufferUnderflow)
    } else if s[0] == 0 {
        Ok((Seq::empty(), s.skip(1)))
    } else if s[0] > 63 {
        Err(ProtoError::NameError)
    } else if s.len() < 1 + s[0] {
        Err(ProtoError::BufferUnderflow)
    } else {
        let label = s.subrange(1, 1 + s[0]);
        if !wf_label(label) {
            Err(ProtoError::NameError)
        } else {
            match spec_read_name(s.skip(1 + s[0])) {
                Ok((labels, rest)) => Ok((seq![label] + labels, rest)),
                Err(e) => Err(e),
            }
        }
    }
}

/// Reading a name's wire form back yields the name and touches nothing
/// beyond it.
pub proof fn lemma_name_bytes_round_trip(labels: Seq<Seq<u8>>, rest: Seq<u8>)
    requires
        wf_name(labels),
    ensures
        spec_read_name(spec_name_to_bytes(labels) + rest) == Ok::<_, ProtoError>((labels, rest)),
    decreases labels.len(),
{
    let s = spec_name_to_bytes(labels) + rest;
    if labels.len() == 0 {
        assert(labels =~~= Seq::<Seq<u8>>::empty());
        assert(s[0] == 0);
        assert(s.skip(1) =~= rest);
    } else {
        let label = labels[0];
        assert(wf_label(label));
        let tail = spec_name_to_bytes(labels.drop_first()) + rest;
        assert(s =~= seq![label.len() as u8] + label + tail);
        assert(s[0] == label.len());
        assert(s.subrange(1, 1 + s[0]) =~= label);
        assert(s.skip(1 + s[0]) =~= tail);
        assert(wf_name(labels.drop_first()));
        lemma_name_bytes_round_trip(labels.drop_first(), rest);
        assert(seq![label] + labels.drop_first() =~~= labels);
        assert(spec_read_name(s) == Ok::<_, ProtoError>((seq![label] + labels.drop_first(), rest)));
    }
}

/// A domain name as an ordered list of labels. An empty list is the root.
#[derive(Debug, PartialEq, Eq, Hash, Clone)]
pub struct Name {
    labels: Vec<Vec<u8>>,
}

impl View for Name {
    type V = Seq<Seq<u8>>;

    closed spec fn view(&self) -> Seq<Seq<u8>> {
        self.labels.deep_view()
    }
}

impl Name {
    /// Every label of this name is acceptable.
    pub open spec fn wf(&self) -> bool {
        wf_name(self@)
    }

    /// The root name, with no labels.
    pub fn new() -> (r: Self)
        ensures
            r@ == Seq::<Seq<u8>>::empty(),
            r.wf(),
    {
        let n = Name { labels: Vec::new() };
        proof {
            assert(n@ =~= Seq::<Seq<u8>>::empty());
        }
        n
    }

    /// This name with one more label at the end. The label must be 1 to 63
    /// characters, each plain ASCII and none of them a dot.
    pub fn label(self, label: &str) -> (r: Self)
        requires
            vstd::utf8::is_ascii_chars(label@),
            wf_label(label@.map_values(|c: char| c as u8)),
        ensures
            r@ == self@.push(label@.map_values(|c: char| c as u8)),
            self.wf() ==> r.wf(),
    {
        let ghost bytes_view = label@.map_values(|c: char| c as u8);
        proof {
            vstd::string::is_ascii_spec_bytes(label);
            assert(label.spec_bytes() =~= bytes_view);
            assert(wf_label(bytes_view));
        }
        let bytes = vstd::slice::slice_to_vec(label.as_bytes());
        let mut labels = self.labels;
        labels.push(bytes);
        let r = Name { labels };
        proof {
            assert(r@ =~~= self@.push(bytes_view));
            if self.wf() {
                assert forall|i: int| 0 <= i < r@.len() implies wf_label(#[trigger] r@[i]) by {
                    if i < self@.len() {
                        assert(r@[i] == self@[i]);
                    }
                }
            }
        }
        r
    }

    /// Reads a name from the cursor, as `spec_read_name` describes; on
    /// failure the cursor is left wherever the failing read left it.
    pub fn read(decoder: &mut BinDecoder) -> (r: Result<Name, ProtoError>)
        ensures
            match spec_read_name(old(decoder)@) {
                Ok((labels, rest)) => r matches Ok(n) && n@ == labels && n.wf() && final(decoder)@
                    == rest,
                Err(e) => r matches Err(f) && f == e,
            },
    {
        let ghost orig = decoder@;
        let mut labels: Vec<Vec<u8>> = Vec::new();
        loop
            invariant
                orig == old(decoder)@,
                wf_name(labels.deep_view()),
                spec_read_name(orig) == match spec_read_name(decoder@) {
                    Ok((ls, rest)) => Ok::<_, ProtoError>((labels.deep_view() + ls, rest)),
                    Err(e) => Err(e),
                },
            decreases decoder@.len(),
        {
            let ghost before = decoder@;
            let len_byte = match decoder.read_u8() {
                Ok(b) => b,
                Err(e) => {
                    return Err(e);
                },
            };
            if len_byte == 0 {
                let n = Name { labels };
                proof {
                    assert(labels.deep_view() + Seq::<Seq<u8>>::empty() =~= labels.deep_view());
                }
                return Ok(n);
            }
            if len_byte > 63 {
                return Err(ProtoError::NameError);
            }
            let label = match decoder.read_vec(len_byte as usize) {
                Ok(v) => v,
                Err(e) => {
                    proof {
                        assert(before.len() < 1 + before[0]);
                    }
                    return Err(e);
                },
            };
            let ghost label_spec = before.subrange(1, 1 + before[0]);
            proof {
                assert(label@ =~= label_spec);
            }
            if !label_bytes_plain(&label) {
                return Err(ProtoError::NameError);
            }
            proof {
                assert(wf_label(label_spec));
                assert(decoder@ =~= before.skip(1 + before[0]));
            }
            let ghost old_deep = labels.deep_view();
            labels.push(label);
            proof {
                assert(labels.deep_view() =~~= old_deep.push(label_spec));
                let res = spec_read_name(decoder@);
                if res is Ok {
                    let ls = res->Ok_0.0;
                    assert(old_deep.push(label_spec) + ls =~~= old_deep + (seq![label_spec] + ls));
                }
            }
        }
    }

    /// Writes this name's uncompressed wire form.
    pub fn emit(&self, encoder: &mut BinEncoder)
        requires
            self.wf(),
        ensures
            final(encoder)@ == old(encoder)@ + spec_name_to_bytes(self@),
            final(encoder).spec_canonical_names() == old(encoder).spec_canonical_names(),
    {
        self.emit_with_lowercase(encoder, false);
    }

    /// Writes this name's wire form, folded to lowercase when `lowercase`
    /// asks for the canonical form.
    pub fn emit_with_lowercase(&self, encoder: &mut BinEncoder, lowercase: bool)
        requires
            self.wf(),
        ensures
            final(encoder)@ == old(encoder)@ + spec_name_to_bytes(
                if lowercase {
                    lower_name(self@)
                } else {
                    self@
                },
            ),
            final(encoder).spec_canonical_names() == old(encoder).spec_canonical_names(),
    {
        let ghost target = if lowercase {
            lower_name(self@)
        } else {
            self@
        };
        let ghost orig = encoder@;
        let mut i: usize = 0;
        while i < self.labels.len()
            invariant
                i <= self.labels@.len(),
                self.wf(),
                target == if lowercase {
                    lower_name(self@)
                } else {
                    self@
                },
                target.len() == self@.len(),
                encoder@ == orig + spec_labels_prefix_bytes(target.take(i as int)),
                encoder.spec_canonical_names() == old(encoder).spec_canonical_names(),
            decreases self.labels@.len() - i,
        {
            let label = &self.labels[i];
            let ghost label_out = target[i as int];
            proof {
                assert(self@[i as int] == label@);
                assert(wf_label(label@));
                if lowercase {
                    assert(label_out == lower_label(label@));
                } else {
                    assert(label_out == label@);
                }
                assert(label_out.len() == label@.len());
            }
            encoder.emit_u8(label.len() as u8);
            let mut j: usize = 0;
            while j < label.len()
                invariant
                    j <= label@.len(),
                    wf_label(label@),
                    label_out == if lowercase {
                        lower_label(label@)
                    } else {
                        label@
                    },
                    label_out.len() == label@.len(),
                    encoder@ == orig + spec_labels_prefix_bytes(target.take(i as int)) + seq![
                        label@.len() as u8,
                    ] + label_out.take(j as int),
                    encoder.spec_canonical_names() == old(encoder).spec_canonical_names(),
                decreases label@.len() - j,
            {
                let b = label[j];
                let out = if lowercase && b >= 0x41 && b <= 0x5a {
                    b + 0x20
                } else {
                    b
                };
                proof {
                    assert(label_out[j as int] == out);
                }
                encoder.emit_u8(out);
                j = j + 1;
                proof {
                    assert(encoder@ =~= orig + spec_labels_prefix_bytes(target.take(i as int))
                        + seq![label@.len() as u8] + label_out.take(j as int));
                }
            }
            i = i + 1;
            proof {
                assert(label_out.take(label_out.len() as int) =~= label_out);
                lemma_labels_prefix_snoc(target.take(i - 1), label_out);
                assert(target.take(i as int) =~~= target.take(i - 1).push(label_out));
                assert(encoder@ =~= orig + spec_labels_prefix_bytes(target.take(i as int)));
            }
        }
        encoder.emit_u8(0);
        proof {
            assert(target.take(target.len() as int) =~= target);
            lemma_labels_prefix_terminated(target);
            assert(encoder@ =~= orig + spec_name_to_bytes(target));
        }
    }

    /// Hands the labels out as plain byte runs.
    pub fn labels(&self) -> (r: &Vec<Vec<u8>>)
        ensures
            r.deep_view() == self@,
    {
        &self.labels
    }
}

/// True when every byte of `label` is plain ASCII and none is a dot.
fn label_bytes_plain(label: &Vec<u8>) -> (r: bool)
    ensures
        r == (forall|i: int|
            0 <= i < label@.len() ==> (#[trigger] label@[i]) < 0x80 && label@[i] != 0x2e),
{
    let mut i: usize = 0;
    while i < label.len()
        invariant
            i <= label@.len(),
            forall|j: int| 0 <= j < i ==> (#[trigger] label@[j]) < 0x80 && label@[j] != 0x2e,
        decreases label@.len() - i,
    {
        let b = label[i];
        if b >= 0x80 || b == 0x2e {
            return false;
        }
        i = i + 1;
    }
    true
}

/// The wire bytes of a label list without the closing zero byte.
pub open spec fn spec_labels_prefix_bytes(labels: Seq<Seq<u8>>) -> Seq<u8>
    decreases labels.len(),
{
    if labels.len() == 0 {
        Seq::empty()
    } else {
        seq![labels[0].len() as u8] + labels[0] + spec_labels_prefix_bytes(labels.drop_first())
    }
}

/// Appending one label extends the open wire form at its end.
proof fn lemma_labels_prefix_snoc(labels: Seq<Seq<u8>>, label: Seq<u8>)
    ensures
        spec_labels_prefix_bytes(labels.push(label)) == spec_labels_prefix_bytes(labels) + seq![
            label.len() as u8,
        ] + label,
    decreases labels.len(),
{
    if labels.len() == 0 {
        assert(labels.push(label) =~~= seq![label]);
        assert(seq![label].drop_first() =~~= Seq::<Seq<u8>>::empty());
        assert(spec_labels_prefix_bytes(Seq::<Seq<u8>>::empty()) == Seq::<u8>::empty());
        assert(spec_labels_prefix_bytes(labels.push(label)) =~= spec_labels_prefix_bytes(labels)
            + seq![label.len() as u8] + label);
    } else {
        lemma_labels_prefix_snoc(labels.drop_first(), label);
        assert(labels.push(label).drop_first() =~~= labels.drop_first().push(label));
        assert(labels.push(label)[0] == labels[0]);
        assert(spec_labels_prefix_bytes(labels.push(label)) =~= spec_labels_prefix_bytes(labels)
            + seq![label.len() as u8] + label);
    }
}

/// The characters a label's bytes spell.
pub open spec fn label_chars(label: Seq<u8>) -> Seq<char> {
    label.map_values(|b: u8| b as char)
}

/// A label's text form is acceptable: 1 to 63 characters, each plain ASCII.
pub open spec fn wf_text_label(part: Seq<char>) -> bool {
    &&& 1 <= part.len() <= 63
    &&& forall|i: int| 0 <= i < part.len() ==> ((#[trigger] part[i]) as u32) < 0x80
}

/// What reading dotted labels out of `s` yields: the labels' bytes, or a
/// name error on an empty, overlong or non-ASCII label, or on a trailing
/// dot. The empty text holds no labels.
pub open spec fn spec_read_text_labels(s: Seq<char>) -> Result<Seq<Seq<u8>>, ProtoError>
    decreases s.len(),
    via spec_read_text_labels_decreases
{
    if s.len() == 0 {
        Ok(Seq::empty())
    } else {
        let n = spec_find(s, '.');
        let part = s.take(n);
        if !wf_text_label(part) {
            Err(ProtoError::NameError)
        } else {
            let label = part.map_values(|c: char| c as u8);
            if n == s.len() {
                Ok(seq![label])
            } else if n + 1 == s.len() {
                Err(ProtoError::NameError)
            } else {
                match spec_read_text_labels(s.skip(n + 1)) {
                    Ok(labels) => Ok(seq![label] + labels),
                    Err(e) => Err(e),
                }
            }
        }
    }
}

#[via_fn]
proof fn spec_read_text_labels_decreases(s: Seq<char>) {
    if s.len() != 0 {
        crate::text::lemma_find_bounds(s, '.');
    }
}

/// The label list of an optional origin name; none means no labels.
pub open spec fn spec_origin_labels(origin: Option<&Name>) -> Seq<Seq<u8>> {
    match origin {
        Some(o) => o@,
        None => Seq::empty(),
    }
}

/// The optional origin name, if present, is acceptable.
pub open spec fn spec_origin_wf(origin: Option<&Name>) -> bool {
    match origin {
        Some(o) => o.wf(),
        None => true,
    }
}

/// What parsing a dotted name from text yields. A trailing dot makes the
/// name absolute; otherwise the origin's labels, if any, are appended. The
/// lone dot is the root, and the empty text is the origin itself.
pub open spec fn spec_parse_name(s: Seq<char>, origin: Seq<Seq<u8>>) -> Result<
    Seq<Seq<u8>>,
    ProtoError,
> {
    if s.len() > 0 && s.last() == '.' {
        spec_read_text_labels(s.drop_last())
    } else {
        match spec_read_text_labels(s) {
            Ok(labels) => Ok(labels + origin),
            Err(e) => Err(e),
        }
    }
}

/// The dotted bytes of a label list: each label followed by one dot.
pub open spec fn spec_labels_text_bytes(labels: Seq<Seq<u8>>) -> Seq<u8>
    decreases labels.len(),
{
    if labels.len() == 0 {
        Seq::empty()
    } else {
        labels[0] + seq![46u8] + spec_labels_text_bytes(labels.drop_first())
    }
}

/// The dotted text of a name, as bytes: its labels separated and closed by
/// dots; the root is the dot alone.
pub open spec fn spec_name_text_bytes(labels: Seq<Seq<u8>>) -> Seq<u8> {
    if labels.len() == 0 {
        seq![46u8]
    } else {
        spec_labels_text_bytes(labels)
    }
}

/// The zone-file text of a name.
pub open spec fn spec_name_text(labels: Seq<Seq<u8>>) -> Seq<char> {
    label_chars(spec_name_text_bytes(labels))
}

/// Appending one label extends the dotted bytes at their end.
proof fn lemma_labels_text_bytes_snoc(labels: Seq<Seq<u8>>, label: Seq<u8>)
    ensures
        spec_labels_text_bytes(labels.push(label)) == spec_labels_text_bytes(labels) + label
            + seq![46u8],
    decreases labels.len(),
{
    if labels.len() == 0 {
        assert(labels.push(label) =~~= seq![label]);
        assert(seq![label].drop_first() =~~= Seq::<Seq<u8>>::empty());
        assert(spec_labels_text_bytes(Seq::<Seq<u8>>::empty()) == Seq::<u8>::empty());
        assert(spec_labels_text_bytes(labels.push(label)) =~= spec_labels_text_bytes(labels)
            + label + seq![46u8]);
    } else {
        lemma_labels_text_bytes_snoc(labels.drop_first(), label);
        assert(labels.push(label).drop_first() =~~= labels.drop_first().push(label));
        assert(labels.push(label)[0] == labels[0]);
        assert(spec_labels_text_bytes(labels.push(label)) =~= spec_labels_text_bytes(labels)
            + label + seq![46u8]);
    }
}

/// A nonempty label list's dotted bytes close with a dot and hold at least
/// the first label and its dot.
proof fn lemma_labels_text_bytes_shape(labels: Seq<Seq<u8>>)
    requires
        labels.len() > 0,
    ensures
        spec_labels_text_bytes(labels).len() >= labels[0].len() + 1,
        spec_labels_text_bytes(labels).last() == 46u8,
    decreases labels.len(),
{
    if labels.len() > 1 {
        lemma_labels_text_bytes_shape(labels.drop_first());
        assert(spec_labels_text_bytes(labels) =~= labels[0] + seq![46u8]
            + spec_labels_text_bytes(labels.drop_first()));
    } else {
        assert(labels.drop_first() =~~= Seq::<Seq<u8>>::empty());
        assert(spec_labels_text_bytes(Seq::<Seq<u8>>::empty()) == Seq::<u8>::empty());
        assert(spec_labels_text_bytes(labels) =~= labels[0] + seq![46u8]);
    }
}

/// A character's low byte is the low byte of its code point.
proof fn lemma_char_u8_u32(c: char)
    ensures
        c as u8 == (c as u32) as u8,
{
}

/// The bytes of the characters `s[from..to]` spell, when every one of
/// them is plain ASCII.
fn read_ascii_label(s: &str, from: usize, to: usize) -> (r: Option<Vec<u8>>)
    requires
        from <= to <= s@.len(),
    ensures
        match r {
            Some(v) => v@ == s@.subrange(from as int, to as int).map_values(|c: char| c as u8)
                && forall|m: int| from <= m < to ==> ((#[trigger] s@[m]) as u32) < 0x80,
            None => exists|m: int| from <= m < to && ((#[trigger] s@[m]) as u32) >= 0x80,
        },
{
    let mut v: Vec<u8> = Vec::new();
    let mut j = from;
    proof {
        assert(v@ =~= s@.subrange(from as int, from as int).map_values(|c: char| c as u8));
    }
    while j < to
        invariant
            from <= j <= to <= s@.len(),
            v@ == s@.subrange(from as int, j as int).map_values(|c: char| c as u8),
            forall|m: int| from <= m < j ==> ((#[trigger] s@[m]) as u32) < 0x80,
        decreases to - j,
    {
        let c = s.get_char(j);
        if c as u32 >= 0x80 {
            return None;
        }
        v.push(c as u8);
        j = j + 1;
        proof {
            assert(v@ =~= s@.subrange(from as int, j as int).map_values(|c: char| c as u8));
        }
    }
    Some(v)
}

impl Name {
    /// Parses a dotted name from text. A trailing dot makes the name
    /// absolute; a relative name takes the origin's labels after its own.
    /// Fails on an empty, overlong or non-ASCII label.
    pub fn parse(s: &str, origin: Option<&Name>) -> (r: Result<Name, ProtoError>)
        ensures
            match spec_parse_name(s@, spec_origin_labels(origin)) {
                Ok(labels) => r matches Ok(n) && n@ == labels,
                Err(e) => r matches Err(f) && f == e,
            },
            spec_origin_wf(origin) ==> (r matches Ok(n) ==> n.wf()),
    {
        let n_chars = s.unicode_len();
        let absolute = n_chars > 0 && s.get_char(n_chars - 1) == '.';
        let body_len = if absolute {
            n_chars - 1
        } else {
            n_chars
        };
        let ghost body = s@.take(body_len as int);
        proof {
            if absolute {
                assert(body =~= s@.drop_last());
            } else {
                assert(body =~= s@);
            }
        }
        let mut labels: Vec<Vec<u8>> = Vec::new();
        let mut pos: usize = 0;
        proof {
            assert(body.skip(0) =~= body);
            assert(labels.deep_view() =~~= Seq::<Seq<u8>>::empty());
            let res = spec_read_text_labels(body);
            if res is Ok {
                assert(labels.deep_view() + res->Ok_0 =~~= res->Ok_0);
            }
        }
        while pos < body_len
            invariant
                pos <= body_len <= s@.len(),
                body == s@.take(body_len as int),
                body_len == (if s@.len() > 0 && s@.last() == '.' {
                    s@.len() - 1
                } else {
                    s@.len() as int
                }),
                absolute == (s@.len() > 0 && s@.last() == '.'),
                wf_name(labels.deep_view()),
                spec_read_text_labels(body) == match spec_read_text_labels(
                    body.skip(pos as int),
                ) {
                    Ok(ls) => Ok::<_, ProtoError>(labels.deep_view() + ls),
                    Err(e) => Err(e),
                },
            decreases body_len - pos,
        {
            let k = find_char(s, pos, '.');
            let k = if k > body_len {
                body_len
            } else {
                k
            };
            proof {
                assert forall|m: int| 0 <= m < k - pos implies body.skip(pos as int)[m]
                    != '.' by {
                    assert(body.skip(pos as int)[m] == s@[pos + m]);
                }
                if k - pos < body.skip(pos as int).len() {
                    assert(body.skip(pos as int)[k - pos] == s@[k as int]);
                }
                lemma_find_at(body.skip(pos as int), '.', k - pos);
            }
            if k == pos || k - pos > 63 {
                proof {
                    if absolute {
                        assert(body =~= s@.drop_last());
                    } else {
                        assert(body =~= s@);
                    }
                }
                return Err(ProtoError::NameError);
            }
            let label = match read_ascii_label(s, pos, k) {
                Some(v) => v,
                None => {
                    proof {
                        let part = body.skip(pos as int).take(k - pos);
                        let m = choose|m: int|
                            pos <= m < k && ((s@[m] as u32) >= 0x80);
                        assert(part[m - pos] == s@[m]);
                        assert(!wf_text_label(part));
                        if absolute {
                            assert(body =~= s@.drop_last());
                        } else {
                            assert(body =~= s@);
                        }
                    }
                    return Err(ProtoError::NameError);
                },
            };
            let ghost part = body.skip(pos as int).take(k - pos);
            let ghost lbl = part.map_values(|c: char| c as u8);
            proof {
                assert forall|m: int| 0 <= m < part.len() implies #[trigger] part[m] == s@[pos + m]
                    && ((part[m] as u32) < 0x80) by {
                    assert(part[m] == s@[pos + m]);
                }
                assert(wf_text_label(part));
                assert(label@ =~= lbl);
                assert(wf_label(lbl)) by {
                    assert forall|m: int| 0 <= m < lbl.len() implies (#[trigger] lbl[m]) < 0x80
                        && lbl[m] != 0x2e by {
                        let c = part[m];
                        assert(lbl[m] == c as u8);
                        assert((c as u32) < 0x80);
                        lemma_char_u8_u32(c);
                        assert(c != '.');
                        if c as u8 == 0x2e {
                            assert(c as u32 == 0x2e);
                            vstd::utf8::char_u32_cast(c, c as u32);
                            vstd::utf8::char_u32_cast('.', 0x2e);
                        }
                    }
                }
            }
            if k < body_len && k + 1 == body_len {
                proof {
                    if absolute {
                        assert(body =~= s@.drop_last());
                    } else {
                        assert(body =~= s@);
                    }
                }
                return Err(ProtoError::NameError);
            }
            let ghost p0 = pos as int;
            let ghost old_deep = labels.deep_view();
            labels.push(label);
            proof {
                assert(labels.deep_view() =~~= old_deep.push(lbl));
            }
            if k == body_len {
                pos = body_len;
                proof {
                    assert(spec_read_text_labels(body.skip(p0)) == Ok::<_, ProtoError>(
                        seq![lbl],
                    ));
                    assert(body.skip(pos as int) =~= Seq::<char>::empty());
                    assert(old_deep.push(lbl) + Seq::<Seq<u8>>::empty() =~~= old_deep + seq![lbl]);
                }
            } else {
                pos = k + 1;
                proof {
                    assert(body.skip(p0).skip(k - p0 + 1) =~= body.skip(pos as int));
                    let res = spec_read_text_labels(body.skip(pos as int));
                    if res is Ok {
                        let ls = res->Ok_0;
                        assert(old_deep.push(lbl) + ls =~~= old_deep + (seq![lbl] + ls));
                    }
                }
            }
        }
        proof {
            assert(body.skip(pos as int) =~= Seq::<char>::empty());
            assert(labels.deep_view() + Seq::<Seq<u8>>::empty() =~~= labels.deep_view());
        }
        if !absolute {
            match origin {
                Some(o) => {
                    let ghost base = labels.deep_view();
                    let mut i: usize = 0;
                    while i < o.labels.len()
                        invariant
                            i <= o.labels@.len(),
                            labels.deep_view() =~~= base + o@.take(i as int),
                        decreases o.labels@.len() - i,
                    {
                        let ghost old_deep = labels.deep_view();
                        labels.push(vstd::slice::slice_to_vec(o.labels[i].as_slice()));
                        i = i + 1;
                        proof {
                            assert(labels.deep_view() =~~= old_deep.push(o.labels@[i - 1]@));
                            assert(o@[i - 1] =~~= o.labels@[i - 1]@);
                            assert(labels.deep_view() =~~= base + o@.take(i as int));
                        }
                    }
                    proof {
                        assert(o@.take(o@.len() as int) =~~= o@);
                        assert(labels.deep_view() =~~= base + spec_origin_labels(origin));
                        if spec_origin_wf(origin) {
                            assert forall|m: int| 0 <= m < labels.deep_view().len() implies
                                wf_label(#[trigger] labels.deep_view()[m]) by {
                                if m >= base.len() {
                                    assert(labels.deep_view()[m] == o@[m - base.len()]);
                                }
                            }
                        }
                    }
                },
                None => {
                    proof {
                        assert(labels.deep_view() + spec_origin_labels(origin)
                            =~~= labels.deep_view());
                    }
                },
            }
        }
        Ok(Name { labels })
    }

    /// Parses an absolute or origin-free dotted name from text.
    pub fn from_str(s: &str) -> (r: Result<Name, ProtoError>)
        ensures
            match spec_parse_name(s@, Seq::empty()) {
                Ok(labels) => r matches Ok(n) && n@ == labels && n.wf(),
                Err(e) => r matches Err(f) && f == e,
            },
    {
        Name::parse(s, None)
    }

    /// The name's dotted text: its labels separated and closed by dots; the
    /// root is the lone dot.
    pub fn display(&self) -> (r: String)
        requires
            self.wf(),
        ensures
            r@ == spec_name_text(self@),
    {
        let mut bytes: Vec<u8> = Vec::new();
        if self.labels.len() == 0 {
            bytes.push(46);
            proof {
                assert(self@ =~~= Seq::<Seq<u8>>::empty());
                assert(bytes@ =~= spec_name_text_bytes(self@));
            }
        } else {
            let mut i: usize = 0;
            while i < self.labels.len()
                invariant
                    i <= self.labels@.len(),
                    self.wf(),
                    i > 0 ==> bytes@ == spec_labels_text_bytes(self@.take(i as int)).drop_last(),
                    i == 0 ==> bytes@ == Seq::<u8>::empty(),
                    forall|m: int| 0 <= m < bytes@.len() ==> (#[trigger] bytes@[m]) < 0x80,
                decreases self.labels@.len() - i,
            {
                let label = &self.labels[i];
                proof {
                    assert(self@[i as int] == label@);
                    assert(wf_label(label@));
                }
                if i > 0 {
                    bytes.push(46);
                }
                let mut j: usize = 0;
                let ghost base = bytes@;
                while j < label.len()
                    invariant
                        j <= label@.len(),
                        wf_label(label@),
                        bytes@ == base + label@.take(j as int),
                        forall|m: int| 0 <= m < base.len() ==> (#[trigger] base[m]) < 0x80,
                    decreases label@.len() - j,
                {
                    bytes.push(label[j]);
                    j = j + 1;
                    proof {
                        assert(bytes@ =~= base + label@.take(j as int));
                    }
                }
                i = i + 1;
                proof {
                    assert(label@.take(label@.len() as int) =~= label@);
                    lemma_labels_text_bytes_snoc(self@.take(i - 1), label@);
                    assert(self@.take(i as int) =~~= self@.take(i - 1).push(label@));
                    if i > 1 {
                        assert(self@.take(i - 1).len() > 0);
                        lemma_labels_text_bytes_shape(self@.take(i - 1));
                        assert(spec_labels_text_bytes(self@.take(i - 1)).drop_last() + seq![46u8]
                            =~= spec_labels_text_bytes(self@.take(i - 1)));
                    } else {
                        assert(self@.take(0) =~~= Seq::<Seq<u8>>::empty());
                        assert(spec_labels_text_bytes(Seq::<Seq<u8>>::empty())
                            == Seq::<u8>::empty());
                    }
                    assert(bytes@ =~= spec_labels_text_bytes(self@.take(i as int)).drop_last());
                    assert forall|m: int| 0 <= m < bytes@.len() implies (#[trigger] bytes@[m])
                        < 0x80 by {
                        if m >= base.len() {
                            assert(bytes@[m] == label@[m - base.len()]);
                        }
                    }
                }
            }
            bytes.push(46);
            proof {
                assert(self@.take(self@.len() as int) =~~= self@);
                lemma_labels_text_bytes_shape(self@);
                assert(bytes@ =~= spec_labels_text_bytes(self@).drop_last() + seq![46u8]);
                assert(bytes@ =~= spec_name_text_bytes(self@));
            }
        }
        ascii_bytes_to_string(bytes)
    }
}

/// Parsing a name's own dotted text yields the name back, whatever the
/// origin: the closing dot makes it absolute.
pub proof fn lemma_name_text_round_trip(labels: Seq<Seq<u8>>, origin: Seq<Seq<u8>>)
    requires
        wf_name(labels),
    ensures
        spec_parse_name(spec_name_text(labels), origin) == Ok::<_, ProtoError>(labels),
{
    let text = spec_name_text(labels);
    if labels.len() == 0 {
        assert(text =~= seq!['.']);
        assert(text.last() == '.') by {
            assert(text[0] == (46u8) as char);
            vstd::utf8::char_u32_cast('.', 46);
        }
        assert(text.drop_last() =~= Seq::<char>::empty());
        assert(labels =~~= Seq::<Seq<u8>>::empty());
    } else {
        let bytes = spec_labels_text_bytes(labels);
        lemma_labels_text_bytes_shape(labels);
        assert(text.last() == '.') by {
            assert(text[text.len() - 1] == (bytes[bytes.len() - 1]) as char);
            assert(bytes.last() == 46u8);
            vstd::utf8::char_u32_cast('.', 46);
        }
        assert(text.len() > 0);
        assert(text.drop_last() =~= label_chars(bytes.drop_last()));
        lemma_read_back_text_labels(labels);
    }
}

/// Reading dotted labels out of a nonempty label list's open text yields
/// the list.
proof fn lemma_read_back_text_labels(labels: Seq<Seq<u8>>)
    requires
        wf_name(labels),
        labels.len() > 0,
    ensures
        spec_read_text_labels(label_chars(spec_labels_text_bytes(labels).drop_last())) == Ok::<
            _,
            ProtoError,
        >(labels),
    decreases labels.len(),
{
    let label = labels[0];
    assert(wf_label(label));
    let s = label_chars(spec_labels_text_bytes(labels).drop_last());
    let n = label.len() as int;
    if labels.len() == 1 {
        assert(labels.drop_first() =~~= Seq::<Seq<u8>>::empty());
        assert(spec_labels_text_bytes(Seq::<Seq<u8>>::empty()) == Seq::<u8>::empty());
        assert(spec_labels_text_bytes(labels) =~= label + seq![46u8]);
        assert(s =~= label_chars(label));
        assert(s.len() == n);
        lemma_chars_of_wf_label(label);
        lemma_find_at(s, '.', n);
        assert(s.take(n) =~= s);
        assert(wf_text_label(s.take(n)));
        assert(s.take(n).map_values(|c: char| c as u8) =~= label);
        assert(seq![label] =~~= labels);
    } else {
        let rest = labels.drop_first();
        assert(rest.len() > 0);
        assert(wf_name(rest));
        let tail = spec_labels_text_bytes(rest);
        lemma_labels_text_bytes_shape(rest);
        assert(wf_label(rest[0]));
        assert(tail.len() >= 2);
        assert(spec_labels_text_bytes(labels) =~= label + seq![46u8] + tail);
        assert(s =~= label_chars(label) + seq!['.'] + label_chars(tail.drop_last())) by {
            assert(spec_labels_text_bytes(labels).drop_last() =~= label + seq![46u8]
                + tail.drop_last());
            vstd::utf8::char_u32_cast('.', 46);
            assert((46u8) as char == '.');
            assert(s =~= label_chars(label) + seq!['.'] + label_chars(tail.drop_last()));
        }
        lemma_chars_of_wf_label(label);
        assert forall|m: int| 0 <= m < n implies s[m] != '.' by {
            assert(s[m] == label_chars(label)[m]);
        }
        assert(s[n] == '.');
        lemma_find_at(s, '.', n);
        assert(s.take(n) =~= label_chars(label));
        assert(wf_text_label(s.take(n)));
        assert(s.take(n).map_values(|c: char| c as u8) =~= label);
        assert(s.len() == n + 1 + tail.len() - 1);
        assert(n + 1 < s.len());
        assert(s.skip(n + 1) =~= label_chars(tail.drop_last()));
        lemma_read_back_text_labels(rest);
        assert(seq![label] + rest =~~= labels);
    }
}

/// The characters of an acceptable label are ASCII, are not dots, and map
/// back to the label's bytes.
proof fn lemma_chars_of_wf_label(label: Seq<u8>)
    requires
        wf_label(label),
    ensures
        wf_text_label(label_chars(label)),
        label_chars(label).map_values(|c: char| c as u8) =~= label,
        forall|m: int| 0 <= m < label.len() ==> #[trigger] label_chars(label)[m] != '.',
{
    let chars = label_chars(label);
    assert forall|m: int| 0 <= m < chars.len() implies ((#[trigger] chars[m]) as u32) < 0x80
        && chars[m] != '.' by {
        assert(chars[m] == (label[m]) as char);
        assert((chars[m] as u32) == label[m]);
        vstd::utf8::char_u32_cast('.', 46);
        if chars[m] == '.' {
            assert(chars[m] as u32 == 46);
        }
    }
    assert(chars.map_values(|c: char| c as u8) =~= label);
}

/// Closing the open wire form with a zero byte gives the full wire form.
proof fn lemma_labels_prefix_terminated(labels: Seq<Seq<u8>>)
    ensures
        spec_labels_prefix_bytes(labels) + seq![0u8] == spec_name_to_bytes(labels),
    decreases labels.len(),
{
    if labels.len() == 0 {
        assert(spec_labels_prefix_bytes(labels) + seq![0u8] =~= seq![0u8]);
    } else {
        lemma_labels_prefix_terminated(labels.drop_first());
        assert(spec_labels_prefix_bytes(labels) + seq![0u8] =~= spec_name_to_bytes(labels));
    }
}

} // verus!

